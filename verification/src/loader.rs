//! The text of street-map and delivery files, line by line.
//!
//! A street-map file names a street on one line, gives the number of its
//! segments on the next, and then holds one line for each segment: the
//! latitude and longitude of its start and of its end. A delivery file
//! holds the depot's latitude and longitude on its first line, and one
//! delivery on each line after it: latitude and longitude, a colon, and the
//! item.
use crate::geo::{DeliveryRequest, DeliveryRequestView, GeoCoord, GeoCoordView};
use vstd::prelude::*;

verus! {

/// The characters of a text, in order.
pub fn chars_of(text: &str) -> (r: Vec<char>)
    ensures
        r@ == text@,
{
    let mut chars: Vec<char> = Vec::new();
    for c in it: text.chars()
        invariant
            it.seq() == text@,
            chars@ =~= it.seq().take(it.index() as int),
    {
        chars.push(c);
    }
    chars
}

/// Whether `c` separates words. Space, tab, line feed, form feed and
/// carriage return always do; where `wide` is set, so do the other
/// characters that Unicode counts as white space.
pub open spec fn is_blank(c: char, wide: bool) -> bool {
    let code = c as u32;
    ||| code == 0x20
    ||| code == 0x09
    ||| code == 0x0A
    ||| code == 0x0C
    ||| code == 0x0D
    ||| wide && {
        ||| code == 0x0B
        ||| code == 0x85
        ||| code == 0xA0
        ||| code == 0x1680
        ||| 0x2000 <= code <= 0x200A
        ||| code == 0x2028
        ||| code == 0x2029
        ||| code == 0x202F
        ||| code == 0x205F
        ||| code == 0x3000
    }
}

/// Whether `c` separates words: see `is_blank`.
pub fn blank(c: char, wide: bool) -> (r: bool)
    ensures
        r == is_blank(c, wide),
{
    let code: u32 = c as u32;
    code == 0x20 || code == 0x09 || code == 0x0A || code == 0x0C || code == 0x0D || (wide && (code
        == 0x0B || code == 0x85 || code == 0xA0 || code == 0x1680 || (0x2000 <= code && code
        <= 0x200A) || code == 0x2028 || code == 0x2029 || code == 0x202F || code == 0x205F || code
        == 0x3000))
}

/// The words that end within the first `upto` characters of `line`, and
/// the word that is still open there, empty where none is.
pub open spec fn scanned(line: Seq<char>, wide: bool, upto: int) -> (Seq<Seq<char>>, Seq<char>)
    decreases upto,
{
    if upto <= 0 {
        (Seq::empty(), Seq::empty())
    } else {
        let (done, open) = scanned(line, wide, upto - 1);
        let c = line[upto - 1];
        if !is_blank(c, wide) {
            (done, open.push(c))
        } else if open.len() > 0 {
            (done.push(open), Seq::empty())
        } else {
            (done, open)
        }
    }
}

/// The words of `line`: its longest stretches without a blank, in order.
pub open spec fn words_of(line: Seq<char>, wide: bool) -> Seq<Seq<char>> {
    let (done, open) = scanned(line, wide, line.len() as int);
    if open.len() > 0 {
        done.push(open)
    } else {
        done
    }
}

/// The views of a list of texts, in order.
pub open spec fn text_views(texts: Seq<String>) -> Seq<Seq<char>> {
    Seq::new(texts.len(), |i: int| texts[i]@)
}

/// The words of `line`.
pub fn words(line: &str, wide: bool) -> (r: Vec<String>)
    ensures
        text_views(r@) == words_of(line@, wide),
{
    let chars = chars_of(line);
    let mut found: Vec<String> = Vec::new();
    let mut start: usize = 0;
    let mut inside: bool = false;
    let mut i: usize = 0;
    while i < chars.len()
        invariant
            chars@ == line@,
            i <= chars.len(),
            start <= i,
            inside ==> start < i,
            scanned(line@, wide, i as int) == (
                text_views(found@),
                if inside {
                    line@.subrange(start as int, i as int)
                } else {
                    Seq::<char>::empty()
                },
            ),
        decreases chars.len() - i,
    {
        let c: char = chars[i];
        if !blank(c, wide) {
            if !inside {
                start = i;
                inside = true;
            }
        } else if inside {
            let word = line.substring_char(start, i).to_string();
            found.push(word);
            inside = false;
        }
        i += 1;
    }
    if inside {
        let word = line.substring_char(start, i).to_string();
        found.push(word);
    }
    found
}

/// The number that a text of decimal digits spells.
pub open spec fn decimal(digits: Seq<char>) -> int
    decreases digits.len(),
{
    if digits.len() == 0 {
        0
    } else {
        decimal(digits.drop_last()) * 10 + (digits.last() as u32 - 0x30)
    }
}

/// Whether `c` is one of the digits 0 to 9.
pub open spec fn is_digit(c: char) -> bool {
    0x30 <= c as u32 <= 0x39
}

/// Whether `text` holds nothing but digits.
pub open spec fn all_digits(text: Seq<char>) -> bool {
    forall|i: int| 0 <= i < text.len() ==> is_digit(#[trigger] text[i])
}

/// The digits of a text that may begin with a plus sign.
pub open spec fn unsigned_part(text: Seq<char>) -> Seq<char> {
    if text.len() > 0 && text[0] == '+' {
        text.subrange(1, text.len() as int)
    } else {
        text
    }
}

/// The number of segments that a count line announces: the number it
/// spells, where it is nothing but decimal digits, with or without a plus
/// sign before them, and the number is no more than 2147483647; zero for
/// every other line.
pub open spec fn count_of(text: Seq<char>) -> int {
    let digits = unsigned_part(text);
    if digits.len() > 0 && all_digits(digits) && decimal(digits) <= i32::MAX {
        decimal(digits)
    } else {
        0
    }
}

/// Digits spell no number below zero.
pub proof fn lemma_decimal_nonnegative(digits: Seq<char>)
    requires
        all_digits(digits),
    ensures
        decimal(digits) >= 0,
    decreases digits.len(),
{
    if digits.len() > 0 {
        assert forall|i: int| 0 <= i < digits.drop_last().len() implies is_digit(
            #[trigger] digits.drop_last()[i],
        ) by {}
        lemma_decimal_nonnegative(digits.drop_last());
    }
}

/// The number of segments that the count line `line` announces.
pub fn parse_count(line: &str) -> (r: u32)
    ensures
        r == count_of(line@),
{
    let chars = chars_of(line);
    let n: usize = chars.len();
    let first: usize = if n > 0 && chars[0] == '+' {
        1
    } else {
        0
    };
    if first == n {
        return 0;
    }
    let ghost digits = unsigned_part(line@);
    let limit: u64 = 2_147_483_648;
    let mut value: u64 = 0;
    let mut i: usize = first;
    while i < n
        invariant
            chars@ == line@,
            n == chars.len(),
            first <= i <= n,
            digits == unsigned_part(line@),
            digits.len() == n - first,
            limit == 2_147_483_648,
            all_digits(digits.take(i - first)),
            value <= limit,
            value == if decimal(digits.take(i - first)) < limit {
                decimal(digits.take(i - first))
            } else {
                limit as int
            },
        decreases n - i,
    {
        let code: u32 = chars[i] as u32;
        let ghost seen = digits.take(i - first);
        let ghost more = digits.take(i - first + 1);
        proof {
            assert(digits[i - first] == chars[i as int]);
            assert(more.drop_last() =~= seen);
            lemma_decimal_nonnegative(seen);
        }
        if code < 0x30 || code > 0x39 {
            return 0;
        }
        assert forall|k: int| 0 <= k < more.len() implies is_digit(#[trigger] more[k]) by {}
        let next: u64 = value * 10 + (code - 0x30) as u64;
        value = if next < limit {
            next
        } else {
            limit
        };
        i += 1;
    }
    assert(digits.take(n - first) =~= digits);
    if value < limit {
        value as u32
    } else {
        0
    }
}

/// What one segment line of a street-map file says.
pub struct StreetRecordView {
    pub name: Seq<char>,
    pub start: GeoCoordView,
    pub end: GeoCoordView,
}

/// One segment line of a street-map file, with the name of its street.
#[derive(Debug)]
pub struct StreetRecord {
    pub name: String,
    pub start: GeoCoord,
    pub end: GeoCoord,
}

impl View for StreetRecord {
    type V = StreetRecordView;

    open spec fn view(&self) -> StreetRecordView {
        StreetRecordView { name: self.name@, start: self.start@, end: self.end@ }
    }
}

/// Why a street-map file cannot be read.
#[derive(Debug, Clone, Copy, PartialEq, Eq, Structural)]
pub enum MapDataError {
    /// The file ends behind the name of a street.
    CountMissing,
    /// The file ends before all segments of a street were given.
    SegmentMissing,
    /// A segment line has fewer than four words.
    SegmentIncomplete,
}

/// What the next line of a street-map file is expected to be.
pub enum Awaiting {
    /// The name of a street.
    Name,
    /// The number of segments of the street named.
    Count(Seq<char>),
    /// One of so many segments still to come of the street named.
    Segments(Seq<char>, int),
}

/// The record of a segment line under the street `name`: its first four
/// words are the start's latitude and longitude and the end's; what
/// follows them is ignored. Nothing where the line has fewer words.
pub open spec fn segment_of(name: Seq<char>, line: Seq<char>) -> Option<StreetRecordView> {
    let w = words_of(line, false);
    if w.len() < 4 {
        None
    } else {
        Some(
            StreetRecordView {
                name,
                start: GeoCoordView { lat: w[0], lon: w[1] },
                end: GeoCoordView { lat: w[2], lon: w[3] },
            },
        )
    }
}

/// What is expected after one more line, and the records so far.
pub open spec fn after_line(
    records: Seq<StreetRecordView>,
    awaiting: Awaiting,
    line: Seq<char>,
) -> Result<(Seq<StreetRecordView>, Awaiting), MapDataError> {
    match awaiting {
        Awaiting::Name => Ok((records, Awaiting::Count(line))),
        Awaiting::Count(name) => if count_of(line) == 0 {
            Ok((records, Awaiting::Name))
        } else {
            Ok((records, Awaiting::Segments(name, count_of(line))))
        },
        Awaiting::Segments(name, left) => match segment_of(name, line) {
            None => Err(MapDataError::SegmentIncomplete),
            Some(record) => Ok(
                (
                    records.push(record),
                    if left <= 1 {
                        Awaiting::Name
                    } else {
                        Awaiting::Segments(name, left - 1)
                    },
                ),
            ),
        },
    }
}

/// The records of the first `upto` lines and what is expected next, or the
/// fault of the first line that cannot be read.
pub open spec fn read_upto(lines: Seq<Seq<char>>, upto: int) -> Result<
    (Seq<StreetRecordView>, Awaiting),
    MapDataError,
>
    decreases upto,
{
    if upto <= 0 {
        Ok((Seq::empty(), Awaiting::Name))
    } else {
        match read_upto(lines, upto - 1) {
            Err(fault) => Err(fault),
            Ok((records, awaiting)) => after_line(records, awaiting, lines[upto - 1]),
        }
    }
}

/// The records of a street-map file, one for each segment line, in order;
/// or why the file cannot be read.
pub open spec fn streets_of(lines: Seq<Seq<char>>) -> Result<Seq<StreetRecordView>, MapDataError> {
    match read_upto(lines, lines.len() as int) {
        Err(fault) => Err(fault),
        Ok((records, Awaiting::Name)) => Ok(records),
        Ok((_, Awaiting::Count(_))) => Err(MapDataError::CountMissing),
        Ok((_, Awaiting::Segments(_, _))) => Err(MapDataError::SegmentMissing),
    }
}

/// The views of a list of records, in order.
pub open spec fn record_views(records: Seq<StreetRecord>) -> Seq<StreetRecordView> {
    Seq::new(records.len(), |i: int| records[i]@)
}

/// What the reader of a street-map file expects next.
enum Expecting {
    Name,
    Count(String),
    Segments(String, u32),
}

impl View for Expecting {
    type V = Awaiting;

    closed spec fn view(&self) -> Awaiting {
        match self {
            Expecting::Name => Awaiting::Name,
            Expecting::Count(name) => Awaiting::Count(name@),
            Expecting::Segments(name, left) => Awaiting::Segments(name@, *left as int),
        }
    }
}

/// The record of the segment line `line` under the street `name`.
pub fn read_segment(name: &str, line: &str) -> (r: Option<StreetRecord>)
    ensures
        match r {
            Some(record) => segment_of(name@, line@) == Some(record@),
            None => segment_of(name@, line@).is_none(),
        },
{
    let w = words(line, false);
    if w.len() < 4 {
        return None;
    }
    Some(
        StreetRecord {
            name: name.to_string(),
            start: GeoCoord::from(w[0].as_str(), w[1].as_str()),
            end: GeoCoord::from(w[2].as_str(), w[3].as_str()),
        },
    )
}

/// The records of the street-map file with the lines `lines`.
pub fn read_streets(lines: &Vec<String>) -> (r: Result<Vec<StreetRecord>, MapDataError>)
    ensures
        match r {
            Ok(records) => streets_of(text_views(lines@)) == Ok::<
                Seq<StreetRecordView>,
                MapDataError,
            >(record_views(records@)),
            Err(fault) => streets_of(text_views(lines@)) == Err::<
                Seq<StreetRecordView>,
                MapDataError,
            >(fault),
        },
{
    let ghost texts = text_views(lines@);
    let mut records: Vec<StreetRecord> = Vec::new();
    let mut expecting = Expecting::Name;
    let mut i: usize = 0;
    assert(record_views(records@) =~= Seq::<StreetRecordView>::empty());
    while i < lines.len()
        invariant
            i <= lines.len(),
            texts == text_views(lines@),
            read_upto(texts, i as int) == Ok::<(Seq<StreetRecordView>, Awaiting), MapDataError>(
                (record_views(records@), expecting@),
            ),
        decreases lines.len() - i,
    {
        let line: &str = lines[i].as_str();
        match expecting {
            Expecting::Name => {
                expecting = Expecting::Count(line.to_string());
            },
            Expecting::Count(name) => {
                let count: u32 = parse_count(line);
                if count == 0 {
                    expecting = Expecting::Name;
                } else {
                    expecting = Expecting::Segments(name, count);
                }
            },
            Expecting::Segments(name, left) => {
                match read_segment(name.as_str(), line) {
                    None => {
                        proof {
                            lemma_fault_stays(texts, i + 1, lines.len() as int);
                        }
                        return Err(MapDataError::SegmentIncomplete);
                    },
                    Some(record) => {
                        let ghost before = records@;
                        records.push(record);
                        assert(record_views(records@) =~= record_views(before).push(record@));
                        if left <= 1 {
                            expecting = Expecting::Name;
                        } else {
                            expecting = Expecting::Segments(name, left - 1);
                        }
                    },
                }
            },
        }
        i += 1;
    }
    match expecting {
        Expecting::Name => Ok(records),
        Expecting::Count(_) => Err(MapDataError::CountMissing),
        Expecting::Segments(_, _) => Err(MapDataError::SegmentMissing),
    }
}

/// Once a line cannot be read, no line after it changes the fault.
pub proof fn lemma_fault_stays(lines: Seq<Seq<char>>, at: int, upto: int)
    requires
        0 <= at <= upto,
        read_upto(lines, at).is_err(),
    ensures
        read_upto(lines, upto) == read_upto(lines, at),
    decreases upto - at,
{
    if at < upto {
        lemma_fault_stays(lines, at, upto - 1);
    }
}

/// Why a line of a delivery file holds no delivery.
#[derive(Debug, Clone, Copy, PartialEq, Eq, Structural)]
pub enum DeliveryLineError {
    /// The line has no colon.
    MissingColon,
    /// Nothing stands between the first colon and the next, or the end.
    MissingItem,
    /// What stands before the first colon is not two words.
    BadFormat,
}

/// The place of the first colon of `text` at or behind `from`; the length
/// of `text` where there is none.
pub open spec fn colon_from(text: Seq<char>, from: int) -> int
    decreases text.len() - from,
{
    if from < 0 || from >= text.len() {
        text.len() as int
    } else if text[from] == ':' {
        from
    } else {
        colon_from(text, from + 1)
    }
}

/// The delivery that a line of a delivery file holds: the two words before
/// its first colon are the latitude and the longitude, and what stands
/// between that colon and the next, or the end of the line, is the item.
pub open spec fn delivery_of(line: Seq<char>) -> Result<DeliveryRequestView, DeliveryLineError> {
    let colon = colon_from(line, 0);
    if colon >= line.len() {
        Err(DeliveryLineError::MissingColon)
    } else {
        let item = line.subrange(colon + 1, colon_from(line, colon + 1));
        let w = words_of(line.subrange(0, colon), true);
        if item.len() == 0 {
            Err(DeliveryLineError::MissingItem)
        } else if w.len() != 2 {
            Err(DeliveryLineError::BadFormat)
        } else {
            Ok(DeliveryRequestView { item, location: GeoCoordView { lat: w[0], lon: w[1] } })
        }
    }
}

/// The depot that the first line of a delivery file holds: its first two
/// words are the latitude and the longitude. Nothing where the line has
/// fewer words.
pub open spec fn depot_of(line: Seq<char>) -> Option<GeoCoordView> {
    let w = words_of(line, true);
    if w.len() < 2 {
        None
    } else {
        Some(GeoCoordView { lat: w[0], lon: w[1] })
    }
}

/// The place of the first colon among `chars` at or behind `from`.
fn find_colon(chars: &Vec<char>, from: usize) -> (r: usize)
    requires
        from <= chars.len(),
    ensures
        r == colon_from(chars@, from as int),
        from <= r <= chars.len(),
{
    let mut i: usize = from;
    while i < chars.len() && chars[i] != ':'
        invariant
            from <= i <= chars.len(),
            colon_from(chars@, from as int) == colon_from(chars@, i as int),
        decreases chars.len() - i,
    {
        i += 1;
    }
    i
}

/// The depot that the line `line` holds.
pub fn parse_depot(line: &str) -> (r: Option<GeoCoord>)
    ensures
        match r {
            Some(depot) => depot_of(line@) == Some(depot@),
            None => depot_of(line@).is_none(),
        },
{
    let w = words(line, true);
    if w.len() < 2 {
        return None;
    }
    Some(GeoCoord::from(w[0].as_str(), w[1].as_str()))
}

/// The delivery that the line `line` holds, or why it holds none.
pub fn parse_delivery(line: &str) -> (r: Result<DeliveryRequest, DeliveryLineError>)
    ensures
        match r {
            Ok(request) => delivery_of(line@) == Ok::<DeliveryRequestView, DeliveryLineError>(
                request@,
            ),
            Err(fault) => delivery_of(line@) == Err::<DeliveryRequestView, DeliveryLineError>(
                fault,
            ),
        },
{
    let chars = chars_of(line);
    let colon: usize = find_colon(&chars, 0);
    if colon >= chars.len() {
        return Err(DeliveryLineError::MissingColon);
    }
    let next: usize = find_colon(&chars, colon + 1);
    if next == colon + 1 {
        return Err(DeliveryLineError::MissingItem);
    }
    let w = words(line.substring_char(0, colon), true);
    if w.len() != 2 {
        return Err(DeliveryLineError::BadFormat);
    }
    let location = GeoCoord::from(w[0].as_str(), w[1].as_str());
    Ok(DeliveryRequest::from(line.substring_char(colon + 1, next), &location))
}

/// A line of a delivery file that holds no delivery.
#[derive(Debug, Clone, Copy, PartialEq, Eq, Structural)]
pub struct Rejected {
    /// The place of the line in the file, the first line being line 0.
    pub line: usize,
    pub fault: DeliveryLineError,
}

/// What a delivery file holds.
#[derive(Debug)]
pub struct DeliveryList {
    pub depot: GeoCoord,
    pub requests: Vec<DeliveryRequest>,
    pub rejected: Vec<Rejected>,
}

/// The deliveries of the lines behind the first, up to line `upto`, in
/// order. Lines that hold no delivery are passed over.
pub open spec fn deliveries_upto(lines: Seq<Seq<char>>, upto: int) -> Seq<DeliveryRequestView>
    decreases upto,
{
    if upto <= 1 {
        Seq::empty()
    } else {
        match delivery_of(lines[upto - 1]) {
            Ok(request) => deliveries_upto(lines, upto - 1).push(request),
            Err(_) => deliveries_upto(lines, upto - 1),
        }
    }
}

/// The lines behind the first, up to line `upto`, that hold no delivery,
/// each with the reason, in order.
pub open spec fn rejected_upto(lines: Seq<Seq<char>>, upto: int) -> Seq<Rejected>
    decreases upto,
{
    if upto <= 1 {
        Seq::empty()
    } else {
        match delivery_of(lines[upto - 1]) {
            Ok(_) => rejected_upto(lines, upto - 1),
            Err(fault) => rejected_upto(lines, upto - 1).push(
                Rejected { line: (upto - 1) as usize, fault },
            ),
        }
    }
}

/// The views of a list of requests, in order.
pub open spec fn delivery_views(requests: Seq<DeliveryRequest>) -> Seq<DeliveryRequestView> {
    Seq::new(requests.len(), |i: int| requests[i]@)
}

/// What the delivery file with the lines `lines` holds: the depot of its
/// first line, the deliveries of the lines behind it, and the lines that
/// hold none. Nothing where the first line is missing or holds no depot.
pub fn load_deliveries(lines: &Vec<String>) -> (r: Option<DeliveryList>)
    ensures
        match r {
            Some(list) => {
                &&& lines.len() > 0
                &&& depot_of(lines[0]@) == Some(list.depot@)
                &&& delivery_views(list.requests@) == deliveries_upto(
                    text_views(lines@),
                    lines.len() as int,
                )
                &&& list.rejected@ == rejected_upto(text_views(lines@), lines.len() as int)
            },
            None => lines.len() == 0 || depot_of(lines[0]@).is_none(),
        },
{
    if lines.len() == 0 {
        return None;
    }
    let depot = match parse_depot(lines[0].as_str()) {
        Some(depot) => depot,
        None => {
            return None;
        },
    };
    let ghost texts = text_views(lines@);
    let mut requests: Vec<DeliveryRequest> = Vec::new();
    let mut rejected: Vec<Rejected> = Vec::new();
    let mut i: usize = 1;
    while i < lines.len()
        invariant
            1 <= i <= lines.len(),
            texts == text_views(lines@),
            delivery_views(requests@) == deliveries_upto(texts, i as int),
            rejected@ == rejected_upto(texts, i as int),
        decreases lines.len() - i,
    {
        match parse_delivery(lines[i].as_str()) {
            Ok(request) => {
                requests.push(request);
            },
            Err(fault) => {
                rejected.push(Rejected { line: i, fault });
            },
        }
        i += 1;
    }
    Some(DeliveryList { depot, requests, rejected })
}

} // verus!
