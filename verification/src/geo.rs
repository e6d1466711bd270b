//! Coordinates, street segments, delivery requests and navigation commands.
//!
//! All quantities are whole numbers. A distance is a count of distance units
//! (`UNITS_PER_MILE` of them make a mile); an angle is a count of thousandths
//! of a degree. Whoever builds a segment measures it once and records its
//! length and bearing in it.
use crate::text::{miles, miles_text};
use vstd::prelude::*;
use vstd::std_specs::cmp::PartialEqSpecImpl;
use vstd::string::StringExecFns;

verus! {

/// Distance units in one mile.
pub const UNITS_PER_MILE: u64 = 1_000_000;

/// Angle units in one degree.
pub const DEGREE: i64 = 1_000;

/// Angle units in half a turn.
pub const HALF_TURN: i64 = 180_000;

/// Angle units in a full turn.
pub const FULL_TURN: i64 = 360_000;

/// Outcome kinds of a delivery run.
#[derive(Clone, Copy, Debug, PartialEq, Eq, Structural)]
pub enum DeliveryResult {
    DeliverySuccess,
    NoRoute,
    BadCoord,
}

/// What a coordinate is: the two texts it was written with.
pub struct GeoCoordView {
    pub lat: Seq<char>,
    pub lon: Seq<char>,
}

/// The code of a text that continues the code `code`: every character in
/// turn multiplies the code by 31 and adds its own number, and of the result
/// the lowest 64 bits are kept.
pub open spec fn text_code(code: u64, text: Seq<char>) -> u64
    decreases text.len(),
{
    if text.len() == 0 {
        code
    } else {
        ((text_code(code, text.drop_last()) * 31 + text.last() as u32)
            % 0x1_0000_0000_0000_0000) as u64
    }
}

/// The code of a coordinate: equal coordinates have equal codes, and
/// different coordinates mostly have different ones.
pub open spec fn coord_code(c: GeoCoordView) -> u64 {
    text_code(text_code(7, c.lat), c.lon)
}

/// The code of `text` that continues the code `code`.
fn code_text(code: u64, text: &str) -> (r: u64)
    ensures
        r == text_code(code, text@),
{
    let mut h: u64 = code;
    for c in it: text.chars()
        invariant
            it.seq() == text@,
            h == text_code(code, it.seq().take(it.index() as int)),
    {
        let ghost seen = it.seq().take(it.index() as int);
        let ghost more = it.seq().take(it.index() + 1);
        assert(more.drop_last() =~= seen);
        let wide: u128 = (h as u128) * 31 + (c as u32) as u128;
        h = (wide % 0x1_0000_0000_0000_0000) as u64;
    }
    assert(text@.take(text@.len() as int) =~= text@);
    h
}

/// A point on the map. Two coordinates are the same point exactly when
/// their latitude texts and their longitude texts are the same.
#[derive(Debug, Eq, Hash, PartialOrd, Ord)]
pub struct GeoCoord {
    lat_text: String,
    lon_text: String,
}

impl View for GeoCoord {
    type V = GeoCoordView;

    closed spec fn view(&self) -> GeoCoordView {
        GeoCoordView { lat: self.lat_text@, lon: self.lon_text@ }
    }
}

impl Clone for GeoCoord {
    fn clone(&self) -> (r: Self)
        ensures
            r@ == self@,
    {
        GeoCoord { lat_text: self.lat_text.clone(), lon_text: self.lon_text.clone() }
    }
}

impl PartialEq for GeoCoord {
    fn eq(&self, other: &Self) -> (r: bool) {
        self.lat_text == other.lat_text && self.lon_text == other.lon_text
    }
}

impl PartialEqSpecImpl for GeoCoord {
    open spec fn obeys_eq_spec() -> bool {
        true
    }

    open spec fn eq_spec(&self, other: &Self) -> bool {
        self@ == other@
    }
}

impl GeoCoord {
    /// The coordinate written `0`, `0`.
    pub fn new() -> (r: GeoCoord)
        ensures
            r@.lat == "0"@,
            r@.lon == "0"@,
    {
        GeoCoord { lat_text: "0".to_string(), lon_text: "0".to_string() }
    }

    /// The coordinate written `lat`, `lon`. The texts are kept as given.
    pub fn from(lat: &str, lon: &str) -> (r: GeoCoord)
        ensures
            r@.lat == lat@,
            r@.lon == lon@,
    {
        GeoCoord { lat_text: lat.to_string(), lon_text: lon.to_string() }
    }

    /// The code of this coordinate.
    pub fn code(&self) -> (r: u64)
        ensures
            r == coord_code(self@),
    {
        code_text(code_text(7, self.lat_text.as_str()), self.lon_text.as_str())
    }

    /// The latitude as it was written.
    pub fn lat_text(&self) -> (r: &str)
        ensures
            r@ == self@.lat,
    {
        self.lat_text.as_str()
    }

    /// The longitude as it was written.
    pub fn lon_text(&self) -> (r: &str)
        ensures
            r@ == self@.lon,
    {
        self.lon_text.as_str()
    }
}

/// What a segment is.
pub struct StreetSegmentView {
    pub start: GeoCoordView,
    pub end: GeoCoordView,
    pub name: Seq<char>,
    pub length: u64,
    pub bearing: i32,
}

/// The bearing of the opposite direction of travel.
pub open spec fn opposite_bearing(bearing: i32) -> int {
    if bearing > 0 {
        bearing - HALF_TURN
    } else {
        bearing + HALF_TURN
    }
}

/// Whether a bearing lies within half a turn of due east, either way.
pub open spec fn bearing_in_range(bearing: i32) -> bool {
    -HALF_TURN <= bearing <= HALF_TURN
}

impl StreetSegmentView {
    /// The same stretch of street travelled the other way.
    pub open spec fn reversed(self) -> StreetSegmentView {
        StreetSegmentView {
            start: self.end,
            end: self.start,
            name: self.name,
            length: self.length,
            bearing: opposite_bearing(self.bearing) as i32,
        }
    }
}

/// One direction of travel along a stretch of street: from `start` to
/// `end`, `length` distance units long, heading `bearing` angle units
/// counter-clockwise from due east.
#[derive(Debug)]
pub struct StreetSegment {
    pub start: GeoCoord,
    pub end: GeoCoord,
    pub name: String,
    pub length: u64,
    pub bearing: i32,
}

impl View for StreetSegment {
    type V = StreetSegmentView;

    open spec fn view(&self) -> StreetSegmentView {
        StreetSegmentView {
            start: self.start@,
            end: self.end@,
            name: self.name@,
            length: self.length,
            bearing: self.bearing,
        }
    }
}

impl Clone for StreetSegment {
    fn clone(&self) -> (r: Self)
        ensures
            r@ == self@,
    {
        StreetSegment {
            start: self.start.clone(),
            end: self.end.clone(),
            name: self.name.clone(),
            length: self.length,
            bearing: self.bearing,
        }
    }
}

impl PartialEq for StreetSegment {
    fn eq(&self, other: &Self) -> (r: bool) {
        self.start == other.start && self.end == other.end
    }
}

impl Eq for StreetSegment {

}

impl PartialEqSpecImpl for StreetSegment {
    open spec fn obeys_eq_spec() -> bool {
        true
    }

    open spec fn eq_spec(&self, other: &Self) -> bool {
        self@.start == other@.start && self@.end == other@.end
    }
}

impl StreetSegment {
    /// A nameless segment of no length from the default coordinate to itself.
    pub fn new() -> (r: StreetSegment)
        ensures
            r@.start.lat == "0"@,
            r@.start.lon == "0"@,
            r@.end == r@.start,
            r@.name == Seq::<char>::empty(),
            r@.length == 0,
            r@.bearing == 0,
    {
        StreetSegment {
            start: GeoCoord::new(),
            end: GeoCoord::new(),
            name: String::new(),
            length: 0,
            bearing: 0,
        }
    }

    /// The segment from `s` to `e` along `street_name`, as measured.
    pub fn from(s: &GeoCoord, e: &GeoCoord, street_name: &str, length: u64, bearing: i32) -> (r:
        StreetSegment)
        ensures
            r@ == (StreetSegmentView {
                start: s@,
                end: e@,
                name: street_name@,
                length: length,
                bearing: bearing,
            }),
    {
        StreetSegment {
            start: s.clone(),
            end: e.clone(),
            name: street_name.to_string(),
            length,
            bearing,
        }
    }

    /// The distance from start to end.
    pub fn length(&self) -> (r: u64)
        ensures
            r == self@.length,
    {
        self.length
    }

    /// The same stretch travelled the other way: same name and length, the
    /// bearing turned by half a turn.
    pub fn reverse_segment(&self) -> (r: StreetSegment)
        ensures
            r@ == self@.reversed(),
            bearing_in_range(self@.bearing) ==> bearing_in_range(r@.bearing),
    {
        let turned: i32 = if self.bearing > 0 {
            self.bearing - 180_000
        } else {
            self.bearing + 180_000
        };
        StreetSegment {
            start: self.end.clone(),
            end: self.start.clone(),
            name: self.name.clone(),
            length: self.length,
            bearing: turned,
        }
    }
}

/// What a delivery request is.
pub struct DeliveryRequestView {
    pub item: Seq<char>,
    pub location: GeoCoordView,
}

/// An item and the place it goes to.
#[derive(Debug)]
pub struct DeliveryRequest {
    pub item: String,
    pub location: GeoCoord,
}

impl View for DeliveryRequest {
    type V = DeliveryRequestView;

    open spec fn view(&self) -> DeliveryRequestView {
        DeliveryRequestView { item: self.item@, location: self.location@ }
    }
}

impl Clone for DeliveryRequest {
    fn clone(&self) -> (r: Self)
        ensures
            r@ == self@,
    {
        DeliveryRequest { item: self.item.clone(), location: self.location.clone() }
    }
}

impl DeliveryRequest {
    /// The request to deliver the item `it` at `loc`.
    pub fn from(it: &str, loc: &GeoCoord) -> (r: DeliveryRequest)
        ensures
            r@.item == it@,
            r@.location == loc@,
    {
        DeliveryRequest { item: it.to_string(), location: loc.clone() }
    }
}

/// The kind of a navigation command.
#[derive(Clone, Copy, Debug, PartialEq, Eq, Structural)]
pub enum CommandType {
    Invalid,
    Proceed,
    Turn,
    Deliver,
}

/// What a command is. Which fields matter depends on the kind: a proceed
/// has a direction, a street and a distance; a turn has a direction and a
/// street; a delivery has an item.
pub struct DeliveryCommandView {
    pub kind: CommandType,
    pub direction: Seq<char>,
    pub street_name: Seq<char>,
    pub item: Seq<char>,
    pub distance: u64,
}

impl DeliveryCommandView {
    /// The command to proceed in `direction` along `street_name` for
    /// `distance`.
    pub open spec fn proceed(direction: Seq<char>, street_name: Seq<char>, distance: u64) -> Self {
        DeliveryCommandView {
            kind: CommandType::Proceed,
            direction,
            street_name,
            item: Seq::empty(),
            distance,
        }
    }

    /// The command to turn to the side `direction` onto `street_name`.
    pub open spec fn turn(direction: Seq<char>, street_name: Seq<char>) -> Self {
        DeliveryCommandView {
            kind: CommandType::Turn,
            direction,
            street_name,
            item: Seq::empty(),
            distance: 0,
        }
    }

    /// The command to deliver `item`.
    pub open spec fn deliver(item: Seq<char>) -> Self {
        DeliveryCommandView {
            kind: CommandType::Deliver,
            direction: Seq::empty(),
            street_name: Seq::empty(),
            item,
            distance: 0,
        }
    }

    /// The command as the driver reads it.
    pub open spec fn described(self) -> Seq<char> {
        match self.kind {
            CommandType::Invalid => "<invalid>"@,
            CommandType::Proceed => "Proceed "@ + self.direction + " on "@ + self.street_name
                + " for "@ + miles_text(self.distance as int) + " miles"@,
            CommandType::Turn => "Turn "@ + self.direction + " on "@ + self.street_name,
            CommandType::Deliver => "Deliver "@ + self.item,
        }
    }
}

/// One instruction to the driver.
#[derive(Debug)]
pub struct DeliveryCommand {
    command: CommandType,
    direction: String,
    street_name: String,
    item: String,
    distance: u64,
}

impl View for DeliveryCommand {
    type V = DeliveryCommandView;

    closed spec fn view(&self) -> DeliveryCommandView {
        DeliveryCommandView {
            kind: self.command,
            direction: self.direction@,
            street_name: self.street_name@,
            item: self.item@,
            distance: self.distance,
        }
    }
}

impl Clone for DeliveryCommand {
    fn clone(&self) -> (r: Self)
        ensures
            r@ == self@,
    {
        DeliveryCommand {
            command: self.command,
            direction: self.direction.clone(),
            street_name: self.street_name.clone(),
            item: self.item.clone(),
            distance: self.distance,
        }
    }
}

impl Default for DeliveryCommand {
    fn default() -> (r: Self)
        ensures
            r@ == (DeliveryCommandView {
                kind: CommandType::Invalid,
                direction: Seq::empty(),
                street_name: Seq::empty(),
                item: Seq::empty(),
                distance: 0,
            }),
    {
        DeliveryCommand {
            command: CommandType::Invalid,
            direction: String::new(),
            street_name: String::new(),
            item: String::new(),
            distance: 0,
        }
    }
}

impl DeliveryCommand {
    pub fn new_proceed(direction: String, street_name: String, distance: u64) -> (r: Self)
        ensures
            r@ == DeliveryCommandView::proceed(direction@, street_name@, distance),
    {
        DeliveryCommand {
            command: CommandType::Proceed,
            direction,
            street_name,
            item: String::new(),
            distance,
        }
    }

    /// Turns this command into a proceed; the item is left as it was.
    pub fn init_proceed(&mut self, direction: String, street_name: String, distance: u64)
        ensures
            final(self)@ == (DeliveryCommandView {
                kind: CommandType::Proceed,
                direction: direction@,
                street_name: street_name@,
                item: old(self)@.item,
                distance: distance,
            }),
    {
        self.command = CommandType::Proceed;
        self.direction = direction;
        self.street_name = street_name;
        self.distance = distance;
    }

    pub fn new_turn(direction: String, street_name: String) -> (r: Self)
        ensures
            r@ == DeliveryCommandView::turn(direction@, street_name@),
    {
        DeliveryCommand {
            command: CommandType::Turn,
            direction,
            street_name,
            item: String::new(),
            distance: 0,
        }
    }

    /// Turns this command into a turn; item and distance are left as they were.
    pub fn init_turn(&mut self, direction: String, street_name: String)
        ensures
            final(self)@ == (DeliveryCommandView {
                kind: CommandType::Turn,
                direction: direction@,
                street_name: street_name@,
                item: old(self)@.item,
                distance: old(self)@.distance,
            }),
    {
        self.command = CommandType::Turn;
        self.direction = direction;
        self.street_name = street_name;
    }

    pub fn new_deliver(item: String) -> (r: Self)
        ensures
            r@ == DeliveryCommandView::deliver(item@),
    {
        DeliveryCommand {
            command: CommandType::Deliver,
            direction: String::new(),
            street_name: String::new(),
            item,
            distance: 0,
        }
    }

    /// Turns this command into a delivery; direction, street and distance are
    /// left as they were.
    pub fn init_deliver(&mut self, item: String)
        ensures
            final(self)@ == (DeliveryCommandView {
                kind: CommandType::Deliver,
                direction: old(self)@.direction,
                street_name: old(self)@.street_name,
                item: item@,
                distance: old(self)@.distance,
            }),
    {
        self.command = CommandType::Deliver;
        self.item = item;
    }

    /// Lengthens the command by `more_distance`.
    pub fn increase_distance(&mut self, more_distance: u64)
        requires
            old(self)@.distance + more_distance <= u64::MAX,
        ensures
            final(self)@ == (DeliveryCommandView {
                distance: (old(self)@.distance + more_distance) as u64,
                ..old(self)@
            }),
    {
        self.distance = self.distance + more_distance;
    }

    /// The command as the driver reads it.
    pub fn describe(&self) -> (r: String)
        ensures
            r@ == self@.described(),
    {
        match self.command {
            CommandType::Invalid => "<invalid>".to_string(),
            CommandType::Proceed => String::from_str("Proceed ").concat(
                self.direction.as_str(),
            ).concat(" on ").concat(self.street_name.as_str()).concat(" for ").concat(
                miles(self.distance as u128).as_str(),
            ).concat(" miles"),
            CommandType::Turn => String::from_str("Turn ").concat(self.direction.as_str()).concat(
                " on ",
            ).concat(self.street_name.as_str()),
            CommandType::Deliver => String::from_str("Deliver ").concat(self.item.as_str()),
        }
    }

    pub fn street_name(&self) -> (r: &str)
        ensures
            r@ == self@.street_name,
    {
        self.street_name.as_str()
    }

    pub fn kind(&self) -> (r: CommandType)
        ensures
            r == self@.kind,
    {
        self.command
    }

    pub fn direction(&self) -> (r: &str)
        ensures
            r@ == self@.direction,
    {
        self.direction.as_str()
    }

    pub fn item(&self) -> (r: &str)
        ensures
            r@ == self@.item,
    {
        self.item.as_str()
    }

    pub fn distance(&self) -> (r: u64)
        ensures
            r == self@.distance,
    {
        self.distance
    }
}

/// The heading of a segment, counter-clockwise from due east, brought into
/// the range from zero up to a full turn by adding a full turn to a
/// negative bearing.
pub open spec fn heading(line: StreetSegmentView) -> int {
    if line.bearing < 0 {
        line.bearing + FULL_TURN
    } else {
        line.bearing as int
    }
}

/// The change of bearing from `line1` to `line2`, with a full turn added
/// when it is negative and taken off when it exceeds a full turn.
pub open spec fn bearing_change(line1: StreetSegmentView, line2: StreetSegmentView) -> int {
    let delta = line2.bearing - line1.bearing;
    if delta < 0 {
        delta + FULL_TURN
    } else if delta > FULL_TURN {
        delta - FULL_TURN
    } else {
        delta
    }
}

/// The change of bearing from `line1` to `line2`, between zero and a full
/// turn for bearings that are in range.
pub fn angle_between_2_lines(line1: &StreetSegment, line2: &StreetSegment) -> (r: i64)
    ensures
        r == bearing_change(line1@, line2@),
        bearing_in_range(line1@.bearing) && bearing_in_range(line2@.bearing) ==> 0 <= r
            <= FULL_TURN,
{
    let angle1: i64 = line1.bearing as i64;
    let angle2: i64 = line2.bearing as i64;
    let result: i64 = angle2 - angle1;
    if result < 0 {
        result + 360_000
    } else if result > 360_000 {
        result - 360_000
    } else {
        result
    }
}

/// The heading of `line`, from zero up to a full turn for a bearing that is
/// in range.
pub fn angle_of_line(line: &StreetSegment) -> (r: i64)
    ensures
        r == heading(line@),
        bearing_in_range(line@.bearing) ==> 0 <= r < FULL_TURN,
{
    let result: i64 = line.bearing as i64;
    if result < 0 {
        result + 360_000
    } else {
        result
    }
}

} // verus!
