//! The street map: for every coordinate that a street touches, the segments
//! that leave it, in the order in which they were added.
use crate::geo::{coord_code, GeoCoord, GeoCoordView, StreetSegment, StreetSegmentView};
use crate::loader::{
    read_streets, record_views, streets_of, text_views, MapDataError, StreetRecord,
    StreetRecordView,
};
use vstd::prelude::*;

verus! {

/// What a street map is: the segments that leave each coordinate. A
/// coordinate that no street touches is not a key.
pub type StreetMapView = Map<GeoCoordView, Seq<StreetSegmentView>>;

/// The views of a list of segments, in order.
pub open spec fn segment_views(segs: Seq<StreetSegment>) -> Seq<StreetSegmentView> {
    Seq::new(segs.len(), |k: int| segs[k]@)
}

/// The map `m` with segment `s` added behind the segments that leave its
/// start.
pub open spec fn with_segment(m: StreetMapView, s: StreetSegmentView) -> StreetMapView {
    if m.contains_key(s.start) {
        m.insert(s.start, m[s.start].push(s))
    } else {
        m.insert(s.start, seq![s])
    }
}

/// The map `m` with a two-way street added: `s`, and `s` travelled the
/// other way.
pub open spec fn with_street(m: StreetMapView, s: StreetSegmentView) -> StreetMapView {
    with_segment(with_segment(m, s), s.reversed())
}

/// The map `m` with the first `upto` of the streets `segs` added, one after
/// the other.
pub open spec fn with_streets(m: StreetMapView, segs: Seq<StreetSegmentView>, upto: int) -> StreetMapView
    decreases upto,
{
    if upto <= 0 {
        m
    } else {
        with_street(with_streets(m, segs, upto - 1), segs[upto - 1])
    }
}

/// Whether segment `s` is what record `r` says, with a length and a
/// bearing that `measure` gave for its ends.
pub open spec fn measured_as<F: Fn(&GeoCoord, &GeoCoord) -> (u64, i32)>(
    measure: &F,
    r: StreetRecordView,
    s: StreetSegmentView,
) -> bool {
    &&& s.name == r.name
    &&& s.start == r.start
    &&& s.end == r.end
    &&& exists|a: &GeoCoord, b: &GeoCoord|
        a@ == r.start && b@ == r.end && #[trigger] measure.ensures((a, b), (s.length, s.bearing))
}

/// Whether `after` is the map `before` with a street added for every one
/// of `records`, in order, each measured by `measure`.
pub open spec fn loaded<F: Fn(&GeoCoord, &GeoCoord) -> (u64, i32)>(
    before: StreetMapView,
    records: Seq<StreetRecordView>,
    measure: &F,
    after: StreetMapView,
) -> bool {
    exists|segs: Seq<StreetSegmentView>|
        {
            &&& segs.len() == records.len()
            &&& forall|i: int|
                0 <= i < records.len() ==> measured_as(measure, records[i], #[trigger] segs[i])
            &&& after == #[trigger] with_streets(before, segs, segs.len() as int)
        }
}

/// Whether `back` leads from the end of `s` to its start, along the same
/// street and as long.
pub open spec fn returns_along(back: StreetSegmentView, s: StreetSegmentView) -> bool {
    &&& back.start == s.end
    &&& back.end == s.start
    &&& back.name == s.name
    &&& back.length == s.length
}

/// Whether every segment is filed under its start and ends at a key.
pub open spec fn well_keyed(m: StreetMapView) -> bool {
    forall|c: GeoCoordView, k: int|
        m.contains_key(c) && 0 <= k < m[c].len() ==> (#[trigger] m[c][k]).start == c
            && m.contains_key(m[c][k].end)
}

/// Whether the way back along `s` is filed under the end of `s`.
pub open spec fn has_way_back(m: StreetMapView, s: StreetSegmentView) -> bool {
    m.contains_key(s.end) && exists|j: int|
        0 <= j < m[s.end].len() && returns_along(#[trigger] m[s.end][j], s)
}

/// Whether every segment has its way back in the map.
pub open spec fn two_way(m: StreetMapView) -> bool {
    forall|c: GeoCoordView, k: int|
        m.contains_key(c) && 0 <= k < m[c].len() ==> has_way_back(m, #[trigger] m[c][k])
}

/// Where coordinate `c` stands in `coords`.
pub(crate) open spec fn position(coords: Seq<GeoCoord>, c: GeoCoordView) -> int {
    choose|i: int| 0 <= i < coords.len() && coords[i]@ == c
}

pub(crate) open spec fn listed(coords: Seq<GeoCoord>, c: GeoCoordView) -> bool {
    exists|i: int| 0 <= i < coords.len() && coords[i]@ == c
}

pub(crate) open spec fn distinct(coords: Seq<GeoCoord>) -> bool {
    forall|i: int, j: int| 0 <= i < j < coords.len() ==> coords[i]@ != coords[j]@
}

/// The map that a list of coordinates and the segments leaving each stand for.
pub(crate) open spec fn model(coords: Seq<GeoCoord>, streets: Seq<Vec<StreetSegment>>) -> StreetMapView {
    Map::new(
        |c: GeoCoordView| listed(coords, c),
        |c: GeoCoordView| segment_views(streets[position(coords, c)]@),
    )
}

/// Whether the three lists fit together: one list of segments and one of
/// targets per coordinate, every segment leaving the coordinate that it is
/// filed under, every target the index of the segment's end.
pub(crate) open spec fn fitted(
    coords: Seq<GeoCoord>,
    streets: Seq<Vec<StreetSegment>>,
    targets: Seq<Vec<usize>>,
) -> bool {
    &&& streets.len() == coords.len()
    &&& targets.len() == coords.len()
    &&& distinct(coords)
    &&& forall|i: int| 0 <= i < coords.len() ==> (#[trigger] targets[i]).len() == streets[i].len()
    &&& forall|i: int, k: int|
        0 <= i < coords.len() && 0 <= k < streets[i].len() ==> {
            &&& (#[trigger] streets[i][k])@.start == coords[i]@
            &&& targets[i][k] < coords.len()
            &&& coords[targets[i][k] as int]@ == streets[i][k]@.end
        }
}

pub(crate) proof fn lemma_position(coords: Seq<GeoCoord>, i: int)
    requires
        distinct(coords),
        0 <= i < coords.len(),
    ensures
        listed(coords, coords[i]@),
        position(coords, coords[i]@) == i,
{
    let p = position(coords, coords[i]@);
    if p < i {
        assert(coords[p]@ != coords[i]@);
    } else if i < p {
        assert(coords[i]@ != coords[p]@);
    }
}

pub(crate) proof fn lemma_model_at(coords: Seq<GeoCoord>, streets: Seq<Vec<StreetSegment>>, i: int)
    requires
        distinct(coords),
        streets.len() == coords.len(),
        0 <= i < coords.len(),
    ensures
        model(coords, streets).contains_key(coords[i]@),
        model(coords, streets)[coords[i]@] == segment_views(streets[i]@),
{
    lemma_position(coords, i);
}

/// The shelf on which a coordinate is looked for, of `shelves` shelves.
pub(crate) open spec fn shelf_of(c: GeoCoordView, shelves: int) -> int {
    coord_code(c) as int % shelves
}

/// Whether `index` leads to every coordinate: it has at least as many
/// shelves as there are coordinates, every coordinate's place stands on
/// the shelf of the coordinate, and every place on a shelf is a place of
/// `coords`.
pub(crate) open spec fn indexed(coords: Seq<GeoCoord>, index: Seq<Vec<usize>>) -> bool {
    &&& coords.len() <= index.len()
    &&& forall|i: int|
        0 <= i < coords.len() ==> (#[trigger] index[shelf_of(coords[i]@, index.len() as int)])@.contains(
            i as usize,
        )
    &&& forall|b: int, k: int|
        0 <= b < index.len() && 0 <= k < index[b].len() ==> (#[trigger] index[b][k])
            < coords.len()
}

/// A street map. Streets are added to it one by one, each for both ways,
/// and it answers which segments leave a coordinate.
pub struct StreetMap {
    pub(crate) coords: Vec<GeoCoord>,
    pub(crate) streets: Vec<Vec<StreetSegment>>,
    pub(crate) targets: Vec<Vec<usize>>,
    pub(crate) index: Vec<Vec<usize>>,
}

impl View for StreetMap {
    type V = StreetMapView;

    open(crate) spec fn view(&self) -> StreetMapView {
        model(self.coords@, self.streets@)
    }
}

impl StreetMap {
    /// Whether the map's parts fit together and every street can be
    /// travelled both ways. Every map that this module hands out is valid.
    #[verifier::type_invariant]
    pub open(crate) spec fn valid(&self) -> bool {
        &&& fitted(self.coords@, self.streets@, self.targets@)
        &&& indexed(self.coords@, self.index@)
        &&& two_way(self@)
    }

    /// In a valid map every segment is filed under its start and ends at a
    /// key, and every street can be travelled both ways.
    pub proof fn lemma_valid(&self)
        requires
            self.valid(),
        ensures
            well_keyed(self@),
            two_way(self@),
    {
        lemma_fitted_well_keyed(self.coords@, self.streets@, self.targets@);
    }

    /// The map without streets.
    pub fn new() -> (r: StreetMap)
        ensures
            r@ == Map::<GeoCoordView, Seq<StreetSegmentView>>::empty(),
            r.valid(),
    {
        let r = StreetMap {
            coords: Vec::new(),
            streets: Vec::new(),
            targets: Vec::new(),
            index: Vec::new(),
        };
        assert(r@ =~= Map::<GeoCoordView, Seq<StreetSegmentView>>::empty());
        r
    }

    /// Adds a two-way street: `segment` behind the segments that leave its
    /// start, and the way back behind those that leave its end. Coordinates
    /// that no street touched before become keys.
    pub fn add_street(&mut self, segment: StreetSegment)
        ensures
            final(self)@ == with_street(old(self)@, segment@),
            final(self)@.contains_key(segment@.start),
            final(self)@[segment@.start].contains(segment@),
            final(self)@.contains_key(segment@.end),
            final(self)@[segment@.end].contains(segment@.reversed()),
            forall|c: GeoCoordView, k: int|
                old(self)@.contains_key(c) && 0 <= k < old(self)@[c].len() ==> {
                    &&& final(self)@.contains_key(c)
                    &&& k < final(self)@[c].len()
                    &&& final(self)@[c][k] == #[trigger] old(self)@[c][k]
                },
    {
        proof {
            lemma_street_both_ways(self@, segment@);
            lemma_streets_stay(self@, segment@);
        }
        let mut taken = StreetMap::new();
        core::mem::swap(self, &mut taken);
        *self = taken.linked(segment);
    }

    /// Adds the streets of a street-map file, given by its lines: one
    /// two-way street for every segment line, in order, with the length and
    /// the bearing that `measure` gives for its start and end. Where the
    /// file cannot be read, nothing is added.
    pub fn load<F: Fn(&GeoCoord, &GeoCoord) -> (u64, i32)>(
        &mut self,
        lines: &Vec<String>,
        measure: &F,
    ) -> (r: Result<(), MapDataError>)
        requires
            forall|a: &GeoCoord, b: &GeoCoord| measure.requires((a, b)),
        ensures
            match r {
                Ok(_) => streets_of(text_views(lines@)).is_ok() && loaded(
                    old(self)@,
                    streets_of(text_views(lines@)).unwrap(),
                    measure,
                    final(self)@,
                ),
                Err(fault) => streets_of(text_views(lines@)) == Err::<
                    Seq<StreetRecordView>,
                    MapDataError,
                >(fault) && final(self)@ == old(self)@,
            },
    {
        let records: Vec<StreetRecord> = match read_streets(lines) {
            Ok(records) => records,
            Err(fault) => {
                return Err(fault);
            },
        };
        let ghost views = record_views(records@);
        let ghost before = self@;
        let ghost mut segs: Seq<StreetSegmentView> = Seq::empty();
        let mut i: usize = 0;
        while i < records.len()
            invariant
                i <= records.len(),
                views == record_views(records@),
                forall|a: &GeoCoord, b: &GeoCoord| measure.requires((a, b)),
                segs.len() == i,
                forall|j: int| 0 <= j < i ==> measured_as(measure, views[j], #[trigger] segs[j]),
                self@ == with_streets(before, segs, i as int),
            decreases records.len() - i,
        {
            let record: &StreetRecord = &records[i];
            let (length, bearing) = measure(&record.start, &record.end);
            let segment = StreetSegment::from(
                &record.start,
                &record.end,
                record.name.as_str(),
                length,
                bearing,
            );
            proof {
                let longer = segs.push(segment@);
                assert(views[i as int] == record@);
                let a: &GeoCoord = &record.start;
                let b: &GeoCoord = &record.end;
                assert(a@ == views[i as int].start && b@ == views[i as int].end);
                assert(measure.ensures((a, b), (segment@.length, segment@.bearing)));
                assert(measured_as(measure, views[i as int], segment@));
                lemma_with_streets_prefix(before, segs, longer, i as int);
                assert forall|j: int| 0 <= j < i + 1 implies measured_as(
                    measure,
                    views[j],
                    #[trigger] longer[j],
                ) by {
                    if j < i {
                        assert(longer[j] == segs[j]);
                    }
                }
                segs = longer;
            }
            self.add_street(segment);
            i += 1;
        }
        Ok(())
    }

    /// The map of a street-map file, given by its lines: see `load`.
    pub fn load_from<F: Fn(&GeoCoord, &GeoCoord) -> (u64, i32)>(
        lines: &Vec<String>,
        measure: &F,
    ) -> (r: Result<StreetMap, MapDataError>)
        requires
            forall|a: &GeoCoord, b: &GeoCoord| measure.requires((a, b)),
        ensures
            match r {
                Ok(sm) => streets_of(text_views(lines@)).is_ok() && loaded(
                    Map::<GeoCoordView, Seq<StreetSegmentView>>::empty(),
                    streets_of(text_views(lines@)).unwrap(),
                    measure,
                    sm@,
                ),
                Err(fault) => streets_of(text_views(lines@)) == Err::<
                    Seq<StreetRecordView>,
                    MapDataError,
                >(fault),
            },
    {
        let mut sm = StreetMap::new();
        match sm.load(lines, measure) {
            Ok(_) => Ok(sm),
            Err(fault) => Err(fault),
        }
    }

    /// This map with a two-way street added.
    fn linked(self, segment: StreetSegment) -> (r: StreetMap)
        ensures
            r@ == with_street(self@, segment@),
    {
        proof {
            use_type_invariant(&self);
            lemma_fitted_well_keyed(self.coords@, self.streets@, self.targets@);
            lemma_with_street(self@, segment@);
            lemma_with_street_two_way(self@, segment@);
        }
        let ghost before = self@;
        let StreetMap { mut coords, mut streets, mut targets, mut index } = self;
        let back = segment.reverse_segment();
        let i = settle(&mut coords, &mut streets, &mut targets, &mut index, &segment.start);
        let j = settle(&mut coords, &mut streets, &mut targets, &mut index, &segment.end);
        let ghost settled = model(coords@, streets@);
        let ghost streets0 = streets@;
        let ghost targets0 = targets@;
        let ghost s = segment@;
        streets[i].push(segment);
        targets[i].push(j);
        let ghost streets1 = streets@;
        let ghost targets1 = targets@;
        streets[j].push(back);
        targets[j].push(i);
        proof {
            assert(coords[i as int]@ == s.start);
            assert(coords[j as int]@ == s.end);
            assert forall|a: int| 0 <= a < coords.len() implies (#[trigger] targets[a]).len()
                == streets[a].len() by {
                assert(targets0[a].len() == streets0[a].len());
            }
            assert forall|a: int, k: int|
                0 <= a < coords.len() && 0 <= k < streets[a].len() implies {
                &&& (#[trigger] streets[a][k])@.start == coords[a]@
                &&& targets[a][k] < coords.len()
                &&& coords[targets[a][k] as int]@ == streets[a][k]@.end
            } by {
                if k < streets0[a].len() {
                    assert(streets[a][k] == streets0[a][k]);
                    assert(targets0[a].len() == streets0[a].len());
                    assert(targets[a][k] == targets0[a][k]);
                } else if a == i as int && k == streets0[a].len() {
                    assert(streets[a][k]@ == s);
                    assert(targets1[a].len() == streets1[a].len());
                    assert(targets[a][k] == j);
                } else {
                    assert(a == j as int);
                    assert(streets[a][k]@ == s.reversed());
                    assert(targets1[a].len() == streets1[a].len());
                    assert(targets[a][k] == i);
                }
            }
            assert(streets1 =~= streets0.update(i as int, streets1[i as int]));
            assert(streets@ =~= streets1.update(j as int, streets@[j as int]));
            lemma_model_update(coords@, streets0, i as int, streets1[i as int]);
            lemma_model_update(coords@, streets1, j as int, streets@[j as int]);
            lemma_model_at(coords@, streets0, i as int);
            lemma_model_at(coords@, streets1, j as int);
            assert(segment_views(streets1[i as int]@) =~= segment_views(streets0[i as int]@).push(
                s,
            ));
            assert(segment_views(streets@[j as int]@) =~= segment_views(streets1[j as int]@).push(
                s.reversed(),
            ));
            assert(model(coords@, streets@) =~= with_street(before, s));
            assert(fitted(coords@, streets@, targets@));
        }
        StreetMap { coords, streets, targets, index }
    }

    /// The index of coordinate `gc`, if a street touches it.
    pub(crate) fn find(&self, gc: &GeoCoord) -> (r: Option<usize>)
        ensures
            match r {
                Some(i) => i < self.coords.len() && self.coords[i as int]@ == gc@,
                None => !listed(self.coords@, gc@),
            },
    {
        proof {
            use_type_invariant(self);
        }
        find_in(&self.coords, &self.index, gc)
    }

    /// Whether a street touches `gc`.
    pub fn contains(&self, gc: &GeoCoord) -> (r: bool)
        ensures
            r == self@.contains_key(gc@),
    {
        self.find(gc).is_some()
    }

    /// The segments that leave `gc`, in the order in which they were added,
    /// or nothing where no street touches `gc`.
    pub fn get_segments_from(&self, gc: &GeoCoord) -> (r: Option<&Vec<StreetSegment>>)
        ensures
            match r {
                Some(segs) => self@.contains_key(gc@) && segment_views(segs@) == self@[gc@],
                None => !self@.contains_key(gc@),
            },
    {
        proof {
            use_type_invariant(self);
        }
        match self.find(gc) {
            Some(i) => {
                proof {
                    lemma_model_at(self.coords@, self.streets@, i as int);
                }
                Some(&self.streets[i])
            },
            None => None,
        }
    }
}

/// The first streets of a list add up to the same map in every list that
/// begins with them.
pub proof fn lemma_with_streets_prefix(
    m: StreetMapView,
    segs: Seq<StreetSegmentView>,
    longer: Seq<StreetSegmentView>,
    upto: int,
)
    requires
        0 <= upto <= segs.len() <= longer.len(),
        forall|i: int| 0 <= i < upto ==> segs[i] == longer[i],
    ensures
        with_streets(m, segs, upto) == with_streets(m, longer, upto),
    decreases upto,
{
    if upto > 0 {
        lemma_with_streets_prefix(m, segs, longer, upto - 1);
    }
}

/// The segments filed under `c` in `m`, none where `c` is no key.
pub open spec fn leaving(m: StreetMapView, c: GeoCoordView) -> Seq<StreetSegmentView> {
    if m.contains_key(c) {
        m[c]
    } else {
        Seq::empty()
    }
}

/// What adding a street does, key by key: the two ends become keys, the
/// new segments stand last under them, and nothing else changes.
pub proof fn lemma_with_street(m: StreetMapView, s: StreetSegmentView)
    ensures
        with_street(m, s).dom() == m.dom().insert(s.start).insert(s.end),
        forall|c: GeoCoordView|
            c != s.start && c != s.end && m.contains_key(c) ==> #[trigger] with_street(m, s)[c]
                == m[c],
        s.start != s.end ==> with_street(m, s)[s.start] == leaving(m, s.start).push(s)
            && with_street(m, s)[s.end] == leaving(m, s.end).push(s.reversed()),
        s.start == s.end ==> with_street(m, s)[s.start] == leaving(m, s.start).push(s).push(
            s.reversed(),
        ),
{
    let half = with_segment(m, s);
    assert(with_street(m, s).dom() =~= m.dom().insert(s.start).insert(s.end));
}

/// An added street can be travelled both ways: its segment leaves its
/// start, and the way back leaves its end.
pub proof fn lemma_street_both_ways(m: StreetMapView, s: StreetSegmentView)
    ensures
        with_street(m, s).contains_key(s.start),
        with_street(m, s)[s.start].contains(s),
        with_street(m, s).contains_key(s.end),
        with_street(m, s)[s.end].contains(s.reversed()),
        returns_along(s.reversed(), s),
{
    lemma_with_street(m, s);
    let r = with_street(m, s);
    let n = leaving(m, s.start).len() as int;
    assert(r[s.start][n] == s);
    if s.start == s.end {
        assert(r[s.end][n + 1] == s.reversed());
    } else {
        assert(r[s.end][leaving(m, s.end).len() as int] == s.reversed());
    }
}

/// Every segment that is filed in a map stays where it is when a street
/// is added.
pub proof fn lemma_streets_stay(m: StreetMapView, s: StreetSegmentView)
    ensures
        forall|c: GeoCoordView, k: int|
            m.contains_key(c) && 0 <= k < m[c].len() ==> with_street(m, s).contains_key(c) && k
                < with_street(m, s)[c].len() && with_street(m, s)[c][k] == #[trigger] m[c][k],
{
    let r = with_street(m, s);
    lemma_with_street(m, s);
    assert forall|c: GeoCoordView, k: int| m.contains_key(c) && 0 <= k < m[c].len() implies
        r.contains_key(c) && k < r[c].len() && r[c][k] == #[trigger] m[c][k] by {
        if c != s.start && c != s.end {
            assert(r[c] == m[c]);
        }
    }
}

/// A street added to a two-way map leaves it two-way, and every segment
/// that was there stays where it was.
pub proof fn lemma_with_street_two_way(m: StreetMapView, s: StreetSegmentView)
    requires
        well_keyed(m),
        two_way(m),
    ensures
        well_keyed(with_street(m, s)),
        two_way(with_street(m, s)),
        forall|c: GeoCoordView, k: int|
            m.contains_key(c) && 0 <= k < m[c].len() ==> with_street(m, s).contains_key(c) && k
                < with_street(m, s)[c].len() && with_street(m, s)[c][k] == #[trigger] m[c][k],
{
    let r = with_street(m, s);
    let back = s.reversed();
    lemma_with_street(m, s);
    assert forall|c: GeoCoordView, k: int| m.contains_key(c) && 0 <= k < m[c].len() implies
        r.contains_key(c) && k < r[c].len() && r[c][k] == #[trigger] m[c][k] by {
        if c != s.start && c != s.end {
            assert(r[c] == m[c]);
        }
    }
    assert forall|c: GeoCoordView, k: int| r.contains_key(c) && 0 <= k < r[c].len() implies (
    #[trigger] r[c][k]).start == c && r.contains_key(r[c][k].end) by {
        if m.contains_key(c) && k < m[c].len() {
            assert(r[c][k] == m[c][k]);
            assert(m.contains_key(m[c][k].end));
        } else if c != s.start && c != s.end {
            assert(r[c] == m[c]);
        }
    }
    assert forall|c: GeoCoordView, k: int| r.contains_key(c) && 0 <= k < r[c].len() implies
        has_way_back(r, #[trigger] r[c][k]) by {
        if m.contains_key(c) && k < m[c].len() {
            let x = m[c][k];
            assert(r[c][k] == x);
            assert(has_way_back(m, x));
            let j = choose|j: int|
                0 <= j < m[x.end].len() && returns_along(#[trigger] m[x.end][j], x);
            assert(r[x.end][j] == m[x.end][j]);
        } else if c != s.start && c != s.end {
            assert(r[c] == m[c]);
        } else if s.start != s.end {
            if c == s.start {
                assert(r[c][k] == s);
                let j = leaving(m, s.end).len() as int;
                assert(r[s.end][j] == back);
            } else {
                assert(r[c][k] == back);
                let j = leaving(m, s.start).len() as int;
                assert(r[s.start][j] == s);
            }
        } else {
            let n = leaving(m, s.start).len() as int;
            if k == n {
                assert(r[c][k] == s);
                assert(r[s.end][n + 1] == back);
            } else {
                assert(r[c][k] == back);
                assert(r[s.start][n] == s);
            }
        }
    }
}

/// In a fitted map every segment is filed under its start and ends at a key.
pub(crate) proof fn lemma_fitted_well_keyed(
    coords: Seq<GeoCoord>,
    streets: Seq<Vec<StreetSegment>>,
    targets: Seq<Vec<usize>>,
)
    requires
        fitted(coords, streets, targets),
    ensures
        well_keyed(model(coords, streets)),
{
    let m = model(coords, streets);
    assert forall|c: GeoCoordView, k: int| m.contains_key(c) && 0 <= k < m[c].len() implies (
    #[trigger] m[c][k]).start == c && m.contains_key(m[c][k].end) by {
        let i = position(coords, c);
        lemma_position(coords, i);
        assert(m[c][k] == streets[i][k]@);
        lemma_position(coords, targets[i][k] as int);
    }
}

/// A new coordinate with its segments becomes a new key.
pub(crate) proof fn lemma_model_push(
    coords: Seq<GeoCoord>,
    streets: Seq<Vec<StreetSegment>>,
    c: GeoCoord,
    v: Vec<StreetSegment>,
)
    requires
        distinct(coords),
        streets.len() == coords.len(),
        !listed(coords, c@),
    ensures
        distinct(coords.push(c)),
        model(coords.push(c), streets.push(v)) == model(coords, streets).insert(
            c@,
            segment_views(v@),
        ),
{
    let coords2 = coords.push(c);
    let streets2 = streets.push(v);
    assert(distinct(coords2)) by {
        assert forall|i: int, j: int| 0 <= i < j < coords2.len() implies coords2[i]@
            != coords2[j]@ by {
            if j == coords.len() {
                assert(coords[i]@ != c@);
            }
        }
    }
    let a = model(coords2, streets2);
    let b = model(coords, streets).insert(c@, segment_views(v@));
    assert forall|x: GeoCoordView| a.contains_key(x) <==> b.contains_key(x) by {
        if listed(coords, x) {
            let i = position(coords, x);
            assert(coords2[i]@ == x);
        }
        if listed(coords2, x) {
            let i = position(coords2, x);
            if i < coords.len() {
                assert(coords[i]@ == x);
            }
        }
        assert(coords2[coords.len() as int]@ == c@);
    }
    assert forall|x: GeoCoordView| a.contains_key(x) implies a[x] == b[x] by {
        let i = position(coords2, x);
        lemma_position(coords2, i);
        if i < coords.len() {
            assert(coords[i]@ == x);
            lemma_position(coords, i);
        }
    }
    assert(a =~= b);
}

/// Replacing the segments of one coordinate replaces the value of its key.
pub(crate) proof fn lemma_model_update(
    coords: Seq<GeoCoord>,
    streets: Seq<Vec<StreetSegment>>,
    i: int,
    v: Vec<StreetSegment>,
)
    requires
        distinct(coords),
        streets.len() == coords.len(),
        0 <= i < coords.len(),
    ensures
        model(coords, streets.update(i, v)) == model(coords, streets).insert(
            coords[i]@,
            segment_views(v@),
        ),
{
    let a = model(coords, streets.update(i, v));
    let b = model(coords, streets).insert(coords[i]@, segment_views(v@));
    lemma_position(coords, i);
    assert forall|x: GeoCoordView| a.contains_key(x) implies a[x] == b[x] by {
        let p = position(coords, x);
        lemma_position(coords, p);
    }
    assert(a =~= b);
}

/// The index of `gc` in `coords`; where it is not there yet, it is added
/// behind the others with no segments.
fn settle(
    coords: &mut Vec<GeoCoord>,
    streets: &mut Vec<Vec<StreetSegment>>,
    targets: &mut Vec<Vec<usize>>,
    index: &mut Vec<Vec<usize>>,
    gc: &GeoCoord,
) -> (i: usize)
    requires
        fitted(old(coords)@, old(streets)@, old(targets)@),
        indexed(old(coords)@, old(index)@),
    ensures
        fitted(final(coords)@, final(streets)@, final(targets)@),
        indexed(final(coords)@, final(index)@),
        i < final(coords).len(),
        final(coords)[i as int]@ == gc@,
        old(coords).len() <= final(coords).len(),
        forall|p: int| 0 <= p < old(coords).len() ==> final(coords)[p]@ == old(coords)[p]@,
        model(final(coords)@, final(streets)@) == if model(old(coords)@, old(streets)@).contains_key(
            gc@,
        ) {
            model(old(coords)@, old(streets)@)
        } else {
            model(old(coords)@, old(streets)@).insert(gc@, Seq::empty())
        },
{
    match find_in(coords, index, gc) {
        Some(i) => i,
        None => {
            let added: Vec<StreetSegment> = Vec::new();
            proof {
                lemma_model_push(coords@, streets@, *gc, added);
                assert(segment_views(added@) =~= Seq::empty());
            }
            let i: usize = coords.len();
            coords.push(gc.clone());
            streets.push(added);
            targets.push(Vec::new());
            enroll(coords, index);
            proof {
                assert(distinct(coords@)) by {
                    assert forall|a: int, b: int| 0 <= a < b < coords.len() implies coords[a]@
                        != coords[b]@ by {
                        if b == i {
                            assert(old(coords)[a]@ != gc@);
                        } else {
                            assert(old(coords)[a]@ != old(coords)[b]@);
                        }
                    }
                }
                assert forall|a: int, k: int|
                    0 <= a < coords.len() && 0 <= k < streets[a].len() implies {
                    &&& (#[trigger] streets[a][k])@.start == coords[a]@
                    &&& targets[a][k] < coords.len()
                    &&& coords[targets[a][k] as int]@ == streets[a][k]@.end
                } by {
                    assert(a < i);
                    assert(streets[a][k] == old(streets)[a][k]);
                    assert(targets[a][k] == old(targets)[a][k]);
                }
                assert(model(coords@, streets@) =~= model(
                    old(coords)@.push(*gc),
                    old(streets)@.push(added),
                )) by {
                    assert forall|c: GeoCoordView|
                        listed(coords@, c) <==> listed(old(coords)@.push(*gc), c) by {
                        if listed(coords@, c) {
                            let p = position(coords@, c);
                            assert(old(coords)@.push(*gc)[p]@ == c);
                        }
                        if listed(old(coords)@.push(*gc), c) {
                            let p = position(old(coords)@.push(*gc), c);
                            assert(coords@[p]@ == c);
                        }
                    }
                }
            }
            i
        },
    }
}

/// An index with `shelves` shelves that leads to every one of `coords`.
fn shelved(coords: &Vec<GeoCoord>, shelves: usize) -> (index: Vec<Vec<usize>>)
    requires
        coords.len() <= shelves,
        shelves > 0,
    ensures
        index.len() == shelves,
        indexed(coords@, index@),
{
    let mut index: Vec<Vec<usize>> = Vec::new();
    let mut b: usize = 0;
    while b < shelves
        invariant
            b <= shelves,
            index.len() == b,
            forall|a: int| 0 <= a < b ==> (#[trigger] index[a]).len() == 0,
        decreases shelves - b,
    {
        index.push(Vec::new());
        b += 1;
    }
    let mut i: usize = 0;
    while i < coords.len()
        invariant
            i <= coords.len(),
            coords.len() <= shelves,
            index.len() == shelves,
            forall|j: int|
                0 <= j < i ==> (#[trigger] index[shelf_of(coords[j]@, shelves as int)])@.contains(
                    j as usize,
                ),
            forall|a: int, k: int|
                0 <= a < index.len() && 0 <= k < index[a].len() ==> (#[trigger] index[a][k]) < i,
        decreases coords.len() - i,
    {
        let shelf: usize = (coords[i].code() % (shelves as u64)) as usize;
        assert(shelf == shelf_of(coords[i as int]@, shelves as int));
        let ghost before = index@;
        index[shelf].push(i);
        proof {
            lemma_put_on_shelf(coords@, before, index@, shelf as int, i as int, i as int);
            assert(index[shelf as int]@[before[shelf as int].len() as int] == i);
            assert forall|j: int| 0 <= j < i + 1 implies (#[trigger] index[shelf_of(
                coords[j]@,
                shelves as int,
            )])@.contains(j as usize) by {
                let at = shelf_of(coords[j]@, shelves as int);
                if j < i {
                    assert(index@[shelf_of(coords@[j]@, index@.len() as int)]@.contains(
                        j as usize,
                    ));
                } else {
                    assert(at == shelf);
                    assert(index[at]@[before[shelf as int].len() as int] == j as usize);
                }
            }
            assert forall|a: int, k: int|
                0 <= a < index.len() && 0 <= k < index[a].len() implies (#[trigger] index[a][k])
                < i + 1 by {
                if a != shelf || k < before[a].len() {
                    assert(index[a][k] == before[a][k]);
                }
            }
        }
        i += 1;
    }
    index
}

/// Putting a place on a shelf leaves every place where it stood.
proof fn lemma_put_on_shelf(
    coords: Seq<GeoCoord>,
    before: Seq<Vec<usize>>,
    after: Seq<Vec<usize>>,
    shelf: int,
    place: int,
    upto: int,
)
    requires
        0 <= shelf < before.len(),
        after.len() == before.len(),
        0 <= upto <= coords.len(),
        after[shelf]@ == before[shelf]@.push(place as usize),
        forall|a: int| 0 <= a < before.len() && a != shelf ==> after[a] == before[a],
        forall|j: int|
            0 <= j < upto ==> (#[trigger] before[shelf_of(coords[j]@, before.len() as int)])@.contains(
                j as usize,
            ),
    ensures
        forall|j: int|
            0 <= j < upto ==> (#[trigger] after[shelf_of(coords[j]@, after.len() as int)])@.contains(
                j as usize,
            ),
{
    assert forall|j: int| 0 <= j < upto implies (#[trigger] after[shelf_of(
        coords[j]@,
        after.len() as int,
    )])@.contains(j as usize) by {
        let b = shelf_of(coords[j]@, before.len() as int);
        assert(before[b]@.contains(j as usize));
        let k = choose|k: int| 0 <= k < before[b]@.len() && before[b]@[k] == j as usize;
        if b == shelf {
            assert(after[b]@[k] == j as usize);
        }
    }
}

/// Makes the index lead to the coordinate that was added last.
fn enroll(coords: &Vec<GeoCoord>, index: &mut Vec<Vec<usize>>)
    requires
        coords.len() > 0,
        indexed(coords@.drop_last(), old(index)@),
    ensures
        indexed(coords@, final(index)@),
{
    let n: usize = coords.len();
    if index.len() < n {
        let shelves: usize = if n <= usize::MAX / 2 {
            2 * n
        } else {
            usize::MAX
        };
        *index = shelved(coords, shelves);
    } else {
        let place: usize = n - 1;
        let shelves: usize = index.len();
        let shelf: usize = (coords[place].code() % (shelves as u64)) as usize;
        assert(shelf == shelf_of(coords[place as int]@, shelves as int));
        let ghost before = index@;
        index[shelf].push(place);
        proof {
            assert(index[shelf as int]@[before[shelf as int].len() as int] == place);
            assert forall|j: int| 0 <= j < place implies (#[trigger] before[shelf_of(
                coords@[j]@,
                before.len() as int,
            )])@.contains(j as usize) by {
                assert(coords@.drop_last()[j] == coords@[j]);
            }
            lemma_put_on_shelf(coords@, before, index@, shelf as int, place as int, place as int);
            assert(index[shelf as int]@.last() == place);
            assert forall|b: int, k: int|
                0 <= b < index.len() && 0 <= k < index[b].len() implies (#[trigger] index[b][k])
                < coords.len() by {
                if b != shelf || k < before[b].len() {
                    assert(index[b][k] == before[b][k]);
                }
            }
        }
    }
}

/// The index of `gc` in `coords`, if it is there.
pub(crate) fn find_in(coords: &Vec<GeoCoord>, index: &Vec<Vec<usize>>, gc: &GeoCoord) -> (r: Option<
    usize,
>)
    requires
        indexed(coords@, index@),
    ensures
        match r {
            Some(i) => i < coords.len() && coords[i as int]@ == gc@,
            None => !listed(coords@, gc@),
        },
{
    if index.len() == 0 {
        return None;
    }
    let b: usize = (gc.code() % (index.len() as u64)) as usize;
    assert(b == shelf_of(gc@, index.len() as int));
    let shelf: &Vec<usize> = &index[b];
    let mut k: usize = 0;
    while k < shelf.len()
        invariant
            k <= shelf.len(),
            indexed(coords@, index@),
            b < index.len(),
            b == shelf_of(gc@, index.len() as int),
            shelf == index[b as int],
            forall|a: int|
                0 <= a < k ==> (#[trigger] shelf[a]) < coords.len() && coords[shelf[a] as int]@
                    != gc@,
        decreases shelf.len() - k,
    {
        let place: usize = shelf[k];
        assert(place == index[b as int][k as int]);
        if coords[place] == *gc {
            return Some(place);
        }
        k += 1;
    }
    proof {
        if listed(coords@, gc@) {
            let i = position(coords@, gc@);
            assert(index[shelf_of(coords[i]@, index.len() as int)]@.contains(i as usize));
            let a = choose|a: int| 0 <= a < shelf@.len() && shelf@[a] == i as usize;
            assert(coords[shelf[a] as int]@ != gc@);
        }
    }
    None
}

} // verus!
