//! The in-memory store: named points and polygons in one key space, and the
//! radius search over them.
use crate::decimal::{
    abs, decimal_text, lemma_pow10_add, lemma_pow10_mono, lemma_pow10_pos, lemma_pow10_values,
    pow10, pow10_exec, push_decimal, tdiv, Decimal, FRAC_DIGITS, INT_DIGITS,
};
use crate::keyed::{
    keys_unique, lemma_to_map_dom, lemma_to_map_index, lemma_to_map_push, lemma_to_map_remove,
    lemma_unique_remove, to_map,
};
use crate::text::{is_token, push_char};
use vstd::prelude::*;

verus! {

/// A stored geometry. Coordinates are kept as `(lon, lat)`.
pub enum Geometry {
    Point { lon: Decimal, lat: Decimal },
    Polygon { ring: Vec<(Decimal, Decimal)> },
}

pub enum GeometryView {
    Point { lon: Decimal, lat: Decimal },
    Polygon { ring: Seq<(Decimal, Decimal)> },
}

impl View for Geometry {
    type V = GeometryView;

    open spec fn view(&self) -> GeometryView {
        match self {
            Geometry::Point { lon, lat } => GeometryView::Point { lon: *lon, lat: *lat },
            Geometry::Polygon { ring } => GeometryView::Polygon { ring: ring@ },
        }
    }
}

pub open spec fn pairs_wf(cs: Seq<(Decimal, Decimal)>) -> bool {
    forall|i: int| 0 <= i < cs.len() ==> (#[trigger] cs[i]).0.wf() && cs[i].1.wf()
}

impl GeometryView {
    pub open spec fn wf(self) -> bool {
        match self {
            GeometryView::Point { lon, lat } => lon.wf() && lat.wf(),
            GeometryView::Polygon { ring } => ring.len() >= 3 && pairs_wf(ring),
        }
    }
}

/// A key that the protocol can write, naming a geometry in range.
pub open spec fn entry_wf(e: (Seq<char>, GeometryView)) -> bool {
    is_token(e.0) && e.1.wf()
}

/// `(lat, lon)` pairs turned into `(lon, lat)` pairs.
pub open spec fn swapped(cs: Seq<(Decimal, Decimal)>) -> Seq<(Decimal, Decimal)> {
    cs.map_values(|p: (Decimal, Decimal)| (p.1, p.0))
}

/// The geometry that `GEOADD` stores for its `(lat, lon)` coordinates: one
/// coordinate is a point, more are the vertices of a polygon.
pub open spec fn geometry_of(coords: Seq<(Decimal, Decimal)>) -> GeometryView {
    if coords.len() == 1 {
        GeometryView::Point { lon: coords[0].1, lat: coords[0].0 }
    } else {
        GeometryView::Polygon { ring: swapped(coords) }
    }
}

/// A vertex written `lat lon`.
pub open spec fn vertex_text(p: (Decimal, Decimal)) -> Seq<char> {
    decimal_text(p.1) + seq![' '] + decimal_text(p.0)
}

/// Vertices separated by `, `.
pub open spec fn ring_text(ring: Seq<(Decimal, Decimal)>) -> Seq<char>
    decreases ring.len(),
{
    if ring.len() == 0 {
        Seq::empty()
    } else if ring.len() == 1 {
        vertex_text(ring[0])
    } else {
        ring_text(ring.drop_last()) + seq![',', ' '] + vertex_text(ring.last())
    }
}

/// `POINT(lat lon)` or `POLYGON((lat lon, lat lon, ...))`.
pub open spec fn geometry_text(g: GeometryView) -> Seq<char> {
    match g {
        GeometryView::Point { lon, lat } => seq!['P', 'O', 'I', 'N', 'T', '('] + decimal_text(lat)
            + seq![' '] + decimal_text(lon) + seq![')'],
        GeometryView::Polygon { ring } => seq!['P', 'O', 'L', 'Y', 'G', 'O', 'N', '(', '(']
            + ring_text(ring) + seq![')', ')'],
    }
}

pub open spec fn sq(x: int) -> int {
    x * x
}

/// Squared planar distance, in units of 10^-16 square degrees, between two
/// `(lon, lat)` positions, each coordinate taken to 10^-8 degree. It orders
/// the candidates of a search only; which points are reported is decided by
/// the great-circle test.
pub open spec fn sq_dist(lon1: Decimal, lat1: Decimal, lon2: Decimal, lat2: Decimal) -> int {
    sq(lon1.units() - lon2.units()) + sq(lat1.units() - lat2.units())
}

/// Whether a polygon's bounding box meets the box `[lon - r, lon + r] x
/// [lat - r, lat + r]`, where the radius is taken as a number of degrees.
pub open spec fn ring_meets_box(ring: Seq<(Decimal, Decimal)>, lat: Decimal, lon: Decimal, radius: Decimal) -> bool {
    let r = abs(radius.exact());
    &&& exists|i: int| 0 <= i < ring.len() && (#[trigger] ring[i]).0.exact() <= lon.exact() + r
    &&& exists|i: int| 0 <= i < ring.len() && (#[trigger] ring[i]).0.exact() >= lon.exact() - r
    &&& exists|i: int| 0 <= i < ring.len() && (#[trigger] ring[i]).1.exact() <= lat.exact() + r
    &&& exists|i: int| 0 <= i < ring.len() && (#[trigger] ring[i]).1.exact() >= lat.exact() - r
}

/// The keys of the polygons among `s` whose boxes meet the search box, in order.
pub open spec fn polygon_hits(s: Seq<(Seq<char>, GeometryView)>, lat: Decimal, lon: Decimal, radius: Decimal) -> Seq<Seq<char>>
    decreases s.len(),
{
    if s.len() == 0 {
        Seq::empty()
    } else {
        polygon_hits(s.drop_last(), lat, lon, radius) + match s.last().1 {
            GeometryView::Polygon { ring } => if ring_meets_box(ring, lat, lon, radius) {
                seq![s.last().0]
            } else {
                Seq::empty()
            },
            _ => Seq::empty(),
        }
    }
}

/// The entries of `s` without the one for `k`.
pub open spec fn remove_key(s: Seq<(Seq<char>, GeometryView)>, k: Seq<char>) -> Seq<(Seq<char>, GeometryView)>
    decreases s.len(),
{
    if s.len() == 0 {
        s
    } else if s.last().0 == k {
        remove_key(s.drop_last(), k)
    } else {
        remove_key(s.drop_last(), k).push(s.last())
    }
}

/// The entries after storing `g` under `k`: the old entry for `k` leaves, the
/// new one comes last.
pub open spec fn add_entry(s: Seq<(Seq<char>, GeometryView)>, k: Seq<char>, g: GeometryView) -> Seq<(Seq<char>, GeometryView)> {
    remove_key(s, k).push((k, g))
}

pub proof fn lemma_remove_key_absent(s: Seq<(Seq<char>, GeometryView)>, k: Seq<char>)
    requires
        forall|j: int| 0 <= j < s.len() ==> (#[trigger] s[j]).0 != k,
    ensures
        remove_key(s, k) == s,
    decreases s.len(),
{
    if s.len() > 0 {
        lemma_remove_key_absent(s.drop_last(), k);
        assert(s.drop_last().push(s.last()) =~= s);
    }
}

pub proof fn lemma_remove_key_at(s: Seq<(Seq<char>, GeometryView)>, i: int)
    requires
        keys_unique(s),
        0 <= i < s.len(),
    ensures
        remove_key(s, s[i].0) == s.remove(i),
    decreases s.len(),
{
    let k = s[i].0;
    crate::keyed::lemma_unique_drop_last(s);
    if i == s.len() - 1 {
        assert forall|j: int| 0 <= j < s.drop_last().len() implies (#[trigger] s.drop_last()[j]).0 != k by {
            assert(s.drop_last()[j] == s[j]);
        }
        lemma_remove_key_absent(s.drop_last(), k);
        assert(s.remove(i) =~= s.drop_last());
    } else {
        assert(s.drop_last()[i] == s[i]);
        lemma_remove_key_at(s.drop_last(), i);
        assert(s.last().0 != k);
        assert(s.remove(i) =~= s.drop_last().remove(i).push(s.last()));
    }
}

pub proof fn lemma_to_map_remove_key(s: Seq<(Seq<char>, GeometryView)>, k: Seq<char>)
    ensures
        to_map(remove_key(s, k)) == to_map(s).remove(k),
    decreases s.len(),
{
    if s.len() > 0 {
        lemma_to_map_remove_key(s.drop_last(), k);
        if s.last().0 != k {
            lemma_to_map_push(remove_key(s.drop_last(), k), s.last().0, s.last().1);
        }
        assert(to_map(remove_key(s, k)) =~= to_map(s).remove(k));
    } else {
        assert(to_map(s).remove(k) =~= to_map(s));
    }
}

/// Storing under a key changes the map at that key alone.
pub proof fn lemma_to_map_add_entry(s: Seq<(Seq<char>, GeometryView)>, k: Seq<char>, g: GeometryView)
    ensures
        to_map(add_entry(s, k, g)) == to_map(s).insert(k, g),
{
    lemma_to_map_remove_key(s, k);
    lemma_to_map_push(remove_key(s, k), k, g);
    assert(to_map(s).remove(k).insert(k, g) =~= to_map(s).insert(k, g));
}

/// A stored point offered to the radius test, with its squared planar distance
/// to the search centre.
pub struct Candidate {
    pub key: String,
    pub lat: Decimal,
    pub lon: Decimal,
    pub dist: u128,
}

/// The position in `o` of the first candidate whose distance exceeds `k`, or
/// the length of `o`.
pub open spec fn first_greater(o: Seq<int>, d: Seq<u64>, k: u64) -> nat
    decreases o.len(),
{
    if o.len() == 0 || d[o[0]] > k {
        0
    } else {
        1 + first_greater(o.drop_first(), d, k)
    }
}

/// The positions `0..n`, ordered by their distances `d`; equal distances keep
/// their order.
pub open spec fn gc_order(d: Seq<u64>, n: int) -> Seq<int>
    decreases n,
{
    if n <= 0 {
        Seq::empty()
    } else {
        let o = gc_order(d, n - 1);
        o.insert(first_greater(o, d, d[n - 1]) as int, n - 1)
    }
}

/// The position in `o` of the first candidate flagged outside, or the length
/// of `o`.
pub open spec fn first_outside(o: Seq<int>, w: Seq<bool>) -> nat
    decreases o.len(),
{
    if o.len() == 0 || !w[o[0]] {
        0
    } else {
        1 + first_outside(o.drop_first(), w)
    }
}

/// The keys that the point pass of a search reports: the candidates in order
/// of their distances, up to the first one outside the radius.
pub open spec fn reported(cands: Seq<Candidate>, dists: Seq<u64>, within: Seq<bool>) -> Seq<Seq<char>> {
    let o = gc_order(dists, cands.len() as int);
    o.take(first_outside(o, within) as int).map_values(|i: int| cands[i].key@)
}

/// Whether the flags agree with the distances: a candidate no farther than
/// one inside is inside too.
pub open spec fn flags_follow(dists: Seq<u64>, within: Seq<bool>) -> bool {
    forall|a: int, b: int|
        0 <= a < dists.len() && 0 <= b < dists.len() && dists[a] <= dists[b] && #[trigger] within[b]
            ==> #[trigger] within[a]
}

pub open spec fn string_views(v: Seq<String>) -> Seq<Seq<char>> {
    v.map_values(|s: String| s@)
}

pub open spec fn entry_views(v: Seq<(String, Geometry)>) -> Seq<(Seq<char>, GeometryView)> {
    v.map_values(|e: (String, Geometry)| (e.0@, e.1@))
}

/// The store. One key space: a key names a point or a polygon, never both.
/// One list of entries, each a key with its geometry, stands for the map of
/// points, the map of polygons and both spatial indices: an overwrite replaces
/// exactly one entry, and a search reports keys directly.
pub struct GeoDatabase {
    entries: Vec<(String, Geometry)>,
}

impl View for GeoDatabase {
    type V = Map<Seq<char>, GeometryView>;

    closed spec fn view(&self) -> Map<Seq<char>, GeometryView> {
        to_map(entry_views(self.entries@))
    }
}

impl GeoDatabase {
    pub closed spec fn entries_view(&self) -> Seq<(Seq<char>, GeometryView)> {
        entry_views(self.entries@)
    }

    /// Keys are unique and every geometry is in range.
    pub closed spec fn wf(&self) -> bool {
        &&& keys_unique(self.entries_view())
        &&& forall|i: int| 0 <= i < self.entries@.len() ==> entry_wf(#[trigger] self.entries_view()[i])
    }

    /// Whether `cands` lists every stored point once, with its squared distance
    /// to `(lat, lon)`, nearest first.
    pub open spec fn nearest_order(&self, lat: Decimal, lon: Decimal, cands: Seq<Candidate>) -> bool {
        &&& forall|i: int, j: int| 0 <= i <= j < cands.len() ==> (#[trigger] cands[i]).dist <= (#[trigger] cands[j]).dist
        &&& forall|i: int| 0 <= i < cands.len() ==> {
            &&& self@.contains_key((#[trigger] cands[i]).key@)
            &&& self@[cands[i].key@] == (GeometryView::Point { lon: cands[i].lon, lat: cands[i].lat })
            &&& cands[i].dist == sq_dist(cands[i].lon, cands[i].lat, lon, lat)
        }
        &&& forall|k: Seq<char>| self@.contains_key(k) && self@[k] is Point ==> exists|i: int|
            0 <= i < cands.len() && (#[trigger] cands[i]).key@ == k
        &&& forall|i: int, j: int| 0 <= i < j < cands.len() ==> (#[trigger] cands[i]).key@ != (#[trigger] cands[j]).key@
    }

    /// The keys that a search returns: the candidates in order of their
    /// great-circle distances up to the first one outside the radius, then the
    /// polygons whose boxes meet the search box.
    pub open spec fn search_spec(&self, cands: Seq<Candidate>, dists: Seq<u64>, within: Seq<bool>, lat: Decimal, lon: Decimal, radius: Decimal) -> Seq<Seq<char>> {
        reported(cands, dists, within) + polygon_hits(self.entries_view(), lat, lon, radius)
    }

    /// The map of a store is that of its entries, whose keys are unique.
    pub proof fn lemma_db_view(&self)
        ensures
            self@ == to_map(self.entries_view()),
            self.wf() ==> keys_unique(self.entries_view()),
            self.wf() ==> forall|i: int| 0 <= i < self.entries_view().len() ==> entry_wf(#[trigger] self.entries_view()[i]),
    {
    }

    /// The number of stored geometries.
    pub fn len(&self) -> (r: usize)
        ensures
            r == self.entries_view().len(),
    {
        self.entries.len()
    }

    /// The `i`-th entry, in storage order.
    pub fn entry(&self, i: usize) -> (r: (&String, &Geometry))
        requires
            i < self.entries_view().len(),
        ensures
            (r.0@, r.1@) == self.entries_view()[i as int],
    {
        (&self.entries[i].0, &self.entries[i].1)
    }

    /// Two stores with the same entries hold the same map and answer every
    /// search alike.
    pub proof fn lemma_same_entries_same_search(&self, other: &GeoDatabase)
        requires
            self.entries_view() == other.entries_view(),
        ensures
            self@ == other@,
            self.wf() == other.wf(),
            forall|lat: Decimal, lon: Decimal, cands: Seq<Candidate>| #[trigger] self.nearest_order(lat, lon, cands)
                == other.nearest_order(lat, lon, cands),
            forall|cands: Seq<Candidate>, dists: Seq<u64>, within: Seq<bool>, lat: Decimal, lon: Decimal, radius: Decimal|
                #[trigger] self.search_spec(cands, dists, within, lat, lon, radius) == other.search_spec(cands, dists, within, lat, lon, radius),
    {
    }

    /// The points of a search are its first keys. They are candidates in
    /// order of distance, each flagged inside and each a stored point. When the
    /// flags agree with the distances, every candidate flagged inside is among
    /// them.
    pub proof fn lemma_search_points(&self, cands: Seq<Candidate>, dists: Seq<u64>, within: Seq<bool>, lat: Decimal, lon: Decimal, radius: Decimal)
        requires
            self.nearest_order(lat, lon, cands),
            within.len() == cands.len(),
            dists.len() == cands.len(),
        ensures
            ({
                let o = gc_order(dists, cands.len() as int);
                let c = first_outside(o, within) as int;
                &&& c <= o.len() == cands.len()
                &&& forall|j: int| 0 <= j < c ==> {
                    &&& 0 <= #[trigger] o[j] < cands.len()
                    &&& within[o[j]]
                    &&& self.search_spec(cands, dists, within, lat, lon, radius)[j] == cands[o[j]].key@
                    &&& self@[cands[o[j]].key@] == (GeometryView::Point { lon: cands[o[j]].lon, lat: cands[o[j]].lat })
                }
                &&& forall|j1: int, j2: int| 0 <= j1 <= j2 < c ==> dists[#[trigger] o[j1]] <= dists[#[trigger] o[j2]]
                &&& flags_follow(dists, within) ==> forall|i: int| 0 <= i < cands.len() && #[trigger] within[i]
                    ==> exists|j: int| 0 <= j < c && o[j] == i
            }),
    {
        let n = cands.len() as int;
        lemma_gc_order(dists, n);
        let o = gc_order(dists, n);
        lemma_first_outside(o, within);
        let c = first_outside(o, within) as int;
        let res = self.search_spec(cands, dists, within, lat, lon, radius);
        assert forall|j: int| 0 <= j < c implies res[j] == cands[#[trigger] o[j]].key@ by {
            assert(reported(cands, dists, within)[j] == cands[o[j]].key@);
        }
        if flags_follow(dists, within) {
            assert forall|i: int| 0 <= i < cands.len() && #[trigger] within[i] implies exists|j: int| 0 <= j < c && o[j] == i by {
                assert(holds(o, i));
                let j = choose|j: int| 0 <= j < o.len() && o[j] == i;
                if j >= c {
                    assert(dists[o[c]] <= dists[o[j]]);
                    assert(within[o[c]]);
                }
            }
        }
    }

    pub fn new() -> (r: GeoDatabase)
        ensures
            r.wf(),
            r@ == Map::<Seq<char>, GeometryView>::empty(),
            r.entries_view() == Seq::<(Seq<char>, GeometryView)>::empty(),
    {
        let r = GeoDatabase { entries: Vec::new() };
        proof {
            assert(r.entries_view() =~= Seq::empty());
        }
        r
    }
}


impl GeoDatabase {
    /// The position of the entry for `key`, if there is one.
    fn find(&self, key: &str) -> (r: Option<usize>)
        requires
            self.wf(),
        ensures
            r is Some <==> self@.contains_key(key@),
            r matches Some(i) ==> i < self.entries@.len() && self.entries_view()[i as int].0 == key@,
    {
        proof {
            lemma_to_map_dom(self.entries_view(), key@);
        }
        let k = key.to_owned();
        let mut i: usize = 0;
        while i < self.entries.len()
            invariant
                i <= self.entries@.len(),
                k@ == key@,
                self.wf(),
                forall|j: int| 0 <= j < i ==> (#[trigger] self.entries_view()[j]).0 != key@,
            decreases self.entries.len() - i,
        {
            if self.entries[i].0 == k {
                proof {
                    assert(self.entries_view()[i as int].0 == self.entries@[i as int].0@);
                    assert(self.entries_view()[i as int].0 == key@);
                    lemma_to_map_index(self.entries_view(), i as int);
                }
                return Some(i);
            }
            proof {
                assert(self.entries_view()[i as int].0 == self.entries@[i as int].0@);
            }
            i += 1;
        }
        None
    }

    /// Stores the geometry that `coords` (`(lat, lon)` pairs) describe under
    /// `key`, replacing whatever the key named before, point or polygon.
    pub fn geo_add(&mut self, key: String, coords: Vec<(Decimal, Decimal)>)
        requires
            old(self).wf(),
            is_token(key@),
            pairs_wf(coords@),
            coords.len() == 1 || coords.len() >= 3,
        ensures
            final(self).wf(),
            final(self)@ == old(self)@.insert(key@, geometry_of(coords@)),
            final(self).entries_view() == add_entry(old(self).entries_view(), key@, geometry_of(coords@)),
    {
        let geom = if coords.len() == 1 {
            Geometry::Point { lon: coords[0].1, lat: coords[0].0 }
        } else {
            let mut ring: Vec<(Decimal, Decimal)> = Vec::new();
            let mut i: usize = 0;
            while i < coords.len()
                invariant
                    i <= coords.len(),
                    ring@ == swapped(coords@.take(i as int)),
                decreases coords.len() - i,
            {
                ring.push((coords[i].1, coords[i].0));
                i += 1;
                proof {
                    assert(ring@ =~= swapped(coords@.take(i as int)));
                }
            }
            proof {
                assert(coords@.take(i as int) =~= coords@);
            }
            Geometry::Polygon { ring }
        };
        proof {
            assert(geom@ == geometry_of(coords@));
            assert(geom@.wf()) by {
                if coords.len() != 1 {
                    assert forall|i: int| 0 <= i < swapped(coords@).len() implies (#[trigger] swapped(coords@)[i]).0.wf()
                        && swapped(coords@)[i].1.wf() by {
                        assert(coords@[i].0.wf());
                    }
                }
            }
        }
        let ghost k = key@;
        let ghost m0 = self@;
        match self.find(key.as_str()) {
            Some(i) => {
                proof {
                    lemma_remove_key_at(self.entries_view(), i as int);
                    lemma_to_map_remove(self.entries_view(), i as int);
                    lemma_unique_remove(self.entries_view(), i as int);
                    assert(self.entries_view().remove(i as int) =~= entry_views(self.entries@.remove(i as int)));
                }
                let ghost before = self.entries_view().remove(i as int);
                self.entries.remove(i);
                proof {
                    assert(self.entries_view() == before);
                    assert(self@ == m0.remove(k));
                    assert forall|j: int| 0 <= j < self.entries@.len() implies entry_wf(#[trigger] self.entries_view()[j]) by {
                        let oj = if j < i { j } else { j + 1 };
                        assert(self.entries_view()[j] == old(self).entries_view()[oj]);
                    }
                }
            },
            None => {
                proof {
                    assert(m0.remove(k) =~= m0);
                    assert forall|j: int| 0 <= j < self.entries@.len() implies (#[trigger] self.entries_view()[j]).0 != k by {
                        lemma_to_map_dom(self.entries_view(), k);
                    }
                    lemma_remove_key_absent(self.entries_view(), k);
                }
            },
        }
        let ghost mid = self.entries_view();
        self.entries.push((key, geom));
        proof {
            assert(self.entries_view() =~= mid.push((k, geometry_of(coords@))));
            lemma_to_map_push(mid, k, geometry_of(coords@));
            assert(self@ =~= m0.insert(k, geometry_of(coords@)));
            assert forall|a: int, b: int| 0 <= a < b < self.entries_view().len() implies (#[trigger] self.entries_view()[a]).0
                != (#[trigger] self.entries_view()[b]).0 by {
                assert(self.entries_view()[a] == mid[a]);
                if b < mid.len() {
                    assert(self.entries_view()[b] == mid[b]);
                }
            }
            assert forall|j: int| 0 <= j < self.entries@.len() implies entry_wf(#[trigger] self.entries_view()[j]) by {
                if j < mid.len() {
                    assert(self.entries_view()[j] == mid[j]);
                }
            }
        }
    }

    /// The stored geometry for `key`, written as `POINT(lat lon)` or
    /// `POLYGON((lat lon, ...))`.
    pub fn geo_get(&self, key: &str) -> (r: Option<String>)
        requires
            self.wf(),
        ensures
            r is Some <==> self@.contains_key(key@),
            r matches Some(s) ==> s@ == geometry_text(self@[key@]),
    {
        match self.find(key) {
            Some(i) => {
                proof {
                    lemma_to_map_index(self.entries_view(), i as int);
                    assert(entry_wf(self.entries_view()[i as int]));
                }
                Some(format_geometry(&self.entries[i].1))
            },
            None => None,
        }
    }
}

/// Writes a vertex as `lat lon`.
fn push_vertex(s: &mut String, p: &(Decimal, Decimal))
    requires
        p.0.wf() && p.1.wf(),
    ensures
        final(s)@ == old(s)@ + vertex_text(*p),
{
    let ghost s0 = s@;
    push_decimal(s, &p.1);
    push_char(s, ' ');
    push_decimal(s, &p.0);
    proof {
        assert(s@ =~= s0 + vertex_text(*p));
    }
}

/// Writes a geometry as `GEOGET` answers it.
pub fn format_geometry(g: &Geometry) -> (r: String)
    requires
        g@.wf(),
    ensures
        r@ == geometry_text(g@),
{
    let mut s = String::new();
    match g {
        Geometry::Point { lon, lat } => {
            s.append("POINT(");
            push_decimal(&mut s, lat);
            push_char(&mut s, ' ');
            push_decimal(&mut s, lon);
            push_char(&mut s, ')');
            proof {
                reveal_strlit("POINT(");
                assert(s@ =~= geometry_text(g@));
            }
        },
        Geometry::Polygon { ring } => {
            s.append("POLYGON((");
            let ghost s0 = s@;
            let mut i: usize = 0;
            while i < ring.len()
                invariant
                    i <= ring.len(),
                    pairs_wf(ring@),
                    s@ == s0 + ring_text(ring@.take(i as int)),
                decreases ring.len() - i,
            {
                if i > 0 {
                    push_char(&mut s, ',');
                    push_char(&mut s, ' ');
                }
                proof {
                    assert(ring@[i as int].0.wf() && ring@[i as int].1.wf());
                }
                push_vertex(&mut s, &ring[i]);
                i += 1;
                proof {
                    assert(ring@.take(i as int).drop_last() =~= ring@.take(i as int - 1));
                    assert(s@ =~= s0 + ring_text(ring@.take(i as int)));
                }
            }
            push_char(&mut s, ')');
            push_char(&mut s, ')');
            proof {
                reveal_strlit("POLYGON((");
                assert(ring@.take(i as int) =~= ring@);
                assert(s@ =~= geometry_text(g@));
            }
        },
    }
    s
}



#[verifier::opaque]
pub open spec fn sorted_by_dist(c: Seq<Candidate>) -> bool {
    forall|i: int, j: int| 0 <= i <= j < c.len() ==> (#[trigger] c[i]).dist <= (#[trigger] c[j]).dist
}

#[verifier::opaque]
pub open spec fn from_entries(ents: Seq<(Seq<char>, GeometryView)>, c: Seq<Candidate>, e: int) -> bool {
    forall|i: int| 0 <= i < c.len() ==> exists|x: int| 0 <= x < e && (#[trigger] ents[x]).0 == (#[trigger] c[i]).key@
        && ents[x].1 == (GeometryView::Point { lon: c[i].lon, lat: c[i].lat })
}

#[verifier::opaque]
pub open spec fn dists_ok(c: Seq<Candidate>, lon: Decimal, lat: Decimal) -> bool {
    forall|i: int| 0 <= i < c.len() ==> (#[trigger] c[i]).dist == sq_dist(c[i].lon, c[i].lat, lon, lat)
}

#[verifier::opaque]
pub open spec fn covers(ents: Seq<(Seq<char>, GeometryView)>, c: Seq<Candidate>, e: int) -> bool {
    forall|x: int| 0 <= x < e && (#[trigger] ents[x]).1 is Point ==> exists|i: int| 0 <= i < c.len() && (#[trigger] c[i]).key@ == ents[x].0
}

#[verifier::opaque]
pub open spec fn distinct_keys(c: Seq<Candidate>) -> bool {
    forall|i: int, j: int| 0 <= i < j < c.len() ==> (#[trigger] c[i]).key@ != (#[trigger] c[j]).key@
}

/// Inserting the candidate of entry `e` at its place keeps the candidates
/// sorted, and each of the following lemmas keeps one more property.
proof fn lemma_insert_sorted(
    ents: Seq<(Seq<char>, GeometryView)>,
    old_out: Seq<Candidate>,
    nw: Seq<Candidate>,
    p: int,
    e: int,
    lat: Decimal,
    lon: Decimal,
)
    requires
        keys_unique(ents),
        0 <= e < ents.len(),
        0 <= p <= old_out.len(),
        nw == old_out.insert(p, nw[p]),
        ents[e].0 == nw[p].key@,
        ents[e].1 == (GeometryView::Point { lon: nw[p].lon, lat: nw[p].lat }),
        nw[p].dist == sq_dist(nw[p].lon, nw[p].lat, lon, lat),
        forall|j: int| 0 <= j < p ==> (#[trigger] old_out[j]).dist <= nw[p].dist,
        p < old_out.len() ==> old_out[p].dist > nw[p].dist,
        forall|i: int| 0 <= i < old_out.len() ==> (#[trigger] old_out[i]).key@ != nw[p].key@,
        sorted_by_dist(old_out),
        dists_ok(old_out, lon, lat),
        covers(ents, old_out, e),
        distinct_keys(old_out),
    ensures
        sorted_by_dist(nw),
{
    reveal(sorted_by_dist);
    reveal(from_entries);
    reveal(dists_ok);
    reveal(covers);
    reveal(distinct_keys);
    assert forall|i: int, j: int| 0 <= i <= j < nw.len() implies (#[trigger] nw[i]).dist <= (#[trigger] nw[j]).dist by {
        let oi = if i < p { i } else { i - 1 };
        let oj = if j < p { j } else { j - 1 };
        if i != p && j != p {
            assert(nw[i] == old_out[oi]);
            assert(nw[j] == old_out[oj]);
        } else if i == p && j != p {
            assert(nw[j] == old_out[oj]);
            assert(oj >= p);
        } else if i != p && j == p {
            assert(nw[i] == old_out[oi]);
        }
    }
}

proof fn lemma_insert_from_entries(
    ents: Seq<(Seq<char>, GeometryView)>,
    old_out: Seq<Candidate>,
    nw: Seq<Candidate>,
    p: int,
    e: int,
    lat: Decimal,
    lon: Decimal,
)
    requires
        keys_unique(ents),
        0 <= e < ents.len(),
        0 <= p <= old_out.len(),
        nw == old_out.insert(p, nw[p]),
        ents[e].0 == nw[p].key@,
        ents[e].1 == (GeometryView::Point { lon: nw[p].lon, lat: nw[p].lat }),
        nw[p].dist == sq_dist(nw[p].lon, nw[p].lat, lon, lat),
        forall|j: int| 0 <= j < p ==> (#[trigger] old_out[j]).dist <= nw[p].dist,
        p < old_out.len() ==> old_out[p].dist > nw[p].dist,
        forall|i: int| 0 <= i < old_out.len() ==> (#[trigger] old_out[i]).key@ != nw[p].key@,
        sorted_by_dist(old_out),
        from_entries(ents, old_out, e),
        dists_ok(old_out, lon, lat),
        covers(ents, old_out, e),
        distinct_keys(old_out),
    ensures
        from_entries(ents, nw, e + 1),
{
    reveal(sorted_by_dist);
    reveal(from_entries);
    reveal(dists_ok);
    reveal(covers);
    reveal(distinct_keys);
    assert forall|i: int| 0 <= i < nw.len() implies exists|x: int| 0 <= x < e + 1 && (#[trigger] ents[x]).0 == (#[trigger] nw[i]).key@
        && ents[x].1 == (GeometryView::Point { lon: nw[i].lon, lat: nw[i].lat }) by {
        if i == p {
            assert(ents[e].0 == nw[i].key@);
        } else {
            let oi = if i < p { i } else { i - 1 };
            assert(nw[i] == old_out[oi]);
            let x = choose|x: int| 0 <= x < e && (#[trigger] ents[x]).0 == old_out[oi].key@
                && ents[x].1 == (GeometryView::Point { lon: old_out[oi].lon, lat: old_out[oi].lat });
            assert(ents[x].0 == nw[i].key@);
        }
    }
}

proof fn lemma_insert_dists(
    ents: Seq<(Seq<char>, GeometryView)>,
    old_out: Seq<Candidate>,
    nw: Seq<Candidate>,
    p: int,
    e: int,
    lat: Decimal,
    lon: Decimal,
)
    requires
        keys_unique(ents),
        0 <= e < ents.len(),
        0 <= p <= old_out.len(),
        nw == old_out.insert(p, nw[p]),
        ents[e].0 == nw[p].key@,
        ents[e].1 == (GeometryView::Point { lon: nw[p].lon, lat: nw[p].lat }),
        nw[p].dist == sq_dist(nw[p].lon, nw[p].lat, lon, lat),
        forall|j: int| 0 <= j < p ==> (#[trigger] old_out[j]).dist <= nw[p].dist,
        p < old_out.len() ==> old_out[p].dist > nw[p].dist,
        forall|i: int| 0 <= i < old_out.len() ==> (#[trigger] old_out[i]).key@ != nw[p].key@,
        sorted_by_dist(old_out),
        dists_ok(old_out, lon, lat),
        covers(ents, old_out, e),
        distinct_keys(old_out),
    ensures
        dists_ok(nw, lon, lat),
{
    reveal(sorted_by_dist);
    reveal(from_entries);
    reveal(dists_ok);
    reveal(covers);
    reveal(distinct_keys);
    assert forall|i: int| 0 <= i < nw.len() implies (#[trigger] nw[i]).dist == sq_dist(nw[i].lon, nw[i].lat, lon, lat) by {
        if i != p {
            let oi = if i < p { i } else { i - 1 };
            assert(nw[i] == old_out[oi]);
        }
    }
}

proof fn lemma_insert_covers(
    ents: Seq<(Seq<char>, GeometryView)>,
    old_out: Seq<Candidate>,
    nw: Seq<Candidate>,
    p: int,
    e: int,
    lat: Decimal,
    lon: Decimal,
)
    requires
        keys_unique(ents),
        0 <= e < ents.len(),
        0 <= p <= old_out.len(),
        nw == old_out.insert(p, nw[p]),
        ents[e].0 == nw[p].key@,
        ents[e].1 == (GeometryView::Point { lon: nw[p].lon, lat: nw[p].lat }),
        nw[p].dist == sq_dist(nw[p].lon, nw[p].lat, lon, lat),
        forall|j: int| 0 <= j < p ==> (#[trigger] old_out[j]).dist <= nw[p].dist,
        p < old_out.len() ==> old_out[p].dist > nw[p].dist,
        forall|i: int| 0 <= i < old_out.len() ==> (#[trigger] old_out[i]).key@ != nw[p].key@,
        sorted_by_dist(old_out),
        dists_ok(old_out, lon, lat),
        covers(ents, old_out, e),
        distinct_keys(old_out),
    ensures
        covers(ents, nw, e + 1),
{
    reveal(sorted_by_dist);
    reveal(from_entries);
    reveal(dists_ok);
    reveal(covers);
    reveal(distinct_keys);
    assert forall|x: int| 0 <= x < e + 1 && (#[trigger] ents[x]).1 is Point implies exists|i: int| 0 <= i < nw.len() && (#[trigger] nw[i]).key@ == ents[x].0 by {
        if x == e {
            assert(nw[p].key@ == ents[x].0);
        } else {
            let i = choose|i: int| 0 <= i < old_out.len() && (#[trigger] old_out[i]).key@ == ents[x].0;
            if i < p {
                assert(nw[i] == old_out[i]);
            } else {
                assert(nw[i + 1] == old_out[i]);
            }
        }
    }
}

proof fn lemma_insert_distinct(
    ents: Seq<(Seq<char>, GeometryView)>,
    old_out: Seq<Candidate>,
    nw: Seq<Candidate>,
    p: int,
    e: int,
    lat: Decimal,
    lon: Decimal,
)
    requires
        keys_unique(ents),
        0 <= e < ents.len(),
        0 <= p <= old_out.len(),
        nw == old_out.insert(p, nw[p]),
        ents[e].0 == nw[p].key@,
        ents[e].1 == (GeometryView::Point { lon: nw[p].lon, lat: nw[p].lat }),
        nw[p].dist == sq_dist(nw[p].lon, nw[p].lat, lon, lat),
        forall|j: int| 0 <= j < p ==> (#[trigger] old_out[j]).dist <= nw[p].dist,
        p < old_out.len() ==> old_out[p].dist > nw[p].dist,
        forall|i: int| 0 <= i < old_out.len() ==> (#[trigger] old_out[i]).key@ != nw[p].key@,
        sorted_by_dist(old_out),
        dists_ok(old_out, lon, lat),
        covers(ents, old_out, e),
        distinct_keys(old_out),
    ensures
        distinct_keys(nw),
{
    reveal(sorted_by_dist);
    reveal(from_entries);
    reveal(dists_ok);
    reveal(covers);
    reveal(distinct_keys);
    assert forall|i: int, j: int| 0 <= i < j < nw.len() implies (#[trigger] nw[i]).key@ != (#[trigger] nw[j]).key@ by {
        let oi = if i < p { i } else { i - 1 };
        let oj = if j < p { j } else { j - 1 };
        if i != p {
            assert(nw[i] == old_out[oi]);
        }
        if j != p {
            assert(nw[j] == old_out[oj]);
        }
    }
}

/// Passing over a polygon entry keeps the candidates as they are.
proof fn lemma_skip_polygon(ents: Seq<(Seq<char>, GeometryView)>, c: Seq<Candidate>, e: int)
    requires
        0 <= e < ents.len(),
        ents[e].1 is Polygon,
        from_entries(ents, c, e),
        covers(ents, c, e),
    ensures
        from_entries(ents, c, e + 1),
        covers(ents, c, e + 1),
{
    reveal(from_entries);
    reveal(covers);
    assert forall|i: int| 0 <= i < c.len() implies exists|x: int| 0 <= x < e + 1 && (#[trigger] ents[x]).0 == (#[trigger] c[i]).key@
        && ents[x].1 == (GeometryView::Point { lon: c[i].lon, lat: c[i].lat }) by {
        let x = choose|x: int| 0 <= x < e && (#[trigger] ents[x]).0 == c[i].key@
            && ents[x].1 == (GeometryView::Point { lon: c[i].lon, lat: c[i].lat });
    }
}

/// Whether `i` occurs in `o`.
pub open spec fn holds(o: Seq<int>, i: int) -> bool {
    exists|j: int| 0 <= j < o.len() && o[j] == i
}

pub proof fn lemma_first_greater(o: Seq<int>, d: Seq<u64>, k: u64)
    requires
        forall|j: int| 0 <= j < o.len() ==> 0 <= #[trigger] o[j] < d.len(),
    ensures
        first_greater(o, d, k) <= o.len(),
        forall|j: int| 0 <= j < first_greater(o, d, k) ==> d[#[trigger] o[j]] <= k,
        first_greater(o, d, k) < o.len() ==> d[o[first_greater(o, d, k) as int]] > k,
    decreases o.len(),
{
    if o.len() > 0 && d[o[0]] <= k {
        let t = o.drop_first();
        assert forall|j: int| 0 <= j < t.len() implies 0 <= #[trigger] t[j] < d.len() by {
            assert(t[j] == o[j + 1]);
        }
        lemma_first_greater(t, d, k);
        assert forall|j: int| 0 <= j < first_greater(o, d, k) implies d[#[trigger] o[j]] <= k by {
            if j > 0 {
                assert(o[j] == t[j - 1]);
            }
        }
    }
}

/// `gc_order` lists each position below `n` and orders them by distance.
pub proof fn lemma_gc_order(d: Seq<u64>, n: int)
    requires
        0 <= n <= d.len(),
    ensures
        gc_order(d, n).len() == n,
        forall|j: int| 0 <= j < n ==> 0 <= #[trigger] gc_order(d, n)[j] < n,
        forall|j1: int, j2: int| 0 <= j1 <= j2 < n ==> d[#[trigger] gc_order(d, n)[j1]] <= d[#[trigger] gc_order(d, n)[j2]],
        forall|i: int| 0 <= i < n ==> #[trigger] holds(gc_order(d, n), i),
    decreases n,
{
    if n > 0 {
        lemma_gc_order(d, n - 1);
        let o = gc_order(d, n - 1);
        let k = d[n - 1];
        assert forall|j: int| 0 <= j < o.len() implies 0 <= #[trigger] o[j] < d.len() by {}
        lemma_first_greater(o, d, k);
        let p = first_greater(o, d, k) as int;
        let q = gc_order(d, n);
        assert(q == o.insert(p, n - 1));
        assert forall|j: int| 0 <= j < n implies 0 <= #[trigger] q[j] < n by {
            if j < p {
                assert(q[j] == o[j]);
            } else if j > p {
                assert(q[j] == o[j - 1]);
            }
        }
        assert forall|j1: int, j2: int| 0 <= j1 <= j2 < n implies d[#[trigger] q[j1]] <= d[#[trigger] q[j2]] by {
            if j1 < p && j2 < p {
                assert(q[j1] == o[j1] && q[j2] == o[j2]);
            } else if j1 < p && j2 == p {
                assert(q[j1] == o[j1]);
            } else if j1 < p && j2 > p {
                assert(q[j1] == o[j1] && q[j2] == o[j2 - 1]);
            } else if j1 == p && j2 > p {
                assert(q[j2] == o[j2 - 1]);
                assert(d[o[p]] > k);
                assert(d[o[p]] <= d[o[j2 - 1]]);
            } else if j1 > p {
                assert(q[j1] == o[j1 - 1] && q[j2] == o[j2 - 1]);
            }
        }
        assert forall|i: int| 0 <= i < n implies #[trigger] holds(q, i) by {
            if i == n - 1 {
                assert(q[p] == i);
            } else {
                assert(holds(o, i));
                let j = choose|j: int| 0 <= j < o.len() && #[trigger] o[j] == i;
                if j < p {
                    assert(q[j] == i);
                } else {
                    assert(q[j + 1] == i);
                }
            }
        }
    }
}

pub proof fn lemma_first_outside(o: Seq<int>, w: Seq<bool>)
    ensures
        first_outside(o, w) <= o.len(),
        forall|j: int| 0 <= j < first_outside(o, w) ==> w[#[trigger] o[j]],
        first_outside(o, w) < o.len() ==> !w[o[first_outside(o, w) as int]],
    decreases o.len(),
{
    if o.len() > 0 && w[o[0]] {
        let t = o.drop_first();
        lemma_first_outside(t, w);
        assert forall|j: int| 0 <= j < first_outside(o, w) implies w[#[trigger] o[j]] by {
            if j > 0 {
                assert(o[j] == t[j - 1]);
            }
        }
    }
}

/// `d` in units of 10^-18, which holds it exactly.
pub fn exact_units(d: &Decimal) -> (r: i128)
    requires
        d.wf(),
    ensures
        r == d.exact(),
        -10_000_000_000_000_000_000_000_000_000 < r < 10_000_000_000_000_000_000_000_000_000,
{
    proof {
        lemma_pow10_values();
        lemma_pow10_add((INT_DIGITS + d.scale) as nat, (FRAC_DIGITS - d.scale) as nat);
        assert((INT_DIGITS + d.scale) as nat + (FRAC_DIGITS - d.scale) as nat == 28);
        lemma_pow10_mono((FRAC_DIGITS - d.scale) as nat, 18);
        lemma_pow10_pos((FRAC_DIGITS - d.scale) as nat);
        let m = d.mant as int;
        let a = pow10((INT_DIGITS + d.scale) as nat);
        let b = pow10((FRAC_DIGITS - d.scale) as nat);
        assert(-(a * b) < m * b < a * b) by (nonlinear_arith)
            requires
                abs(m) < a,
                b >= 1,
        ;
    }
    let f = pow10_exec(FRAC_DIGITS - d.scale);
    d.mant * (f as i128)
}

/// `d` in units of 10^-8, rounded toward zero.
pub fn units(d: &Decimal) -> (r: i64)
    requires
        d.wf(),
    ensures
        r == d.units(),
        -1_000_000_000_000_000_000 < r < 1_000_000_000_000_000_000,
{
    proof {
        lemma_pow10_values();
    }
    let ghost m = d.mant as int;
    let ghost a = pow10((INT_DIGITS + d.scale) as nat);
    if d.scale <= 8 {
        proof {
            lemma_pow10_add((INT_DIGITS + d.scale) as nat, (8 - d.scale) as nat);
            assert((INT_DIGITS + d.scale) as nat + (8 - d.scale) as nat == 18);
            lemma_pow10_mono((8 - d.scale) as nat, 8);
            lemma_pow10_pos((8 - d.scale) as nat);
            let b = pow10((8 - d.scale) as nat);
            assert(-(a * b) < m * b < a * b) by (nonlinear_arith)
                requires
                    abs(m) < a,
                    b >= 1,
            ;
        }
        let f = pow10_exec(8 - d.scale);
        (d.mant * (f as i128)) as i64
    } else {
        proof {
            lemma_pow10_add(18, (d.scale - 8) as nat);
            assert(18 + (d.scale - 8) as nat == (INT_DIGITS + d.scale) as nat);
            lemma_pow10_mono((d.scale - 8) as nat, 10);
            lemma_pow10_pos((d.scale - 8) as nat);
            let b = pow10((d.scale - 8) as nat);
            let p18 = pow10(18);
            assert(abs(m) / b < p18) by {
                vstd::arithmetic::div_mod::lemma_fundamental_div_mod(abs(m), b);
                vstd::arithmetic::div_mod::lemma_mod_bound(abs(m), b);
                let qq = abs(m) / b;
                let rr = abs(m) % b;
                assert(qq < p18) by (nonlinear_arith)
                    requires
                        abs(m) == b * qq + rr,
                        rr >= 0,
                        abs(m) < p18 * b,
                        b >= 1,
                ;
            }
        }
        let f = pow10_exec(d.scale - 8) as i128;
        let q: i128 = if d.mant < 0 {
            -((-d.mant) / f)
        } else {
            d.mant / f
        };
        q as i64
    }
}

/// Squared planar distance between `(lon1, lat1)` and `(lon2, lat2)`.
pub fn sq_dist_exec(lon1: &Decimal, lat1: &Decimal, lon2: &Decimal, lat2: &Decimal) -> (r: u128)
    requires
        lon1.wf() && lat1.wf() && lon2.wf() && lat2.wf(),
    ensures
        r == sq_dist(*lon1, *lat1, *lon2, *lat2),
{
    let dx = (units(lon1) as i128) - (units(lon2) as i128);
    let dy = (units(lat1) as i128) - (units(lat2) as i128);
    proof {
        assert(0 <= dx * dx <= 4_000_000_000_000_000_000_000_000_000_000_000_000) by (nonlinear_arith)
            requires
                -2_000_000_000_000_000_000 <= dx <= 2_000_000_000_000_000_000,
        ;
        assert(0 <= dy * dy <= 4_000_000_000_000_000_000_000_000_000_000_000_000) by (nonlinear_arith)
            requires
                -2_000_000_000_000_000_000 <= dy <= 2_000_000_000_000_000_000,
        ;
    }
    ((dx * dx) + (dy * dy)) as u128
}

/// Whether a polygon's bounding box meets the search box.
pub fn ring_meets_box_exec(ring: &Vec<(Decimal, Decimal)>, lat: &Decimal, lon: &Decimal, radius: &Decimal) -> (r: bool)
    requires
        pairs_wf(ring@),
        lat.wf() && lon.wf() && radius.wf(),
    ensures
        r == ring_meets_box(ring@, *lat, *lon, *radius),
{
    let ru = exact_units(radius);
    let rr: i128 = if ru < 0 { -ru } else { ru };
    let cx = exact_units(lon);
    let cy = exact_units(lat);
    let mut a = false;
    let mut b = false;
    let mut c = false;
    let mut d = false;
    let mut i: usize = 0;
    while i < ring.len()
        invariant
            i <= ring.len(),
            pairs_wf(ring@),
            rr == abs(radius.exact()),
            cx == lon.exact(),
            cy == lat.exact(),
            0 <= rr < 10_000_000_000_000_000_000_000_000_000,
            -10_000_000_000_000_000_000_000_000_000 < cx < 10_000_000_000_000_000_000_000_000_000,
            -10_000_000_000_000_000_000_000_000_000 < cy < 10_000_000_000_000_000_000_000_000_000,
            a <==> exists|j: int| 0 <= j < i && (#[trigger] ring@[j]).0.exact() <= cx + rr,
            b <==> exists|j: int| 0 <= j < i && (#[trigger] ring@[j]).0.exact() >= cx - rr,
            c <==> exists|j: int| 0 <= j < i && (#[trigger] ring@[j]).1.exact() <= cy + rr,
            d <==> exists|j: int| 0 <= j < i && (#[trigger] ring@[j]).1.exact() >= cy - rr,
        decreases ring.len() - i,
    {
        proof {
            assert(ring@[i as int].0.wf() && ring@[i as int].1.wf());
        }
        let x = exact_units(&ring[i].0);
        let y = exact_units(&ring[i].1);
        a = a || x <= cx + rr;
        b = b || x >= cx - rr;
        c = c || y <= cy + rr;
        d = d || y >= cy - rr;
        i += 1;
    }
    a && b && c && d
}

pub open spec fn index_views(v: Seq<usize>) -> Seq<int> {
    v.map_values(|x: usize| x as int)
}

/// The positions of `dists` ordered by distance; equal distances keep their
/// order.
pub fn great_circle_order(dists: &Vec<u64>) -> (r: Vec<usize>)
    ensures
        index_views(r@) == gc_order(dists@, dists@.len() as int),
{
    let mut order: Vec<usize> = Vec::new();
    let mut i: usize = 0;
    proof {
        assert(index_views(order@) =~= gc_order(dists@, 0));
    }
    while i < dists.len()
        invariant
            i <= dists.len(),
            index_views(order@) == gc_order(dists@, i as int),
        decreases dists.len() - i,
    {
        proof {
            lemma_gc_order(dists@, i as int);
        }
        let ghost ov = index_views(order@);
        let k = dists[i];
        let mut p: usize = 0;
        proof {
            assert(ov.skip(0) =~= ov);
        }
        while p < order.len() && dists[order[p]] <= k
            invariant
                p <= order.len() == i,
                i < dists.len(),
                ov == index_views(order@),
                ov == gc_order(dists@, i as int),
                forall|j: int| 0 <= j < i ==> 0 <= #[trigger] ov[j] < i,
                first_greater(ov, dists@, k) == p + first_greater(ov.skip(p as int), dists@, k),
            decreases order.len() - p,
        {
            proof {
                assert(ov[p as int] == order@[p as int] as int);
                assert(ov.skip(p as int).drop_first() =~= ov.skip(p as int + 1));
            }
            p += 1;
        }
        proof {
            if p < order.len() {
                assert(ov[p as int] == order@[p as int] as int);
            }
            assert(first_greater(ov.skip(p as int), dists@, k) == 0);
        }
        order.insert(p, i);
        proof {
            assert(index_views(order@) =~= ov.insert(p as int, i as int));
        }
        i += 1;
    }
    order
}

/// The keys of the candidates in order of their distances, up to the first
/// one flagged outside the radius.
pub fn select_within(cands: &Vec<Candidate>, dists: &Vec<u64>, within: &Vec<bool>) -> (r: Vec<String>)
    requires
        within.len() == cands.len(),
        dists.len() == cands.len(),
    ensures
        string_views(r@) == reported(cands@, dists@, within@),
{
    let order = great_circle_order(dists);
    let ghost o = index_views(order@);
    proof {
        lemma_gc_order(dists@, dists@.len() as int);
        assert(o.skip(0) =~= o);
    }
    let mut out: Vec<String> = Vec::new();
    let mut j: usize = 0;
    proof {
        assert(string_views(out@) =~= o.take(0).map_values(|i: int| cands@[i].key@));
    }
    while j < order.len() && within[order[j]]
        invariant
            j <= order.len() == cands.len() == within.len() == dists.len(),
            o == index_views(order@),
            o == gc_order(dists@, cands.len() as int),
            forall|x: int| 0 <= x < o.len() ==> 0 <= #[trigger] o[x] < cands.len(),
            first_outside(o, within@) == j + first_outside(o.skip(j as int), within@),
            string_views(out@) == o.take(j as int).map_values(|i: int| cands@[i].key@),
        decreases order.len() - j,
    {
        proof {
            assert(o[j as int] == order@[j as int] as int);
            assert(o.skip(j as int).drop_first() =~= o.skip(j as int + 1));
        }
        let ghost before = out@;
        let k = cands[order[j]].key.clone();
        out.push(k);
        proof {
            assert(string_views(out@) =~= string_views(before).push(k@));
            assert(o.take(j as int + 1) =~= o.take(j as int).push(o[j as int]));
            assert(string_views(out@) =~= o.take(j as int + 1).map_values(|i: int| cands@[i].key@));
        }
        j += 1;
    }
    proof {
        if j < order.len() {
            assert(o[j as int] == order@[j as int] as int);
        }
        assert(first_outside(o.skip(j as int), within@) == 0);
    }
    out
}

/// The search's answer: one key per line, or a lone newline when there is none.
pub open spec fn lines_text(ks: Seq<Seq<char>>) -> Seq<char>
    decreases ks.len(),
{
    if ks.len() == 0 {
        Seq::empty()
    } else {
        lines_text(ks.drop_last()) + ks.last() + seq!['\n']
    }
}

pub open spec fn search_text(ks: Seq<Seq<char>>) -> Seq<char> {
    if ks.len() == 0 {
        seq!['\n']
    } else {
        lines_text(ks)
    }
}

/// Writes search results as the protocol answers them.
pub fn format_search(keys: &Vec<String>) -> (r: String)
    ensures
        r@ == search_text(string_views(keys@)),
{
    let mut s = String::new();
    if keys.len() == 0 {
        push_char(&mut s, '\n');
        return s;
    }
    let mut i: usize = 0;
    while i < keys.len()
        invariant
            i <= keys.len(),
            s@ == lines_text(string_views(keys@.take(i as int))),
        decreases keys.len() - i,
    {
        s.append(keys[i].as_str());
        push_char(&mut s, '\n');
        i += 1;
        proof {
            assert(string_views(keys@.take(i as int)).drop_last() =~= string_views(keys@.take(i as int - 1)));
        }
    }
    proof {
        assert(keys@.take(i as int) =~= keys@);
    }
    s
}

impl GeoDatabase {
    /// Every stored point with its squared planar distance to `(lat, lon)`,
    /// nearest first.
    #[verifier::rlimit(100)]
    pub fn nearest_points(&self, lat: &Decimal, lon: &Decimal) -> (r: Vec<Candidate>)
        requires
            self.wf(),
            lat.wf() && lon.wf(),
        ensures
            self.nearest_order(*lat, *lon, r@),
    {
        let ghost ents = self.entries_view();
        let mut out: Vec<Candidate> = Vec::new();
        let mut e: usize = 0;
        proof {
            reveal(sorted_by_dist);
            reveal(from_entries);
            reveal(dists_ok);
            reveal(covers);
            reveal(distinct_keys);
        }
        while e < self.entries.len()
            invariant
                e <= self.entries.len(),
                self.wf(),
                ents == self.entries_view(),
                lat.wf() && lon.wf(),
                sorted_by_dist(out@),
                from_entries(ents, out@, e as int),
                dists_ok(out@, *lon, *lat),
                covers(ents, out@, e as int),
                distinct_keys(out@),
            decreases self.entries.len() - e,
        {
            proof {
                assert(ents[e as int] == (self.entries@[e as int].0@, self.entries@[e as int].1@));
                assert(entry_wf(ents[e as int]));
            }
            match &self.entries[e].1 {
                Geometry::Point { lon: plon, lat: plat } => {
                    let d = sq_dist_exec(plon, plat, lon, lat);
                    let mut p: usize = 0;
                    while p < out.len() && out[p].dist <= d
                        invariant
                            p <= out.len(),
                            forall|j: int| 0 <= j < p ==> (#[trigger] out@[j]).dist <= d,
                        decreases out.len() - p,
                    {
                        p += 1;
                    }
                    let cand = Candidate { key: self.entries[e].0.clone(), lat: *plat, lon: *plon, dist: d };
                    let ghost old_out = out@;
                    let ghost ck = cand.key@;
                    proof {
                        reveal(from_entries);
                        assert forall|i: int| 0 <= i < old_out.len() implies (#[trigger] old_out[i]).key@ != ck by {
                            let x = choose|x: int| 0 <= x < e && (#[trigger] ents[x]).0 == old_out[i].key@
                                && ents[x].1 == (GeometryView::Point { lon: old_out[i].lon, lat: old_out[i].lat });
                            assert(ents[x].0 != ents[e as int].0);
                        }
                    }
                    out.insert(p, cand);
                    proof {
                        assert(out@ == old_out.insert(p as int, out@[p as int]));
                        lemma_insert_sorted(ents, old_out, out@, p as int, e as int, *lat, *lon);
                        lemma_insert_from_entries(ents, old_out, out@, p as int, e as int, *lat, *lon);
                        lemma_insert_dists(ents, old_out, out@, p as int, e as int, *lat, *lon);
                        lemma_insert_covers(ents, old_out, out@, p as int, e as int, *lat, *lon);
                        lemma_insert_distinct(ents, old_out, out@, p as int, e as int, *lat, *lon);
                    }
                },
                Geometry::Polygon { .. } => {
                    proof {
                        lemma_skip_polygon(ents, out@, e as int);
                    }
                },
            }
            e += 1;
        }
        proof {
            reveal(sorted_by_dist);
            reveal(from_entries);
            reveal(dists_ok);
            reveal(covers);
            reveal(distinct_keys);
            let m = self@;
            assert forall|i: int| 0 <= i < out@.len() implies {
                &&& m.contains_key((#[trigger] out@[i]).key@)
                &&& m[out@[i].key@] == (GeometryView::Point { lon: out@[i].lon, lat: out@[i].lat })
            } by {
                let x = choose|x: int| 0 <= x < e && (#[trigger] ents[x]).0 == out@[i].key@
                    && ents[x].1 == (GeometryView::Point { lon: out@[i].lon, lat: out@[i].lat });
                lemma_to_map_index(ents, x);
            }
            assert forall|k: Seq<char>| m.contains_key(k) && m[k] is Point implies exists|i: int|
                0 <= i < out@.len() && (#[trigger] out@[i]).key@ == k by {
                lemma_to_map_dom(ents, k);
                let x = choose|x: int| 0 <= x < ents.len() && (#[trigger] ents[x]).0 == k;
                lemma_to_map_index(ents, x);
                assert(ents[x].1 is Point);
            }
        }
        out
    }

    /// The keys of the stored polygons whose bounding boxes meet the box
    /// `[lon - r, lon + r] x [lat - r, lat + r]`, in storage order.
    pub fn polygons_near(&self, lat: &Decimal, lon: &Decimal, radius: &Decimal) -> (r: Vec<String>)
        requires
            self.wf(),
            lat.wf() && lon.wf() && radius.wf(),
        ensures
            string_views(r@) == polygon_hits(self.entries_view(), *lat, *lon, *radius),
    {
        let ghost ents = self.entries_view();
        let mut out: Vec<String> = Vec::new();
        let mut e: usize = 0;
        while e < self.entries.len()
            invariant
                e <= self.entries.len(),
                self.wf(),
                ents == self.entries_view(),
                lat.wf() && lon.wf() && radius.wf(),
                string_views(out@) == polygon_hits(ents.take(e as int), *lat, *lon, *radius),
            decreases self.entries.len() - e,
        {
            proof {
                assert(ents[e as int] == (self.entries@[e as int].0@, self.entries@[e as int].1@));
                assert(entry_wf(ents[e as int]));
                assert(ents.take(e as int + 1).drop_last() =~= ents.take(e as int));
                assert(ents.take(e as int + 1).last() == ents[e as int]);
            }
            match &self.entries[e].1 {
                Geometry::Polygon { ring } => {
                    if ring_meets_box_exec(ring, lat, lon, radius) {
                        out.push(self.entries[e].0.clone());
                        proof {
                            assert(string_views(out@) =~= polygon_hits(ents.take(e as int + 1), *lat, *lon, *radius));
                        }
                    } else {
                        proof {
                            assert(string_views(out@) =~= polygon_hits(ents.take(e as int + 1), *lat, *lon, *radius));
                        }
                    }
                },
                Geometry::Point { .. } => {
                    proof {
                        assert(string_views(out@) =~= polygon_hits(ents.take(e as int + 1), *lat, *lon, *radius));
                    }
                },
            }
            e += 1;
        }
        proof {
            assert(ents.take(e as int) =~= ents);
        }
        out
    }

    /// Radius search. `cands` is what `nearest_points` gave for `(lat, lon)`;
    /// `dists[i]` orders `cands[i]` by its great-circle distance to the centre,
    /// and `within[i]` says whether that distance is at most `radius` metres.
    /// The points come first: the candidates in order of distance, up to the
    /// first one outside the radius; then the polygons whose boxes meet the box
    /// of half-width `radius` taken in degrees.
    pub fn geo_search(&self, cands: &Vec<Candidate>, dists: &Vec<u64>, within: &Vec<bool>, lat: &Decimal, lon: &Decimal, radius: &Decimal) -> (r: Vec<String>)
        requires
            self.wf(),
            lat.wf() && lon.wf() && radius.wf(),
            self.nearest_order(*lat, *lon, cands@),
            within.len() == cands.len(),
            dists.len() == cands.len(),
        ensures
            string_views(r@) == self.search_spec(cands@, dists@, within@, *lat, *lon, *radius),
    {
        let mut pts = select_within(cands, dists, within);
        let mut polys = self.polygons_near(lat, lon, radius);
        let ghost a = pts@;
        let ghost b = polys@;
        pts.append(&mut polys);
        proof {
            assert(string_views(pts@) =~= string_views(a) + string_views(b));
        }
        pts
    }
}

} // verus!
