//! Radio towers and the coverage of road edges by their providers.

use vstd::prelude::*;
use vstd::set_lib::*;
use crate::geom::{
    intersect,
    is_section_in_disk,
    Coord,
    SegmentSection,
    TuplePoint,
    UNIT,
};
use crate::graph::NodeInfo;
use crate::order::{apply_order, covers, is_stable_order, key_before, permuted, stable_order};

verus! {

/// The radio technology of a tower.
#[derive(Debug, Clone, Copy, PartialEq, Eq, Structural)]
pub enum TowerType {
    LTE,
    UMTS,
    GSM,
}

/// A mobile-network provider.
#[derive(Debug, Clone, Copy, PartialEq, Eq, Hash, Structural)]
pub enum Provider {
    Telekom,
    Vodafone,
    O2,
}

impl Provider {
    /// The number that stands for the provider in stored data.
    pub open spec fn code_of(self) -> u64 {
        match self {
            Provider::Telekom => 1,
            Provider::Vodafone => 2,
            Provider::O2 => 3,
        }
    }

    /// The number that stands for the provider in stored data.
    pub fn code(&self) -> (r: u64)
        ensures
            r == self.code_of(),
    {
        match *self {
            Provider::Telekom => 1,
            Provider::Vodafone => 2,
            Provider::O2 => 3,
        }
    }

    /// The provider that a number between 1 and 3 stands for.
    pub fn from_code(value: u64) -> (r: Option<Provider>)
        ensures
            match r {
                Some(p) => p.code_of() == value,
                None => value < 1 || value > 3,
            },
    {
        match value {
            1 => Some(Provider::Telekom),
            2 => Some(Provider::Vodafone),
            3 => Some(Provider::O2),
            _ => None,
        }
    }
}

/// A radio tower: where it stands and how far it reaches, in millimetres.
#[derive(Debug, Clone, Copy)]
pub struct Tower {
    pub radio: TowerType,
    pub net: Provider,
    pub lat: i64,
    pub lon: i64,
    pub range: u64,
}

impl Coord for Tower {
    open spec fn lat_spec(&self) -> i64 {
        self.lat
    }

    open spec fn lon_spec(&self) -> i64 {
        self.lon
    }

    #[inline]
    fn lat(&self) -> (r: i64) {
        self.lat
    }

    #[inline]
    fn lon(&self) -> (r: i64) {
        self.lon
    }
}

/// For each provider, the covered fraction of every edge, in units of
/// `1 / UNIT`.
pub struct Coverage {
    telekom: Vec<u64>,
    vodafone: Vec<u64>,
    o2: Vec<u64>,
    size: usize,
}

impl Coverage {
    /// The fractions stored for provider `p`, by edge index.
    pub closed spec fn values(&self, p: Provider) -> Seq<u64> {
        match p {
            Provider::Telekom => self.telekom@,
            Provider::Vodafone => self.vodafone@,
            Provider::O2 => self.o2@,
        }
    }

    /// The number of edges that the store describes.
    pub closed spec fn size(&self) -> nat {
        self.size as nat
    }

    /// Every provider has one fraction per edge, and none exceeds `UNIT`.
    pub open spec fn wf(&self) -> bool {
        forall|p: Provider|
            {
                &&& (#[trigger] self.values(p)).len() == self.size()
                &&& forall|i: int|
                    0 <= i < self.size() ==> (#[trigger] self.values(p)[i]) <= UNIT
            }
    }

    /// A store for `size` edges with no coverage anywhere.
    pub fn new(size: usize) -> (c: Coverage)
        ensures
            c.wf(),
            c.size() == size,
            forall|p: Provider, i: int| 0 <= i < size ==> (#[trigger] c.values(p)[i]) == 0,
    {
        Coverage {
            telekom: zeros(size),
            vodafone: zeros(size),
            o2: zeros(size),
            size,
        }
    }

    /// Records that provider `p` covers the fraction `value` of edge `n`.
    pub fn set(&mut self, p: &Provider, n: usize, value: u64)
        requires
            old(self).wf(),
            n < old(self).size(),
            value <= UNIT,
        ensures
            final(self).wf(),
            final(self).size() == old(self).size(),
            final(self).values(*p) == old(self).values(*p).update(n as int, value),
            forall|q: Provider| q != *p ==> final(self).values(q) == old(self).values(q),
    {
        proof {
            assert(old(self).values(Provider::Telekom).len() == old(self).size());
            assert(old(self).values(Provider::Vodafone).len() == old(self).size());
            assert(old(self).values(Provider::O2).len() == old(self).size());
        }
        match *p {
            Provider::Telekom => {
                self.telekom[n] = value;
            },
            Provider::Vodafone => {
                self.vodafone[n] = value;
            },
            Provider::O2 => {
                self.o2[n] = value;
            },
        }
        proof {
            assert forall|q: Provider| final(self).wf_for(q) by {
                assert(old(self).wf_for(q));
            }
        }
    }

    /// The fractions of provider `p`, or nothing when no provider is asked
    /// for.
    pub fn get_all(&self, p: Option<Provider>) -> (r: Option<&Vec<u64>>)
        ensures
            match p {
                Some(q) => r.is_some() && r.unwrap()@ == self.values(q),
                None => r.is_none(),
            },
    {
        match p {
            Some(Provider::Telekom) => Some(&self.telekom),
            Some(Provider::Vodafone) => Some(&self.vodafone),
            Some(Provider::O2) => Some(&self.o2),
            None => None,
        }
    }

    /// The number of edges that the store describes.
    pub fn len(&self) -> (n: usize)
        ensures
            n == self.size(),
    {
        self.size
    }

    /// Whether the store is well formed.
    pub fn is_valid(&self) -> (r: bool)
        ensures
            r == self.wf(),
    {
        let r = within_unit(&self.telekom, self.size) && within_unit(&self.vodafone, self.size)
            && within_unit(&self.o2, self.size);
        proof {
            if r {
                assert forall|p: Provider| #[trigger] self.wf_for(p) by {}
            } else {
                assert(!self.wf_for(Provider::Telekom) || !self.wf_for(Provider::Vodafone)
                    || !self.wf_for(Provider::O2));
            }
        }
        r
    }

    /// Provider `p` has one fraction per edge, and none exceeds `UNIT`.
    spec fn wf_for(&self, p: Provider) -> bool {
        &&& self.values(p).len() == self.size()
        &&& forall|i: int| 0 <= i < self.size() ==> (#[trigger] self.values(p)[i]) <= UNIT
    }
}

/// The unit stretches of a segment that lie in one of the sections. Stretch
/// `t` reaches from the fraction `t / UNIT` of the segment to the fraction
/// `(t + 1) / UNIT`.
pub open spec fn covered(sections: Seq<SegmentSection>) -> Set<int> {
    Set::new(
        |t: int|
            exists|i: int|
                0 <= i < sections.len() && (#[trigger] sections[i]).start() <= t < sections[i].end(),
    )
}

/// The length of the union of the sections, in units of `1 / UNIT`.
pub open spec fn union_length(sections: Seq<SegmentSection>) -> nat {
    covered(sections).len()
}

/// All the sections are well formed.
pub open spec fn all_wf(sections: Seq<SegmentSection>) -> bool {
    forall|i: int| 0 <= i < sections.len() ==> (#[trigger] sections[i]).wf()
}

/// One more section covers its own stretches besides.
proof fn lemma_covered_push(sections: Seq<SegmentSection>, s: SegmentSection)
    ensures
        covered(sections.push(s)) == covered(sections).union(set_int_range(s.start(), s.end())),
{
    let more = sections.push(s);
    assert forall|t: int| covered(more).contains(t) <==> covered(sections).union(
        set_int_range(s.start(), s.end()),
    ).contains(t) by {
        if covered(more).contains(t) {
            let i = choose|i: int|
                0 <= i < more.len() && (#[trigger] more[i]).start() <= t < more[i].end();
            if i < sections.len() {
                assert(sections[i] == more[i]);
            }
        }
        if covered(sections).contains(t) {
            let i = choose|i: int|
                0 <= i < sections.len() && (#[trigger] sections[i]).start() <= t
                    < sections[i].end();
            assert(more[i] == sections[i]);
        }
        if set_int_range(s.start(), s.end()).contains(t) {
            assert(more[sections.len() as int] == s);
        }
    }
    assert(covered(more) =~= covered(sections).union(set_int_range(s.start(), s.end())));
}

/// The union of sections of a segment lies on the segment, and is no
/// longer than the segment.
pub proof fn lemma_covered_bounded(sections: Seq<SegmentSection>)
    requires
        all_wf(sections),
    ensures
        covered(sections).subset_of(set_int_range(0, UNIT as int)),
        covered(sections).finite(),
        0 <= union_length(sections) <= UNIT,
{
    assert forall|t: int| covered(sections).contains(t) implies set_int_range(
        0,
        UNIT as int,
    ).contains(t) by {
        let i = choose|i: int|
            0 <= i < sections.len() && (#[trigger] sections[i]).start() <= t < sections[i].end();
        sections[i].lemma_bounds();
    }
    lemma_int_range(0, UNIT as int);
    lemma_len_subset(covered(sections), set_int_range(0, UNIT as int));
}

/// Rearranged sections cover the same stretches.
proof fn lemma_covered_permuted(sections: Seq<SegmentSection>, order: Seq<usize>)
    requires
        covers(order, 0, sections.len() as int),
        sections.len() <= usize::MAX,
    ensures
        covered(permuted(sections, order)) == covered(sections),
{
    let p = permuted(sections, order);
    assert forall|t: int| covered(p).contains(t) <==> covered(sections).contains(t) by {
        if covered(p).contains(t) {
            let i = choose|i: int| 0 <= i < p.len() && (#[trigger] p[i]).start() <= t < p[i].end();
            assert(p[i] == sections[order[i] as int]);
        }
        if covered(sections).contains(t) {
            let i = choose|i: int|
                0 <= i < sections.len() && (#[trigger] sections[i]).start() <= t
                    < sections[i].end();
            assert(order.contains(i as usize));
            let k = choose|k: int| 0 <= k < order.len() && order[k] == i as usize;
            assert(p[k] == sections[i]);
        }
    }
    assert(covered(p) =~= covered(sections));
}

/// The sorting key of a section: its start, then its end.
spec fn section_key(s: SegmentSection) -> u128 {
    (s.start() * 0x1_0000_0000_0000_0000 + s.end()) as u128
}

/// The length of the union of the sections, in units of `1 / UNIT`: the
/// sections are sorted by their start, sections that overlap are merged, and
/// the lengths of what is left are added up.
pub fn accumulate_sections(sections: Vec<SegmentSection>) -> (r: u64)
    ensures
        r == union_length(sections@),
        r <= UNIT,
{
    let n: usize = sections.len();
    let mut keys: Vec<u128> = Vec::new();
    let mut i: usize = 0;
    while i < n
        invariant
            i <= n,
            n == sections@.len(),
            keys@.len() == i,
            forall|k: int| 0 <= k < i ==> (#[trigger] sections@[k]).wf(),
            forall|k: int| 0 <= k < i ==> (#[trigger] keys@[k]) == section_key(sections@[k]),
        decreases n - i,
    {
        let s = sections[i];
        proof {
            use_type_invariant(&s);
            s.lemma_bounds();
        }
        keys.push(s.start_point() as u128 * 0x1_0000_0000_0000_0000 + s.end_point() as u128);
        i += 1;
    }
    let order = stable_order(&keys);
    let sorted = apply_order(&sections, &order);
    proof {
        lemma_covered_permuted(sections@, order@);
        assert forall|a: int, b: int| 0 <= a <= b < n implies (#[trigger] sorted@[a]).start() <= (
        #[trigger] sorted@[b]).start() by {
            if a < b {
                assert(key_before(keys@, order@[a] as int, order@[b] as int));
                sections@[order@[a] as int].lemma_bounds();
                sections@[order@[b] as int].lemma_bounds();
            }
        }
        assert(all_wf(sorted@));
        assert(sorted@.take(0) =~= Seq::<SegmentSection>::empty());
    }
    let mut acc: Vec<SegmentSection> = Vec::new();
    let mut k: usize = 0;
    proof {
        assert(covered(acc@) =~= covered(sorted@.take(0)));
    }
    while k < n
        invariant
            k <= n,
            n == sorted@.len(),
            all_wf(sorted@),
            forall|a: int, b: int|
                0 <= a <= b < n ==> (#[trigger] sorted@[a]).start() <= (#[trigger] sorted@[b]).start(),
            all_wf(acc@),
            (k > 0) == (acc@.len() > 0),
            forall|a: int, b: int|
                0 <= a < b < acc@.len() ==> (#[trigger] acc@[a]).end() < (#[trigger] acc@[b]).start(),
            k > 0 ==> acc@.last().start() <= sorted@[k - 1].start(),
            covered(acc@) == covered(sorted@.take(k as int)),
        decreases n - k,
    {
        let sec = sorted[k];
        proof {
            sec.lemma_bounds();
            assert(sorted@.take(k + 1) =~= sorted@.take(k as int).push(sec));
            lemma_covered_push(sorted@.take(k as int), sec);
            if k > 0 {
                assert(sorted@[k - 1].start() <= sorted@[k as int].start());
            }
        }
        if acc.len() == 0 {
            proof {
                lemma_covered_push(acc@, sec);
            }
            acc.push(sec);
        } else {
            let ghost before = acc@;
            let last_sec = acc.pop().unwrap();
            proof {
                assert(before =~= acc@.push(last_sec));
                lemma_covered_push(acc@, last_sec);
                last_sec.lemma_bounds();
                assert(last_sec == before[before.len() - 1]);
            }
            if last_sec.is_full() {
                acc.push(last_sec);
                proof {
                    assert(acc@ =~= before);
                    assert(covered(before).union(set_int_range(sec.start(), sec.end())) =~= covered(
                        before,
                    )) by {
                        assert forall|t: int| set_int_range(sec.start(), sec.end()).contains(
                            t,
                        ) implies covered(before).contains(t) by {
                            assert(before[before.len() - 1].start() <= t < before[before.len()
                                - 1].end());
                        }
                    }
                }
            } else if sec.is_overlapping(&last_sec) {
                let both = sec.merge(&last_sec);
                proof {
                    sec.lemma_merged(last_sec);
                    lemma_covered_push(acc@, both);
                    assert(set_int_range(both.start(), both.end()) =~= set_int_range(
                        last_sec.start(),
                        last_sec.end(),
                    ).union(set_int_range(sec.start(), sec.end())));
                    assert(covered(acc@).union(set_int_range(both.start(), both.end())) =~= covered(
                        acc@,
                    ).union(set_int_range(last_sec.start(), last_sec.end())).union(
                        set_int_range(sec.start(), sec.end()),
                    ));
                    assert forall|a: int| 0 <= a < acc@.len() implies (#[trigger] acc@[a]).end()
                        < both.start() by {
                        assert(acc@[a] == before[a]);
                        assert(before[a].end() < before[before.len() - 1].start());
                    }
                }
                acc.push(both);
            } else {
                proof {
                    lemma_covered_push(before, sec);
                    assert forall|a: int| 0 <= a < before.len() implies (#[trigger] before[a]).end()
                        < sec.start() by {
                        if a < before.len() - 1 {
                            assert(before[a].end() < before[before.len() - 1].start());
                        }
                    }
                }
                acc.push(last_sec);
                proof {
                    assert(acc@ =~= before);
                }
                acc.push(sec);
            }
        }
        k += 1;
    }
    proof {
        assert(sorted@.take(n as int) =~= sorted@);
        assert(acc@.take(0) =~= Seq::<SegmentSection>::empty());
        assert(covered(acc@.take(0)) =~= Set::<int>::empty());
    }
    let mut res: u64 = 0;
    let mut j: usize = 0;
    while j < acc.len()
        invariant
            j <= acc@.len(),
            all_wf(acc@),
            forall|a: int, b: int|
                0 <= a < b < acc@.len() ==> (#[trigger] acc@[a]).end() < (#[trigger] acc@[b]).start(),
            res == covered(acc@.take(j as int)).len(),
            res <= UNIT,
            forall|t: int|
                covered(acc@.take(j as int)).contains(t) ==> j > 0 && t < acc@[j - 1].end(),
        decreases acc@.len() - j,
    {
        let sec = acc[j];
        proof {
            sec.lemma_bounds();
            let sofar = acc@.take(j as int);
            let more = acc@.take(j + 1);
            assert(more =~= sofar.push(sec));
            lemma_covered_push(sofar, sec);
            assert(all_wf(sofar));
            assert(all_wf(more));
            lemma_covered_bounded(sofar);
            lemma_covered_bounded(more);
            lemma_int_range(sec.start(), sec.end());
            assert(covered(sofar).disjoint(set_int_range(sec.start(), sec.end()))) by {
                assert forall|t: int| covered(sofar).contains(t) implies !set_int_range(
                    sec.start(),
                    sec.end(),
                ).contains(t) by {
                    assert(acc@[j - 1].end() < acc@[j as int].start());
                }
            }
            lemma_set_disjoint_lens(covered(sofar), set_int_range(sec.start(), sec.end()));
            assert forall|t: int| covered(more).contains(t) implies t < acc@[j as int].end() by {
                if covered(sofar).contains(t) {
                    assert(acc@[j - 1].end() < acc@[j as int].start());
                }
            }
        }
        res = res + sec.length();
        j += 1;
    }
    proof {
        assert(acc@.take(acc@.len() as int) =~= acc@);
    }
    res
}

/// The towers of all the parts, one part after the other.
pub open spec fn flat(parts: Seq<&[Tower]>) -> Seq<Tower>
    decreases parts.len(),
{
    if parts.len() == 0 {
        Seq::empty()
    } else {
        flat(parts.drop_last()) + parts.last()@
    }
}

/// The sections of the towers of provider `p`, where `sections[i]` is the
/// section of `towers[i]`.
pub open spec fn of_provider(towers: Seq<Tower>, sections: Seq<SegmentSection>, p: Provider) -> Seq<
    SegmentSection,
>
    decreases towers.len(),
{
    if towers.len() == 0 || sections.len() == 0 {
        Seq::empty()
    } else if towers.last().net == p {
        of_provider(towers.drop_last(), sections.drop_last(), p).push(sections.last())
    } else {
        of_provider(towers.drop_last(), sections.drop_last(), p)
    }
}

/// `a`, `b` and `c` are what `project` gives for the nodes `s` and `t` and
/// for the tower, each projected at the latitude of the tower.
pub open spec fn projected<P: Fn(TuplePoint, i64) -> TuplePoint>(
    project: &P,
    s: NodeInfo,
    t: NodeInfo,
    tower: Tower,
    a: TuplePoint,
    b: TuplePoint,
    c: TuplePoint,
) -> bool {
    &&& project.ensures(((s.lat, s.long), tower.lat), a)
    &&& project.ensures(((t.lat, t.long), tower.lat), b)
    &&& project.ensures(((tower.lat, tower.lon), tower.lat), c)
}

/// `section` is the section of the edge from `s` to `t` that lies in the
/// range of the tower, in the plane into which `project` takes the three
/// of them.
pub open spec fn is_section_of<P: Fn(TuplePoint, i64) -> TuplePoint>(
    project: &P,
    s: NodeInfo,
    t: NodeInfo,
    tower: Tower,
    section: SegmentSection,
) -> bool {
    exists|a: TuplePoint, b: TuplePoint, c: TuplePoint|
        {
            &&& #[trigger] projected(project, s, t, tower, a, b, c)
            &&& is_section_in_disk(a, b, c, tower.range, section)
        }
}

/// `sections[i]` is the section of the edge from `s` to `t` that lies in
/// the range of the tower `towers[i]`.
pub open spec fn measured<P: Fn(TuplePoint, i64) -> TuplePoint>(
    project: &P,
    s: NodeInfo,
    t: NodeInfo,
    towers: Seq<Tower>,
    sections: Seq<SegmentSection>,
) -> bool {
    &&& sections.len() == towers.len()
    &&& forall|i: int|
        0 <= i < towers.len() ==> is_section_of(project, s, t, towers[i], #[trigger] sections[i])
}

/// `result` holds, for Telekom, Vodafone and O2 in this order, the length
/// of the union of the sections of the edge from `s` to `t` that lie in the
/// range of a tower of the provider.
pub open spec fn is_edge_coverage<P: Fn(TuplePoint, i64) -> TuplePoint>(
    project: &P,
    s: NodeInfo,
    t: NodeInfo,
    towers: Seq<Tower>,
    result: (u64, u64, u64),
) -> bool {
    exists|sections: Seq<SegmentSection>|
        {
            &&& #[trigger] measured(project, s, t, towers, sections)
            &&& result.0 == union_length(of_provider(towers, sections, Provider::Telekom))
            &&& result.1 == union_length(of_provider(towers, sections, Provider::Vodafone))
            &&& result.2 == union_length(of_provider(towers, sections, Provider::O2))
        }
}

/// One more tower adds its section to the sections of its provider.
proof fn lemma_of_provider_push(
    towers: Seq<Tower>,
    sections: Seq<SegmentSection>,
    tower: Tower,
    sec: SegmentSection,
    p: Provider,
)
    requires
        towers.len() == sections.len(),
    ensures
        covered(of_provider(towers.push(tower), sections.push(sec), p)) == if tower.net == p {
            covered(of_provider(towers, sections, p)).union(set_int_range(sec.start(), sec.end()))
        } else {
            covered(of_provider(towers, sections, p))
        },
{
    assert(towers.push(tower).drop_last() =~= towers);
    assert(sections.push(sec).drop_last() =~= sections);
    if tower.net == p {
        lemma_covered_push(of_provider(towers, sections, p), sec);
    }
}

/// The covered fraction of the edge from `s` to `t` for each provider, in
/// units of `1 / UNIT` and in the order Telekom, Vodafone, O2: the length of
/// the union of the sections of the edge that lie in the range of a tower of
/// the provider. Edge and tower are taken into the plane by `project`, at
/// the latitude of the tower.
pub fn edge_coverage<'a, P: Fn(TuplePoint, i64) -> TuplePoint>(
    s: &NodeInfo,
    t: &NodeInfo,
    towers: Vec<&'a [Tower]>,
    project: &P,
) -> (r: (u64, u64, u64))
    requires
        forall|point: TuplePoint, lat0: i64| project.requires((point, lat0)),
    ensures
        is_edge_coverage(project, *s, *t, flat(towers@), r),
        r.0 <= UNIT,
        r.1 <= UNIT,
        r.2 <= UNIT,
{
    let mut o2_sections: Vec<SegmentSection> = Vec::new();
    let mut telekom_sections: Vec<SegmentSection> = Vec::new();
    let mut vodafone_sections: Vec<SegmentSection> = Vec::new();
    let ghost mut seen: Seq<Tower> = Seq::empty();
    let ghost mut sections: Seq<SegmentSection> = Seq::empty();
    let mut i: usize = 0;
    proof {
        assert(towers@.take(0) =~= Seq::<&[Tower]>::empty());
        assert(covered(telekom_sections@) =~= covered(
            of_provider(seen, sections, Provider::Telekom),
        ));
        assert(covered(vodafone_sections@) =~= covered(
            of_provider(seen, sections, Provider::Vodafone),
        ));
        assert(covered(o2_sections@) =~= covered(of_provider(seen, sections, Provider::O2)));
    }
    while i < towers.len()
        invariant
            forall|point: TuplePoint, lat0: i64| project.requires((point, lat0)),
            i <= towers@.len(),
            seen == flat(towers@.take(i as int)),
            measured(project, *s, *t, seen, sections),
            covered(telekom_sections@) == covered(of_provider(seen, sections, Provider::Telekom)),
            covered(vodafone_sections@) == covered(
                of_provider(seen, sections, Provider::Vodafone),
            ),
            covered(o2_sections@) == covered(of_provider(seen, sections, Provider::O2)),
        decreases towers@.len() - i,
    {
        let part: &[Tower] = towers[i];
        let ghost base = seen;
        let mut j: usize = 0;
        proof {
            assert(base + part@.take(0) =~= base);
        }
        while j < part.len()
            invariant
                forall|point: TuplePoint, lat0: i64| project.requires((point, lat0)),
                j <= part@.len(),
                seen == base + part@.take(j as int),
                measured(project, *s, *t, seen, sections),
                covered(telekom_sections@) == covered(
                    of_provider(seen, sections, Provider::Telekom),
                ),
                covered(vodafone_sections@) == covered(
                    of_provider(seen, sections, Provider::Vodafone),
                ),
                covered(o2_sections@) == covered(of_provider(seen, sections, Provider::O2)),
            decreases part@.len() - j,
        {
            let tower: Tower = part[j];
            let a: TuplePoint = project((s.lat, s.long), tower.lat);
            let b: TuplePoint = project((t.lat, t.long), tower.lat);
            let tower_point: TuplePoint = project((tower.lat, tower.lon), tower.lat);
            let sec: SegmentSection = intersect(&a, &b, &tower_point, tower.range);
            proof {
                use_type_invariant(&sec);
                sec.lemma_bounds();
                assert(projected(project, *s, *t, tower, a, b, tower_point));
                assert(is_section_of(project, *s, *t, tower, sec));
                lemma_of_provider_push(seen, sections, tower, sec, Provider::Telekom);
                lemma_of_provider_push(seen, sections, tower, sec, Provider::Vodafone);
                lemma_of_provider_push(seen, sections, tower, sec, Provider::O2);
                assert((base + part@.take(j as int)).push(tower) =~= base + part@.take(j + 1));
                if sec.span() <= 0 {
                    assert(set_int_range(sec.start(), sec.end()) =~= Set::<int>::empty());
                    assert forall|x: Set<int>| x.union(Set::<int>::empty()) =~= x by {}
                }
            }
            if !sec.is_empty() {
                proof {
                    lemma_covered_push(telekom_sections@, sec);
                    lemma_covered_push(vodafone_sections@, sec);
                    lemma_covered_push(o2_sections@, sec);
                }
                match tower.net {
                    Provider::Telekom => telekom_sections.push(sec),
                    Provider::Vodafone => vodafone_sections.push(sec),
                    Provider::O2 => o2_sections.push(sec),
                };
            }
            proof {
                let ghost grown = sections.push(sec);
                assert forall|k: int| 0 <= k < seen.len() + 1 implies is_section_of(
                    project,
                    *s,
                    *t,
                    seen.push(tower)[k],
                    #[trigger] grown[k],
                ) by {
                    if k < seen.len() {
                        assert(grown[k] == sections[k]);
                    }
                }
                seen = seen.push(tower);
                sections = grown;
            }
            j += 1;
        }
        proof {
            assert(part@.take(part@.len() as int) =~= part@);
            assert(towers@.take(i + 1).drop_last() =~= towers@.take(i as int));
            assert(towers@.take(i + 1).last() == towers@[i as int]);
        }
        i += 1;
    }
    proof {
        assert(towers@.take(towers@.len() as int) =~= towers@);
    }
    let r = (
        accumulate_sections(telekom_sections),
        accumulate_sections(vodafone_sections),
        accumulate_sections(o2_sections),
    );
    proof {
        assert(measured(project, *s, *t, flat(towers@), sections));
    }
    r
}

/// Whether `v` holds `size` fractions.
fn within_unit(v: &Vec<u64>, size: usize) -> (r: bool)
    ensures
        r == (v@.len() == size && forall|i: int| 0 <= i < size ==> (#[trigger] v@[i]) <= UNIT),
{
    if v.len() != size {
        return false;
    }
    let mut i: usize = 0;
    while i < size
        invariant
            i <= size,
            v@.len() == size,
            forall|k: int| 0 <= k < i ==> (#[trigger] v@[k]) <= UNIT,
        decreases size - i,
    {
        if v[i] > UNIT {
            return false;
        }
        i += 1;
    }
    true
}

/// A vector of `n` zeros.
fn zeros(n: usize) -> (v: Vec<u64>)
    ensures
        v@.len() == n,
        forall|i: int| 0 <= i < n ==> v@[i] == 0,
{
    let mut v: Vec<u64> = Vec::new();
    let mut i: usize = 0;
    while i < n
        invariant
            i <= n,
            v@.len() == i,
            forall|j: int| 0 <= j < i ==> v@[j] == 0,
        decreases n - i,
    {
        v.push(0);
        i += 1;
    }
    v
}

} // verus!
