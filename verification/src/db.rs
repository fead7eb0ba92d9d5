//! Shared domain store for the speed daemon: per-road speed limits,
//! per-plate observations, issued ticket days and the pending ticket
//! queue, together with the ticketing rules.
//!
//! Invariants carried by every operation: a plate's observations stay
//! sorted by timestamp, the day indices of issued tickets never repeat
//! for one plate, and a pending ticket leaves the queue at most once,
//! in insertion order per road filter.

use vstd::prelude::*;

use crate::wire::SpecTicket;
use crate::wire::Ticket;

verus! {

/// One plate sighting: which road, at which mile marker, when.
#[derive(Clone, Copy, PartialEq, Eq, Structural)]
pub struct Observation {
    pub road: u16,
    pub mile: u16,
    pub timestamp: u32,
}

/// The calendar day a timestamp falls on; the unit of ticket
/// de-duplication.
pub open spec fn day_of(ts: u32) -> u32 {
    ts / 86400
}

/// Absolute difference of the two mile markers; markers may decrease.
pub open spec fn mile_diff(o1: Observation, o2: Observation) -> int {
    if o2.mile >= o1.mile {
        o2.mile - o1.mile
    } else {
        o1.mile - o2.mile
    }
}

/// Whether the pair witnesses a speed strictly above the limit plus the
/// 0.1 mph tolerance. Stated over integers: speed in mph exceeds
/// `limit + 1/10` exactly when `miles * 3600 * 100 > (limit * 100 + 10) * dt`.
/// Pairs with equal timestamps never qualify.
pub open spec fn pair_overspeed(o1: Observation, o2: Observation, limit: u16) -> bool {
    &&& o1.timestamp < o2.timestamp
    &&& mile_diff(o1, o2) * 360000 > (limit * 100 + 10) * (o2.timestamp - o1.timestamp)
}

/// The measured speed in hundredths of a mile per hour, rounded to the
/// nearest integer (halves away from zero) and saturated to 16 bits.
pub open spec fn pair_speed100(o1: Observation, o2: Observation) -> u16 {
    let dt = o2.timestamp - o1.timestamp;
    let v = (2 * mile_diff(o1, o2) * 360000 + dt) / (2 * dt);
    if v > 65535 {
        65535u16
    } else {
        v as u16
    }
}

/// The ticket recording an overspeed pair.
pub open spec fn spec_ticket_of(plate: Seq<u8>, road: u16, o1: Observation, o2: Observation) -> SpecTicket {
    SpecTicket {
        plate,
        road,
        mile1: o1.mile,
        timestamp1: o1.timestamp,
        mile2: o2.mile,
        timestamp2: o2.timestamp,
        speed: pair_speed100(o1, o2),
    }
}

/// The observations on one road, in stored order.
pub open spec fn road_obs(s: Seq<Observation>, road: u16) -> Seq<Observation>
    decreases s.len(),
{
    if s.len() == 0 {
        seq![]
    } else {
        road_obs(s.drop_last(), road) + if s.last().road == road {
            seq![s.last()]
        } else {
            seq![]
        }
    }
}

/// Outcome of one ticketing evaluation: the plate's issued-day set and
/// the tickets to append to the pending queue.
#[verifier::ext_equal]
pub struct PassResult {
    pub issued: Seq<u32>,
    pub tickets: Seq<SpecTicket>,
}

/// One evaluation sweep over the adjacent pairs of a plate's
/// observations on one road, from pair `(i-1, i)` on. A pair above the
/// limit yields a ticket unless the issued-day set already covers the
/// start day, or the distinct end day; an issued ticket consumes both
/// days atomically.
pub open spec fn pass_from(
    plate: Seq<u8>,
    road: u16,
    os: Seq<Observation>,
    limit: u16,
    i: int,
    issued: Seq<u32>,
    out: Seq<SpecTicket>,
) -> PassResult
    decreases os.len() - i,
{
    if i < 1 || i >= os.len() {
        PassResult { issued, tickets: out }
    } else {
        let o1 = os[i - 1];
        let o2 = os[i];
        if pair_overspeed(o1, o2, limit) {
            let d1 = day_of(o1.timestamp);
            let d2 = day_of(o2.timestamp);
            if issued.contains(d1) || (d1 != d2 && issued.contains(d2)) {
                pass_from(plate, road, os, limit, i + 1, issued, out)
            } else {
                let issued2 = if d1 == d2 {
                    issued.push(d1)
                } else {
                    issued.push(d1).push(d2)
                };
                pass_from(
                    plate,
                    road,
                    os,
                    limit,
                    i + 1,
                    issued2,
                    out.push(spec_ticket_of(plate, road, o1, o2)),
                )
            }
        } else {
            pass_from(plate, road, os, limit, i + 1, issued, out)
        }
    }
}

/// The full ticketing evaluation for one plate and road.
pub open spec fn ticket_pass(
    plate: Seq<u8>,
    road: u16,
    os: Seq<Observation>,
    limit: u16,
    issued: Seq<u32>,
) -> PassResult {
    pass_from(plate, road, os, limit, 1, issued, seq![])
}

/// Everything the store keeps about one plate.
pub struct PlateRecord {
    pub plate: Vec<u8>,
    pub obs: Vec<Observation>,
    pub days: Vec<u32>,
}

/// The shared domain store.
pub struct Database {
    pub limits: Vec<(u16, u16)>,
    pub plates: Vec<PlateRecord>,
    pub pending: Vec<Ticket>,
}

/// First index holding a limit for `road`, or -1.
pub open spec fn road_index(s: Seq<(u16, u16)>, road: u16) -> int
    decreases s.len(),
{
    if s.len() == 0 {
        -1
    } else if s[0].0 == road {
        0
    } else {
        let r = road_index(s.drop_first(), road);
        if r < 0 {
            -1
        } else {
            r + 1
        }
    }
}

/// `road_index` finds the first matching entry, if any.
pub proof fn lemma_road_index_char(s: Seq<(u16, u16)>, road: u16)
    ensures
        road_index(s, road) == -1 ==> forall|j: int| 0 <= j < s.len() ==> s[j].0 != road,
        road_index(s, road) != -1 ==> {
            let i = road_index(s, road);
            &&& 0 <= i < s.len()
            &&& s[i].0 == road
            &&& forall|j: int| 0 <= j < i ==> s[j].0 != road
        },
    decreases s.len(),
{
    if s.len() > 0 && s[0].0 != road {
        let d = s.drop_first();
        lemma_road_index_char(d, road);
        assert(forall|j: int| 0 < j < s.len() ==> s[j] == d[j - 1]);
        if road_index(d, road) == -1 {
            assert forall|j: int| 0 <= j < s.len() implies s[j].0 != road by {
                if j > 0 {
                    assert(s[j] == d[j - 1]);
                }
            }
        } else {
            let r = road_index(d, road);
            assert(s[r + 1] == d[r]);
            assert forall|j: int| 0 <= j < r + 1 implies s[j].0 != road by {
                if j > 0 {
                    assert(s[j] == d[j - 1]);
                }
            }
        }
    }
}

/// First index holding the record of `plate`, or -1.
pub open spec fn plate_index(s: Seq<PlateRecord>, plate: Seq<u8>) -> int
    decreases s.len(),
{
    if s.len() == 0 {
        -1
    } else if s[0].plate@ == plate {
        0
    } else {
        let r = plate_index(s.drop_first(), plate);
        if r < 0 {
            -1
        } else {
            r + 1
        }
    }
}

/// `plate_index` finds the first matching record, if any.
pub proof fn lemma_plate_index_char(s: Seq<PlateRecord>, plate: Seq<u8>)
    ensures
        plate_index(s, plate) == -1 ==> forall|j: int| 0 <= j < s.len() ==> s[j].plate@ != plate,
        plate_index(s, plate) != -1 ==> {
            let i = plate_index(s, plate);
            &&& 0 <= i < s.len()
            &&& s[i].plate@ == plate
            &&& forall|j: int| 0 <= j < i ==> s[j].plate@ != plate
        },
    decreases s.len(),
{
    if s.len() > 0 && s[0].plate@ != plate {
        let d = s.drop_first();
        lemma_plate_index_char(d, plate);
        assert(forall|j: int| 0 < j < s.len() ==> s[j] == d[j - 1]);
        if plate_index(d, plate) == -1 {
            assert forall|j: int| 0 <= j < s.len() implies s[j].plate@ != plate by {
                if j > 0 {
                    assert(s[j] == d[j - 1]);
                }
            }
        } else {
            let r = plate_index(d, plate);
            assert(s[r + 1] == d[r]);
            assert forall|j: int| 0 <= j < r + 1 implies s[j].plate@ != plate by {
                if j > 0 {
                    assert(s[j] == d[j - 1]);
                }
            }
        }
    }
}

/// Indices are unchanged when two stores agree on their keys.
pub proof fn lemma_plate_index_same_keys(s1: Seq<PlateRecord>, s2: Seq<PlateRecord>, plate: Seq<u8>)
    requires
        s1.len() == s2.len(),
        forall|j: int| 0 <= j < s1.len() ==> s1[j].plate@ == s2[j].plate@,
    ensures
        plate_index(s1, plate) == plate_index(s2, plate),
    decreases s1.len(),
{
    if s1.len() > 0 {
        assert(s1[0].plate@ == s2[0].plate@);
        lemma_plate_index_same_keys(s1.drop_first(), s2.drop_first(), plate);
    }
}

/// Observations sorted by timestamp.
pub open spec fn obs_sorted(s: Seq<Observation>) -> bool {
    forall|i: int, j: int|
        0 <= i < j < s.len() ==> s[i].timestamp <= s[j].timestamp
}

/// The sequence of ticket values in a queue.
pub open spec fn ticket_views(v: Seq<Ticket>) -> Seq<SpecTicket> {
    v.map(|i: int, t: Ticket| t@)
}

impl Database {
    /// The limit recorded for a road, if any.
    pub open spec fn spec_limit(self, road: u16) -> Option<u16> {
        let i = road_index(self.limits@, road);
        if i < 0 {
            None
        } else {
            Some(self.limits@[i].1)
        }
    }

    /// The observations stored for a plate, oldest first; empty for an
    /// unseen plate.
    pub open spec fn spec_obs(self, plate: Seq<u8>) -> Seq<Observation> {
        let i = plate_index(self.plates@, plate);
        if i < 0 {
            seq![]
        } else {
            self.plates@[i].obs@
        }
    }

    /// The day indices on which a ticket has been issued for a plate.
    pub open spec fn spec_issued(self, plate: Seq<u8>) -> Seq<u32> {
        let i = plate_index(self.plates@, plate);
        if i < 0 {
            seq![]
        } else {
            self.plates@[i].days@
        }
    }

    /// The pending ticket queue, oldest first.
    pub open spec fn spec_pending(self) -> Seq<SpecTicket> {
        ticket_views(self.pending@)
    }

    /// Well-formedness: road and plate keys are unique, every plate fits
    /// the wire format, observation lists are sorted by timestamp, and
    /// issued-day sets never repeat a day.
    pub open spec fn wf(self) -> bool {
        &&& forall|i: int, j: int|
            0 <= i < j < self.limits@.len() ==> self.limits@[i].0 != self.limits@[j].0
        &&& forall|i: int, j: int|
            0 <= i < j < self.plates@.len() ==> self.plates@[i].plate@ != self.plates@[j].plate@
        &&& forall|i: int|
            0 <= i < self.plates@.len() ==> (#[trigger] self.plates@[i]).plate@.len() <= 255
        &&& forall|i: int| 0 <= i < self.plates@.len() ==> obs_sorted(#[trigger] self.plates@[i].obs@)
        &&& forall|i: int|
            0 <= i < self.plates@.len() ==> (#[trigger] self.plates@[i]).days@.no_duplicates()
        &&& forall|i: int|
            0 <= i < self.pending@.len() ==> (#[trigger] self.pending@[i]).plate@.len() <= 255
    }

    /// An empty store.
    pub fn new() -> (r: Database)
        ensures
            r.wf(),
            r.limits@.len() == 0,
            r.plates@.len() == 0,
            r.spec_pending() == Seq::<SpecTicket>::empty(),
            forall|road: u16| r.spec_limit(road) is None,
            forall|plate: Seq<u8>| r.spec_obs(plate) == Seq::<Observation>::empty(),
            forall|plate: Seq<u8>| r.spec_issued(plate) == Seq::<u32>::empty(),
    {
        let r = Database { limits: Vec::new(), plates: Vec::new(), pending: Vec::new() };
        assert(r.spec_pending() =~= Seq::<SpecTicket>::empty());
        r
    }

    /// First index of the road's limit entry, if any.
    fn find_road(&self, road: u16) -> (r: Option<usize>)
        ensures
            match r {
                Some(i) => road_index(self.limits@, road) == i,
                None => road_index(self.limits@, road) == -1,
            },
    {
        let mut i: usize = 0;
        while i < self.limits.len()
            invariant
                i <= self.limits@.len(),
                forall|j: int| 0 <= j < i ==> self.limits@[j].0 != road,
            decreases self.limits@.len() - i,
        {
            if self.limits[i].0 == road {
                proof {
                    lemma_road_index_char(self.limits@, road);
                    let k = road_index(self.limits@, road);
                    if k == -1 {
                        assert(self.limits@[i as int].0 == road);
                    }
                }
                return Some(i);
            }
            i += 1;
        }
        proof {
            lemma_road_index_char(self.limits@, road);
            let k = road_index(self.limits@, road);
            if k != -1 {
                assert(self.limits@[k].0 == road);
            }
        }
        None
    }

    /// Sets the limit for a road: the first camera to announce a road
    /// fixes it, and later announcements overwrite silently.
    pub fn record_speed_limit(&mut self, road: u16, limit: u16)
        requires
            old(self).wf(),
        ensures
            final(self).wf(),
            final(self).spec_limit(road) == Some(limit),
            forall|r: u16| r != road ==> final(self).spec_limit(r) == old(self).spec_limit(r),
            final(self).plates@ == old(self).plates@,
            final(self).pending@ == old(self).pending@,
    {
        let ghost pre = self.limits@;
        match self.find_road(road) {
            Some(i) => {
                proof {
                    lemma_road_index_char(pre, road);
                }
                self.limits.remove(i);
                self.limits.insert(i, (road, limit));
                proof {
                    let cur = self.limits@;
                    assert(cur =~= pre.update(i as int, (road, limit)));
                    assert(forall|j: int| 0 <= j < pre.len() ==> cur[j].0 == pre[j].0);
                    lemma_road_index_char(cur, road);
                    assert(cur[i as int].0 == road);
                    assert(road_index(cur, road) == i) by {
                        let k = road_index(cur, road);
                        if k == -1 {
                        } else if k < i {
                            assert(pre[k].0 != road);
                        } else if k > i {
                        }
                    }
                    assert forall|r: u16| r != road implies self.spec_limit(r) == old(
                        self,
                    ).spec_limit(r) by {
                        lemma_road_index_same_keys_limits(pre, cur, r);
                        lemma_road_index_char(cur, r);
                        let k = road_index(cur, r);
                        if k >= 0 {
                            assert(cur[k].0 == r);
                            assert(k != i);
                            assert(cur[k].1 == pre[k].1);
                        }
                    }
                }
            },
            None => {
                self.limits.push((road, limit));
                proof {
                    lemma_road_index_char(pre, road);
                    let cur = self.limits@;
                    lemma_road_index_char(cur, road);
                    assert(cur[pre.len() as int].0 == road);
                    assert(road_index(cur, road) == pre.len()) by {
                        let k = road_index(cur, road);
                        if k == -1 {
                        } else if k < pre.len() {
                            assert(cur[k] == pre[k]);
                        }
                    }
                    assert forall|r: u16| r != road implies self.spec_limit(r) == old(
                        self,
                    ).spec_limit(r) by {
                        lemma_road_index_char(pre, r);
                        lemma_road_index_char(cur, r);
                        if road_index(pre, r) == -1 {
                            assert(road_index(cur, r) == -1) by {
                                if road_index(cur, r) != -1 {
                                    let k = road_index(cur, r);
                                    assert(cur[k].0 == r);
                                    assert(k < pre.len());
                                    assert(pre[k].0 == r);
                                }
                            }
                        } else {
                            let k = road_index(pre, r);
                            assert(cur[k].0 == r);
                            assert(road_index(cur, r) == k) by {
                                let k2 = road_index(cur, r);
                                if k2 == -1 {
                                } else if k2 < k {
                                    assert(pre[k2].0 == r);
                                } else if k2 > k {
                                }
                            }
                        }
                    }
                }
            },
        }
    }

    /// Whether a road has an announced limit; an observation on a road
    /// without one is a domain anomaly the caller must refuse.
    pub fn has_limit(&self, road: u16) -> (r: bool)
        ensures
            r == self.spec_limit(road) is Some,
    {
        self.find_road(road).is_some()
    }
}

/// Byte-string equality, the identity plates and keys are compared by.
pub(crate) fn bytes_eq(a: &[u8], b: &[u8]) -> (r: bool)
    ensures
        r == (a@ == b@),
{
    if a.len() != b.len() {
        return false;
    }
    let mut i: usize = 0;
    while i < a.len()
        invariant
            i <= a@.len(),
            a@.len() == b@.len(),
            forall|j: int| 0 <= j < i ==> a@[j] == b@[j],
        decreases a@.len() - i,
    {
        if a[i] != b[i] {
            return false;
        }
        i += 1;
    }
    proof {
        assert(a@ =~= b@);
    }
    true
}

/// Membership in a day list.
fn contains_u32(v: &Vec<u32>, x: u32) -> (r: bool)
    ensures
        r == v@.contains(x),
{
    let mut i: usize = 0;
    while i < v.len()
        invariant
            i <= v@.len(),
            forall|j: int| 0 <= j < i ==> v@[j] != x,
        decreases v@.len() - i,
    {
        if v[i] == x {
            return true;
        }
        i += 1;
    }
    false
}

/// Membership in a dispatcher's road set.
fn contains_road(roads: &[u16], x: u16) -> (r: bool)
    ensures
        r == roads@.contains(x),
{
    let mut i: usize = 0;
    while i < roads.len()
        invariant
            i <= roads@.len(),
            forall|j: int| 0 <= j < i ==> roads@[j] != x,
        decreases roads@.len() - i,
    {
        if roads[i] == x {
            return true;
        }
        i += 1;
    }
    false
}

/// A fresh copy of an observation list.
fn copy_obs(v: &Vec<Observation>) -> (r: Vec<Observation>)
    ensures
        r@ == v@,
{
    let mut r: Vec<Observation> = Vec::new();
    let mut i: usize = 0;
    while i < v.len()
        invariant
            i <= v@.len(),
            r@ == v@.subrange(0, i as int),
        decreases v@.len() - i,
    {
        r.push(v[i]);
        i += 1;
        assert(r@ =~= v@.subrange(0, i as int));
    }
    assert(r@ =~= v@);
    r
}

/// A fresh copy of a day list.
fn copy_u32s(v: &Vec<u32>) -> (r: Vec<u32>)
    ensures
        r@ == v@,
{
    let mut r: Vec<u32> = Vec::new();
    let mut i: usize = 0;
    while i < v.len()
        invariant
            i <= v@.len(),
            r@ == v@.subrange(0, i as int),
        decreases v@.len() - i,
    {
        r.push(v[i]);
        i += 1;
        assert(r@ =~= v@.subrange(0, i as int));
    }
    assert(r@ =~= v@);
    r
}

/// Indices are unchanged when two limit tables agree on their keys.
pub proof fn lemma_road_index_same_keys_limits(s1: Seq<(u16, u16)>, s2: Seq<(u16, u16)>, road: u16)
    requires
        s1.len() == s2.len(),
        forall|j: int| 0 <= j < s1.len() ==> s1[j].0 == s2[j].0,
    ensures
        road_index(s1, road) == road_index(s2, road),
    decreases s1.len(),
{
    if s1.len() > 0 {
        assert(s1[0].0 == s2[0].0);
        lemma_road_index_same_keys_limits(s1.drop_first(), s2.drop_first(), road);
    }
}

impl Database {
    /// First index of the plate's record, if any.
    fn find_plate(&self, plate: &[u8]) -> (r: Option<usize>)
        ensures
            match r {
                Some(i) => plate_index(self.plates@, plate@) == i,
                None => plate_index(self.plates@, plate@) == -1,
            },
    {
        let mut i: usize = 0;
        while i < self.plates.len()
            invariant
                i <= self.plates@.len(),
                forall|j: int| 0 <= j < i ==> self.plates@[j].plate@ != plate@,
            decreases self.plates@.len() - i,
        {
            if bytes_eq(self.plates[i].plate.as_slice(), plate) {
                proof {
                    lemma_plate_index_char(self.plates@, plate@);
                    let k = plate_index(self.plates@, plate@);
                    if k == -1 {
                        assert(self.plates@[i as int].plate@ == plate@);
                    }
                }
                return Some(i);
            }
            i += 1;
        }
        proof {
            lemma_plate_index_char(self.plates@, plate@);
            let k = plate_index(self.plates@, plate@);
            if k != -1 {
                assert(self.plates@[k].plate@ == plate@);
            }
        }
        None
    }

    /// Evaluates ticketing for one plate on one road: walks the adjacent
    /// pairs of the plate's observations on that road, and for every pair
    /// above the limit issues a ticket unless a day of the pair is
    /// already covered, marking the covered days atomically.
    pub fn issue_tickets(&mut self, plate: &[u8], road: u16)
        requires
            old(self).wf(),
            old(self).spec_limit(road) is Some,
        ensures
            final(self).wf(),
            final(self).limits@ == old(self).limits@,
            forall|p: Seq<u8>| final(self).spec_obs(p) == old(self).spec_obs(p),
            forall|p: Seq<u8>|
                p != plate@ ==> final(self).spec_issued(p) == old(self).spec_issued(p),
            ({
                let r = ticket_pass(
                    plate@,
                    road,
                    road_obs(old(self).spec_obs(plate@), road),
                    old(self).spec_limit(road).unwrap(),
                    old(self).spec_issued(plate@),
                );
                &&& final(self).spec_issued(plate@) == r.issued
                &&& final(self).spec_pending() == old(self).spec_pending() + r.tickets
            }),
    {
        proof {
            lemma_road_index_char(self.limits@, road);
        }
        let li = self.find_road(road).unwrap();
        let limit = self.limits[li].1;
        let pidx_opt = self.find_plate(plate);
        if pidx_opt.is_none() {
            proof {
                let r = ticket_pass(
                    plate@,
                    road,
                    road_obs(self.spec_obs(plate@), road),
                    limit,
                    self.spec_issued(plate@),
                );
                assert(self.spec_obs(plate@) =~= Seq::<Observation>::empty());
                assert(road_obs(self.spec_obs(plate@), road) =~= Seq::<Observation>::empty());
                assert(r.issued == self.spec_issued(plate@));
                assert(r.tickets =~= Seq::<SpecTicket>::empty());
                assert(self.spec_pending() =~= self.spec_pending() + r.tickets);
            }
            return ;
        }
        let pidx = pidx_opt.unwrap();
        proof {
            lemma_plate_index_char(self.plates@, plate@);
        }
        let ghost obs0 = self.plates@[pidx as int].obs@;
        let ghost days0 = self.plates@[pidx as int].days@;

        // The plate's observations on this road, in stored order.
        let mut os: Vec<Observation> = Vec::new();
        let mut k: usize = 0;
        while k < self.plates[pidx].obs.len()
            invariant
                pidx < self.plates@.len(),
                obs0 == self.plates@[pidx as int].obs@,
                k <= obs0.len(),
                os@ == road_obs(obs0.subrange(0, k as int), road),
            decreases obs0.len() - k,
        {
            let o = self.plates[pidx].obs[k];
            if o.road == road {
                os.push(o);
            }
            k += 1;
            proof {
                let sub = obs0.subrange(0, k as int);
                assert(sub.drop_last() =~= obs0.subrange(0, k - 1));
                assert(sub.last() == obs0[k - 1]);
                assert(os@ =~= road_obs(sub, road));
            }
        }
        proof {
            assert(obs0.subrange(0, obs0.len() as int) =~= obs0);
        }

        let mut days: Vec<u32> = copy_u32s(&self.plates[pidx].days);
        let mut out: Vec<Ticket> = Vec::new();
        proof {
            assert(ticket_views(out@) =~= Seq::<SpecTicket>::empty());
        }
        let mut i: usize = 1;
        while i < os.len()
            invariant
                1 <= i,
                self.wf(),
                pidx < self.plates@.len(),
                self.plates@[pidx as int].plate@ == plate@,
                os@ == road_obs(obs0, road),
                days@.no_duplicates(),
                forall|j: int|
                    0 <= j < out@.len() ==> (#[trigger] out@[j]).plate@ == plate@,
                pass_from(plate@, road, os@, limit, i as int, days@, ticket_views(out@))
                    == ticket_pass(plate@, road, os@, limit, days0),
            decreases os@.len() - i,
        {
            let o1 = os[i - 1];
            let o2 = os[i];
            let ghost days_pre = days@;
            let ghost out_pre = out@;
            let ghost io = i as int;
            if o1.timestamp < o2.timestamp {
                let dt = (o2.timestamp - o1.timestamp) as u64;
                let md: u64 = if o2.mile >= o1.mile {
                    (o2.mile - o1.mile) as u64
                } else {
                    (o1.mile - o2.mile) as u64
                };
                proof {
                    assert(md == mile_diff(os@[io - 1], os@[io]));
                    let l = limit as u64;
                    assert((l * 100 + 10) * dt <= 6553510u64 * 4294967295u64) by (nonlinear_arith)
                        requires
                            l <= 65535u64,
                            dt <= 4294967295u64,
                    ;
                }
                if md * 360000 > ((limit as u64) * 100 + 10) * dt {
                    let d1 = o1.timestamp / 86400;
                    let d2 = o2.timestamp / 86400;
                    let has1 = contains_u32(&days, d1);
                    let has2 = contains_u32(&days, d2);
                    if has1 || (d1 != d2 && has2) {
                    } else {
                        days.push(d1);
                        if d1 != d2 {
                            days.push(d2);
                        }
                        let v = (2 * (md * 360000) + dt) / (2 * dt);
                        let speed: u16 = if v > 65535 {
                            65535
                        } else {
                            v as u16
                        };
                        let t = Ticket {
                            plate: vstd::slice::slice_to_vec(plate),
                            road,
                            mile1: o1.mile,
                            timestamp1: o1.timestamp,
                            mile2: o2.mile,
                            timestamp2: o2.timestamp,
                            speed,
                        };
                        proof {
                            assert(speed == pair_speed100(os@[io - 1], os@[io]));
                            assert(t@ =~= spec_ticket_of(plate@, road, os@[io - 1], os@[io]));
                        }
                        out.push(t);
                        proof {
                            assert(ticket_views(out@) =~= ticket_views(out_pre).push(
                                spec_ticket_of(plate@, road, os@[io - 1], os@[io]),
                            ));
                            if d1 != d2 {
                                assert(days@ =~= days_pre.push(d1).push(d2));
                            } else {
                                assert(days@ =~= days_pre.push(d1));
                            }
                            assert(days@.no_duplicates());
                        }
                    }
                }
            }
            i += 1;
            proof {
                assert(pass_from(plate@, road, os@, limit, i as int, days@, ticket_views(out@))
                    == pass_from(plate@, road, os@, limit, io, days_pre, ticket_views(out_pre)));
            }
        }
        proof {
            assert(ticket_pass(plate@, road, os@, limit, days0) =~= (PassResult {
                issued: days@,
                tickets: ticket_views(out@),
            }));
        }

        // Commit: write back the day set and append the new tickets.
        let ghost plates_pre = self.plates@;
        let ghost pending_pre = self.pending@;
        let ghost outv = out@;
        let key = vstd::slice::slice_to_vec(plate);
        let obs_copy = copy_obs(&self.plates[pidx].obs);
        let rec = PlateRecord { plate: key, obs: obs_copy, days };
        self.plates.remove(pidx);
        self.plates.insert(pidx, rec);
        self.pending.append(&mut out);
        proof {
            let cur = self.plates@;
            assert(cur =~= plates_pre.update(pidx as int, rec));
            assert(forall|j: int| 0 <= j < cur.len() ==> cur[j].plate@ == plates_pre[j].plate@);
            assert forall|p: Seq<u8>| #[trigger] plate_index(cur, p) == plate_index(
                plates_pre,
                p,
            ) by {
                lemma_plate_index_same_keys(plates_pre, cur, p);
            }
            assert(self.spec_issued(plate@) == days@);
            assert(self.spec_obs(plate@) == obs0);
            assert forall|p: Seq<u8>| self.spec_obs(p) == old(self).spec_obs(p) by {
                lemma_plate_index_char(plates_pre, p);
                let k2 = plate_index(plates_pre, p);
                if k2 >= 0 && k2 != pidx {
                    assert(cur[k2] == plates_pre[k2]);
                }
            }
            assert forall|p: Seq<u8>| p != plate@ implies self.spec_issued(p) == old(
                self,
            ).spec_issued(p) by {
                lemma_plate_index_char(plates_pre, p);
                let k2 = plate_index(plates_pre, p);
                if k2 >= 0 {
                    assert(plates_pre[k2].plate@ == p);
                    assert(k2 != pidx);
                    assert(cur[k2] == plates_pre[k2]);
                }
            }
            assert(self.pending@ == pending_pre + outv);
            assert(ticket_views(self.pending@) =~= ticket_views(pending_pre) + ticket_views(
                outv,
            ));
            assert(self.wf());
        }
    }
}

/// Where a new observation goes: after every stored observation with an
/// equal or earlier timestamp.
pub open spec fn obs_insert_pos(s: Seq<Observation>, ts: u32) -> int
    decreases s.len(),
{
    if s.len() == 0 {
        0
    } else if s[0].timestamp > ts {
        0
    } else {
        1 + obs_insert_pos(s.drop_first(), ts)
    }
}

/// `obs_insert_pos` is the first position whose observation is strictly
/// later.
pub proof fn lemma_obs_insert_pos_char(s: Seq<Observation>, ts: u32)
    ensures
        0 <= obs_insert_pos(s, ts) <= s.len(),
        forall|j: int| 0 <= j < obs_insert_pos(s, ts) ==> s[j].timestamp <= ts,
        obs_insert_pos(s, ts) < s.len() ==> s[obs_insert_pos(s, ts)].timestamp > ts,
    decreases s.len(),
{
    if s.len() > 0 && !(s[0].timestamp > ts) {
        let d = s.drop_first();
        lemma_obs_insert_pos_char(d, ts);
        assert(forall|j: int| 0 < j < s.len() ==> s[j] == d[j - 1]);
        let p = obs_insert_pos(s, ts);
        assert forall|j: int| 0 <= j < p implies s[j].timestamp <= ts by {
            if j > 0 {
                assert(s[j] == d[j - 1]);
            }
        }
        if p < s.len() {
            assert(s[p] == d[p - 1]);
        }
    }
}

/// Inserting at `obs_insert_pos` keeps the list sorted.
pub proof fn lemma_sorted_insert(s: Seq<Observation>, o: Observation)
    requires
        obs_sorted(s),
    ensures
        obs_sorted(s.insert(obs_insert_pos(s, o.timestamp), o)),
{
    lemma_obs_insert_pos_char(s, o.timestamp);
    let p = obs_insert_pos(s, o.timestamp);
    let t = s.insert(p, o);
    assert forall|i: int, j: int| 0 <= i < j < t.len() implies t[i].timestamp
        <= t[j].timestamp by {
        if i < p {
            assert(t[i] == s[i]);
        } else if i > p {
            assert(t[i] == s[i - 1]);
        }
        if j < p {
            assert(t[j] == s[j]);
        } else if j > p {
            assert(t[j] == s[j - 1]);
        }
    }
}

/// First pending ticket whose road is in the set, or -1.
pub open spec fn dispatch_index(ts: Seq<SpecTicket>, roads: Seq<u16>) -> int
    decreases ts.len(),
{
    if ts.len() == 0 {
        -1
    } else if roads.contains(ts[0].road) {
        0
    } else {
        let r = dispatch_index(ts.drop_first(), roads);
        if r < 0 {
            -1
        } else {
            r + 1
        }
    }
}

/// `dispatch_index` finds the first matching ticket, if any.
pub proof fn lemma_dispatch_index_char(ts: Seq<SpecTicket>, roads: Seq<u16>)
    ensures
        dispatch_index(ts, roads) == -1 ==> forall|j: int|
            0 <= j < ts.len() ==> !roads.contains(ts[j].road),
        dispatch_index(ts, roads) != -1 ==> {
            let i = dispatch_index(ts, roads);
            &&& 0 <= i < ts.len()
            &&& roads.contains(ts[i].road)
            &&& forall|j: int| 0 <= j < i ==> !roads.contains(ts[j].road)
        },
    decreases ts.len(),
{
    if ts.len() > 0 && !roads.contains(ts[0].road) {
        let d = ts.drop_first();
        lemma_dispatch_index_char(d, roads);
        assert(forall|j: int| 0 < j < ts.len() ==> ts[j] == d[j - 1]);
        if dispatch_index(d, roads) == -1 {
            assert forall|j: int| 0 <= j < ts.len() implies !roads.contains(ts[j].road) by {
                if j > 0 {
                    assert(ts[j] == d[j - 1]);
                }
            }
        } else {
            let r = dispatch_index(d, roads);
            assert(ts[r + 1] == d[r]);
            assert forall|j: int| 0 <= j < r + 1 implies !roads.contains(ts[j].road) by {
                if j > 0 {
                    assert(ts[j] == d[j - 1]);
                }
            }
        }
    }
}

impl Database {
    /// Inserts an observation for a plate, keeping the plate's list
    /// sorted by timestamp, then evaluates ticketing for the road once
    /// the plate has at least two observations.
    pub fn record_observation(&mut self, plate: Vec<u8>, road: u16, mile: u16, timestamp: u32)
        requires
            old(self).wf(),
            old(self).spec_limit(road) is Some,
            plate@.len() <= 255,
        ensures
            final(self).wf(),
            final(self).limits@ == old(self).limits@,
            final(self).spec_obs(plate@) == old(self).spec_obs(plate@).insert(
                obs_insert_pos(old(self).spec_obs(plate@), timestamp),
                (Observation { road, mile, timestamp }),
            ),
            forall|p: Seq<u8>| obs_sorted(#[trigger] final(self).spec_obs(p)),
            forall|p: Seq<u8>| p != plate@ ==> final(self).spec_obs(p) == old(self).spec_obs(p),
            forall|p: Seq<u8>|
                p != plate@ ==> final(self).spec_issued(p) == old(self).spec_issued(p),
            ({
                let newobs = old(self).spec_obs(plate@).insert(
                    obs_insert_pos(old(self).spec_obs(plate@), timestamp),
                    (Observation { road, mile, timestamp }),
                );
                if newobs.len() > 1 {
                    let r = ticket_pass(
                        plate@,
                        road,
                        road_obs(newobs, road),
                        old(self).spec_limit(road).unwrap(),
                        old(self).spec_issued(plate@),
                    );
                    &&& final(self).spec_issued(plate@) == r.issued
                    &&& final(self).spec_pending() == old(self).spec_pending() + r.tickets
                } else {
                    &&& final(self).spec_issued(plate@) == old(self).spec_issued(plate@)
                    &&& final(self).spec_pending() == old(self).spec_pending()
                }
            }),
    {
        let o = Observation { road, mile, timestamp };
        let ghost plates_pre = self.plates@;
        match self.find_plate(plate.as_slice()) {
            None => {
                let mut obs: Vec<Observation> = Vec::new();
                obs.push(o);
                let rec = PlateRecord { plate, obs, days: Vec::new() };
                self.plates.push(rec);
                proof {
                    lemma_plate_index_char(plates_pre, rec.plate@);
                    let cur = self.plates@;
                    lemma_plate_index_char(cur, rec.plate@);
                    assert(cur[plates_pre.len() as int].plate@ == rec.plate@);
                    assert(plate_index(cur, rec.plate@) == plates_pre.len()) by {
                        let k = plate_index(cur, rec.plate@);
                        if k == -1 {
                        } else if k < plates_pre.len() {
                            assert(cur[k] == plates_pre[k]);
                        }
                    }
                    assert(self.spec_obs(rec.plate@) =~= Seq::<Observation>::empty().insert(
                        0,
                        o,
                    ));
                    assert forall|p: Seq<u8>| p != rec.plate@ implies (self.spec_obs(p) == old(
                        self,
                    ).spec_obs(p) && self.spec_issued(p) == old(self).spec_issued(p)) by {
                        lemma_plate_index_char(plates_pre, p);
                        lemma_plate_index_char(cur, p);
                        if plate_index(plates_pre, p) == -1 {
                            assert(plate_index(cur, p) == -1) by {
                                if plate_index(cur, p) != -1 {
                                    let k = plate_index(cur, p);
                                    assert(cur[k].plate@ == p);
                                    assert(k < plates_pre.len());
                                    assert(plates_pre[k].plate@ == p);
                                }
                            }
                        } else {
                            let k = plate_index(plates_pre, p);
                            assert(cur[k].plate@ == p);
                            assert(plate_index(cur, p) == k) by {
                                let k2 = plate_index(cur, p);
                                if k2 == -1 {
                                } else if k2 < k {
                                    assert(cur[k2] == plates_pre[k2]);
                                } else if k2 > k {
                                }
                            }
                            assert(cur[k] == plates_pre[k]);
                        }
                    }
                    assert(self.wf());
                }
            },
            Some(pidx) => {
                proof {
                    lemma_plate_index_char(plates_pre, plate@);
                }
                let ghost obs0 = self.plates@[pidx as int].obs@;
                // Find the insertion point: after all equal-or-earlier
                // timestamps.
                let mut pos: usize = 0;
                while pos < self.plates[pidx].obs.len() && self.plates[pidx].obs[pos].timestamp
                    <= timestamp
                    invariant
                        pidx < self.plates@.len(),
                        obs0 == self.plates@[pidx as int].obs@,
                        pos <= obs0.len(),
                        forall|j: int| 0 <= j < pos ==> obs0[j].timestamp <= timestamp,
                    decreases obs0.len() - pos,
                {
                    pos += 1;
                }
                proof {
                    lemma_obs_insert_pos_char(obs0, timestamp);
                    assert(obs_insert_pos(obs0, timestamp) == pos) by {
                        let p = obs_insert_pos(obs0, timestamp);
                        if p < pos {
                            assert(obs0[p].timestamp <= timestamp);
                        } else if p > pos {
                            assert(obs0[pos as int].timestamp <= timestamp);
                        }
                    }
                }
                let mut obs_copy = copy_obs(&self.plates[pidx].obs);
                obs_copy.insert(pos, o);
                let days_copy = copy_u32s(&self.plates[pidx].days);
                let key = vstd::slice::slice_to_vec(plate.as_slice());
                let newlen = obs_copy.len();
                let rec = PlateRecord { plate: key, obs: obs_copy, days: days_copy };
                self.plates.remove(pidx);
                self.plates.insert(pidx, rec);
                proof {
                    let cur = self.plates@;
                    assert(cur =~= plates_pre.update(pidx as int, rec));
                    assert(forall|j: int|
                        0 <= j < cur.len() ==> cur[j].plate@ == plates_pre[j].plate@);
                    assert forall|p: Seq<u8>| #[trigger] plate_index(cur, p) == plate_index(
                        plates_pre,
                        p,
                    ) by {
                        lemma_plate_index_same_keys(plates_pre, cur, p);
                    }
                    assert(self.spec_obs(plate@) == obs0.insert(pos as int, o));
                    assert(self.spec_issued(plate@) == old(self).spec_issued(plate@));
                    assert forall|p: Seq<u8>| p != plate@ implies (self.spec_obs(p) == old(
                        self,
                    ).spec_obs(p) && self.spec_issued(p) == old(self).spec_issued(p)) by {
                        lemma_plate_index_char(plates_pre, p);
                        let k2 = plate_index(plates_pre, p);
                        if k2 >= 0 {
                            assert(plates_pre[k2].plate@ == p);
                            assert(k2 != pidx);
                            assert(cur[k2] == plates_pre[k2]);
                        }
                    }
                    lemma_sorted_insert(obs0, o);
                    assert(self.wf());
                }
                if newlen > 1 {
                    self.issue_tickets(plate.as_slice(), road);
                }
            },
        }
        proof {
            assert forall|p: Seq<u8>| obs_sorted(#[trigger] self.spec_obs(p)) by {
                lemma_observations_sorted(*self, p);
            }
        }
    }

    /// First index in the pending queue of a ticket for one of the
    /// given roads, if any.
    fn find_dispatch(&self, roads: &[u16]) -> (r: Option<usize>)
        ensures
            match r {
                Some(i) => dispatch_index(self.spec_pending(), roads@) == i,
                None => dispatch_index(self.spec_pending(), roads@) == -1,
            },
    {
        let mut i: usize = 0;
        while i < self.pending.len()
            invariant
                i <= self.pending@.len(),
                forall|j: int|
                    0 <= j < i ==> !roads@.contains((#[trigger] self.pending@[j])@.road),
            decreases self.pending@.len() - i,
        {
            if contains_road(roads, self.pending[i].road) {
                proof {
                    lemma_dispatch_index_char(self.spec_pending(), roads@);
                    let k = dispatch_index(self.spec_pending(), roads@);
                    assert(self.spec_pending()[i as int] == self.pending@[i as int]@);
                    if k == -1 {
                        assert(roads@.contains(self.spec_pending()[i as int].road));
                    } else {
                        assert(forall|j: int|
                            0 <= j < i ==> !roads@.contains(self.spec_pending()[j].road));
                    }
                }
                return Some(i);
            }
            i += 1;
        }
        proof {
            lemma_dispatch_index_char(self.spec_pending(), roads@);
            let k = dispatch_index(self.spec_pending(), roads@);
            if k != -1 {
                assert(roads@.contains(self.spec_pending()[k].road));
                assert(self.spec_pending()[k] == self.pending@[k]@);
            }
        }
        None
    }

    /// Removes and returns the first pending ticket whose road is in the
    /// set, if any: a ticket leaves the queue at most once, in insertion
    /// order per road filter.
    pub fn get_ticket_to_send(&mut self, roads: &[u16]) -> (r: Option<Ticket>)
        requires
            old(self).wf(),
        ensures
            final(self).wf(),
            final(self).limits@ == old(self).limits@,
            final(self).plates@ == old(self).plates@,
            ({
                let fi = dispatch_index(old(self).spec_pending(), roads@);
                match r {
                    Some(t) => {
                        &&& fi >= 0
                        &&& t@ == old(self).spec_pending()[fi]
                        &&& roads@.contains(t@.road)
                        &&& final(self).spec_pending() == old(self).spec_pending().remove(fi)
                    },
                    None => {
                        &&& fi == -1
                        &&& final(self).spec_pending() == old(self).spec_pending()
                    },
                }
            }),
    {
        let ghost pending_pre = self.pending@;
        match self.find_dispatch(roads) {
            Some(i) => {
                proof {
                    lemma_dispatch_index_char(self.spec_pending(), roads@);
                }
                let t = self.pending.remove(i);
                proof {
                    assert(t@ == old(self).spec_pending()[i as int]);
                    assert(ticket_views(self.pending@) =~= ticket_views(pending_pre).remove(
                        i as int,
                    ));
                }
                Some(t)
            },
            None => {
                None
            },
        }
    }
}

impl Database {
    /// A copy of the observations stored for a plate, oldest first.
    pub fn observations(&self, plate: &[u8]) -> (r: Vec<Observation>)
        ensures
            r@ == self.spec_obs(plate@),
    {
        match self.find_plate(plate) {
            Some(i) => {
                proof {
                    lemma_plate_index_char(self.plates@, plate@);
                }
                copy_obs(&self.plates[i].obs)
            },
            None => {
                Vec::new()
            },
        }
    }

    /// A copy of the day indices on which the plate has been ticketed.
    pub fn issued_days(&self, plate: &[u8]) -> (r: Vec<u32>)
        ensures
            r@ == self.spec_issued(plate@),
    {
        match self.find_plate(plate) {
            Some(i) => {
                proof {
                    lemma_plate_index_char(self.plates@, plate@);
                }
                copy_u32s(&self.plates[i].days)
            },
            None => {
                Vec::new()
            },
        }
    }
}

/// The pending tickets for a road set, in queue order.
pub open spec fn road_filter(ts: Seq<SpecTicket>, roads: Seq<u16>) -> Seq<SpecTicket>
    decreases ts.len(),
{
    if ts.len() == 0 {
        seq![]
    } else {
        (if roads.contains(ts[0].road) {
            seq![ts[0]]
        } else {
            seq![]
        }) + road_filter(ts.drop_first(), roads)
    }
}

/// FIFO dispatch: taking a ticket removes exactly the head of the road
/// filter, so the tickets a dispatcher receives are the filter of the
/// queue's insertion order, in order.
pub proof fn lemma_dispatch_fifo(ts: Seq<SpecTicket>, roads: Seq<u16>)
    ensures
        dispatch_index(ts, roads) == -1 ==> road_filter(ts, roads) == Seq::<SpecTicket>::empty(),
        dispatch_index(ts, roads) >= 0 ==> road_filter(ts, roads) == seq![
            ts[dispatch_index(ts, roads)],
        ] + road_filter(ts.remove(dispatch_index(ts, roads)), roads),
    decreases ts.len(),
{
    if ts.len() == 0 {
        assert(road_filter(ts, roads) =~= Seq::<SpecTicket>::empty());
    } else if roads.contains(ts[0].road) {
        assert(ts.remove(0) =~= ts.drop_first());
        assert(road_filter(ts, roads) =~= seq![ts[0]] + road_filter(ts.remove(0), roads));
    } else {
        let d = ts.drop_first();
        lemma_dispatch_fifo(d, roads);
        lemma_dispatch_index_char(d, roads);
        if dispatch_index(d, roads) == -1 {
            assert(road_filter(ts, roads) =~= road_filter(d, roads));
            assert(road_filter(ts, roads) =~= Seq::<SpecTicket>::empty());
        } else {
            let k = dispatch_index(d, roads);
            let i = dispatch_index(ts, roads);
            assert(i == k + 1);
            assert(ts[i] == d[k]);
            assert(ts.remove(i).drop_first() =~= d.remove(k));
            assert(ts.remove(i)[0] == ts[0]);
            assert(road_filter(ts.remove(i), roads) =~= road_filter(d.remove(k), roads));
            assert(road_filter(ts, roads) =~= seq![ts[i]] + road_filter(ts.remove(i), roads));
        }
    }
}

/// Conservation: removing the dispatched ticket from the queue keeps
/// every other pending ticket, so across all dispatchers each produced
/// ticket is handed out at most once.
pub proof fn lemma_dispatch_conserves(ts: Seq<SpecTicket>, fi: int)
    requires
        0 <= fi < ts.len(),
    ensures
        ts.to_multiset() == ts.remove(fi).to_multiset().insert(ts[fi]),
{
    broadcast use vstd::seq_lib::group_to_multiset_ensures;

    assert(ts.to_multiset().contains(ts[fi])) by {
        assert(ts.contains(ts[fi]));
    }
    assert(ts.to_multiset() =~= ts.remove(fi).to_multiset().insert(ts[fi]));
}

/// Ordering: in a well-formed store every plate's observation list is
/// sorted by timestamp.
pub proof fn lemma_observations_sorted(db: Database, plate: Seq<u8>)
    requires
        db.wf(),
    ensures
        obs_sorted(db.spec_obs(plate)),
{
    lemma_plate_index_char(db.plates@, plate);
}

/// At most one ticket per day: in a well-formed store no day index
/// repeats in a plate's issued-day set.
pub proof fn lemma_issued_days_unique(db: Database, plate: Seq<u8>)
    requires
        db.wf(),
    ensures
        db.spec_issued(plate).no_duplicates(),
{
    lemma_plate_index_char(db.plates@, plate);
}

} // verus!
