//! Measured cells, and their grouping by core pair and memory domain.

use crate::double;
use crate::double::{Arith, Double, Op};
use crate::stats;
use crate::stats::Stats;
use vstd::prelude::*;
use vstd::std_specs::cmp::PartialEqSpec;

verus! {

/// The core pair and the memory domain of a cell.
#[derive(Clone, Copy, Debug, PartialEq, Eq, Structural)]
pub struct Place {
    pub ping_core: usize,
    pub pong_core: usize,
    /// The NUMA node of the ping core.
    pub ping_numa: i32,
    /// The NUMA node of the pong core.
    pub pong_numa: i32,
    /// The NUMA node that the shared buffer landed on, or -1 where it is unverified.
    pub mem_numa: i32,
}

/// One measured cell, with its samples collapsed to one value.
#[derive(Clone, Copy, Debug, PartialEq, Eq, Structural)]
pub struct CellRecord {
    pub place: Place,
    pub collapsed: Double,
}

/// One measured cell, with the statistics of its samples.
#[derive(Clone, Copy, Debug, PartialEq, Eq, Structural)]
pub struct PerAddressRow {
    pub place: Place,
    pub address: usize,
    pub vaddr: usize,
    pub stats: Stats,
}

// ---------------------------------------------------------------------------
// Keys
// ---------------------------------------------------------------------------

/// Whether keys can be compared by what they hold, and `key_of` can be asked
/// for the key of every record.
pub open spec fn keying<K: Eq, F: Fn(&CellRecord) -> K>(key_of: F) -> bool {
    &&& K::obeys_eq_spec()
    &&& forall|a: K, b: K| #[trigger] a.eq_spec(&b) <==> a == b
    &&& forall|r: &CellRecord| #[trigger] call_requires(key_of, (r,))
}

/// Whether `key` says which key `key_of` gives each record.
pub open spec fn keys_as<K: Eq, F: Fn(&CellRecord) -> K>(
    key: spec_fn(CellRecord) -> K,
    key_of: F,
) -> bool {
    forall|r: &CellRecord, k: K| #[trigger] call_ensures(key_of, (r,), k) ==> k == key(*r)
}

/// The collapsed values of the records.
pub open spec fn values(records: Seq<CellRecord>) -> Seq<Double> {
    records.map_values(|r: CellRecord| r.collapsed)
}

// ---------------------------------------------------------------------------
// Groups
// ---------------------------------------------------------------------------

/// The positions at which a key stands for the first time.
pub open spec fn first_seen<K>(ks: Seq<K>) -> Seq<int>
    decreases ks.len(),
{
    if ks.len() == 0 {
        seq![]
    } else if ks.drop_last().contains(ks.last()) {
        first_seen(ks.drop_last())
    } else {
        first_seen(ks.drop_last()).push(ks.len() - 1)
    }
}

/// The values whose key is `k`, in order.
pub open spec fn members<K>(ks: Seq<K>, vs: Seq<Double>, k: K) -> Seq<Double>
    decreases ks.len(),
{
    if ks.len() == 0 {
        seq![]
    } else if ks.last() == k {
        members(ks.drop_last(), vs.drop_last(), k).push(vs.last())
    } else {
        members(ks.drop_last(), vs.drop_last(), k)
    }
}

/// The statistics of the groups that the positions stand for, each with its
/// position; groups without a number are left out.
pub open spec fn group_stats<K>(
    m: Arith,
    ks: Seq<K>,
    vs: Seq<Double>,
    reps: Seq<int>,
) -> Seq<(usize, Stats)>
    decreases reps.len(),
{
    if reps.len() == 0 {
        seq![]
    } else {
        let before = group_stats(m, ks, vs, reps.drop_last());
        match stats::stats_of(m, members(ks, vs, ks[reps.last()])) {
            Some(s) => before.push((reps.last() as usize, s)),
            None => before,
        }
    }
}

/// The groups of the records by key: for each key, in the order in which the
/// keys are first seen, the position of its first record and the statistics of
/// the collapsed values of all of its records.
pub open spec fn grouped<K>(
    m: Arith,
    records: Seq<CellRecord>,
    key: spec_fn(CellRecord) -> K,
) -> Seq<(usize, Stats)> {
    let ks = records.map_values(key);
    group_stats(m, ks, values(records), first_seen(ks))
}

/// The positions of the groups that hold a number, among those that the
/// positions stand for.
pub open spec fn kept_positions<K>(ks: Seq<K>, vs: Seq<Double>, reps: Seq<int>) -> Seq<int>
    decreases reps.len(),
{
    if reps.len() == 0 {
        seq![]
    } else {
        let before = kept_positions(ks, vs, reps.drop_last());
        if stats::numbers(members(ks, vs, ks[reps.last()])).len() == 0 {
            before
        } else {
            before.push(reps.last())
        }
    }
}

/// Whether the groups stand at the positions, one at each, with statistics of
/// the values that have the key there.
pub open spec fn stand_at<K>(
    groups: Seq<(usize, Stats)>,
    ks: Seq<K>,
    vs: Seq<Double>,
    positions: Seq<int>,
) -> bool {
    &&& groups.len() == positions.len()
    &&& forall|g: int|
        0 <= g < groups.len() ==> {
            &&& (#[trigger] groups[g]).0 == positions[g]
            &&& stats::holds_of(groups[g].1, members(ks, vs, ks[positions[g]]))
        }
}

/// What holds of the groups by key whatever the arithmetic gives: there is one
/// for each key that has a number, in the order in which the keys are first seen.
pub open spec fn grouped_by<K>(
    groups: Seq<(usize, Stats)>,
    ks: Seq<K>,
    vs: Seq<Double>,
) -> bool {
    stand_at(groups, ks, vs, kept_positions(ks, vs, first_seen(ks)))
}

/// Whether every group has its position among the first `n`.
pub open spec fn within(groups: Seq<(usize, Stats)>, n: nat) -> bool {
    forall|g: int| 0 <= g < groups.len() ==> (#[trigger] groups[g]).0 < n
}

/// Where keys are first seen: at rising positions, with a different key at each.
pub proof fn law_first_seen<K>(ks: Seq<K>)
    ensures
        forall|g: int|
            0 <= g < first_seen(ks).len() ==> 0 <= #[trigger] first_seen(ks)[g] < ks.len(),
        forall|g: int, h: int|
            0 <= g < h < first_seen(ks).len() ==> {
                &&& #[trigger] first_seen(ks)[g] < #[trigger] first_seen(ks)[h]
                &&& ks[first_seen(ks)[g]] != ks[first_seen(ks)[h]]
            },
    decreases ks.len(),
{
    if ks.len() > 0 {
        let d = ks.drop_last();
        law_first_seen(d);
        let a = first_seen(d);
        let r = first_seen(ks);
        assert forall|g: int| 0 <= g < r.len() implies 0 <= #[trigger] r[g] < ks.len() by {
            if g < a.len() {
                assert(r[g] == a[g]);
            }
        }
        assert forall|g: int, h: int| 0 <= g < h < r.len() implies {
            &&& #[trigger] r[g] < #[trigger] r[h]
            &&& ks[r[g]] != ks[r[h]]
        } by {
            assert(r[g] == a[g]);
            assert(d[a[g]] == ks[r[g]]);
            if h < a.len() {
                assert(r[h] == a[h]);
                assert(d[a[h]] == ks[r[h]]);
            } else {
                assert(r[h] == ks.len() - 1);
                assert(d.contains(d[a[g]]));
            }
        }
    }
}

/// Every key has a place where it is first seen, and no record with that key
/// stands before it.
pub proof fn law_every_key_seen<K>(ks: Seq<K>, i: int) -> (g: int)
    requires
        0 <= i < ks.len(),
    ensures
        0 <= g < first_seen(ks).len(),
        0 <= first_seen(ks)[g] <= i,
        ks[first_seen(ks)[g]] == ks[i],
    decreases ks.len(),
{
    let d = ks.drop_last();
    if i < d.len() {
        law_every_key_seen(d, i)
    } else if d.contains(ks.last()) {
        let j = choose|j: int| 0 <= j < d.len() && d[j] == ks.last();
        law_every_key_seen(d, j)
    } else {
        first_seen(ks).len() - 1
    }
}

/// The position of `k` among the keys.
fn find_key<K: Eq>(ks: &Vec<K>, k: &K) -> (r: Option<usize>)
    requires
        K::obeys_eq_spec(),
        forall|a: K, b: K| #[trigger] a.eq_spec(&b) <==> a == b,
    ensures
        match r {
            Some(g) => g < ks@.len() && ks@[g as int] == *k,
            None => !ks@.contains(*k),
        },
{
    let mut g: usize = 0;
    while g < ks.len()
        invariant
            g <= ks@.len(),
            K::obeys_eq_spec(),
            forall|a: K, b: K| #[trigger] a.eq_spec(&b) <==> a == b,
            forall|h: int| 0 <= h < g ==> ks@[h] != *k,
        decreases ks@.len() - g,
    {
        if ks[g] == *k {
            return Some(g);
        }
        g = g + 1;
    }
    None
}

/// The groups of the first records, while they are collected.
spec fn collected<K>(
    ks: Seq<K>,
    vs: Seq<Double>,
    seen: Seq<K>,
    reps: Seq<usize>,
    vals: Seq<Vec<Double>>,
) -> bool {
    let firsts = first_seen(ks);
    &&& seen.len() == firsts.len()
    &&& reps.len() == firsts.len()
    &&& vals.len() == firsts.len()
    &&& forall|g: int|
        0 <= g < firsts.len() ==> {
            &&& #[trigger] reps[g] == firsts[g]
            &&& seen[g] == ks[firsts[g]]
            &&& vals[g]@ == members(ks, vs, seen[g])
        }
}

proof fn lemma_collected_more<K>(
    ks: Seq<K>,
    vs: Seq<Double>,
    seen: Seq<K>,
    reps: Seq<usize>,
    vals: Seq<Vec<Double>>,
    pos: int,
    k: K,
    v: Double,
    grown: Vec<Double>,
)
    requires
        ks.len() == vs.len(),
        collected(ks, vs, seen, reps, vals),
        0 <= pos < seen.len(),
        seen[pos] == k,
        grown@ == vals[pos]@.push(v),
    ensures
        collected(ks.push(k), vs.push(v), seen, reps, vals.update(pos, grown)),
{
    law_first_seen(ks);
    let ks2 = ks.push(k);
    let vs2 = vs.push(v);
    assert(ks2.drop_last() =~= ks);
    assert(vs2.drop_last() =~= vs);
    let firsts = first_seen(ks);
    assert(reps[pos] == firsts[pos]);
    assert(ks.contains(ks[firsts[pos]]));
    assert(first_seen(ks2) == firsts);
    let vals2 = vals.update(pos, grown);
    assert forall|g: int| 0 <= g < firsts.len() implies {
        &&& #[trigger] reps[g] == firsts[g]
        &&& seen[g] == ks2[firsts[g]]
        &&& vals2[g]@ == members(ks2, vs2, seen[g])
    } by {
        assert(0 <= firsts[g] < ks.len());
        assert(reps[g] == firsts[g]);
        assert(vals[g]@ == members(ks, vs, seen[g]));
        if g < pos {
            assert(ks[firsts[g]] != ks[firsts[pos]]);
        } else if g > pos {
            assert(ks[firsts[pos]] != ks[firsts[g]]);
        } else {
            assert(vals2[g] == grown);
        }
        assert(members(ks2, vs2, seen[g]) == if seen[g] == k {
            members(ks, vs, seen[g]).push(v)
        } else {
            members(ks, vs, seen[g])
        });
    }
}

/// No value has a key that is not there.
proof fn lemma_no_members<K>(ks: Seq<K>, vs: Seq<Double>, k: K)
    requires
        ks.len() == vs.len(),
        !ks.contains(k),
    ensures
        members(ks, vs, k) == Seq::<Double>::empty(),
    decreases ks.len(),
{
    if ks.len() > 0 {
        let d = ks.drop_last();
        assert(ks[ks.len() - 1] == ks.last());
        assert(ks.contains(ks.last()));
        if d.contains(k) {
            let j = choose|j: int| 0 <= j < d.len() && d[j] == k;
            assert(ks[j] == k);
        }
        lemma_no_members(d, vs.drop_last(), k);
    }
}

proof fn lemma_collected_new<K>(
    ks: Seq<K>,
    vs: Seq<Double>,
    seen: Seq<K>,
    reps: Seq<usize>,
    vals: Seq<Vec<Double>>,
    at: usize,
    k: K,
    v: Double,
    fresh: Vec<Double>,
)
    requires
        ks.len() == vs.len(),
        at == ks.len(),
        collected(ks, vs, seen, reps, vals),
        !seen.contains(k),
        fresh@ == seq![v],
    ensures
        collected(ks.push(k), vs.push(v), seen.push(k), reps.push(at), vals.push(fresh)),
{
    law_first_seen(ks);
    let ks2 = ks.push(k);
    let vs2 = vs.push(v);
    let firsts = first_seen(ks);
    assert(ks2.drop_last() =~= ks);
    assert(vs2.drop_last() =~= vs);
    assert(!ks.contains(k)) by {
        if ks.contains(k) {
            let i = choose|i: int| 0 <= i < ks.len() && ks[i] == k;
            let g = law_every_key_seen(ks, i);
            assert(reps[g] == firsts[g]);
            assert(seen[g] == k);
        }
    }
    lemma_no_members(ks, vs, k);
    let firsts2 = first_seen(ks2);
    assert(firsts2 == firsts.push(at as int));
    let seen2 = seen.push(k);
    let reps2 = reps.push(at);
    let vals2 = vals.push(fresh);
    assert forall|g: int| 0 <= g < firsts2.len() implies {
        &&& #[trigger] reps2[g] == firsts2[g]
        &&& seen2[g] == ks2[firsts2[g]]
        &&& vals2[g]@ == members(ks2, vs2, seen2[g])
    } by {
        if g < firsts.len() {
            assert(reps[g] == firsts[g]);
            assert(0 <= firsts[g] < ks.len());
            assert(seen.contains(seen[g]));
        } else {
            assert(members(ks2, vs2, k) =~= seq![v]);
        }
    }
}

/// Groups the records by key and computes the statistics of the collapsed
/// values of each group. Groups come in the order in which their keys are
/// first seen, each with the position of its first record.
pub fn group_cells<K: Eq, F: Fn(&CellRecord) -> K, A: Fn(Op, &[Double]) -> Double>(
    f: &A,
    records: &[CellRecord],
    key_of: F,
) -> (r: Vec<(usize, Stats)>)
    requires
        double::answers(*f),
        keying(key_of),
    ensures
        forall|m: Arith, key: spec_fn(CellRecord) -> K|
            #[trigger] double::describes(m, *f) && #[trigger] keys_as(key, key_of) ==> r@
                == grouped(m, records@, key),
        forall|key: spec_fn(CellRecord) -> K| #[trigger]
            keys_as(key, key_of) ==> grouped_by(r@, records@.map_values(key), values(records@)),
        within(r@, records@.len()),
{
    let ghost vs = values(records@);
    let mut ks: Ghost<Seq<K>> = Ghost(Seq::empty());
    let mut seen: Vec<K> = Vec::new();
    let mut reps: Vec<usize> = Vec::new();
    let mut vals: Vec<Vec<Double>> = Vec::new();
    let mut i: usize = 0;
    while i < records.len()
        invariant
            i <= records@.len(),
            keying(key_of),
            vs == values(records@),
            ks@.len() == i,
            collected(ks@, vs.take(i as int), seen@, reps@, vals@),
            forall|j: int|
                0 <= j < i ==> call_ensures(key_of, (&records@[j],), #[trigger] ks@[j]),
        decreases records@.len() - i,
    {
        let v: Double = records[i].collapsed;
        let k: K = key_of(&records[i]);
        let ghost before_ks = ks@;
        assert(vs.take(i + 1) =~= vs.take(i as int).push(v));
        match find_key(&seen, &k) {
            Some(pos) => {
                let ghost before = vals@;
                vals[pos].push(v);
                proof {
                    lemma_collected_more(
                        before_ks,
                        vs.take(i as int),
                        seen@,
                        reps@,
                        before,
                        pos as int,
                        k,
                        v,
                        vals@[pos as int],
                    );
                    assert(vals@ =~= before.update(pos as int, vals@[pos as int]));
                    ks@ = before_ks.push(k);
                }
            },
            None => {
                let mut fresh: Vec<Double> = Vec::new();
                fresh.push(v);
                assert(fresh@ =~= seq![v]);
                proof {
                    lemma_collected_new(
                        before_ks,
                        vs.take(i as int),
                        seen@,
                        reps@,
                        vals@,
                        i,
                        k,
                        v,
                        fresh,
                    );
                    ks@ = before_ks.push(k);
                }
                seen.push(k);
                reps.push(i);
                vals.push(fresh);
            },
        }
        i = i + 1;
    }
    proof {
        assert(vs.take(i as int) =~= vs);
        law_first_seen(ks@);
    }
    let ghost firsts = first_seen(ks@);
    let mut out: Vec<(usize, Stats)> = Vec::new();
    let mut g: usize = 0;
    while g < reps.len()
        invariant
            g <= reps@.len(),
            double::answers(*f),
            ks@.len() == records@.len(),
            firsts == first_seen(ks@),
            forall|h: int| 0 <= h < firsts.len() ==> 0 <= #[trigger] firsts[h] < ks@.len(),
            collected(ks@, vs, seen@, reps@, vals@),
            forall|m: Arith| #[trigger]
                double::describes(m, *f) ==> out@ == group_stats(m, ks@, vs, firsts.take(g as int)),
            stand_at(out@, ks@, vs, kept_positions(ks@, vs, firsts.take(g as int))),
            within(out@, records@.len()),
        decreases reps@.len() - g,
    {
        proof {
            assert(firsts.take(g + 1).drop_last() =~= firsts.take(g as int));
            assert(reps@[g as int] == firsts[g as int]);
            assert(vals@[g as int]@ == members(ks@, vs, ks@[firsts[g as int]]));
        }
        if let Some(s) = Stats::compute(f, vals[g].as_slice()) {
            out.push((reps[g], s));
        }
        g = g + 1;
    }
    proof {
        assert(firsts.take(g as int) =~= firsts);
        assert forall|key: spec_fn(CellRecord) -> K| #[trigger]
            keys_as(key, key_of) implies ks@ == records@.map_values(key) by {
            assert(ks@ =~= records@.map_values(key)) by {
                assert forall|j: int| 0 <= j < ks@.len() implies ks@[j] == key(records@[j]) by {
                    assert(call_ensures(key_of, (&records@[j],), ks@[j]));
                }
            }
        }
    }
    out
}

// ---------------------------------------------------------------------------
// Pairs and domains
// ---------------------------------------------------------------------------

/// The core pairs of the records.
pub open spec fn pair_keys(records: Seq<CellRecord>) -> Seq<(usize, usize)> {
    records.map_values(|r: CellRecord| (r.place.ping_core, r.place.pong_core))
}

/// The core pairs of the records, each with its memory domain.
pub open spec fn domain_keys(records: Seq<CellRecord>) -> Seq<(usize, usize, i32)> {
    records.map_values(
        |r: CellRecord| (r.place.ping_core, r.place.pong_core, r.place.mem_numa),
    )
}

/// The groups by core pair, over all domains and addresses.
pub open spec fn pair_groups(
    m: Arith,
    records: Seq<CellRecord>,
) -> Seq<(usize, Stats)> {
    group_stats(m, pair_keys(records), values(records), first_seen(pair_keys(records)))
}

/// The groups by core pair and memory domain, over all addresses.
pub open spec fn domain_groups(
    m: Arith,
    records: Seq<CellRecord>,
) -> Seq<(usize, Stats)> {
    group_stats(m, domain_keys(records), values(records), first_seen(domain_keys(records)))
}

/// Groups the records by core pair.
pub fn group_by_pair<A: Fn(Op, &[Double]) -> Double>(f: &A, records: &[CellRecord]) -> (r: Vec<
    (usize, Stats),
>)
    requires
        double::answers(*f),
    ensures
        forall|m: Arith| #[trigger]
            double::describes(m, *f) ==> r@ == pair_groups(m, records@),
        grouped_by(r@, pair_keys(records@), values(records@)),
        within(r@, records@.len()),
{
    let key_of = |r: &CellRecord| -> (k: (usize, usize))
        ensures
            k == (r.place.ping_core, r.place.pong_core),
        { (r.place.ping_core, r.place.pong_core) };
    let groups: Vec<(usize, Stats)> = group_cells(f, records, key_of);
    proof {
        let key = |r: CellRecord| (r.place.ping_core, r.place.pong_core);
        assert(keys_as(key, key_of));
        assert(records@.map_values(key) =~= pair_keys(records@));
    }
    groups
}

/// Groups the records by core pair and memory domain.
pub fn group_by_domain<A: Fn(Op, &[Double]) -> Double>(f: &A, records: &[CellRecord]) -> (r: Vec<
    (usize, Stats),
>)
    requires
        double::answers(*f),
    ensures
        forall|m: Arith| #[trigger]
            double::describes(m, *f) ==> r@ == domain_groups(m, records@),
        grouped_by(r@, domain_keys(records@), values(records@)),
        within(r@, records@.len()),
{
    let key_of = |r: &CellRecord| -> (k: (usize, usize, i32))
        ensures
            k == (r.place.ping_core, r.place.pong_core, r.place.mem_numa),
        { (r.place.ping_core, r.place.pong_core, r.place.mem_numa) };
    let groups: Vec<(usize, Stats)> = group_cells(f, records, key_of);
    proof {
        let key = |r: CellRecord| (r.place.ping_core, r.place.pong_core, r.place.mem_numa);
        assert(keys_as(key, key_of));
        assert(records@.map_values(key) =~= domain_keys(records@));
    }
    groups
}

// ---------------------------------------------------------------------------
// Laws
// ---------------------------------------------------------------------------

/// How many values the groups at the positions hold in all.
pub open spec fn total_members<K>(ks: Seq<K>, vs: Seq<Double>, reps: Seq<int>) -> nat
    decreases reps.len(),
{
    if reps.len() == 0 {
        0
    } else {
        total_members(ks, vs, reps.drop_last()) + members(ks, vs, ks[reps.last()]).len()
    }
}

/// One more value makes the groups larger by one where one of them has its
/// key, and leaves them as they are where none has.
proof fn lemma_total_members<K>(ks: Seq<K>, vs: Seq<Double>, k: K, v: Double, reps: Seq<int>)
    requires
        ks.len() == vs.len(),
        forall|g: int| 0 <= g < reps.len() ==> 0 <= #[trigger] reps[g] < ks.len(),
        forall|g: int, h: int|
            0 <= g < h < reps.len() ==> ks[#[trigger] reps[g]] != ks[#[trigger] reps[h]],
    ensures
        total_members(ks.push(k), vs.push(v), reps) == total_members(ks, vs, reps) + (if exists|
            g: int,
        |
            0 <= g < reps.len() && ks[#[trigger] reps[g]] == k {
            1nat
        } else {
            0nat
        }),
    decreases reps.len(),
{
    let ks2 = ks.push(k);
    let vs2 = vs.push(v);
    assert(ks2.drop_last() =~= ks);
    assert(vs2.drop_last() =~= vs);
    if reps.len() > 0 {
        let d = reps.drop_last();
        let last = reps.len() - 1;
        assert forall|g: int| 0 <= g < d.len() implies 0 <= #[trigger] d[g] < ks.len() by {
            assert(d[g] == reps[g]);
        }
        assert forall|g: int, h: int| 0 <= g < h < d.len() implies ks[#[trigger] d[g]]
            != ks[#[trigger] d[h]] by {
            assert(d[g] == reps[g]);
            assert(d[h] == reps[h]);
        }
        lemma_total_members(ks, vs, k, v, d);
        let own = ks[reps[last]];
        assert(ks2[reps[last]] == own);
        if own == k {
            assert forall|g: int| 0 <= g < d.len() implies ks[#[trigger] d[g]] != k by {
                assert(d[g] == reps[g]);
                assert(ks[reps[g]] != ks[reps[last]]);
            }
        } else if exists|g: int| 0 <= g < reps.len() && ks[#[trigger] reps[g]] == k {
            let g = choose|g: int| 0 <= g < reps.len() && ks[#[trigger] reps[g]] == k;
            assert(d[g] == reps[g]);
        } else {
            assert forall|g: int| 0 <= g < d.len() implies ks[#[trigger] d[g]] != k by {
                assert(d[g] == reps[g]);
            }
        }
    }
}

/// Every record is in one group: the groups hold as many values as there are records.
pub proof fn law_groups_hold_all<K>(ks: Seq<K>, vs: Seq<Double>)
    requires
        ks.len() == vs.len(),
    ensures
        total_members(ks, vs, first_seen(ks)) == ks.len(),
    decreases ks.len(),
{
    if ks.len() > 0 {
        let d = ks.drop_last();
        let w = vs.drop_last();
        let k = ks.last();
        law_groups_hold_all(d, w);
        law_first_seen(d);
        let a = first_seen(d);
        assert(ks =~= d.push(k));
        assert(vs =~= w.push(vs.last()));
        lemma_total_members(d, w, k, vs.last(), a);
        if d.contains(k) {
            let j = choose|j: int| 0 <= j < d.len() && d[j] == k;
            let g = law_every_key_seen(d, j);
            assert(d[a[g]] == k);
        } else {
            assert forall|g: int| 0 <= g < a.len() implies d[#[trigger] a[g]] != k by {
                assert(d.contains(d[a[g]]));
            }
            lemma_no_members(d, w, k);
            let r = first_seen(ks);
            assert(r == a.push(ks.len() - 1));
            assert(r.drop_last() =~= a);
            assert(members(ks, vs, k).len() == 1);
        }
    }
}

proof fn lemma_members_numbers<K>(ks: Seq<K>, vs: Seq<Double>, k: K)
    requires
        ks.len() == vs.len(),
        forall|i: int| 0 <= i < vs.len() ==> !(#[trigger] vs[i]).not_a_number(),
    ensures
        forall|i: int|
            0 <= i < members(ks, vs, k).len() ==> !(#[trigger] members(
                ks,
                vs,
                k,
            )[i]).not_a_number(),
        ks.contains(k) ==> members(ks, vs, k).len() > 0,
    decreases ks.len(),
{
    if ks.len() > 0 {
        let d = ks.drop_last();
        let w = vs.drop_last();
        assert forall|i: int| 0 <= i < w.len() implies !(#[trigger] w[i]).not_a_number() by {
            assert(w[i] == vs[i]);
        }
        lemma_members_numbers(d, w, k);
        assert(!vs[vs.len() - 1].not_a_number());
        let m = members(ks, vs, k);
        let n = members(d, w, k);
        assert forall|i: int| 0 <= i < m.len() implies !(#[trigger] m[i]).not_a_number() by {
            if i < n.len() {
                assert(m[i] == n[i]);
            }
        }
        if ks.contains(k) && ks.last() != k {
            let j = choose|j: int| 0 <= j < ks.len() && ks[j] == k;
            assert(d[j] == k);
        }
    }
}

/// Where every collapsed value is a number, each key has one group, with the
/// position at which the key is first seen.
pub proof fn law_one_group_per_key<K>(
    m: Arith,
    ks: Seq<K>,
    vs: Seq<Double>,
    reps: Seq<int>,
)
    requires
        ks.len() == vs.len(),
        ks.len() <= usize::MAX,
        forall|i: int| 0 <= i < vs.len() ==> !(#[trigger] vs[i]).not_a_number(),
        forall|g: int| 0 <= g < reps.len() ==> 0 <= #[trigger] reps[g] < ks.len(),
    ensures
        group_stats(m, ks, vs, reps).len() == reps.len(),
        forall|g: int|
            0 <= g < reps.len() ==> {
                let group = #[trigger] group_stats(m, ks, vs, reps)[g];
                &&& group.0 == reps[g]
                &&& stats::stats_of(m, members(ks, vs, ks[reps[g]])) == Some(group.1)
            },
    decreases reps.len(),
{
    if reps.len() > 0 {
        let d = reps.drop_last();
        assert forall|g: int| 0 <= g < d.len() implies 0 <= #[trigger] d[g] < ks.len() by {
            assert(d[g] == reps[g]);
        }
        law_one_group_per_key(m, ks, vs, d);
        let last = reps[reps.len() - 1];
        let k = ks[last];
        assert(ks.contains(k));
        lemma_members_numbers(ks, vs, k);
        stats::law_numbers(members(ks, vs, k));
        let all = group_stats(m, ks, vs, reps);
        let before = group_stats(m, ks, vs, d);
        assert forall|g: int| 0 <= g < reps.len() implies {
            let group = #[trigger] all[g];
            &&& group.0 == reps[g]
            &&& stats::stats_of(m, members(ks, vs, ks[reps[g]])) == Some(group.1)
        } by {
            if g < d.len() {
                assert(all[g] == before[g]);
                assert(d[g] == reps[g]);
            }
        }
    }
}

/// The values with a key, as the records come: a record with the key adds its
/// value at the end, another adds nothing.
pub proof fn law_members<K>(ks: Seq<K>, vs: Seq<Double>, k: K, v: Double, q: K)
    requires
        ks.len() == vs.len(),
    ensures
        members(Seq::<K>::empty(), Seq::<Double>::empty(), q).len() == 0,
        members(ks.push(q), vs.push(v), q) == members(ks, vs, q).push(v),
        k != q ==> members(ks.push(k), vs.push(v), q) == members(ks, vs, q),
{
    assert(ks.push(q).drop_last() =~= ks);
    assert(ks.push(k).drop_last() =~= ks);
    assert(vs.push(v).drop_last() =~= vs);
}

/// What records are grouped by: their cores, and for the domains the node of
/// their memory too; and what is grouped are their collapsed values.
pub proof fn law_keys(records: Seq<CellRecord>, i: int)
    requires
        0 <= i < records.len(),
    ensures
        pair_keys(records)[i] == (records[i].place.ping_core, records[i].place.pong_core),
        domain_keys(records)[i] == (
            records[i].place.ping_core,
            records[i].place.pong_core,
            records[i].place.mem_numa,
        ),
        values(records)[i] == records[i].collapsed,
        pair_keys(records).len() == records.len(),
        domain_keys(records).len() == records.len(),
        values(records).len() == records.len(),
{
}

/// The group of a record, by key.
proof fn lemma_group_of<K>(m: Arith, ks: Seq<K>, vs: Seq<Double>, k: int) -> (g: int)
    requires
        ks.len() == vs.len(),
        ks.len() <= usize::MAX,
        0 <= k < ks.len(),
        forall|i: int| 0 <= i < vs.len() ==> !(#[trigger] vs[i]).not_a_number(),
    ensures
        ({
            let groups = group_stats(m, ks, vs, first_seen(ks));
            &&& 0 <= g < groups.len()
            &&& groups[g].0 <= k
            &&& ks[groups[g].0 as int] == ks[k]
            &&& stats::stats_of(m, members(ks, vs, ks[k])) == Some(groups[g].1)
            &&& forall|h: int|
                0 <= h < groups.len() && h != g ==> (#[trigger] groups[h]).0 < ks.len()
                    && ks[groups[h].0 as int] != ks[k]
            &&& forall|i: int| 0 <= i < groups[g].0 ==> #[trigger] ks[i] != ks[k]
        }),
{
    let reps = first_seen(ks);
    let groups = group_stats(m, ks, vs, reps);
    law_first_seen(ks);
    law_one_group_per_key(m, ks, vs, reps);
    let g = law_every_key_seen(ks, k);
    assert(groups[g].0 == reps[g]);
    assert forall|h: int| 0 <= h < groups.len() && h != g implies (#[trigger] groups[h]).0
        < ks.len() && ks[groups[h].0 as int] != ks[k] by {
        assert(groups[h].0 == reps[h]);
        if h < g {
            assert(ks[reps[h]] != ks[reps[g]]);
        } else {
            assert(ks[reps[g]] != ks[reps[h]]);
        }
    }
    assert forall|i: int| 0 <= i < groups[g].0 implies #[trigger] ks[i] != ks[k] by {
        if ks[i] == ks[k] {
            let h = law_every_key_seen(ks, i);
            if h < g {
                assert(ks[reps[h]] != ks[reps[g]]);
            } else if h > g {
                assert(reps[g] < reps[h]);
            }
        }
    }
    g
}

/// Whether a record is of a core pair.
pub open spec fn of_pair(ping: usize, pong: usize) -> spec_fn(CellRecord) -> bool {
    |r: CellRecord| r.place.ping_core == ping && r.place.pong_core == pong
}

/// Whether a record is of a core pair, and its memory on a node.
pub open spec fn of_domain(ping: usize, pong: usize, node: i32) -> spec_fn(CellRecord) -> bool {
    |r: CellRecord|
        r.place.ping_core == ping && r.place.pong_core == pong && r.place.mem_numa == node
}

/// The collapsed value of a record.
pub open spec fn collapsed_value() -> spec_fn(CellRecord) -> Double {
    |r: CellRecord| r.collapsed
}

proof fn lemma_pair_members(records: Seq<CellRecord>, ping: usize, pong: usize)
    ensures
        members(pair_keys(records), values(records), (ping, pong)) == records.filter(
            of_pair(ping, pong),
        ).map_values(collapsed_value()),
    decreases records.len(),
{
    reveal(Seq::filter);
    let all = records.filter(of_pair(ping, pong)).map_values(collapsed_value());
    if records.len() > 0 {
        let d = records.drop_last();
        lemma_pair_members(d, ping, pong);
        assert(pair_keys(records).drop_last() =~= pair_keys(d));
        assert(values(records).drop_last() =~= values(d));
        let before = d.filter(of_pair(ping, pong)).map_values(collapsed_value());
        if of_pair(ping, pong)(records.last()) {
            assert(all =~= before.push(records.last().collapsed));
        } else {
            assert(all =~= before);
        }
    }
    assert(members(pair_keys(records), values(records), (ping, pong)) =~= all);
}

proof fn lemma_domain_members(records: Seq<CellRecord>, ping: usize, pong: usize, node: i32)
    ensures
        members(domain_keys(records), values(records), (ping, pong, node)) == records.filter(
            of_domain(ping, pong, node),
        ).map_values(collapsed_value()),
    decreases records.len(),
{
    reveal(Seq::filter);
    let all = records.filter(of_domain(ping, pong, node)).map_values(collapsed_value());
    if records.len() > 0 {
        let d = records.drop_last();
        lemma_domain_members(d, ping, pong, node);
        assert(domain_keys(records).drop_last() =~= domain_keys(d));
        assert(values(records).drop_last() =~= values(d));
        let before = d.filter(of_domain(ping, pong, node)).map_values(collapsed_value());
        if of_domain(ping, pong, node)(records.last()) {
            assert(all =~= before.push(records.last().collapsed));
        } else {
            assert(all =~= before);
        }
    }
    assert(members(domain_keys(records), values(records), (ping, pong, node)) =~= all);
}

/// Every record has one group of its core pair, whatever its domain: the group
/// stands at the first record of the pair, and its statistics are those of the
/// collapsed values of all records of the pair.
pub proof fn law_pair_group(m: Arith, records: Seq<CellRecord>, k: int) -> (g: int)
    requires
        0 <= k < records.len() <= usize::MAX,
        forall|i: int| 0 <= i < records.len() ==> !(#[trigger] records[i]).collapsed.not_a_number(),
    ensures
        ({
            let p = records[k].place;
            let same = of_pair(p.ping_core, p.pong_core);
            let groups = pair_groups(m, records);
            &&& 0 <= g < groups.len()
            &&& groups[g].0 <= k
            &&& same(records[groups[g].0 as int])
            &&& forall|i: int| 0 <= i < groups[g].0 ==> !same(#[trigger] records[i])
            &&& stats::stats_of(m, records.filter(same).map_values(collapsed_value())) == Some(
                groups[g].1,
            )
            &&& forall|h: int|
                0 <= h < groups.len() && h != g ==> (#[trigger] groups[h]).0 < records.len()
                    && !same(records[groups[h].0 as int])
        }),
{
    let p = records[k].place;
    let ks = pair_keys(records);
    let vs = values(records);
    assert forall|i: int| 0 <= i < vs.len() implies !(#[trigger] vs[i]).not_a_number() by {
        assert(vs[i] == records[i].collapsed);
    }
    let g = lemma_group_of(m, ks, vs, k);
    lemma_pair_members(records, p.ping_core, p.pong_core);
    let same = of_pair(p.ping_core, p.pong_core);
    let groups = pair_groups(m, records);
    assert forall|i: int| 0 <= i < groups[g].0 implies !same(#[trigger] records[i]) by {
        assert(ks[i] != ks[k]);
    }
    g
}

/// Every record has one group of its core pair and node: the group stands at
/// the first record of the two, and its statistics are those of the collapsed
/// values of all records of the two.
pub proof fn law_domain_group(m: Arith, records: Seq<CellRecord>, k: int) -> (g: int)
    requires
        0 <= k < records.len() <= usize::MAX,
        forall|i: int| 0 <= i < records.len() ==> !(#[trigger] records[i]).collapsed.not_a_number(),
    ensures
        ({
            let p = records[k].place;
            let same = of_domain(p.ping_core, p.pong_core, p.mem_numa);
            let groups = domain_groups(m, records);
            &&& 0 <= g < groups.len()
            &&& groups[g].0 <= k
            &&& same(records[groups[g].0 as int])
            &&& forall|i: int| 0 <= i < groups[g].0 ==> !same(#[trigger] records[i])
            &&& stats::stats_of(m, records.filter(same).map_values(collapsed_value())) == Some(
                groups[g].1,
            )
            &&& forall|h: int|
                0 <= h < groups.len() && h != g ==> (#[trigger] groups[h]).0 < records.len()
                    && !same(records[groups[h].0 as int])
        }),
{
    let p = records[k].place;
    let ks = domain_keys(records);
    let vs = values(records);
    assert forall|i: int| 0 <= i < vs.len() implies !(#[trigger] vs[i]).not_a_number() by {
        assert(vs[i] == records[i].collapsed);
    }
    let g = lemma_group_of(m, ks, vs, k);
    lemma_domain_members(records, p.ping_core, p.pong_core, p.mem_numa);
    let same = of_domain(p.ping_core, p.pong_core, p.mem_numa);
    let groups = domain_groups(m, records);
    assert forall|i: int| 0 <= i < groups[g].0 implies !same(#[trigger] records[i]) by {
        assert(ks[i] != ks[k]);
    }
    g
}

/// A group is there only for values with a number among them: whatever the
/// positions, each group stands at one of them and has the statistics of all
/// values with the key there; and a position whose values hold a number has
/// its group.
pub proof fn law_groups_hold_numbers<K>(m: Arith, ks: Seq<K>, vs: Seq<Double>, reps: Seq<int>)
    requires
        ks.len() <= usize::MAX,
        forall|g: int| 0 <= g < reps.len() ==> 0 <= #[trigger] reps[g] < ks.len(),
    ensures
        forall|g: int|
            0 <= g < group_stats(m, ks, vs, reps).len() ==> {
                let group = #[trigger] group_stats(m, ks, vs, reps)[g];
                &&& reps.contains(group.0 as int)
                &&& stats::stats_of(m, members(ks, vs, ks[group.0 as int])) == Some(group.1)
            },
        forall|i: int|
            0 <= i < reps.len() && stats::stats_of(
                m,
                members(ks, vs, ks[#[trigger] reps[i]]),
            ) is Some ==> exists|g: int|
                0 <= g < group_stats(m, ks, vs, reps).len() && #[trigger] group_stats(
                    m,
                    ks,
                    vs,
                    reps,
                )[g].0 == reps[i],
    decreases reps.len(),
{
    if reps.len() > 0 {
        let d = reps.drop_last();
        assert forall|g: int| 0 <= g < d.len() implies 0 <= #[trigger] d[g] < ks.len() by {
            assert(d[g] == reps[g]);
        }
        law_groups_hold_numbers(m, ks, vs, d);
        let last = reps[reps.len() - 1];
        let before = group_stats(m, ks, vs, d);
        let all = group_stats(m, ks, vs, reps);
        assert forall|g: int| 0 <= g < all.len() implies {
            let group = #[trigger] all[g];
            &&& reps.contains(group.0 as int)
            &&& stats::stats_of(m, members(ks, vs, ks[group.0 as int])) == Some(group.1)
        } by {
            if g < before.len() {
                assert(all[g] == before[g]);
                let k = choose|k: int| 0 <= k < d.len() && d[k] == before[g].0;
                assert(reps[k] == before[g].0);
            } else {
                assert(all[g].0 == last);
                assert(reps.contains(last));
            }
        }
        assert forall|i: int|
            0 <= i < reps.len() && stats::stats_of(
                m,
                members(ks, vs, ks[#[trigger] reps[i]]),
            ) is Some implies exists|g: int| 0 <= g < all.len() && #[trigger] all[g].0
            == reps[i] by {
            if i < d.len() {
                assert(d[i] == reps[i]);
                let g = choose|g: int| 0 <= g < before.len() && #[trigger] before[g].0 == d[i];
                assert(all[g] == before[g]);
            } else {
                assert(all[all.len() - 1].0 == last);
            }
        }
    }
}

} // verus!
