//! Why the range notation of a list of ids is the shortest: its parts are the
//! longest runs, and no text that names the same ids has fewer parts or fewer
//! characters.

use crate::ids;
use crate::ids::{
    ascending, fragment_ids, fragments_ids, ids_between, listed, ranges_text, run_text, run_texts,
    runs, sorted_set,
};
use crate::number;
use crate::text;
use vstd::prelude::*;

verus! {

// ---------------------------------------------------------------------------
// The longest runs
// ---------------------------------------------------------------------------

/// Whether an id is in a run.
pub open spec fn in_run(run: (usize, usize), id: int) -> bool {
    run.0 <= id <= run.1
}

/// Whether each run is a run: from its first id up to its last.
pub open spec fn upward(rs: Seq<(usize, usize)>) -> bool {
    forall|i: int| 0 <= i < rs.len() ==> (#[trigger] rs[i]).0 <= rs[i].1
}

/// Whether the runs rise, with at least one id missing between each two.
pub open spec fn apart(rs: Seq<(usize, usize)>) -> bool {
    forall|i: int, j: int|
        0 <= i < j < rs.len() ==> (#[trigger] rs[i]).1 + 1 < (#[trigger] rs[j]).0
}

/// Whether the ids in the runs are those of the list.
pub open spec fn cover(rs: Seq<(usize, usize)>, v: Seq<usize>) -> bool {
    forall|y: usize| #[trigger]
        v.contains(y) <==> exists|i: int| 0 <= i < rs.len() && in_run(#[trigger] rs[i], y as int)
}

/// The runs of a rising list are its longest runs of consecutive ids, rising:
/// each goes from its first id up to its last, they hold the ids of the list
/// and no others, and the ids right before and right after a run are not in
/// the list.
pub proof fn law_runs_maximal(v: Seq<usize>)
    requires
        ascending(v),
    ensures
        upward(runs(v)),
        apart(runs(v)),
        cover(runs(v), v),
        forall|i: int, y: usize|
            0 <= i < runs(v).len() && (y + 1 == (#[trigger] runs(v)[i]).0 || y == runs(v)[i].1 + 1)
                ==> !#[trigger] v.contains(y),
{
    lemma_runs(v);
    let rs = runs(v);
    assert forall|i: int, y: usize|
        0 <= i < rs.len() && (y + 1 == (#[trigger] rs[i]).0 || y == rs[i].1 + 1) implies
        !#[trigger] v.contains(y) by {
        if v.contains(y) {
            let k = choose|k: int| 0 <= k < rs.len() && in_run(#[trigger] rs[k], y as int);
            assert(rs[i].0 <= rs[i].1);
            if k < i {
                assert(rs[k].1 + 1 < rs[i].0);
            } else if i < k {
                assert(rs[i].1 + 1 < rs[k].0);
            }
        }
    }
}

proof fn lemma_runs(v: Seq<usize>)
    requires
        ascending(v),
    ensures
        v.len() > 0 ==> runs(v).len() > 0 && runs(v).last().1 == v.last(),
        upward(runs(v)),
        apart(runs(v)),
        cover(runs(v), v),
    decreases v.len(),
{
    let rs = runs(v);
    if v.len() > 0 {
        let d = v.drop_last();
        let x = v.last();
        lemma_runs(d);
        let r = runs(d);
        let n = rs.len() - 1;
        if d.len() > 0 {
            assert(v[v.len() - 2] < v[v.len() - 1]);
            assert(r[r.len() - 1] == r.last());
        }
        let longer = r.len() > 0 && r.last().1 + 1 == x;
        assert forall|i: int| 0 <= i < rs.len() implies (#[trigger] rs[i]).0 <= rs[i].1 by {
            if i < n {
                assert(rs[i] == r[i]);
            } else if longer {
                assert(r[n].0 <= r[n].1);
            }
        }
        assert forall|i: int, j: int| 0 <= i < j < rs.len() implies (#[trigger] rs[i]).1 + 1 < (
        #[trigger] rs[j]).0 by {
            assert(rs[i] == r[i]);
            if j < n || longer {
                assert(rs[j].0 == r[j].0);
                assert(r[i].1 + 1 < r[j].0);
            } else {
                assert(r[i].0 <= r[i].1);
                let m = r.len() - 1;
                if i < m {
                    assert(r[i].1 + 1 < r[m].0);
                    assert(r[m].0 <= r[m].1);
                }
            }
        }
        assert forall|y: usize| #[trigger]
            v.contains(y) <==> exists|i: int|
                0 <= i < rs.len() && in_run(#[trigger] rs[i], y as int) by {
            assert(d.contains(y) <==> exists|i: int|
                0 <= i < r.len() && in_run(#[trigger] r[i], y as int));
            if v.contains(y) {
                let k = choose|k: int| 0 <= k < v.len() && v[k] == y;
                if k < d.len() {
                    assert(d[k] == y);
                    let i = choose|i: int| 0 <= i < r.len() && in_run(#[trigger] r[i], y as int);
                    assert(in_run(rs[i], y as int));
                } else {
                    assert(rs[n].0 <= rs[n].1);
                    assert(in_run(rs[n], y as int));
                }
            }
            if exists|i: int| 0 <= i < rs.len() && in_run(#[trigger] rs[i], y as int) {
                let i = choose|i: int| 0 <= i < rs.len() && in_run(#[trigger] rs[i], y as int);
                if y == x {
                    assert(v[v.len() - 1] == y);
                } else {
                    assert(in_run(r[i], y as int));
                    assert(d.contains(y));
                    let k = choose|k: int| 0 <= k < d.len() && d[k] == y;
                    assert(v[k] == y);
                }
            }
        }
    }
}

// ---------------------------------------------------------------------------
// Fragments
// ---------------------------------------------------------------------------

/// A fragment names consecutive ids, and writes out the first and the last of them.
proof fn lemma_fragment(f: Seq<char>) -> (run: (usize, usize))
    ensures
        fragment_ids(f) == ids_between(run.0, run.1),
        run.0 == run.1 ==> number::dec(run.0 as nat).len() <= f.len(),
        run.0 < run.1 ==> number::dec(run.0 as nat).len() + 1 + number::dec(run.1 as nat).len()
            <= f.len(),
{
    let p = text::trimmed(f);
    let i = text::position(p, '-');
    text::lemma_trimmed_len(f);
    text::lemma_position(p, '-');
    if i < p.len() {
        let s = text::trimmed(p.take(i));
        let t = text::trimmed(p.skip(i + 1));
        text::lemma_trimmed_len(p.take(i));
        text::lemma_trimmed_len(p.skip(i + 1));
        match (number::usize_of(s), number::usize_of(t)) {
            (Some(a), Some(b)) => {
                number::law_dec_shortest(s, a as nat);
                number::law_dec_shortest(t, b as nat);
                (a, b)
            },
            _ => {
                assert(fragment_ids(f) =~= ids_between(1, 0));
                (1, 0)
            },
        }
    } else {
        match number::usize_of(p) {
            Some(a) => {
                number::law_dec_shortest(p, a as nat);
                assert(fragment_ids(f) =~= ids_between(a, a));
                (a, a)
            },
            None => {
                assert(fragment_ids(f) =~= ids_between(1, 0));
                (1, 0)
            },
        }
    }
}

proof fn lemma_between(a: usize, b: usize, y: usize)
    ensures
        ids_between(a, b).contains(y) <==> a <= y <= b,
{
    if a <= y <= b {
        assert(ids_between(a, b)[y - a] == y);
    }
}

/// The fragments name what one of them names.
proof fn lemma_named(fs: Seq<Seq<char>>, y: usize)
    ensures
        fragments_ids(fs).contains(y) <==> exists|j: int|
            0 <= j < fs.len() && fragment_ids(#[trigger] fs[j]).contains(y),
    decreases fs.len(),
{
    if fs.len() > 0 {
        let d = fs.drop_last();
        lemma_named(d, y);
        let a = fragments_ids(d);
        let b = fragment_ids(fs.last());
        let all = fragments_ids(fs);
        assert(fs[fs.len() - 1] == fs.last());
        if all.contains(y) {
            let k = choose|k: int| 0 <= k < all.len() && all[k] == y;
            if k < a.len() {
                assert(a[k] == y);
                let j = choose|j: int| 0 <= j < d.len() && fragment_ids(#[trigger] d[j]).contains(y);
                assert(fragment_ids(fs[j]).contains(y));
            } else {
                assert(b[k - a.len()] == y);
                assert(fragment_ids(fs[fs.len() - 1]).contains(y));
            }
        }
        if exists|j: int| 0 <= j < fs.len() && fragment_ids(#[trigger] fs[j]).contains(y) {
            let j = choose|j: int| 0 <= j < fs.len() && fragment_ids(#[trigger] fs[j]).contains(y);
            if j < d.len() {
                assert(fragment_ids(d[j]).contains(y));
                let k = choose|k: int| 0 <= k < a.len() && a[k] == y;
                assert(all[k] == y);
            } else {
                let k = choose|k: int| 0 <= k < b.len() && b[k] == y;
                assert(all[a.len() + k] == y);
            }
        }
    }
}

// ---------------------------------------------------------------------------
// Weights
// ---------------------------------------------------------------------------

/// What a part of a text weighs.
type Weight = spec_fn(Seq<char>) -> nat;

/// The weight of all parts.
spec fn weight(w: Weight, fs: Seq<Seq<char>>) -> nat
    decreases fs.len(),
{
    if fs.len() == 0 {
        0
    } else {
        weight(w, fs.drop_last()) + w(fs.last())
    }
}

/// Whether a fragment names an id of a run.
spec fn names(f: Seq<char>, run: (usize, usize)) -> bool {
    exists|y: usize| #[trigger] fragment_ids(f).contains(y) && in_run(run, y as int)
}

/// The weight of the fragments that name an id of a run.
spec fn weight_in(w: Weight, fs: Seq<Seq<char>>, run: (usize, usize)) -> nat
    decreases fs.len(),
{
    if fs.len() == 0 {
        0
    } else {
        weight_in(w, fs.drop_last(), run) + if names(fs.last(), run) {
            w(fs.last())
        } else {
            0
        }
    }
}

/// The weight of the fragments that name an id of each run, added up.
spec fn weight_over(w: Weight, fs: Seq<Seq<char>>, rs: Seq<(usize, usize)>) -> nat
    decreases rs.len(),
{
    if rs.len() == 0 {
        0
    } else {
        weight_over(w, fs, rs.drop_last()) + weight_in(w, fs, rs.last())
    }
}

/// Whether a fragment names ids of one run at most.
spec fn of_one(f: Seq<char>, rs: Seq<(usize, usize)>) -> bool {
    forall|i: int, j: int|
        0 <= i < j < rs.len() ==> !(#[trigger] names(f, rs[i]) && #[trigger] names(f, rs[j]))
}

proof fn lemma_no_fragments(w: Weight, rs: Seq<(usize, usize)>)
    ensures
        weight_over(w, Seq::<Seq<char>>::empty(), rs) == 0,
    decreases rs.len(),
{
    if rs.len() > 0 {
        lemma_no_fragments(w, rs.drop_last());
    }
}

proof fn lemma_one_more(w: Weight, fs: Seq<Seq<char>>, rs: Seq<(usize, usize)>)
    requires
        fs.len() > 0,
        of_one(fs.last(), rs),
    ensures
        weight_over(w, fs, rs) <= weight_over(w, fs.drop_last(), rs) + w(fs.last()),
        (forall|i: int| 0 <= i < rs.len() ==> !#[trigger] names(fs.last(), rs[i])) ==> weight_over(
            w,
            fs,
            rs,
        ) == weight_over(w, fs.drop_last(), rs),
    decreases rs.len(),
{
    if rs.len() > 0 {
        let d = rs.drop_last();
        let f = fs.last();
        let n = rs.len() - 1;
        assert forall|i: int, j: int| 0 <= i < j < d.len() implies !(#[trigger] names(f, d[i])
            && #[trigger] names(f, d[j])) by {
            assert(d[i] == rs[i] && d[j] == rs[j]);
            assert(!(names(f, rs[i]) && names(f, rs[j])));
        }
        lemma_one_more(w, fs, d);
        if names(f, rs[n]) {
            assert forall|i: int| 0 <= i < d.len() implies !#[trigger] names(f, d[i]) by {
                assert(d[i] == rs[i]);
                assert(!(names(f, rs[i]) && names(f, rs[n])));
            }
        }
        if forall|i: int| 0 <= i < rs.len() ==> !#[trigger] names(f, rs[i]) {
            assert forall|i: int| 0 <= i < d.len() implies !#[trigger] names(f, d[i]) by {
                assert(d[i] == rs[i]);
            }
            assert(!names(f, rs[n]));
        }
    }
}

/// Fragments that name ids of one run at most are counted once at most.
proof fn lemma_weight_over(w: Weight, fs: Seq<Seq<char>>, rs: Seq<(usize, usize)>)
    requires
        forall|j: int| 0 <= j < fs.len() ==> of_one(#[trigger] fs[j], rs),
    ensures
        weight_over(w, fs, rs) <= weight(w, fs),
    decreases fs.len(),
{
    if fs.len() == 0 {
        assert(fs =~= Seq::<Seq<char>>::empty());
        lemma_no_fragments(w, rs);
    } else {
        let d = fs.drop_last();
        assert forall|j: int| 0 <= j < d.len() implies of_one(#[trigger] d[j], rs) by {
            assert(d[j] == fs[j]);
        }
        lemma_weight_over(w, d, rs);
        assert(of_one(fs[fs.len() - 1], rs));
        lemma_one_more(w, fs, rs);
    }
}

/// The fragments that name an id of a run weigh what any two of them weigh.
proof fn lemma_two(w: Weight, fs: Seq<Seq<char>>, run: (usize, usize), j: int, k: int)
    requires
        0 <= j <= k < fs.len(),
        names(fs[j], run),
        names(fs[k], run),
    ensures
        j == k ==> weight_in(w, fs, run) >= w(fs[j]),
        j < k ==> weight_in(w, fs, run) >= w(fs[j]) + w(fs[k]),
    decreases fs.len(),
{
    let d = fs.drop_last();
    if k < d.len() {
        assert(d[j] == fs[j] && d[k] == fs[k]);
        lemma_two(w, d, run, j, k);
    } else if j < k {
        assert(d[j] == fs[j]);
        lemma_two(w, d, run, j, j);
    }
}

/// Where every run has fragments that weigh as much as its text, all of them
/// weigh as much as the texts of the runs.
proof fn lemma_texts(w: Weight, fs: Seq<Seq<char>>, rs: Seq<(usize, usize)>)
    requires
        forall|i: int|
            0 <= i < rs.len() ==> weight_in(w, fs, #[trigger] rs[i]) >= w(run_text(rs[i])),
    ensures
        weight_over(w, fs, rs) >= weight(w, run_texts(rs)),
    decreases rs.len(),
{
    if rs.len() > 0 {
        let d = rs.drop_last();
        assert forall|i: int| 0 <= i < d.len() implies weight_in(w, fs, #[trigger] d[i]) >= w(
            run_text(d[i]),
        ) by {
            assert(d[i] == rs[i]);
        }
        lemma_texts(w, fs, d);
        assert(rs =~= d.push(rs.last()));
        ids::lemma_run_texts_push(d, rs.last());
        assert(run_texts(rs).drop_last() =~= run_texts(d));
        assert(rs[rs.len() - 1] == rs.last());
    }
}

/// What a part takes up in a list: its characters, and a comma.
spec fn room() -> Weight {
    |f: Seq<char>| f.len() + 1
}

/// A part counts as one.
spec fn one() -> Weight {
    |f: Seq<char>| 1nat
}

proof fn lemma_weight_concat(w: Weight, a: Seq<Seq<char>>, b: Seq<Seq<char>>)
    ensures
        weight(w, a + b) == weight(w, a) + weight(w, b),
    decreases b.len(),
{
    if b.len() == 0 {
        assert(a + b =~= a);
    } else {
        lemma_weight_concat(w, a, b.drop_last());
        assert((a + b).drop_last() =~= a + b.drop_last());
    }
}

proof fn lemma_single(w: Weight, f: Seq<char>)
    ensures
        weight(w, seq![f]) == w(f),
{
    assert(seq![f].drop_last() =~= Seq::<Seq<char>>::empty());
    assert(weight(w, seq![f].drop_last()) == 0);
}

proof fn lemma_room_of_pieces(s: Seq<char>, c: char)
    ensures
        weight(room(), text::pieces(s, c)) == s.len() + 1,
    decreases s.len(),
{
    text::lemma_position(s, c);
    let i = text::position(s, c);
    if i < s.len() {
        lemma_room_of_pieces(s.skip(i + 1), c);
        lemma_weight_concat(room(), seq![s.take(i)], text::pieces(s.skip(i + 1), c));
        lemma_single(room(), s.take(i));
    } else {
        lemma_single(room(), s);
    }
}

proof fn lemma_room_of_joined(parts: Seq<Seq<char>>)
    requires
        parts.len() > 0,
    ensures
        weight(room(), parts) == text::joined(parts, seq![',']).len() + 1,
    decreases parts.len(),
{
    if parts.len() == 1 {
        assert(parts =~= seq![parts[0]]);
        lemma_single(room(), parts[0]);
    } else {
        lemma_room_of_joined(parts.drop_last());
    }
}

proof fn lemma_count(parts: Seq<Seq<char>>)
    ensures
        weight(one(), parts) == parts.len(),
    decreases parts.len(),
{
    if parts.len() > 0 {
        lemma_count(parts.drop_last());
    }
}

// ---------------------------------------------------------------------------
// Laws
// ---------------------------------------------------------------------------

/// The fragments that name the ids of a run, and only ids of the list, take up
/// as much as the text of the run.
proof fn lemma_run_room(fs: Seq<Seq<char>>, v: Seq<usize>, i: int)
    requires
        ascending(v),
        0 <= i < runs(v).len(),
        forall|y: usize| #[trigger] fragments_ids(fs).contains(y) <==> v.contains(y),
    ensures
        weight_in(room(), fs, runs(v)[i]) >= room()(run_text(runs(v)[i])),
        weight_in(one(), fs, runs(v)[i]) >= one()(run_text(runs(v)[i])),
{
    law_runs_maximal(v);
    reveal_strlit("-");
    let run = runs(v)[i];
    let (a, b) = run;
    assert(in_run(run, a as int) && in_run(run, b as int));
    assert(v.contains(a) && v.contains(b));
    assert(fragments_ids(fs).contains(a) && fragments_ids(fs).contains(b));
    lemma_named(fs, a);
    lemma_named(fs, b);
    let j = choose|j: int| 0 <= j < fs.len() && fragment_ids(#[trigger] fs[j]).contains(a);
    let k = choose|k: int| 0 <= k < fs.len() && fragment_ids(#[trigger] fs[k]).contains(b);
    let fj = lemma_fragment(fs[j]);
    let fk = lemma_fragment(fs[k]);
    lemma_between(fj.0, fj.1, a);
    lemma_between(fk.0, fk.1, b);
    assert(names(fs[j], run));
    assert(names(fs[k], run));
    assert(fj.0 == a) by {
        if fj.0 < a {
            let y = (a - 1) as usize;
            lemma_between(fj.0, fj.1, y);
            assert(fragment_ids(fs[j]).contains(y));
            lemma_named(fs, y);
            assert(fragments_ids(fs).contains(y));
            assert(v.contains(y));
        }
    }
    assert(fk.1 == b) by {
        if fk.1 > b {
            let y = (b + 1) as usize;
            lemma_between(fk.0, fk.1, y);
            assert(fragment_ids(fs[k]).contains(y));
            lemma_named(fs, y);
            assert(fragments_ids(fs).contains(y));
            assert(v.contains(y));
        }
    }
    lemma_two(one(), fs, run, j, j);
    if j <= k {
        lemma_two(room(), fs, run, j, k);
    } else {
        lemma_two(room(), fs, run, k, j);
    }
    lemma_two(room(), fs, run, j, j);
}

/// A fragment that names only ids of the list names ids of one run at most.
proof fn lemma_of_one(fs: Seq<Seq<char>>, v: Seq<usize>, j: int)
    requires
        ascending(v),
        0 <= j < fs.len(),
        forall|y: usize| #[trigger] fragments_ids(fs).contains(y) <==> v.contains(y),
    ensures
        of_one(fs[j], runs(v)),
{
    law_runs_maximal(v);
    let rs = runs(v);
    let f = fs[j];
    let (p, q) = lemma_fragment(f);
    assert forall|i: int, k: int| 0 <= i < k < rs.len() implies !(#[trigger] names(f, rs[i])
        && #[trigger] names(f, rs[k])) by {
        if names(f, rs[i]) && names(f, rs[k]) {
            let x = choose|x: usize| #[trigger]
                fragment_ids(f).contains(x) && in_run(rs[i], x as int);
            let y = choose|y: usize| #[trigger]
                fragment_ids(f).contains(y) && in_run(rs[k], y as int);
            lemma_between(p, q, x);
            lemma_between(p, q, y);
            assert(rs[i].1 + 1 < rs[k].0);
            let z = (rs[i].1 + 1) as usize;
            lemma_between(p, q, z);
            assert(fragment_ids(fs[j]).contains(z));
            lemma_named(fs, z);
            assert(fragments_ids(fs).contains(z));
            assert(v.contains(z));
        }
    }
}

/// No text that names the same ids has fewer parts than the range notation, or
/// fewer characters.
pub proof fn law_ranges_shortest(v: Seq<usize>, t: Seq<char>)
    requires
        sorted_set(listed(t)) == sorted_set(v),
    ensures
        text::pieces(text::trimmed(t), ',').len() >= runs(sorted_set(v)).len(),
        text::pieces(text::trimmed(t), ',').len() >= text::pieces(ranges_text(v), ',').len(),
        t.len() >= ranges_text(v).len(),
{
    let s = sorted_set(v);
    let rs = runs(s);
    let fs = text::pieces(text::trimmed(t), ',');
    let parts = run_texts(rs);
    ids::law_sorted_set(v);
    ids::law_sorted_set(listed(t));
    reveal_strlit(",");
    assert(","@ =~= seq![',']);
    assert forall|y: usize| #[trigger] fragments_ids(fs).contains(y) <==> s.contains(y) by {
        assert(sorted_set(listed(t)).contains(y) <==> listed(t).contains(y));
    }
    assert forall|i: int| 0 <= i < rs.len() implies weight_in(room(), fs, #[trigger] rs[i])
        >= room()(run_text(rs[i])) by {
        lemma_run_room(fs, s, i);
    }
    assert forall|i: int| 0 <= i < rs.len() implies weight_in(one(), fs, #[trigger] rs[i])
        >= one()(run_text(rs[i])) by {
        lemma_run_room(fs, s, i);
    }
    assert forall|j: int| 0 <= j < fs.len() implies of_one(#[trigger] fs[j], rs) by {
        lemma_of_one(fs, s, j);
    }
    lemma_texts(room(), fs, rs);
    lemma_texts(one(), fs, rs);
    lemma_weight_over(room(), fs, rs);
    lemma_weight_over(one(), fs, rs);
    lemma_count(fs);
    lemma_count(parts);
    lemma_room_of_pieces(text::trimmed(t), ',');
    text::lemma_trimmed_len(t);
    if rs.len() > 0 {
        lemma_room_of_joined(parts);
        assert forall|i: int| 0 <= i < parts.len() implies !(#[trigger] parts[i]).contains(',') by {
            ids::lemma_run_text_plain(rs[i]);
        }
        text::law_split_undoes_join(parts, ',');
    } else {
        assert(ranges_text(v) =~= Seq::<char>::empty());
        assert(text::pieces(ranges_text(v), ',') =~= seq![ranges_text(v)]);
    }
}

/// The range notation has one part for each longest run, and is empty exactly
/// where there is no id.
pub proof fn law_ranges_parts(v: Seq<usize>)
    ensures
        ranges_text(v).len() == 0 <==> v.len() == 0,
        v.len() > 0 ==> text::pieces(ranges_text(v), ',') == run_texts(runs(sorted_set(v))),
{
    let s = sorted_set(v);
    let rs = runs(s);
    let parts = run_texts(rs);
    ids::law_sorted_set(v);
    lemma_runs(s);
    reveal_strlit(",");
    assert(","@ =~= seq![',']);
    if v.len() == 0 {
        assert(ranges_text(v) =~= Seq::<char>::empty());
    } else {
        assert(v.contains(v[0]));
        assert(s.contains(v[0]));
        assert forall|i: int| 0 <= i < parts.len() implies (#[trigger] parts[i]).len() > 0
            && !parts[i].contains(',') by {
            ids::lemma_run_text_plain(rs[i]);
        }
        text::lemma_joined_ends(parts, seq![',']);
        text::law_split_undoes_join(parts, ',');
    }
}

/// The range notation depends on which ids there are alone, not on their order
/// or on how often they come.
pub proof fn law_ranges_of_a_set(v: Seq<usize>, w: Seq<usize>)
    requires
        forall|y: usize| v.contains(y) <==> w.contains(y),
    ensures
        ranges_text(v) == ranges_text(w),
{
    ids::law_sorted_set(v);
    ids::law_sorted_set(w);
    assert forall|y: usize| sorted_set(v).contains(y) <==> sorted_set(w).contains(y) by {
        assert(v.contains(y) <==> w.contains(y));
    }
    ids::law_ascending_unique(sorted_set(v), sorted_set(w));
}

} // verus!
