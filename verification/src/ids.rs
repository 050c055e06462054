//! Lists of core and node ids: the `0,2-3` notation of the kernel, read and written.

use crate::number;
use crate::text;
use vstd::prelude::*;

verus! {

// ---------------------------------------------------------------------------
// Sorted sets
// ---------------------------------------------------------------------------

/// Whether the ids rise strictly: sorted, and none twice.
pub open spec fn ascending(s: Seq<usize>) -> bool {
    forall|i: int, j: int| 0 <= i < j < s.len() ==> s[i] < s[j]
}

/// `s` with `x` put in its place among the rising ids, where it is not there yet.
pub open spec fn with_id(s: Seq<usize>, x: usize) -> Seq<usize>
    decreases s.len(),
{
    if s.len() == 0 || s.last() < x {
        s.push(x)
    } else if s.last() == x {
        s
    } else {
        with_id(s.drop_last(), x).push(s.last())
    }
}

/// The ids of `s`, sorted, each once.
pub open spec fn sorted_set(s: Seq<usize>) -> Seq<usize>
    decreases s.len(),
{
    if s.len() == 0 {
        seq![]
    } else {
        with_id(sorted_set(s.drop_last()), s.last())
    }
}

proof fn lemma_with_id(s: Seq<usize>, x: usize)
    requires
        ascending(s),
    ensures
        ascending(with_id(s, x)),
        forall|y: usize| #[trigger] with_id(s, x).contains(y) <==> s.contains(y) || y == x,
    decreases s.len(),
{
    let r = with_id(s, x);
    if s.len() == 0 || s.last() < x {
        assert(r[r.len() - 1] == x);
        assert forall|y: usize| #[trigger] r.contains(y) <==> s.contains(y) || y == x by {
            if s.contains(y) {
                let k = choose|k: int| 0 <= k < s.len() && s[k] == y;
                assert(r[k] == y);
            }
        }
    } else if s.last() > x {
        let d = s.drop_last();
        lemma_with_id(d, x);
        let w = with_id(d, x);
        assert forall|i: int, j: int| 0 <= i < j < r.len() implies r[i] < r[j] by {
            if j == r.len() - 1 {
                assert(w.contains(w[i]));
                if w[i] != x {
                    let k = choose|k: int| 0 <= k < d.len() && d[k] == w[i];
                    assert(s[k] == w[i]);
                }
            }
        }
        assert forall|y: usize| #[trigger] r.contains(y) <==> s.contains(y) || y == x by {
            assert(w.contains(y) <==> d.contains(y) || y == x);
            if r.contains(y) {
                let k = choose|k: int| 0 <= k < r.len() && r[k] == y;
                if k < w.len() {
                    assert(w[k] == y);
                    if y != x {
                        let m = choose|m: int| 0 <= m < d.len() && d[m] == y;
                        assert(s[m] == y);
                    }
                } else {
                    assert(s[s.len() - 1] == y);
                }
            }
            if s.contains(y) || y == x {
                if w.contains(y) {
                    let k = choose|k: int| 0 <= k < w.len() && w[k] == y;
                    assert(r[k] == y);
                } else {
                    let m = choose|m: int| 0 <= m < s.len() && s[m] == y;
                    if m < d.len() {
                        assert(d[m] == y);
                    }
                    assert(r[r.len() - 1] == y);
                }
            }
        }
    } else {
        assert(s[s.len() - 1] == x);
    }
}

/// The sorted set of a list rises strictly and holds the ids of the list, no others.
pub proof fn law_sorted_set(s: Seq<usize>)
    ensures
        ascending(sorted_set(s)),
        forall|y: usize| #[trigger] sorted_set(s).contains(y) <==> s.contains(y),
    decreases s.len(),
{
    if s.len() > 0 {
        let d = s.drop_last();
        law_sorted_set(d);
        lemma_with_id(sorted_set(d), s.last());
        assert forall|y: usize| #[trigger] sorted_set(s).contains(y) <==> s.contains(y) by {
            assert(sorted_set(d).contains(y) <==> d.contains(y));
            if s.contains(y) {
                let k = choose|k: int| 0 <= k < s.len() && s[k] == y;
                if k < d.len() {
                    assert(d[k] == y);
                }
            }
            if d.contains(y) {
                let k = choose|k: int| 0 <= k < d.len() && d[k] == y;
                assert(s[k] == y);
            }
            assert(s[s.len() - 1] == s.last());
        }
    }
}

/// Two rising lists with the same ids are the same list.
pub proof fn law_ascending_unique(a: Seq<usize>, b: Seq<usize>)
    requires
        ascending(a),
        ascending(b),
        forall|y: usize| a.contains(y) <==> b.contains(y),
    ensures
        a == b,
    decreases a.len(),
{
    if a.len() == 0 {
        if b.len() > 0 {
            assert(b.contains(b[0]));
        }
        assert(a =~= b);
    } else {
        assert(a.contains(a.last()));
        let kb = choose|k: int| 0 <= k < b.len() && b[k] == a.last();
        assert(b.contains(b.last()));
        let ka = choose|k: int| 0 <= k < a.len() && a[k] == b.last();
        assert(a.last() == b.last()) by {
            if kb < b.len() - 1 {
                assert(b[kb] < b[b.len() - 1]);
            }
            if ka < a.len() - 1 {
                assert(a[ka] < a[a.len() - 1]);
            }
        }
        let da = a.drop_last();
        let db = b.drop_last();
        assert forall|y: usize| da.contains(y) <==> db.contains(y) by {
            if da.contains(y) {
                let k = choose|k: int| 0 <= k < da.len() && da[k] == y;
                assert(a[k] == y);
                assert(b.contains(y));
                let m = choose|m: int| 0 <= m < b.len() && b[m] == y;
                assert(a[k] < a[a.len() - 1]);
                assert(db[m] == y);
            }
            if db.contains(y) {
                let k = choose|k: int| 0 <= k < db.len() && db[k] == y;
                assert(b[k] == y);
                assert(a.contains(y));
                let m = choose|m: int| 0 <= m < a.len() && a[m] == y;
                assert(b[k] < b[b.len() - 1]);
                assert(da[m] == y);
            }
        }
        law_ascending_unique(da, db);
        assert(a =~= da.push(a.last()));
        assert(b =~= db.push(b.last()));
    }
}

/// A rising list is its own sorted set.
pub proof fn lemma_sorted_set_same(s: Seq<usize>)
    requires
        ascending(s),
    ensures
        sorted_set(s) == s,
{
    law_sorted_set(s);
    law_ascending_unique(sorted_set(s), s);
}

/// Puts `x` in its place among the rising ids, where it is not there yet.
pub fn insert_id(v: &mut Vec<usize>, x: usize)
    ensures
        final(v)@ == with_id(old(v)@, x),
{
    let ghost start = v@;
    let mut i: usize = v.len();
    assert(start.take(i as int) == start);
    assert(start.skip(i as int) =~= seq![]);
    assert(with_id(start.take(i as int), x) + start.skip(i as int) =~= with_id(start, x));
    while i > 0 && v[i - 1] > x
        invariant
            i <= v@.len(),
            v@ == start,
            with_id(start.take(i as int), x) + start.skip(i as int) == with_id(start, x),
        decreases i,
    {
        proof {
            let t = start.take(i as int);
            assert(t.drop_last() == start.take(i - 1));
            assert(with_id(t, x) + start.skip(i as int) =~= with_id(start.take(i - 1), x)
                + start.skip(i - 1));
        }
        i = i - 1;
    }
    proof {
        let t = start.take(i as int);
        if i > 0 {
            assert(t.last() == start[i - 1]);
        }
    }
    if i > 0 && v[i - 1] == x {
        assert(start =~= start.take(i as int) + start.skip(i as int));
        return ;
    }
    v.insert(i, x);
    assert(v@ =~= start.take(i as int).push(x) + start.skip(i as int));
}

/// The ids of `v`, sorted, each once.
pub fn sort_ids(v: &[usize]) -> (r: Vec<usize>)
    ensures
        r@ == sorted_set(v@),
        ascending(r@),
        forall|y: usize| #[trigger] r@.contains(y) <==> v@.contains(y),
{
    let mut out: Vec<usize> = Vec::new();
    let mut i: usize = 0;
    while i < v.len()
        invariant
            i <= v@.len(),
            out@ == sorted_set(v@.take(i as int)),
        decreases v@.len() - i,
    {
        assert(v@.take(i + 1).drop_last() == v@.take(i as int));
        insert_id(&mut out, v[i]);
        i = i + 1;
    }
    proof {
        assert(v@.take(i as int) == v@);
        law_sorted_set(v@);
    }
    out
}

// ---------------------------------------------------------------------------
// Reading a list
// ---------------------------------------------------------------------------

/// The ids from `a` to `b`, both included; none where `a` is above `b`.
pub open spec fn ids_between(a: usize, b: usize) -> Seq<usize> {
    Seq::new(
        if a <= b {
            (b - a + 1) as nat
        } else {
            0
        },
        |i: int| (a + i) as usize,
    )
}

/// The ids that one fragment of a list names: an id, or a range `a-b` cut at
/// its first dash. A fragment of any other shape names none.
pub open spec fn fragment_ids(fragment: Seq<char>) -> Seq<usize> {
    let p = text::trimmed(fragment);
    let i = text::position(p, '-');
    if i < p.len() {
        let a = number::usize_of(text::trimmed(p.take(i)));
        let b = number::usize_of(text::trimmed(p.skip(i + 1)));
        match (a, b) {
            (Some(a), Some(b)) => ids_between(a, b),
            _ => seq![],
        }
    } else {
        match number::usize_of(p) {
            Some(id) => seq![id],
            None => seq![],
        }
    }
}

/// The ids that the fragments name, one fragment after the other.
pub open spec fn fragments_ids(fragments: Seq<Seq<char>>) -> Seq<usize>
    decreases fragments.len(),
{
    if fragments.len() == 0 {
        seq![]
    } else {
        fragments_ids(fragments.drop_last()) + fragment_ids(fragments.last())
    }
}

/// The ids that a comma-separated list names.
pub open spec fn listed(s: Seq<char>) -> Seq<usize> {
    fragments_ids(text::pieces(text::trimmed(s), ','))
}

/// Appends the ids from `a` to `b`.
pub fn push_between(v: &mut Vec<usize>, a: usize, b: usize)
    ensures
        final(v)@ == old(v)@ + ids_between(a, b),
{
    let ghost start = v@;
    if a > b {
        assert(v@ =~= start + ids_between(a, b));
        return ;
    }
    let mut id: usize = a;
    while id < b
        invariant
            a <= id <= b,
            v@ == start + ids_between(a, b).take(id - a),
        decreases b - id,
    {
        v.push(id);
        id = id + 1;
        assert(v@ =~= start + ids_between(a, b).take(id - a));
    }
    v.push(b);
    assert(v@ =~= start + ids_between(a, b));
}

/// Appends the ids that one fragment of a list names.
fn push_fragment(v: &mut Vec<usize>, fragment: &str)
    ensures
        final(v)@ == old(v)@ + fragment_ids(fragment@),
{
    let ghost start = v@;
    let p: &str = text::trim(fragment);
    match text::find(p, '-') {
        Some(i) => {
            let n: usize = p.unicode_len();
            let first: &str = p.substring_char(0, i);
            let second: &str = p.substring_char(i + 1, n);
            assert(first@ =~= p@.take(i as int));
            assert(second@ =~= p@.skip(i + 1));
            let a: Option<usize> = number::parse_usize(text::trim(first));
            let b: Option<usize> = number::parse_usize(text::trim(second));
            match (a, b) {
                (Some(a), Some(b)) => push_between(v, a, b),
                _ => {
                    assert(v@ =~= start + fragment_ids(fragment@));
                },
            }
        },
        None => {
            if let Some(id) = number::parse_usize(p) {
                v.push(id);
            }
            assert(v@ =~= start + fragment_ids(fragment@));
        },
    }
}

/// Reads a kernel list of ids such as `0`, `0-3` or `0,2-3`: sorted, each id
/// once. Fragments that name no id are skipped.
pub fn parse_list(s: &str) -> (r: Vec<usize>)
    ensures
        r@ == sorted_set(listed(s@)),
        ascending(r@),
        forall|y: usize| #[trigger] r@.contains(y) <==> listed(s@).contains(y),
{
    let parts: Vec<&str> = text::split(text::trim(s), ',');
    let ghost all = text::views(parts@);
    let mut v: Vec<usize> = Vec::new();
    let mut i: usize = 0;
    while i < parts.len()
        invariant
            i <= parts@.len(),
            all == text::views(parts@),
            v@ == fragments_ids(all.take(i as int)),
        decreases parts@.len() - i,
    {
        proof {
            assert(all.take(i + 1).drop_last() == all.take(i as int));
            assert(all.take(i + 1).last() == parts@[i as int]@);
        }
        push_fragment(&mut v, parts[i]);
        i = i + 1;
    }
    assert(all.take(i as int) == all);
    sort_ids(v.as_slice())
}

// ---------------------------------------------------------------------------
// Writing a list
// ---------------------------------------------------------------------------

/// The longest runs of consecutive ids in a rising list, as first and last id.
pub open spec fn runs(v: Seq<usize>) -> Seq<(usize, usize)>
    decreases v.len(),
{
    if v.len() == 0 {
        seq![]
    } else {
        let r = runs(v.drop_last());
        if r.len() > 0 && r.last().1 + 1 == v.last() {
            r.drop_last().push((r.last().0, v.last()))
        } else {
            r.push((v.last(), v.last()))
        }
    }
}

/// A run as text: its id, or its first and last id with a dash.
pub open spec fn run_text(run: (usize, usize)) -> Seq<char> {
    if run.0 == run.1 {
        number::dec(run.0 as nat)
    } else {
        number::dec(run.0 as nat) + "-"@ + number::dec(run.1 as nat)
    }
}

/// The texts of the runs.
pub open spec fn run_texts(r: Seq<(usize, usize)>) -> Seq<Seq<char>> {
    r.map_values(|run: (usize, usize)| run_text(run))
}

/// A list of ids in range notation: the runs of its sorted set, with commas.
pub open spec fn ranges_text(v: Seq<usize>) -> Seq<char> {
    text::joined(run_texts(runs(sorted_set(v))), ","@)
}

pub proof fn lemma_run_texts_push(r: Seq<(usize, usize)>, run: (usize, usize))
    ensures
        run_texts(r.push(run)) == run_texts(r).push(run_text(run)),
{
    assert(run_texts(r.push(run)) =~= run_texts(r).push(run_text(run)));
}

/// A run as text.
fn fmt_run(first: usize, last: usize) -> (r: String)
    ensures
        r@ == run_text((first, last)),
{
    let mut out: String = number::dec_text(first);
    if first != last {
        out.append("-");
        number::push_usize(&mut out, last);
    }
    out
}

/// Compresses a list of ids into `a-b,c` ranges for display.
pub fn fmt_ranges(cpus: &[usize]) -> (r: String)
    ensures
        r@ == ranges_text(cpus@),
{
    let v: Vec<usize> = sort_ids(cpus);
    if v.len() == 0 {
        let out: String = String::new();
        assert(out@ =~= ranges_text(cpus@));
        return out;
    }
    let mut parts: Vec<String> = Vec::new();
    let mut start: usize = v[0];
    let mut prev: usize = v[0];
    let mut i: usize = 1;
    proof {
        let one = v@.take(1);
        assert(runs(one.drop_last()) == Seq::<(usize, usize)>::empty());
        assert(runs(one).drop_last() =~= Seq::<(usize, usize)>::empty());
        assert(text::string_views(parts@) =~= run_texts(runs(one).drop_last()));
    }
    while i < v.len()
        invariant
            1 <= i <= v@.len(),
            ascending(v@),
            v@[i - 1] == prev,
            runs(v@.take(i as int)).len() > 0,
            runs(v@.take(i as int)).last() == (start, prev),
            text::string_views(parts@) == run_texts(runs(v@.take(i as int)).drop_last()),
        decreases v@.len() - i,
    {
        let c: usize = v[i];
        let ghost before = runs(v@.take(i as int));
        proof {
            assert(v@.take(i + 1).drop_last() == v@.take(i as int));
            assert(v@[i - 1] < v@[i as int]);
        }
        if c == prev + 1 {
            proof {
                assert(runs(v@.take(i + 1)) == before.drop_last().push((start, c)));
                assert(runs(v@.take(i + 1)).drop_last() =~= before.drop_last());
            }
            prev = c;
        } else {
            let ghost done = parts@;
            let part: String = fmt_run(start, prev);
            parts.push(part);
            proof {
                text::lemma_string_views_push(done, part);
                lemma_run_texts_push(before.drop_last(), (start, prev));
                assert(runs(v@.take(i + 1)) == before.push((c, c)));
                assert(runs(v@.take(i + 1)).drop_last() =~= before);
                assert(before =~= before.drop_last().push((start, prev)));
            }
            start = c;
            prev = c;
        }
        i = i + 1;
    }
    let ghost done = parts@;
    let part: String = fmt_run(start, prev);
    parts.push(part);
    proof {
        assert(v@.take(i as int) == v@);
        let all = runs(v@);
        text::lemma_string_views_push(done, part);
        lemma_run_texts_push(all.drop_last(), (start, prev));
        assert(all =~= all.drop_last().push((start, prev)));
    }
    text::join(&parts, ",")
}

// ---------------------------------------------------------------------------
// Laws
// ---------------------------------------------------------------------------

/// A numeral holds neither white space nor a separator.
proof fn lemma_dec_plain(n: nat)
    ensures
        number::dec(n).len() > 0,
        forall|i: int|
            0 <= i < number::dec(n).len() ==> {
                let c = #[trigger] number::dec(n)[i];
                c != ',' && c != '-' && !text::is_white(c)
            },
        text::trimmed(number::dec(n)) == number::dec(n),
{
    number::lemma_dec_digits(n);
    let d = number::dec(n);
    assert forall|i: int| 0 <= i < d.len() implies {
        let c = #[trigger] d[i];
        c != ',' && c != '-' && !text::is_white(c)
    } by {
        assert(number::is_digit(d[i]));
    }
    assert(!text::is_white(d[0]));
    assert(!text::is_white(d[d.len() - 1]));
    text::lemma_trimmed_same(d);
}

pub proof fn lemma_run_text_plain(run: (usize, usize))
    ensures
        run_text(run).len() > 0,
        !run_text(run).contains(','),
        !text::is_white(run_text(run)[0]),
        !text::is_white(run_text(run).last()),
{
    reveal_strlit("-");
    let a = number::dec(run.0 as nat);
    let b = number::dec(run.1 as nat);
    lemma_dec_plain(run.0 as nat);
    lemma_dec_plain(run.1 as nat);
    let t = run_text(run);
    assert(t[0] == a[0]);
    if run.0 == run.1 {
        assert(t.last() == a[a.len() - 1]);
    } else {
        assert(t.last() == b[b.len() - 1]);
    }
    if t.contains(',') {
        let k = choose|k: int| 0 <= k < t.len() && t[k] == ',';
        if k < a.len() {
            assert(a[k] == ',');
        } else if k == a.len() {
            assert(t[k] == '-');
        } else {
            assert(b[k - a.len() - 1] == ',');
        }
    }
}

/// The text of a run names the ids of the run.
proof fn lemma_fragment_of_run(run: (usize, usize))
    requires
        run.0 <= run.1,
    ensures
        fragment_ids(run_text(run)) == ids_between(run.0, run.1),
{
    reveal_strlit("-");
    let a = number::dec(run.0 as nat);
    let b = number::dec(run.1 as nat);
    lemma_dec_plain(run.0 as nat);
    lemma_dec_plain(run.1 as nat);
    number::law_dec_reads_back(run.0 as nat);
    number::law_dec_reads_back(run.1 as nat);
    lemma_run_text_plain(run);
    let t = run_text(run);
    text::lemma_trimmed_same(t);
    if run.0 == run.1 {
        text::lemma_position_is(t, '-', t.len() as int);
        assert(fragment_ids(t) =~= ids_between(run.0, run.1));
    } else {
        assert(t[a.len() as int] == '-');
        assert forall|j: int| 0 <= j < a.len() implies t[j] != '-' by {
            assert(t[j] == a[j]);
        }
        text::lemma_position_is(t, '-', a.len() as int);
        assert(t.take(a.len() as int) == a);
        assert(t.skip(a.len() as int + 1) == b);
    }
}

/// The runs of a rising list, written out, are the list.
proof fn lemma_runs_cover(v: Seq<usize>)
    requires
        ascending(v),
    ensures
        v.len() > 0 ==> runs(v).len() > 0 && runs(v).last().1 == v.last(),
        forall|i: int| 0 <= i < runs(v).len() ==> (#[trigger] runs(v)[i]).0 <= runs(v)[i].1,
        fragments_ids(run_texts(runs(v))) == v,
    decreases v.len(),
{
    let all = runs(v);
    if v.len() == 0 {
        assert(fragments_ids(run_texts(all)) =~= v);
    } else {
        let d = v.drop_last();
        let x = v.last();
        lemma_runs_cover(d);
        let r = runs(d);
        if r.len() > 0 && r.last().1 + 1 == x {
            let a = r.last().0;
            let y = r.last().1;
            let head = r.drop_last();
            assert(all == head.push((a, x)));
            assert(r =~= head.push((a, y)));
            assert(r[r.len() - 1] == (a, y));
            assert forall|i: int| 0 <= i < all.len() implies (#[trigger] all[i]).0 <= all[i].1 by {
                if i < head.len() {
                    assert(all[i] == r[i]);
                }
            }
            lemma_run_texts_push(head, (a, x));
            lemma_run_texts_push(head, (a, y));
            lemma_fragment_of_run((a, x));
            lemma_fragment_of_run((a, y));
            assert(run_texts(all).drop_last() =~= run_texts(head));
            assert(run_texts(r).drop_last() =~= run_texts(head));
            let base = fragments_ids(run_texts(head));
            assert(d == base + ids_between(a, y));
            assert(ids_between(a, x) =~= ids_between(a, y).push(x));
            assert(fragments_ids(run_texts(all)) =~= d.push(x));
        } else {
            assert(all == r.push((x, x)));
            assert forall|i: int| 0 <= i < all.len() implies (#[trigger] all[i]).0 <= all[i].1 by {
                if i < r.len() {
                    assert(all[i] == r[i]);
                }
            }
            lemma_run_texts_push(r, (x, x));
            lemma_fragment_of_run((x, x));
            assert(run_texts(all).drop_last() =~= run_texts(r));
            assert(ids_between(x, x) =~= seq![x]);
            assert(fragments_ids(run_texts(all)) =~= d.push(x));
        }
        assert(v =~= d.push(x));
    }
}

/// Reading a list that was written in range notation gives the sorted set of
/// the ids back.
pub proof fn law_ranges_read_back(v: Seq<usize>)
    ensures
        listed(ranges_text(v)) == sorted_set(v),
        sorted_set(listed(ranges_text(v))) == sorted_set(v),
{
    law_sorted_set(v);
    let w = sorted_set(v);
    let parts = run_texts(runs(w));
    let t = ranges_text(v);
    lemma_runs_cover(w);
    lemma_sorted_set_same(w);
    reveal_strlit(",");
    assert(","@ =~= seq![',']);
    if w.len() == 0 {
        assert(t =~= Seq::<char>::empty());
        assert(text::pieces(t, ',') =~= seq![t]);
        assert(seq![t].drop_last() =~= Seq::<Seq<char>>::empty());
        assert(fragments_ids(seq![t].drop_last()) =~= Seq::<usize>::empty());
        assert(fragment_ids(t) =~= Seq::<usize>::empty());
        assert(listed(t) =~= w);
    } else {
        assert forall|i: int| 0 <= i < parts.len() implies (#[trigger] parts[i]).len() > 0
            && !parts[i].contains(',') by {
            lemma_run_text_plain(runs(w)[i]);
        }
        lemma_run_text_plain(runs(w)[0]);
        lemma_run_text_plain(runs(w).last());
        text::lemma_joined_ends(parts, seq![',']);
        text::lemma_trimmed_same(t);
        text::law_split_undoes_join(parts, ',');
    }
}

/// Leading white space is no part of a fragment.
proof fn lemma_fragment_start(c: char, s: Seq<char>)
    requires
        text::is_white(c),
    ensures
        fragment_ids(seq![c] + s) == fragment_ids(s),
{
    assert((seq![c] + s).skip(1) =~= s);
}

/// Trailing white space is no part of a fragment.
proof fn lemma_fragment_end(s: Seq<char>, c: char)
    requires
        text::is_white(c),
    ensures
        fragment_ids(s.push(c)) == fragment_ids(s),
{
    text::lemma_trimmed_push(s, c);
}

proof fn lemma_ids_front(first: Seq<char>, rest: Seq<Seq<char>>)
    ensures
        fragments_ids(seq![first] + rest) == fragment_ids(first) + fragments_ids(rest),
    decreases rest.len(),
{
    let all = seq![first] + rest;
    if rest.len() == 0 {
        assert(all.drop_last() =~= Seq::<Seq<char>>::empty());
        assert(fragments_ids(all.drop_last()) == Seq::<usize>::empty());
        assert(fragments_ids(all) =~= fragment_ids(first) + fragments_ids(rest));
    } else {
        lemma_ids_front(first, rest.drop_last());
        assert(all.drop_last() =~= seq![first] + rest.drop_last());
        assert(fragments_ids(all) =~= fragment_ids(first) + fragments_ids(rest));
    }
}

proof fn lemma_ids_of_both(a: Seq<Seq<char>>, b: Seq<Seq<char>>)
    ensures
        fragments_ids(a + b) == fragments_ids(a) + fragments_ids(b),
    decreases b.len(),
{
    if b.len() == 0 {
        assert(a + b =~= a);
        assert(fragments_ids(a) + fragments_ids(b) =~= fragments_ids(a));
    } else {
        lemma_ids_of_both(a, b.drop_last());
        assert((a + b).drop_last() =~= a + b.drop_last());
        assert(fragments_ids(a + b) =~= fragments_ids(a) + fragments_ids(b));
    }
}

proof fn lemma_single_piece(s: Seq<char>)
    requires
        text::position(s, ',') == s.len(),
    ensures
        fragments_ids(text::pieces(s, ',')) == fragment_ids(s),
{
    let none = Seq::<Seq<char>>::empty();
    assert(text::pieces(s, ',') =~= seq![s] + none);
    lemma_ids_front(s, none);
    assert(fragment_ids(s) + fragments_ids(none) =~= fragment_ids(s));
}

/// White space before a list names nothing.
proof fn lemma_list_start(c: char, s: Seq<char>)
    requires
        text::is_white(c),
    ensures
        fragments_ids(text::pieces(seq![c] + s, ',')) == fragments_ids(text::pieces(s, ',')),
{
    let t = seq![c] + s;
    assert(t.skip(1) =~= s);
    let i = text::position(s, ',');
    text::lemma_position(s, ',');
    assert(text::position(t, ',') == i + 1);
    if i < s.len() {
        let first = s.take(i);
        assert(t.take(i + 1) =~= seq![c] + first);
        assert(t.skip(i + 2) =~= s.skip(i + 1));
        lemma_fragment_start(c, first);
        lemma_ids_front(first, text::pieces(s.skip(i + 1), ','));
        lemma_ids_front(t.take(i + 1), text::pieces(s.skip(i + 1), ','));
    } else {
        lemma_fragment_start(c, s);
        lemma_single_piece(s);
        lemma_single_piece(t);
    }
}

/// White space after a list names nothing.
proof fn lemma_list_end(s: Seq<char>, c: char)
    requires
        text::is_white(c),
    ensures
        fragments_ids(text::pieces(s.push(c), ',')) == fragments_ids(text::pieces(s, ',')),
    decreases s.len(),
{
    let t = s.push(c);
    let i = text::position(s, ',');
    text::lemma_position(s, ',');
    if i < s.len() {
        assert forall|j: int| 0 <= j < i implies t[j] != ',' by {
            assert(t[j] == s[j]);
        }
        assert(t[i] == s[i]);
        text::lemma_position_is(t, ',', i);
        assert(t.take(i) =~= s.take(i));
        assert(t.skip(i + 1) =~= s.skip(i + 1).push(c));
        lemma_list_end(s.skip(i + 1), c);
        lemma_ids_front(s.take(i), text::pieces(s.skip(i + 1), ','));
        lemma_ids_front(s.take(i), text::pieces(t.skip(i + 1), ','));
    } else {
        assert forall|j: int| 0 <= j < t.len() implies t[j] != ',' by {
            if j < s.len() {
                assert(t[j] == s[j]);
            }
        }
        text::lemma_position_is(t, ',', t.len() as int);
        lemma_fragment_end(s, c);
        lemma_single_piece(s);
        lemma_single_piece(t);
    }
}

proof fn lemma_list_starts(s: Seq<char>)
    ensures
        fragments_ids(text::pieces(text::without_start(s), ',')) == fragments_ids(
            text::pieces(s, ','),
        ),
    decreases s.len(),
{
    if s.len() > 0 && text::is_white(s[0]) {
        lemma_list_starts(s.skip(1));
        lemma_list_start(s[0], s.skip(1));
        assert(seq![s[0]] + s.skip(1) =~= s);
    }
}

proof fn lemma_list_ends(s: Seq<char>)
    ensures
        fragments_ids(text::pieces(text::without_end(s), ',')) == fragments_ids(
            text::pieces(s, ','),
        ),
    decreases s.len(),
{
    if s.len() > 0 && text::is_white(s.last()) {
        lemma_list_ends(s.drop_last());
        lemma_list_end(s.drop_last(), s.last());
        assert(s.drop_last().push(s.last()) =~= s);
    }
}

proof fn lemma_listed(s: Seq<char>)
    ensures
        listed(s) == fragments_ids(text::pieces(s, ',')),
{
    lemma_list_starts(s);
    lemma_list_ends(text::without_start(s));
}

/// Two lists with a comma between them name what the one names and then what
/// the other names; so they are read as the union of both.
pub proof fn law_lists_joined(a: Seq<char>, b: Seq<char>)
    ensures
        listed(a + seq![','] + b) == listed(a) + listed(b),
        forall|y: usize| #[trigger]
            sorted_set(listed(a + seq![','] + b)).contains(y) <==> sorted_set(listed(a)).contains(y)
                || sorted_set(listed(b)).contains(y),
{
    let both = a + seq![','] + b;
    lemma_listed(a);
    lemma_listed(b);
    lemma_listed(both);
    text::law_pieces_of_both(a, b, ',');
    lemma_ids_of_both(text::pieces(a, ','), text::pieces(b, ','));
    law_sorted_set(listed(a));
    law_sorted_set(listed(b));
    law_sorted_set(listed(both));
    assert forall|y: usize| #[trigger]
        sorted_set(listed(both)).contains(y) <==> sorted_set(listed(a)).contains(y) || sorted_set(
            listed(b),
        ).contains(y) by {
        let x = listed(a);
        let z = listed(b);
        assert(sorted_set(x).contains(y) <==> x.contains(y));
        assert(sorted_set(z).contains(y) <==> z.contains(y));
        if (x + z).contains(y) {
            let k = choose|k: int| 0 <= k < (x + z).len() && (x + z)[k] == y;
            if k < x.len() {
                assert(x[k] == y);
            } else {
                assert(z[k - x.len()] == y);
            }
        }
        if x.contains(y) {
            let k = choose|k: int| 0 <= k < x.len() && x[k] == y;
            assert((x + z)[k] == y);
        }
        if z.contains(y) {
            let k = choose|k: int| 0 <= k < z.len() && z[k] == y;
            assert((x + z)[x.len() + k] == y);
        }
    }
}

/// What a list with one range names: every id from its first to its last, and
/// none where it runs backwards. A list with one id names that id.
pub proof fn law_listed_range(a: usize, b: usize)
    ensures
        a <= b ==> listed(number::dec(a as nat) + seq!['-'] + number::dec(b as nat)).len() == b - a
            + 1,
        a > b ==> listed(number::dec(a as nat) + seq!['-'] + number::dec(b as nat)).len() == 0,
        forall|i: int|
            0 <= i <= b - a ==> #[trigger] listed(
                number::dec(a as nat) + seq!['-'] + number::dec(b as nat),
            )[i] == a + i,
        listed(number::dec(a as nat)) == seq![a],
{
    let x = number::dec(a as nat);
    let y = number::dec(b as nat);
    let t = x + seq!['-'] + y;
    lemma_dec_plain(a as nat);
    lemma_dec_plain(b as nat);
    number::law_dec_reads_back(a as nat);
    number::law_dec_reads_back(b as nat);
    assert(t[0] == x[0] && t.last() == y[y.len() - 1]);
    text::lemma_trimmed_same(t);
    assert forall|j: int| 0 <= j < t.len() implies t[j] != ',' by {
        if j < x.len() {
            assert(t[j] == x[j]);
        } else if j > x.len() {
            assert(t[j] == y[j - x.len() - 1]);
        }
    }
    text::lemma_position_is(t, ',', t.len() as int);
    lemma_single_piece(t);
    assert forall|j: int| 0 <= j < x.len() implies t[j] != '-' by {
        assert(t[j] == x[j]);
    }
    assert(t[x.len() as int] == '-');
    text::lemma_position_is(t, '-', x.len() as int);
    assert(t.take(x.len() as int) =~= x);
    assert(t.skip(x.len() as int + 1) =~= y);
    assert(listed(t) == ids_between(a, b));
    text::lemma_position_is(x, ',', x.len() as int);
    text::lemma_position_is(x, '-', x.len() as int);
    lemma_single_piece(x);
}

/// What a list with one fragment names, whatever white space is around its
/// numbers: an id, or every id from the one to the other; a fragment that is
/// neither a number nor two numbers around a dash names nothing.
pub proof fn law_listed_fragment(x: Seq<char>, y: Seq<char>)
    requires
        !x.contains('-') && !x.contains(','),
        !y.contains(','),
    ensures
        number::usize_of(text::trimmed(x)) is None ==> listed(x).len() == 0,
        number::usize_of(text::trimmed(x)) matches Some(a) ==> listed(x) == seq![a],
        number::usize_of(text::trimmed(x)) is None || number::usize_of(text::trimmed(y)) is None
            ==> listed(x + seq!['-'] + y).len() == 0,
        number::usize_of(text::trimmed(x)) matches Some(a) ==> (number::usize_of(
            text::trimmed(y),
        ) matches Some(b) ==> {
            let v = listed(x + seq!['-'] + y);
            &&& v.len() == (if a <= b {
                b - a + 1
            } else {
                0
            })
            &&& forall|i: int| 0 <= i < v.len() ==> #[trigger] v[i] == a + i
        }),
{
    let t = x + seq!['-'] + y;
    lemma_listed(x);
    lemma_listed(t);
    assert forall|j: int| 0 <= j < x.len() implies x[j] != ',' && x[j] != '-' by {
        assert(x.contains(x[j]));
    }
    assert forall|j: int| 0 <= j < t.len() implies t[j] != ',' by {
        if j < x.len() {
            assert(t[j] == x[j]);
        } else if j > x.len() {
            assert(y.contains(y[j - x.len() - 1]));
            assert(t[j] == y[j - x.len() - 1]);
        }
    }
    text::lemma_position_is(x, ',', x.len() as int);
    text::lemma_position_is(t, ',', t.len() as int);
    lemma_single_piece(x);
    lemma_single_piece(t);
    lemma_trimmed_dash(x);
    lemma_dashed_fragment(x, y);
}

/// Trimming puts no dash into a text.
proof fn lemma_trimmed_dash(x: Seq<char>)
    requires
        !x.contains('-'),
    ensures
        text::position(text::trimmed(x), '-') == text::trimmed(x).len(),
{
    let (a, b) = text::lemma_trimmed_within(x);
    let p = text::trimmed(x);
    assert forall|j: int| 0 <= j < p.len() implies p[j] != '-' by {
        assert(p[j] == x[a + j]);
        assert(x.contains(x[a + j]));
    }
    text::lemma_position_is(p, '-', p.len() as int);
}

proof fn lemma_dashed_fragment(x: Seq<char>, y: Seq<char>)
    requires
        !x.contains('-'),
    ensures
        match (number::usize_of(text::trimmed(x)), number::usize_of(text::trimmed(y))) {
            (Some(a), Some(b)) => fragment_ids(x + seq!['-'] + y) == ids_between(a, b),
            _ => fragment_ids(x + seq!['-'] + y).len() == 0,
        },
{
    let t = x + seq!['-'] + y;
    let l = text::without_start(x);
    let r = text::without_end(y);
    text::lemma_start_of(x, seq!['-'] + y);
    assert(t =~= x + (seq!['-'] + y));
    text::lemma_end_of(l + seq!['-'], y);
    assert(l + (seq!['-'] + y) =~= l + seq!['-'] + y);
    let p = text::trimmed(t);
    assert(p == l + seq!['-'] + r);
    let (a, b) = text::lemma_trimmed_within(x);
    text::lemma_without_start_within(x);
    assert forall|j: int| 0 <= j < l.len() implies p[j] != '-' by {
        assert(x.contains(x[x.len() - l.len() + j]));
    }
    assert(p[l.len() as int] == '-');
    text::lemma_position_is(p, '-', l.len() as int);
    assert(p.take(l.len() as int) =~= l);
    assert(p.skip(l.len() as int + 1) =~= r);
    text::lemma_trimmed_twice(x);
    text::lemma_trimmed_twice(y);
}

} // verus!
