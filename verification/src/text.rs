//! Text primitives: white space, trimming, splitting, joining, padding. The
//! models are sequences of characters.

use vstd::prelude::*;

verus! {

// ---------------------------------------------------------------------------
// White space
// ---------------------------------------------------------------------------

/// The characters with the Unicode property `White_Space`.
pub open spec fn is_white(c: char) -> bool {
    ||| '\u{9}' <= c <= '\u{d}'
    ||| c == '\u{20}'
    ||| c == '\u{85}'
    ||| c == '\u{a0}'
    ||| c == '\u{1680}'
    ||| '\u{2000}' <= c <= '\u{200a}'
    ||| c == '\u{2028}'
    ||| c == '\u{2029}'
    ||| c == '\u{202f}'
    ||| c == '\u{205f}'
    ||| c == '\u{3000}'
}

/// Whether `c` is white space.
pub fn white_space(c: char) -> (r: bool)
    ensures
        r == is_white(c),
{
    ('\u{9}' <= c && c <= '\u{d}') || c == '\u{20}' || c == '\u{85}' || c == '\u{a0}' || c
        == '\u{1680}' || ('\u{2000}' <= c && c <= '\u{200a}') || c == '\u{2028}' || c == '\u{2029}'
        || c == '\u{202f}' || c == '\u{205f}' || c == '\u{3000}'
}

/// `s` without its leading white space.
pub open spec fn without_start(s: Seq<char>) -> Seq<char>
    decreases s.len(),
{
    if s.len() > 0 && is_white(s[0]) {
        without_start(s.skip(1))
    } else {
        s
    }
}

/// `s` without its trailing white space.
pub open spec fn without_end(s: Seq<char>) -> Seq<char>
    decreases s.len(),
{
    if s.len() > 0 && is_white(s.last()) {
        without_end(s.drop_last())
    } else {
        s
    }
}

/// `s` without white space at either end.
pub open spec fn trimmed(s: Seq<char>) -> Seq<char> {
    without_end(without_start(s))
}

/// The characters of `s`.
pub fn chars_of(s: &str) -> (r: Vec<char>)
    ensures
        r@ == s@,
{
    let mut v: Vec<char> = Vec::new();
    for c in it: s.chars()
        invariant
            it.seq() == s@,
            v@ == it.seq().take(it.index() as int),
    {
        v.push(c);
    }
    v
}

/// `s` without white space at either end.
pub fn trim<'a>(s: &'a str) -> (r: &'a str)
    ensures
        r@ == trimmed(s@),
{
    let v: Vec<char> = chars_of(s);
    let mut from: usize = 0;
    assert(v@.skip(0) == v@);
    while from < v.len() && white_space(v[from])
        invariant
            from <= v@.len(),
            without_start(v@.skip(from as int)) == without_start(v@),
        decreases v@.len() - from,
    {
        proof {
            assert(v@.skip(from as int).skip(1) == v@.skip(from + 1));
        }
        from = from + 1;
    }
    let mut to: usize = v.len();
    let ghost rest = v@.skip(from as int);
    assert(rest == v@.subrange(from as int, to as int));
    while to > from && white_space(v[to - 1])
        invariant
            from <= to <= v@.len(),
            without_end(v@.subrange(from as int, to as int)) == without_end(rest),
        decreases to,
    {
        proof {
            assert(v@.subrange(from as int, to as int).drop_last() == v@.subrange(
                from as int,
                to - 1,
            ));
        }
        to = to - 1;
    }
    s.substring_char(from, to)
}

// ---------------------------------------------------------------------------
// Finding and splitting
// ---------------------------------------------------------------------------

/// The first position of `c` in `s`, or the length of `s` where it has none.
pub open spec fn position(s: Seq<char>, c: char) -> int
    decreases s.len(),
{
    if s.len() == 0 || s[0] == c {
        0
    } else {
        1 + position(s.skip(1), c)
    }
}

/// The pieces of `s` between the separators `c`: one more than there are separators.
pub open spec fn pieces(s: Seq<char>, c: char) -> Seq<Seq<char>>
    decreases s.len(),
{
    let i = position(s, c);
    if 0 <= i < s.len() {
        seq![s.take(i)] + pieces(s.skip(i + 1), c)
    } else {
        seq![s]
    }
}

pub proof fn lemma_position(s: Seq<char>, c: char)
    ensures
        0 <= position(s, c) <= s.len(),
        forall|j: int| 0 <= j < position(s, c) ==> s[j] != c,
        position(s, c) < s.len() ==> s[position(s, c)] == c,
    decreases s.len(),
{
    if s.len() > 0 && s[0] != c {
        lemma_position(s.skip(1), c);
        assert forall|j: int| 0 <= j < position(s, c) implies s[j] != c by {
            if j > 0 {
                assert(s.skip(1)[j - 1] == s[j]);
            }
        }
    }
}

/// A position with `c` and none before it is the first.
pub proof fn lemma_position_is(s: Seq<char>, c: char, i: int)
    requires
        0 <= i <= s.len(),
        forall|j: int| 0 <= j < i ==> s[j] != c,
        i < s.len() ==> s[i] == c,
    ensures
        position(s, c) == i,
{
    lemma_position(s, c);
    let p = position(s, c);
    if p < i {
        assert(s[p] != c);
    }
    if i < p {
        assert(s[i] != c);
    }
}

/// The first position of `c` at `from` or later.
fn find_from(v: &Vec<char>, c: char, from: usize) -> (r: usize)
    requires
        from <= v@.len(),
    ensures
        from <= r <= v@.len(),
        r - from == position(v@.skip(from as int), c),
{
    let mut i: usize = from;
    while i < v.len() && v[i] != c
        invariant
            from <= i <= v@.len(),
            forall|j: int| from <= j < i ==> v@[j] != c,
        decreases v@.len() - i,
    {
        i = i + 1;
    }
    proof {
        lemma_position_is(v@.skip(from as int), c, i - from);
    }
    i
}

/// The first position of `c` in `s`, if there is one.
pub fn find(s: &str, c: char) -> (r: Option<usize>)
    ensures
        match r {
            Some(i) => i == position(s@, c) && i < s@.len(),
            None => position(s@, c) == s@.len(),
        },
{
    let v: Vec<char> = chars_of(s);
    assert(v@.skip(0) == v@);
    let i: usize = find_from(&v, c, 0);
    if i < v.len() {
        Some(i)
    } else {
        None
    }
}

/// The views of a list of texts.
pub open spec fn views(v: Seq<&str>) -> Seq<Seq<char>> {
    v.map_values(|s: &str| s@)
}

/// The views of a list of owned texts.
pub open spec fn string_views(v: Seq<String>) -> Seq<Seq<char>> {
    v.map_values(|s: String| s@)
}

pub proof fn lemma_string_views_push(v: Seq<String>, s: String)
    ensures
        string_views(v.push(s)) == string_views(v).push(s@),
{
    assert(string_views(v.push(s)) =~= string_views(v).push(s@));
}

/// The pieces of `s` between the separators `c`.
pub fn split<'a>(s: &'a str, c: char) -> (r: Vec<&'a str>)
    ensures
        views(r@) == pieces(s@, c),
{
    let v: Vec<char> = chars_of(s);
    let mut out: Vec<&'a str> = Vec::new();
    let mut from: usize = 0;
    let mut more: bool = true;
    assert(v@.skip(0) == v@);
    assert(views(out@) + pieces(v@, c) == pieces(v@, c));
    while more
        invariant
            v@ == s@,
            from <= v@.len(),
            more ==> views(out@) + pieces(v@.skip(from as int), c) == pieces(s@, c),
            !more ==> views(out@) == pieces(s@, c),
        decreases (if more { 1 + v@.len() - from } else { 0 }),
    {
        let to: usize = find_from(&v, c, from);
        let ghost before = views(out@);
        let ghost rest = v@.skip(from as int);
        let piece: &'a str = s.substring_char(from, to);
        proof {
            assert(piece@ == rest.take(to - from));
        }
        out.push(piece);
        assert(views(out@) == before.push(piece@));
        if to < v.len() {
            proof {
                assert(rest.skip(to - from + 1) == v@.skip(to + 1));
                assert(before + (seq![piece@] + pieces(v@.skip(to + 1), c)) == views(out@) + pieces(
                    v@.skip(to + 1),
                    c,
                ));
            }
            from = to + 1;
        } else {
            proof {
                assert(rest.take(to - from) == rest);
                assert(before + seq![piece@] == views(out@));
            }
            more = false;
        }
    }
    out
}

/// Whether `pattern` stands somewhere in `s`.
pub open spec fn has_text(s: Seq<char>, pattern: Seq<char>) -> bool {
    exists|i: int|
        0 <= i <= s.len() - pattern.len() && #[trigger] s.subrange(i, i + pattern.len()) == pattern
}

/// Whether the characters of `p` stand in `v` from position `i` on.
fn matches_at(v: &Vec<char>, p: &Vec<char>, i: usize) -> (r: bool)
    requires
        i + p@.len() <= v@.len(),
    ensures
        r == (v@.subrange(i as int, i + p@.len()) == p@),
{
    let n: usize = v.len();
    let mut k: usize = 0;
    while k < p.len()
        invariant
            n == v@.len(),
            k <= p@.len(),
            i + p@.len() <= v@.len(),
            forall|j: int| 0 <= j < k ==> v@[i + j] == p@[j],
        decreases p@.len() - k,
    {
        if v[i + k] != p[k] {
            assert(v@.subrange(i as int, i + p@.len())[k as int] == v@[i + k]);
            return false;
        }
        k = k + 1;
    }
    assert(v@.subrange(i as int, i + p@.len()) =~= p@);
    true
}

/// Whether `pattern` stands somewhere in `s`.
pub fn contains_text(s: &str, pattern: &str) -> (r: bool)
    ensures
        r == has_text(s@, pattern@),
{
    let v: Vec<char> = chars_of(s);
    let p: Vec<char> = chars_of(pattern);
    if p.len() > v.len() {
        return false;
    }
    let last: usize = v.len() - p.len();
    let mut i: usize = 0;
    while i <= last
        invariant
            last == v@.len() - p@.len(),
            i <= last + 1,
            v@ == s@,
            p@ == pattern@,
            forall|j: int| 0 <= j < i ==> #[trigger] s@.subrange(j, j + p@.len()) != p@,
        decreases last + 1 - i,
    {
        if matches_at(&v, &p, i) {
            return true;
        }
        if i == last {
            return false;
        }
        i = i + 1;
    }
    false
}

/// Whether two texts are the same.
pub fn same(a: &str, b: &str) -> (r: bool)
    ensures
        r == (a@ == b@),
{
    let v: Vec<char> = chars_of(a);
    let p: Vec<char> = chars_of(b);
    if v.len() != p.len() {
        return false;
    }
    assert(v@.subrange(0, v@.len() as int) == v@);
    matches_at(&v, &p, 0)
}

// ---------------------------------------------------------------------------
// Words
// ---------------------------------------------------------------------------

/// Where the last word of `s` begins; the length of `s` where `s` ends in white space.
pub open spec fn word_start(s: Seq<char>) -> int
    decreases s.len(),
{
    if s.len() == 0 || is_white(s.last()) {
        s.len() as int
    } else {
        word_start(s.drop_last())
    }
}

/// The words of `s`: its longest stretches without white space, in order.
pub open spec fn words(s: Seq<char>) -> Seq<Seq<char>>
    decreases s.len(),
{
    let t = without_end(s);
    let i = word_start(t);
    if t.len() <= s.len() && 0 <= i < t.len() {
        words(t.take(i)).push(t.skip(i))
    } else {
        seq![]
    }
}

pub proof fn lemma_word_start(s: Seq<char>)
    ensures
        0 <= word_start(s) <= s.len(),
        s.len() > 0 && !is_white(s.last()) ==> word_start(s) < s.len(),
    decreases s.len(),
{
    if s.len() > 0 && !is_white(s.last()) {
        lemma_word_start(s.drop_last());
    }
}

pub proof fn lemma_without_end(s: Seq<char>)
    ensures
        without_end(s).len() <= s.len(),
        without_end(s) == s.take(without_end(s).len() as int),
        without_end(s).len() > 0 ==> !is_white(without_end(s).last()),
    decreases s.len(),
{
    if s.len() > 0 && is_white(s.last()) {
        lemma_without_end(s.drop_last());
        let n = without_end(s).len() as int;
        assert(s.drop_last().take(n) == s.take(n));
    } else {
        assert(s.take(s.len() as int) == s);
    }
}

/// The text before the last word of `s`, and that word; nothing where `s` has no word.
pub fn last_word<'a>(s: &'a str) -> (r: Option<(&'a str, &'a str)>)
    ensures
        match r {
            Some((rest, word)) => words(s@) == words(rest@).push(word@),
            None => words(s@).len() == 0,
        },
{
    let v: Vec<char> = chars_of(s);
    let mut to: usize = v.len();
    assert(v@.take(to as int) == v@);
    while to > 0 && white_space(v[to - 1])
        invariant
            to <= v@.len(),
            without_end(v@.take(to as int)) == without_end(v@),
        decreases to,
    {
        assert(v@.take(to as int).drop_last() == v@.take(to - 1));
        to = to - 1;
    }
    let ghost t = v@.take(to as int);
    assert(without_end(v@) == t);
    if to == 0 {
        return None;
    }
    let mut from: usize = to;
    assert(t.take(to as int) == t);
    while from > 0 && !white_space(v[from - 1])
        invariant
            from <= to <= v@.len(),
            t == v@.take(to as int),
            word_start(t.take(from as int)) == word_start(t),
        decreases from,
    {
        assert(t.take(from as int).drop_last() == t.take(from - 1));
        from = from - 1;
    }
    proof {
        lemma_word_start(t);
        assert(word_start(t) == from);
        assert(t.take(from as int) == v@.subrange(0, from as int));
        assert(t.skip(from as int) == v@.subrange(from as int, to as int));
    }
    Some((s.substring_char(0, from), s.substring_char(from, to)))
}

// ---------------------------------------------------------------------------
// Joining and padding
// ---------------------------------------------------------------------------

/// The parts in order, with `sep` between each two.
pub open spec fn joined(parts: Seq<Seq<char>>, sep: Seq<char>) -> Seq<char>
    decreases parts.len(),
{
    if parts.len() == 0 {
        seq![]
    } else if parts.len() == 1 {
        parts[0]
    } else {
        joined(parts.drop_last(), sep) + sep + parts.last()
    }
}

/// `n` spaces.
pub open spec fn spaces(n: nat) -> Seq<char> {
    Seq::new(n, |i: int| ' ')
}

/// `s` with spaces before it, up to `width` characters.
pub open spec fn padded_left(s: Seq<char>, width: nat) -> Seq<char> {
    if s.len() < width {
        spaces((width - s.len()) as nat) + s
    } else {
        s
    }
}

/// `s` with spaces after it, up to `width` characters.
pub open spec fn padded_right(s: Seq<char>, width: nat) -> Seq<char> {
    if s.len() < width {
        s + spaces((width - s.len()) as nat)
    } else {
        s
    }
}

/// The way a list of items is shown for debugging: in brackets, with commas.
pub open spec fn listing(items: Seq<Seq<char>>) -> Seq<char> {
    "["@ + joined(items, ", "@) + "]"@
}

/// The parts in order, with `sep` between each two.
pub fn join(parts: &Vec<String>, sep: &str) -> (r: String)
    ensures
        r@ == joined(string_views(parts@), sep@),
{
    let mut out: String = String::new();
    let mut i: usize = 0;
    let ghost all = string_views(parts@);
    while i < parts.len()
        invariant
            i <= parts@.len(),
            all == string_views(parts@),
            out@ == joined(all.take(i as int), sep@),
        decreases parts@.len() - i,
    {
        proof {
            assert(all.take(i + 1).drop_last() == all.take(i as int));
            assert(all.take(i + 1).last() == parts@[i as int]@);
        }
        if i > 0 {
            out.append(sep);
        }
        out.append(parts[i].as_str());
        i = i + 1;
        assert(out@ =~= joined(all.take(i as int), sep@));
    }
    assert(all.take(i as int) == all);
    out
}

/// The items in brackets, with commas.
pub fn list_text(items: &Vec<String>) -> (r: String)
    ensures
        r@ == listing(string_views(items@)),
{
    let mut out: String = "[".to_owned();
    let inner: String = join(items, ", ");
    out.append(inner.as_str());
    out.append("]");
    out
}

/// Appends `n` spaces.
pub fn push_spaces(out: &mut String, n: usize)
    ensures
        final(out)@ == old(out)@ + spaces(n as nat),
{
    let ghost start = out@;
    let mut i: usize = 0;
    assert(out@ =~= start + spaces(0));
    while i < n
        invariant
            i <= n,
            out@ == start + spaces(i as nat),
        decreases n - i,
    {
        out.append(" ");
        proof {
            reveal_strlit(" ");
        }
        i = i + 1;
        assert(out@ =~= start + spaces(i as nat));
    }
}

/// Appends `s` with spaces before it, up to `width` characters.
pub fn push_padded(out: &mut String, s: &str, width: usize)
    ensures
        final(out)@ == old(out)@ + padded_left(s@, width as nat),
{
    let ghost start = out@;
    let n: usize = s.unicode_len();
    if n < width {
        push_spaces(out, width - n);
    }
    out.append(s);
    assert(out@ =~= start + padded_left(s@, width as nat));
}

/// Appends `s` with spaces after it, up to `width` characters.
pub fn push_padded_right(out: &mut String, s: &str, width: usize)
    ensures
        final(out)@ == old(out)@ + padded_right(s@, width as nat),
{
    let ghost start = out@;
    let n: usize = s.unicode_len();
    out.append(s);
    if n < width {
        push_spaces(out, width - n);
    }
    assert(out@ =~= start + padded_right(s@, width as nat));
}

// ---------------------------------------------------------------------------
// Laws
// ---------------------------------------------------------------------------

/// A piece without the separator, a separator, and more text: the piece comes off first.
proof fn lemma_pieces_front(a: Seq<char>, c: char, rest: Seq<char>)
    requires
        !a.contains(c),
    ensures
        pieces(a + seq![c] + rest, c) == seq![a] + pieces(rest, c),
{
    let s = a + seq![c] + rest;
    assert forall|j: int| 0 <= j < a.len() implies s[j] != c by {
        assert(a[j] == s[j]);
        assert(a.contains(a[j]));
    }
    assert(s[a.len() as int] == c);
    lemma_position_is(s, c, a.len() as int);
    assert(s.take(a.len() as int) == a);
    assert(s.skip(a.len() as int + 1) == rest);
}

proof fn lemma_joined_front(parts: Seq<Seq<char>>, sep: Seq<char>)
    requires
        parts.len() >= 2,
    ensures
        joined(parts, sep) == parts[0] + sep + joined(parts.skip(1), sep),
    decreases parts.len(),
{
    if parts.len() == 2 {
        assert(parts.drop_last()[0] == parts[0]);
        assert(parts.skip(1)[0] == parts[1]);
        assert(joined(parts.drop_last(), sep) == parts[0]);
        assert(joined(parts.skip(1), sep) == parts[1]);
    } else {
        lemma_joined_front(parts.drop_last(), sep);
        assert(parts.drop_last().skip(1) == parts.skip(1).drop_last());
        assert(joined(parts.skip(1), sep) == joined(parts.skip(1).drop_last(), sep) + sep
            + parts.last());
        assert(joined(parts, sep) =~= parts[0] + sep + joined(parts.skip(1), sep));
    }
}

/// Splitting at a separator takes apart what joining with it put together,
/// where there is a part and no part holds the separator.
pub proof fn law_split_undoes_join(parts: Seq<Seq<char>>, c: char)
    requires
        parts.len() > 0,
        forall|i: int| 0 <= i < parts.len() ==> !(#[trigger] parts[i]).contains(c),
    ensures
        pieces(joined(parts, seq![c]), c) == parts,
    decreases parts.len(),
{
    if parts.len() == 1 {
        let a = parts[0];
        assert forall|j: int| 0 <= j < a.len() implies a[j] != c by {
            assert(a.contains(a[j]));
        }
        lemma_position_is(a, c, a.len() as int);
        assert(pieces(a, c) =~= parts);
    } else {
        lemma_joined_front(parts, seq![c]);
        lemma_pieces_front(parts[0], c, joined(parts.skip(1), seq![c]));
        assert forall|i: int| 0 <= i < parts.skip(1).len() implies !(#[trigger] parts.skip(
            1,
        )[i]).contains(c) by {
            assert(parts.skip(1)[i] == parts[i + 1]);
        }
        law_split_undoes_join(parts.skip(1), c);
        assert(seq![parts[0]] + parts.skip(1) =~= parts);
    }
}

/// What is joined from parts that are not empty begins as the first part does
/// and ends as the last part does.
pub proof fn lemma_joined_ends(parts: Seq<Seq<char>>, sep: Seq<char>)
    requires
        parts.len() > 0,
        forall|i: int| 0 <= i < parts.len() ==> (#[trigger] parts[i]).len() > 0,
    ensures
        joined(parts, sep).len() > 0,
        joined(parts, sep)[0] == parts[0][0],
        joined(parts, sep).last() == parts.last().last(),
    decreases parts.len(),
{
    if parts.len() > 1 {
        let d = parts.drop_last();
        assert forall|i: int| 0 <= i < d.len() implies (#[trigger] d[i]).len() > 0 by {
            assert(d[i] == parts[i]);
        }
        lemma_joined_ends(d, sep);
        assert(d[0] == parts[0]);
        assert(parts[parts.len() - 1].len() > 0);
    }
}

/// A text that begins and ends with no white space is its own trimmed text.
pub proof fn lemma_trimmed_same(s: Seq<char>)
    requires
        s.len() > 0 ==> !is_white(s[0]) && !is_white(s.last()),
    ensures
        trimmed(s) == s,
{
}

proof fn lemma_without_start(s: Seq<char>)
    ensures
        without_start(s).len() <= s.len(),
    decreases s.len(),
{
    if s.len() > 0 && is_white(s[0]) {
        lemma_without_start(s.skip(1));
    }
}

/// A trimmed text is not longer than the text.
pub proof fn lemma_trimmed_len(s: Seq<char>)
    ensures
        trimmed(s).len() <= s.len(),
{
    lemma_without_start(s);
    lemma_without_end(without_start(s));
}

/// The pieces of two texts with a separator between them are the pieces of the
/// one and then those of the other.
pub proof fn law_pieces_of_both(a: Seq<char>, b: Seq<char>, c: char)
    ensures
        pieces(a + seq![c] + b, c) == pieces(a, c) + pieces(b, c),
    decreases a.len(),
{
    lemma_position(a, c);
    let i = position(a, c);
    if i < a.len() {
        let first = a.take(i);
        let rest = a.skip(i + 1);
        law_pieces_of_both(rest, b, c);
        assert(!first.contains(c)) by {
            if first.contains(c) {
                let k = choose|k: int| 0 <= k < first.len() && first[k] == c;
                assert(a[k] == c);
            }
        }
        lemma_pieces_front(first, c, rest + seq![c] + b);
        assert(a + seq![c] + b =~= first + seq![c] + (rest + seq![c] + b));
        assert(pieces(a, c) + pieces(b, c) =~= seq![first] + (pieces(rest, c) + pieces(b, c)));
    } else {
        assert(!a.contains(c)) by {
            if a.contains(c) {
                let k = choose|k: int| 0 <= k < a.len() && a[k] == c;
                assert(a[k] == c);
            }
        }
        lemma_pieces_front(a, c, b);
    }
}

/// White space at the end of a text is no part of its trimmed text.
pub proof fn lemma_trimmed_push(s: Seq<char>, c: char)
    requires
        is_white(c),
    ensures
        trimmed(s.push(c)) == trimmed(s),
    decreases s.len(),
{
    let t = s.push(c);
    if s.len() == 0 {
        assert(t.skip(1) =~= s);
    } else if is_white(s[0]) {
        lemma_trimmed_push(s.skip(1), c);
        assert(t.skip(1) =~= s.skip(1).push(c));
    } else {
        assert(without_start(t) == t);
        assert(t.drop_last() =~= s);
    }
}

/// White space is what Unicode says: the code points with that property, and
/// no others.
pub proof fn law_white_space(c: char)
    ensures
        is_white(c) <==> seq![
            0x9int,
            0xa,
            0xb,
            0xc,
            0xd,
            0x20,
            0x85,
            0xa0,
            0x1680,
            0x2000,
            0x2001,
            0x2002,
            0x2003,
            0x2004,
            0x2005,
            0x2006,
            0x2007,
            0x2008,
            0x2009,
            0x200a,
            0x2028,
            0x2029,
            0x202f,
            0x205f,
            0x3000,
        ].contains(c as int),
{
    let s = seq![
        0x9int,
        0xa,
        0xb,
        0xc,
        0xd,
        0x20,
        0x85,
        0xa0,
        0x1680,
        0x2000,
        0x2001,
        0x2002,
        0x2003,
        0x2004,
        0x2005,
        0x2006,
        0x2007,
        0x2008,
        0x2009,
        0x200a,
        0x2028,
        0x2029,
        0x202f,
        0x205f,
        0x3000,
    ];
    assert(s[0] == 0x9 && s[1] == 0xa && s[2] == 0xb && s[3] == 0xc && s[4] == 0xd && s[5] == 0x20
        && s[6] == 0x85 && s[7] == 0xa0 && s[8] == 0x1680 && s[9] == 0x2000 && s[10] == 0x2001
        && s[11] == 0x2002 && s[12] == 0x2003 && s[13] == 0x2004 && s[14] == 0x2005 && s[15]
        == 0x2006 && s[16] == 0x2007 && s[17] == 0x2008 && s[18] == 0x2009 && s[19] == 0x200a
        && s[20] == 0x2028 && s[21] == 0x2029 && s[22] == 0x202f && s[23] == 0x205f && s[24]
        == 0x3000);
}

/// Whether a text is white space only.
pub open spec fn all_white(s: Seq<char>) -> bool {
    forall|i: int| 0 <= i < s.len() ==> is_white(#[trigger] s[i])
}

/// Trimming takes off white space at both ends, all of it and nothing else.
pub proof fn law_trimmed(a: Seq<char>, s: Seq<char>, b: Seq<char>)
    requires
        all_white(a),
        all_white(b),
        s.len() > 0 ==> !is_white(s[0]) && !is_white(s.last()),
    ensures
        trimmed(a + s + b) == s,
    decreases a.len() + b.len(),
{
    let t = a + s + b;
    if b.len() > 0 {
        let d = b.drop_last();
        assert forall|i: int| 0 <= i < d.len() implies is_white(#[trigger] d[i]) by {
            assert(d[i] == b[i]);
        }
        assert(is_white(b[b.len() - 1]));
        law_trimmed(a, s, d);
        lemma_trimmed_push(a + s + d, b.last());
        assert((a + s + d).push(b.last()) =~= t);
    } else if a.len() > 0 {
        let d = a.skip(1);
        assert forall|i: int| 0 <= i < d.len() implies is_white(#[trigger] d[i]) by {
            assert(d[i] == a[i + 1]);
        }
        assert(is_white(a[0]));
        law_trimmed(d, s, b);
        assert(t[0] == a[0]);
        assert(t.skip(1) =~= d + s + b);
    } else {
        assert(t =~= s);
    }
}

/// Joining the pieces of a text with the separator gives the text back, no
/// piece holds the separator, and there is always a piece.
pub proof fn law_join_undoes_split(s: Seq<char>, c: char)
    ensures
        pieces(s, c).len() > 0,
        joined(pieces(s, c), seq![c]) == s,
        forall|i: int| 0 <= i < pieces(s, c).len() ==> !(#[trigger] pieces(s, c)[i]).contains(c),
    decreases s.len(),
{
    lemma_position(s, c);
    let i = position(s, c);
    let p = pieces(s, c);
    if i < s.len() {
        let first = s.take(i);
        let rest = s.skip(i + 1);
        law_join_undoes_split(rest, c);
        assert(p.skip(1) =~= pieces(rest, c));
        lemma_joined_front(p, seq![c]);
        assert(s =~= first + seq![c] + rest);
        assert forall|k: int| 0 <= k < p.len() implies !(#[trigger] p[k]).contains(c) by {
            if k == 0 {
                if first.contains(c) {
                    let x = choose|x: int| 0 <= x < first.len() && first[x] == c;
                    assert(s[x] == c);
                }
            } else {
                assert(p[k] == pieces(rest, c)[k - 1]);
            }
        }
    } else {
        if s.contains(c) {
            let x = choose|x: int| 0 <= x < s.len() && s[x] == c;
            assert(s[x] == c);
        }
        assert(joined(p, seq![c]) == s);
    }
}

/// The words of a text with one more word behind white space are the words of
/// the text and that word, whatever white space follows.
pub proof fn law_words(s: Seq<char>, white: Seq<char>, word: Seq<char>, end: Seq<char>)
    requires
        all_white(white),
        white.len() > 0 || s.len() == 0,
        all_white(end),
        word.len() > 0,
        forall|i: int| 0 <= i < word.len() ==> !is_white(#[trigger] word[i]),
    ensures
        words(s + white + word + end) == words(s + white).push(word),
        words(s + white) == words(s),
    decreases end.len() + white.len(),
{
    let t = s + white + word;
    lemma_words_end(s, white);
    lemma_words_end(t, end);
    let before = s + white;
    lemma_word_start_is(before, word);
    assert(without_end(t) == t) by {
        assert(t.last() == word[word.len() - 1]);
    }
    assert(t.take(before.len() as int) =~= before);
    assert(t.skip(before.len() as int) =~= word);
}

/// White space at the end adds no word.
proof fn lemma_words_end(s: Seq<char>, end: Seq<char>)
    requires
        all_white(end),
    ensures
        words(s + end) == words(s),
        without_end(s + end) == without_end(s),
    decreases end.len(),
{
    lemma_without_end(s);
    lemma_without_end(s + end);
    if end.len() == 0 {
        assert(s + end =~= s);
    } else {
        let d = end.drop_last();
        assert forall|i: int| 0 <= i < d.len() implies is_white(#[trigger] d[i]) by {
            assert(d[i] == end[i]);
        }
        assert(is_white(end[end.len() - 1]));
        lemma_words_end(s, d);
        assert((s + end).drop_last() =~= s + d);
        assert((s + end).last() == end.last());
    }
}

proof fn lemma_word_start_is(before: Seq<char>, word: Seq<char>)
    requires
        before.len() == 0 || is_white(before.last()),
        forall|i: int| 0 <= i < word.len() ==> !is_white(#[trigger] word[i]),
    ensures
        word_start(before + word) == before.len(),
    decreases word.len(),
{
    let t = before + word;
    if word.len() == 0 {
        assert(t =~= before);
    } else {
        let d = word.drop_last();
        assert forall|i: int| 0 <= i < d.len() implies !is_white(#[trigger] d[i]) by {
            assert(d[i] == word[i]);
        }
        lemma_word_start_is(before, d);
        assert(t.drop_last() =~= before + d);
        assert(t.last() == word[word.len() - 1]);
    }
}

/// A text that is filled up has at least the width, holds the text at its end
/// or at its beginning, and spaces in the rest.
pub proof fn law_padded(s: Seq<char>, width: nat)
    ensures
        padded_left(s, width).len() == if s.len() < width {
            width
        } else {
            s.len()
        },
        padded_right(s, width).len() == padded_left(s, width).len(),
        s.is_suffix_of(padded_left(s, width)),
        s.is_prefix_of(padded_right(s, width)),
        forall|i: int|
            0 <= i < padded_left(s, width).len() - s.len() ==> #[trigger] padded_left(s, width)[i]
                == ' ',
        forall|i: int|
            s.len() <= i < padded_right(s, width).len() ==> #[trigger] padded_right(s, width)[i]
                == ' ',
{
    let l = padded_left(s, width);
    let r = padded_right(s, width);
    assert(l.subrange(l.len() - s.len(), l.len() as int) =~= s);
    assert(r.subrange(0, s.len() as int) =~= s);
}

/// Whether a text is empty or ends with the end of a line.
pub open spec fn ends_line(s: Seq<char>) -> bool {
    s.len() == 0 || s.last() == '\n'
}

/// A line behind lines is one line more.
pub proof fn lemma_line_added(s: Seq<char>, line: Seq<char>)
    requires
        ends_line(s),
        !line.contains('\n'),
    ensures
        ends_line(s + line + seq!['\n']),
        pieces(s, '\n').len() > 0,
        pieces(s, '\n').last().len() == 0,
        pieces(s + line + seq!['\n'], '\n') == pieces(s, '\n').drop_last().push(line).push(
            Seq::<char>::empty(),
        ),
{
    let c = '\n';
    let none = Seq::<char>::empty();
    assert forall|j: int| 0 <= j < line.len() implies line[j] != c by {
        assert(line.contains(line[j]));
    }
    lemma_position_is(line, c, line.len() as int);
    assert(pieces(line, c) =~= seq![line]);
    assert(pieces(none, c) =~= seq![none]);
    law_pieces_of_both(s + line, none, c);
    assert(s + line + seq![c] + none =~= s + line + seq![c]);
    if s.len() == 0 {
        assert(s =~= none);
        assert(s + line =~= line);
        assert(pieces(s, c).drop_last() =~= Seq::<Seq<char>>::empty());
    } else {
        let t = s.drop_last();
        law_pieces_of_both(t, none, c);
        assert(t + seq![c] + none =~= s);
        law_pieces_of_both(t, line, c);
        assert(t + seq![c] + line =~= s + line);
        assert(pieces(s, c).drop_last() =~= pieces(t, c));
    }
    assert(pieces(s + line + seq![c], c) =~= pieces(s, c).drop_last().push(line).push(none));
}

/// Trimming leading white space leaves a tail of the text.
pub proof fn lemma_without_start_within(s: Seq<char>)
    ensures
        without_start(s).len() <= s.len(),
        without_start(s) == s.skip(s.len() - without_start(s).len()),
        without_start(s).len() > 0 ==> !is_white(without_start(s)[0]),
        all_white(s.take(s.len() - without_start(s).len())),
    decreases s.len(),
{
    if s.len() > 0 && is_white(s[0]) {
        let d = s.skip(1);
        lemma_without_start_within(d);
        let n = s.len() - without_start(s).len();
        assert(d.skip(n - 1) =~= s.skip(n));
        assert forall|i: int| 0 <= i < n implies is_white(#[trigger] s.take(n)[i]) by {
            if i > 0 {
                assert(d.take(n - 1)[i - 1] == s[i]);
            }
        }
    } else {
        assert(s.skip(0) =~= s);
    }
}

/// A trimmed text is a stretch of the text.
pub proof fn lemma_trimmed_within(s: Seq<char>) -> (at: (int, int))
    ensures
        0 <= at.0 <= at.1 <= s.len(),
        trimmed(s) == s.subrange(at.0, at.1),
{
    let l = without_start(s);
    lemma_without_start_within(s);
    lemma_without_end(l);
    let a = s.len() - l.len();
    let b = a + without_end(l).len();
    assert(l.take(without_end(l).len() as int) =~= s.subrange(a, b));
    (a, b)
}

/// Only the white space before a text that is not white is trimmed at its start.
pub proof fn lemma_start_of(s: Seq<char>, t: Seq<char>)
    requires
        t.len() > 0,
        !is_white(t[0]),
    ensures
        without_start(s + t) == without_start(s) + t,
    decreases s.len(),
{
    if s.len() > 0 && is_white(s[0]) {
        lemma_start_of(s.skip(1), t);
        assert((s + t).skip(1) =~= s.skip(1) + t);
        assert((s + t)[0] == s[0]);
    } else if s.len() == 0 {
        assert(s + t =~= t);
        assert(without_start(s) + t =~= t);
    } else {
        assert((s + t)[0] == s[0]);
    }
}

/// Only the white space behind a text that is not white is trimmed at its end.
pub proof fn lemma_end_of(s: Seq<char>, t: Seq<char>)
    requires
        s.len() > 0,
        !is_white(s.last()),
    ensures
        without_end(s + t) == s + without_end(t),
    decreases t.len(),
{
    if t.len() == 0 {
        assert(s + t =~= s);
        assert(s + without_end(t) =~= s);
    } else if is_white(t.last()) {
        lemma_end_of(s, t.drop_last());
        assert((s + t).drop_last() =~= s + t.drop_last());
        assert((s + t).last() == t.last());
    } else {
        assert((s + t).last() == t.last());
    }
}

/// Trimming one end before both changes nothing.
pub proof fn lemma_trimmed_twice(s: Seq<char>)
    ensures
        trimmed(without_start(s)) == trimmed(s),
        trimmed(without_end(s)) == trimmed(s),
    decreases s.len(),
{
    lemma_without_start_within(s);
    let l = without_start(s);
    if l.len() > 0 {
        assert(without_start(l) == l);
    }
    if s.len() > 0 && is_white(s.last()) {
        lemma_trimmed_twice(s.drop_last());
        lemma_trimmed_push(s.drop_last(), s.last());
        assert(s.drop_last().push(s.last()) =~= s);
    }
}

} // verus!
