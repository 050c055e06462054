//! Numbers as text: decimal and hexadecimal numerals, and reading a decimal numeral back.

use crate::text;
use vstd::prelude::*;

verus! {

// ---------------------------------------------------------------------------
// Writing
// ---------------------------------------------------------------------------

/// The character of the digit `d`, in lower case from ten on.
pub open spec fn digit_char(d: nat) -> char {
    if d < 10 {
        (48 + d) as char
    } else {
        (87 + d) as char
    }
}

/// The decimal numeral of `n`.
pub open spec fn dec(n: nat) -> Seq<char>
    decreases n,
{
    if n < 10 {
        seq![digit_char(n)]
    } else {
        dec(n / 10).push(digit_char(n % 10))
    }
}

/// The decimal numeral of `n`, with a sign where it is negative.
pub open spec fn dec_int(n: int) -> Seq<char> {
    if n < 0 {
        seq!['-'] + dec((-n) as nat)
    } else {
        dec(n as nat)
    }
}

/// The hexadecimal numeral of `n`, in lower case.
pub open spec fn hex(n: nat) -> Seq<char>
    decreases n,
{
    if n < 16 {
        seq![digit_char(n)]
    } else {
        hex(n / 16).push(digit_char(n % 16))
    }
}

/// The text of one digit.
fn digit_text(d: u64) -> (r: &'static str)
    requires
        d < 16,
    ensures
        r@ == seq![digit_char(d as nat)],
{
    proof {
        reveal_strlit("0");
        reveal_strlit("1");
        reveal_strlit("2");
        reveal_strlit("3");
        reveal_strlit("4");
        reveal_strlit("5");
        reveal_strlit("6");
        reveal_strlit("7");
        reveal_strlit("8");
        reveal_strlit("9");
        reveal_strlit("a");
        reveal_strlit("b");
        reveal_strlit("c");
        reveal_strlit("d");
        reveal_strlit("e");
        reveal_strlit("f");
    }
    let r: &'static str = match d {
        0 => "0",
        1 => "1",
        2 => "2",
        3 => "3",
        4 => "4",
        5 => "5",
        6 => "6",
        7 => "7",
        8 => "8",
        9 => "9",
        10 => "a",
        11 => "b",
        12 => "c",
        13 => "d",
        14 => "e",
        _ => "f",
    };
    assert(r@ =~= seq![digit_char(d as nat)]);
    r
}

/// Appends the decimal numeral of `n`.
pub fn push_dec(out: &mut String, n: u64)
    ensures
        final(out)@ == old(out)@ + dec(n as nat),
    decreases n,
{
    let ghost start = out@;
    if n >= 10 {
        push_dec(out, n / 10);
    }
    out.append(digit_text(n % 10));
    assert(out@ =~= start + dec(n as nat));
}

/// Appends the decimal numeral of `n`.
pub fn push_usize(out: &mut String, n: usize)
    ensures
        final(out)@ == old(out)@ + dec(n as nat),
{
    push_dec(out, n as u64);
}

/// Appends the decimal numeral of `n`, with a sign where it is negative.
pub fn push_i32(out: &mut String, n: i32)
    ensures
        final(out)@ == old(out)@ + dec_int(n as int),
{
    let ghost start = out@;
    if n < 0 {
        out.append("-");
        proof {
            reveal_strlit("-");
        }
        push_dec(out, (-(n as i64)) as u64);
        assert(out@ =~= start + dec_int(n as int));
    } else {
        push_dec(out, n as u64);
    }
}

/// Appends the hexadecimal numeral of `n`.
pub fn push_hex(out: &mut String, n: u64)
    ensures
        final(out)@ == old(out)@ + hex(n as nat),
    decreases n,
{
    let ghost start = out@;
    if n >= 16 {
        push_hex(out, n / 16);
    }
    out.append(digit_text(n % 16));
    assert(out@ =~= start + hex(n as nat));
}

/// The decimal numeral of `n`.
pub fn dec_text(n: usize) -> (r: String)
    ensures
        r@ == dec(n as nat),
{
    let mut out: String = String::new();
    push_usize(&mut out, n);
    assert(out@ =~= dec(n as nat));
    out
}

// ---------------------------------------------------------------------------
// Reading
// ---------------------------------------------------------------------------

/// Whether `c` is a decimal digit.
pub open spec fn is_digit(c: char) -> bool {
    '0' <= c <= '9'
}

/// Whether `s` holds decimal digits only.
pub open spec fn all_digits(s: Seq<char>) -> bool {
    forall|i: int| 0 <= i < s.len() ==> is_digit(#[trigger] s[i])
}

/// The number that a sequence of decimal digits stands for.
pub open spec fn value(s: Seq<char>) -> nat
    decreases s.len(),
{
    if s.len() == 0 {
        0
    } else {
        (value(s.drop_last()) * 10 + (s.last() as int - 48)) as nat
    }
}

/// `s` without a leading plus sign.
pub open spec fn unsigned_part(s: Seq<char>) -> Seq<char> {
    if s.len() > 0 && s[0] == '+' {
        s.skip(1)
    } else {
        s
    }
}

/// The number that `s` writes in decimal: at least one digit, with an optional
/// plus sign before them, and nothing else.
pub open spec fn numeral(s: Seq<char>) -> Option<nat> {
    let d = unsigned_part(s);
    if d.len() > 0 && all_digits(d) {
        Some(value(d))
    } else {
        None
    }
}

/// The number that `s` writes, where it is at most `max`.
pub open spec fn numeral_upto(s: Seq<char>, max: nat) -> Option<nat> {
    match numeral(s) {
        Some(n) => if n <= max {
            Some(n)
        } else {
            None
        },
        None => None,
    }
}

/// The `usize` that `s` writes in decimal.
pub open spec fn usize_of(s: Seq<char>) -> Option<usize> {
    match numeral_upto(s, usize::MAX as nat) {
        Some(n) => Some(n as usize),
        None => None,
    }
}

/// The `u64` that `s` writes in decimal.
pub open spec fn u64_of(s: Seq<char>) -> Option<u64> {
    match numeral_upto(s, u64::MAX as nat) {
        Some(n) => Some(n as u64),
        None => None,
    }
}

/// Reads a decimal numeral, where the number is at most `max`.
fn parse_upto(s: &str, max: u64) -> (r: Option<u64>)
    requires
        max >= 9,
    ensures
        match r {
            Some(n) => numeral_upto(s@, max as nat) == Some(n as nat),
            None => numeral_upto(s@, max as nat) is None,
        },
{
    let v: Vec<char> = text::chars_of(s);
    let from: usize = if v.len() > 0 && v[0] == '+' {
        1
    } else {
        0
    };
    let ghost d = unsigned_part(s@);
    assert(d == v@.skip(from as int));
    if from == v.len() {
        return None;
    }
    let mut n: u64 = 0;
    let mut fits: bool = true;
    let mut i: usize = from;
    while i < v.len()
        invariant
            from <= i <= v@.len(),
            max >= 9,
            d == unsigned_part(s@),
            d == v@.skip(from as int),
            forall|j: int| 0 <= j < i - from ==> is_digit(#[trigger] d[j]),
            fits ==> n == value(d.take(i - from)) && n <= max,
            !fits ==> value(d.take(i - from)) > max,
        decreases v@.len() - i,
    {
        let c: char = v[i];
        proof {
            assert(d[i - from] == c);
            assert(d.take(i - from + 1).drop_last() == d.take(i - from));
        }
        if c < '0' || c > '9' {
            assert(!is_digit(d[i - from]));
            return None;
        }
        let digit: u64 = (c as u32 - 48) as u64;
        if fits {
            if n > max / 10 || n * 10 > max - digit {
                proof {
                    assert(value(d.take(i - from + 1)) == n * 10 + digit);
                }
                fits = false;
            } else {
                n = n * 10 + digit;
            }
        }
        i = i + 1;
    }
    assert(d.take(v@.len() - from) == d);
    if fits {
        Some(n)
    } else {
        None
    }
}

/// Reads a decimal numeral.
pub fn parse_usize(s: &str) -> (r: Option<usize>)
    ensures
        r == usize_of(s@),
{
    match parse_upto(s, usize::MAX as u64) {
        Some(n) => Some(n as usize),
        None => None,
    }
}

/// Reads a decimal numeral.
pub fn parse_u64(s: &str) -> (r: Option<u64>)
    ensures
        r == u64_of(s@),
{
    parse_upto(s, u64::MAX)
}

// ---------------------------------------------------------------------------
// Laws
// ---------------------------------------------------------------------------

/// A decimal numeral is made of digits.
pub proof fn lemma_dec_digits(n: nat)
    ensures
        dec(n).len() > 0,
        all_digits(dec(n)),
    decreases n,
{
    if n >= 10 {
        lemma_dec_digits(n / 10);
    }
}

proof fn lemma_dec_value(n: nat)
    ensures
        value(dec(n)) == n,
    decreases n,
{
    if n < 10 {
        assert(dec(n).drop_last() =~= Seq::<char>::empty());
        assert(value(dec(n).drop_last()) == 0);
    } else {
        lemma_dec_value(n / 10);
        assert(dec(n).drop_last() =~= dec(n / 10));
    }
}

/// Reading the decimal numeral of a number gives that number back.
pub proof fn law_dec_reads_back(n: nat)
    ensures
        numeral(dec(n)) == Some(n),
        n <= usize::MAX ==> usize_of(dec(n)) == Some(n as usize),
        n <= u64::MAX ==> u64_of(dec(n)) == Some(n as u64),
{
    lemma_dec_digits(n);
    lemma_dec_value(n);
    assert(is_digit(dec(n)[0]));
}

proof fn lemma_value_len(s: Seq<char>)
    requires
        s.len() > 0,
        all_digits(s),
    ensures
        dec(value(s)).len() <= s.len(),
    decreases s.len(),
{
    let d = s.drop_last();
    assert(is_digit(s[s.len() - 1]));
    if d.len() == 0 {
        assert(value(d) == 0);
    } else {
        assert forall|i: int| 0 <= i < d.len() implies is_digit(#[trigger] d[i]) by {
            assert(d[i] == s[i]);
        }
        lemma_value_len(d);
    }
}

/// No text that writes a number is shorter than its decimal numeral.
pub proof fn law_dec_shortest(s: Seq<char>, n: nat)
    requires
        numeral(s) == Some(n),
    ensures
        dec(n).len() <= s.len(),
{
    lemma_value_len(unsigned_part(s));
}

/// The value of a lower-case hexadecimal digit.
pub open spec fn hex_digit(c: char) -> int {
    if '0' <= c <= '9' {
        c as int - '0' as int
    } else if 'a' <= c <= 'f' {
        c as int - 'a' as int + 10
    } else {
        -1
    }
}

/// The number that lower-case hexadecimal digits stand for.
pub open spec fn hex_value(s: Seq<char>) -> int
    decreases s.len(),
{
    if s.len() == 0 {
        0
    } else {
        hex_value(s.drop_last()) * 16 + hex_digit(s.last())
    }
}

/// A hexadecimal numeral is made of lower-case digits, has no needless 0 in
/// front, and stands for its number.
pub proof fn law_hex_reads_back(n: nat)
    ensures
        hex(n).len() > 0,
        hex_value(hex(n)) == n,
        forall|i: int| 0 <= i < hex(n).len() ==> 0 <= hex_digit(#[trigger] hex(n)[i]) < 16,
        hex(n).len() > 1 ==> hex(n)[0] != '0',
    decreases n,
{
    if n < 16 {
        assert(hex(n).drop_last() =~= Seq::<char>::empty());
        assert(hex_value(hex(n).drop_last()) == 0);
    } else {
        law_hex_reads_back(n / 16);
        assert(hex(n).drop_last() =~= hex(n / 16));
        assert(hex(n)[0] == hex(n / 16)[0]);
        if n / 16 < 16 {
            assert(hex(n / 16)[0] == digit_char(n / 16));
        } else {
            law_hex_reads_back(n / 16 / 16);
        }
        assert forall|i: int| 0 <= i < hex(n).len() implies 0 <= hex_digit(#[trigger] hex(n)[i])
            < 16 by {
            if i < hex(n / 16).len() {
                assert(hex(n)[i] == hex(n / 16)[i]);
            }
        }
    }
}

/// A number above 9 is written with one digit more than its tenth, and a
/// decimal numeral has no needless 0 in front.
pub proof fn law_dec_shape(n: nat)
    ensures
        n < 10 ==> dec(n).len() == 1,
        n >= 10 ==> dec(n).len() == dec(n / 10).len() + 1 && dec(n).drop_last() == dec(n / 10),
        dec(n).len() > 1 ==> dec(n)[0] != '0',
        dec_int(n as int) == dec(n),
        n > 0 ==> dec_int(-n) == seq!['-'] + dec(n),
    decreases n,
{
    if n >= 10 {
        law_dec_shape(n / 10);
        lemma_dec_digits(n / 10);
        assert(dec(n).drop_last() =~= dec(n / 10));
        assert(dec(n)[0] == dec(n / 10)[0]);
        if n / 10 < 10 {
            assert(dec(n / 10)[0] == digit_char(n / 10));
        }
    }
}

/// A number is read with or without a plus sign and with any 0 in front; a
/// text with anything but digits behind the sign is no number; and a number
/// that is too large for its type is none.
pub proof fn law_numerals(d: Seq<char>, n: nat, i: int)
    requires
        d.len() > 0,
    ensures
        all_digits(d) ==> numeral(d) is Some,
        all_digits(d) ==> numeral(seq!['+'] + d) == numeral(d),
        all_digits(d) ==> numeral(seq!['0'] + d) == numeral(d),
        numeral(Seq::<char>::empty()) is None,
        numeral(seq!['+']) is None,
        0 <= i < d.len() && !is_digit(d[i]) && (i > 0 || d[0] != '+') ==> numeral(d) is None,
        n > usize::MAX ==> usize_of(dec(n)) is None,
        n > u64::MAX ==> u64_of(dec(n)) is None,
{
    law_dec_reads_back(n);
    assert((seq!['+'] + d).skip(1) =~= d);
    assert(seq!['+'].skip(1) =~= Seq::<char>::empty());
    if all_digits(d) {
        assert(is_digit(d[0]));
        let z = seq!['0'] + d;
        assert(all_digits(z)) by {
            assert forall|k: int| 0 <= k < z.len() implies is_digit(#[trigger] z[k]) by {
                if k > 0 {
                    assert(z[k] == d[k - 1]);
                }
            }
        }
        lemma_leading_zero(d);
    }
    if 0 <= i < d.len() && !is_digit(d[i]) && (i > 0 || d[0] != '+') {
        let u = unsigned_part(d);
        if d[0] == '+' {
            assert(u[i - 1] == d[i]);
        }
    }
}

proof fn lemma_leading_zero(d: Seq<char>)
    ensures
        value(seq!['0'] + d) == value(d),
    decreases d.len(),
{
    let z = seq!['0'] + d;
    if d.len() == 0 {
        assert(z.drop_last() =~= Seq::<char>::empty());
        assert(value(z.drop_last()) == 0);
    } else {
        lemma_leading_zero(d.drop_last());
        assert(z.drop_last() =~= seq!['0'] + d.drop_last());
    }
}

} // verus!
