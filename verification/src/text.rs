//! Text primitives for the ledger's flat-file format: decimal rendering and
//! parsing of `u32` values, and splitting a string on a separator character.

use vstd::prelude::*;

verus! {

/// The character for a single decimal digit value.
pub open spec fn digit_char(d: int) -> char {
    if d == 0 {
        '0'
    } else if d == 1 {
        '1'
    } else if d == 2 {
        '2'
    } else if d == 3 {
        '3'
    } else if d == 4 {
        '4'
    } else if d == 5 {
        '5'
    } else if d == 6 {
        '6'
    } else if d == 7 {
        '7'
    } else if d == 8 {
        '8'
    } else {
        '9'
    }
}

/// The numeric value of a decimal digit character, or -1 when `c` is no digit.
pub open spec fn digit_value(c: char) -> int {
    if c == '0' {
        0
    } else if c == '1' {
        1
    } else if c == '2' {
        2
    } else if c == '3' {
        3
    } else if c == '4' {
        4
    } else if c == '5' {
        5
    } else if c == '6' {
        6
    } else if c == '7' {
        7
    } else if c == '8' {
        8
    } else if c == '9' {
        9
    } else {
        -1
    }
}

pub open spec fn is_digit(c: char) -> bool {
    digit_value(c) >= 0
}

/// The canonical decimal text of a non-negative integer: no sign, no leading
/// zero except for the number 0 itself.
pub open spec fn dec_digits(n: int) -> Seq<char>
    recommends
        n >= 0,
    decreases n,
{
    if n < 10 {
        seq![digit_char(n)]
    } else {
        dec_digits(n / 10).push(digit_char(n % 10))
    }
}

/// A digit string read as a number, most significant digit first.
pub open spec fn digits_value(s: Seq<char>) -> int
    decreases s.len(),
{
    if s.len() == 0 {
        0
    } else {
        digits_value(s.drop_last()) * 10 + digit_value(s.last())
    }
}

pub open spec fn all_digits(s: Seq<char>) -> bool {
    forall|i: int| 0 <= i < s.len() ==> is_digit(#[trigger] s[i])
}

/// What parsing a `u32` from text yields: an optional leading `+`, then one
/// or more decimal digits whose value fits in `u32`; anything else fails.
pub open spec fn parse_u32_spec(s: Seq<char>) -> Option<u32> {
    let t = if s.len() > 0 && s[0] == '+' {
        s.drop_first()
    } else {
        s
    };
    if t.len() > 0 && all_digits(t) && digits_value(t) <= u32::MAX {
        Some(digits_value(t) as u32)
    } else {
        None
    }
}

fn digit_str(d: u32) -> (r: &'static str)
    requires
        d < 10,
    ensures
        r@ == seq![digit_char(d as int)],
{
    proof {
        reveal_strlit("0");
        reveal_strlit("1");
        reveal_strlit("2");
        reveal_strlit("3");
        reveal_strlit("4");
        reveal_strlit("5");
        reveal_strlit("6");
        reveal_strlit("7");
        reveal_strlit("8");
        reveal_strlit("9");
        assert(("0")@ =~= seq!['0']);
        assert(("1")@ =~= seq!['1']);
        assert(("2")@ =~= seq!['2']);
        assert(("3")@ =~= seq!['3']);
        assert(("4")@ =~= seq!['4']);
        assert(("5")@ =~= seq!['5']);
        assert(("6")@ =~= seq!['6']);
        assert(("7")@ =~= seq!['7']);
        assert(("8")@ =~= seq!['8']);
        assert(("9")@ =~= seq!['9']);
    }
    match d {
        0 => "0",
        1 => "1",
        2 => "2",
        3 => "3",
        4 => "4",
        5 => "5",
        6 => "6",
        7 => "7",
        8 => "8",
        _ => "9",
    }
}

fn char_digit(c: char) -> (r: Option<u32>)
    ensures
        match r {
            Some(d) => d < 10 && digit_value(c) == d as int,
            None => !is_digit(c),
        },
{
    match c {
        '0' => Some(0),
        '1' => Some(1),
        '2' => Some(2),
        '3' => Some(3),
        '4' => Some(4),
        '5' => Some(5),
        '6' => Some(6),
        '7' => Some(7),
        '8' => Some(8),
        '9' => Some(9),
        _ => None,
    }
}

proof fn lemma_digits_value_nonneg(s: Seq<char>)
    requires
        all_digits(s),
    ensures
        digits_value(s) >= 0,
    decreases s.len(),
{
    if s.len() > 0 {
        assert(all_digits(s.drop_last()));
        lemma_digits_value_nonneg(s.drop_last());
    }
}

/// Reading a prefix of a digit string never yields more than the whole.
proof fn lemma_digits_value_take_le(s: Seq<char>, k: int)
    requires
        all_digits(s),
        0 <= k <= s.len(),
    ensures
        digits_value(s.take(k)) <= digits_value(s),
    decreases s.len() - k,
{
    if k == s.len() {
        assert(s.take(k) =~= s);
    } else {
        assert(s.take(k + 1).drop_last() =~= s.take(k));
        assert(s.take(k + 1).last() == s[k]);
        assert(all_digits(s.take(k)));
        lemma_digits_value_nonneg(s.take(k));
        assert(digits_value(s.take(k + 1)) == digits_value(s.take(k)) * 10 + digit_value(s[k]));
        lemma_digits_value_take_le(s, k + 1);
    }
}

/// Parses a `u32` exactly as `parse_u32_spec` describes: an optional leading
/// `+`, then one or more decimal digits whose value fits in `u32`.
pub fn parse_u32(s: &str) -> (r: Option<u32>)
    ensures
        r == parse_u32_spec(s@),
{
    let n = s.unicode_len();
    let start: usize = if n > 0 && s.get_char(0) == '+' {
        1
    } else {
        0
    };
    let ghost t = if s@.len() > 0 && s@[0] == '+' {
        s@.drop_first()
    } else {
        s@
    };
    proof {
        assert(t =~= s@.subrange(start as int, n as int));
    }
    if start == n {
        return None;
    }
    let mut v: u32 = 0;
    let mut i: usize = start;
    while i < n
        invariant
            start <= i <= n,
            n == s@.len(),
            t == (if s@.len() > 0 && s@[0] == '+' {
                s@.drop_first()
            } else {
                s@
            }),
            t =~= s@.subrange(start as int, n as int),
            t.len() > 0,
            all_digits(s@.subrange(start as int, i as int)),
            v == digits_value(s@.subrange(start as int, i as int)),
        decreases n - i,
    {
        let ghost pre = s@.subrange(start as int, i as int);
        let c = s.get_char(i);
        let d: u32 = match char_digit(c) {
            Some(d) => d,
            None => {
                proof {
                    assert(t[i - start] == c);
                    assert(!is_digit(t[i - start]));
                    assert(!all_digits(t));
                }
                return None;
            },
        };
        proof {
            assert(s@.subrange(start as int, i + 1).drop_last() =~= pre);
            assert(s@.subrange(start as int, i + 1).last() == c);
            assert(all_digits(s@.subrange(start as int, i + 1)));
        }
        if v > (u32::MAX - d) / 10 {
            proof {
                assert(v * 10 + d > u32::MAX) by (nonlinear_arith)
                    requires
                        d < 10,
                        v > (u32::MAX - d) / 10,
                        v >= 0,
                ;
                assert(digits_value(s@.subrange(start as int, i + 1)) > u32::MAX);
                if all_digits(t) {
                    assert(t.take(i + 1 - start) =~= s@.subrange(start as int, i + 1));
                    lemma_digits_value_take_le(t, i + 1 - start);
                    assert(digits_value(t) > u32::MAX);
                }
            }
            return None;
        }
        proof {
            assert(v * 10 + d <= u32::MAX) by (nonlinear_arith)
                requires
                    d < 10,
                    v <= (u32::MAX - d) / 10,
                    v >= 0,
            ;
        }
        v = v * 10 + d;
        i = i + 1;
    }
    proof {
        assert(s@.subrange(start as int, n as int) =~= t);
        assert(all_digits(t));
        assert(v == digits_value(t));
    }
    Some(v)
}

/// Canonical decimal text is non-empty and consists of digits alone.
pub proof fn lemma_dec_digits_all_digits(n: int)
    requires
        n >= 0,
    ensures
        all_digits(dec_digits(n)),
        dec_digits(n).len() >= 1,
        dec_digits(n)[0] != '+',
    decreases n,
{
    if n < 10 {
        assert(dec_digits(n) =~= seq![digit_char(n)]);
        assert(is_digit(digit_char(n)));
    } else {
        lemma_dec_digits_all_digits(n / 10);
        let s = dec_digits(n / 10);
        let w = s.push(digit_char(n % 10));
        assert(n % 10 < 10);
        assert(is_digit(digit_char(n % 10)));
        assert(forall|i: int| 0 <= i < w.len() ==> is_digit(#[trigger] w[i]));
        assert(w[0] == s[0]);
    }
}

proof fn lemma_digits_value_dec(n: int)
    requires
        n >= 0,
    ensures
        digits_value(dec_digits(n)) == n,
    decreases n,
{
    if n < 10 {
        let s = seq![digit_char(n)];
        reveal_with_fuel(digits_value, 2);
        assert(s.drop_last() =~= Seq::<char>::empty());
        assert(digits_value(s) == digit_value(digit_char(n)));
    } else {
        lemma_digits_value_dec(n / 10);
        let s = dec_digits(n / 10);
        let w = s.push(digit_char(n % 10));
        assert(w.drop_last() =~= s);
        assert(w.last() == digit_char(n % 10));
        assert(digits_value(w) == digits_value(s) * 10 + digit_value(digit_char(n % 10)));
        assert(digit_value(digit_char(n % 10)) == n % 10);
        assert((n / 10) * 10 + n % 10 == n);
    }
}

/// The canonical decimal text of a `u32` parses back to the same number.
pub proof fn lemma_parse_dec(n: int)
    requires
        0 <= n <= u32::MAX,
    ensures
        parse_u32_spec(dec_digits(n)) == Some(n as u32),
{
    lemma_dec_digits_all_digits(n);
    lemma_digits_value_dec(n);
}

/// Renders `n` as its canonical decimal text.
pub fn u32_to_string(n: u32) -> (r: String)
    ensures
        r@ == dec_digits(n as int),
    decreases n,
{
    if n < 10 {
        digit_str(n).to_owned()
    } else {
        let mut s = u32_to_string(n / 10);
        s.append(digit_str(n % 10));
        proof {
            assert(dec_digits(n as int) =~= dec_digits(n as int / 10).push(
                digit_char(n as int % 10),
            ));
            assert(dec_digits(n as int / 10).push(digit_char(n as int % 10)) =~= dec_digits(
                n as int / 10,
            ) + seq![digit_char(n as int % 10)]);
        }
        s
    }
}

/// Splitting a string on a separator: the maximal chunks between occurrences
/// of `sep`, always exactly one more chunk than separators, so both the empty
/// string and a trailing separator yield an empty final chunk.
pub open spec fn split_spec(s: Seq<char>, sep: char) -> Seq<Seq<char>>
    decreases s.len(),
{
    if s.len() == 0 {
        seq![Seq::<char>::empty()]
    } else if s[0] == sep {
        seq![Seq::<char>::empty()] + split_spec(s.drop_first(), sep)
    } else {
        let rest = split_spec(s.drop_first(), sep);
        seq![seq![s[0]] + rest[0]] + rest.drop_first()
    }
}

proof fn lemma_split_len(s: Seq<char>, sep: char)
    ensures
        split_spec(s, sep).len() >= 1,
    decreases s.len(),
{
    if s.len() > 0 {
        lemma_split_len(s.drop_first(), sep);
    }
}

/// A string without the separator splits into itself alone.
pub proof fn lemma_split_no_sep(t: Seq<char>, sep: char)
    requires
        forall|i: int| 0 <= i < t.len() ==> t[i] != sep,
    ensures
        split_spec(t, sep) =~~= seq![t],
    decreases t.len(),
{
    if t.len() == 0 {
        assert(t =~= Seq::<char>::empty());
    } else {
        lemma_split_no_sep(t.drop_first(), sep);
        lemma_split_len(t.drop_first(), sep);
        let rest = split_spec(t.drop_first(), sep);
        assert(rest =~~= seq![t.drop_first()]);
        assert(seq![t[0]] + t.drop_first() =~= t);
        assert(rest.drop_first() =~~= Seq::<Seq<char>>::empty());
    }
}

/// Splitting a string that starts with a separator-free chunk, a separator,
/// and a remainder yields the chunk followed by the split of the remainder.
pub proof fn lemma_split_prefix(t: Seq<char>, rest: Seq<char>, sep: char)
    requires
        forall|i: int| 0 <= i < t.len() ==> t[i] != sep,
    ensures
        split_spec(t + seq![sep] + rest, sep) =~~= seq![t] + split_spec(rest, sep),
    decreases t.len(),
{
    let s = t + seq![sep] + rest;
    if t.len() == 0 {
        assert(s =~= seq![sep] + rest);
        assert(s[0] == sep);
        assert(s.drop_first() =~= rest);
    } else {
        lemma_split_prefix(t.drop_first(), rest, sep);
        assert(s[0] == t[0]);
        assert(s.drop_first() =~= t.drop_first() + seq![sep] + rest);
        let inner = split_spec(t.drop_first() + seq![sep] + rest, sep);
        assert(inner =~~= seq![t.drop_first()] + split_spec(rest, sep));
        assert(inner[0] == t.drop_first());
        assert(seq![s[0]] + inner[0] =~= t);
        assert(inner.drop_first() =~~= split_spec(rest, sep));
    }
}

/// The views of a vector of strings.
pub open spec fn views_of(v: Seq<String>) -> Seq<Seq<char>> {
    Seq::new(v.len(), |i: int| v[i]@)
}

/// Splits `s` on `sep` exactly as `split_spec` describes.
pub fn split_on(s: &str, sep: char) -> (r: Vec<String>)
    ensures
        views_of(r@) == split_spec(s@, sep),
{
    let n = s.unicode_len();
    let mut out: Vec<String> = Vec::new();
    let mut token_start: usize = 0;
    let mut i: usize = 0;
    proof {
        assert(s@.subrange(0, n as int) =~= s@);
        assert(views_of(out@) + split_spec(s@, sep) =~~= split_spec(s@, sep));
    }
    while i < n
        invariant
            token_start <= i <= n,
            n == s@.len(),
            forall|j: int| token_start <= j < i ==> s@[j] != sep,
            split_spec(s@, sep) == views_of(out@) + split_spec(
                s@.subrange(token_start as int, n as int),
                sep,
            ),
        decreases n - i,
    {
        let c = s.get_char(i);
        if c == sep {
            let ghost before = out@;
            let ghost ts0 = token_start as int;
            let ghost chunk = s@.subrange(ts0, i as int);
            let tok = s.substring_char(token_start, i).to_owned();
            out.push(tok);
            token_start = i + 1;
            proof {
                let after = s@.subrange(i as int + 1, n as int);
                assert(s@.subrange(ts0, n as int) =~= chunk + seq![sep] + after);
                lemma_split_prefix(chunk, after, sep);
                assert(views_of(out@) =~~= views_of(before) + seq![chunk]);
                assert(views_of(before) + (seq![chunk] + split_spec(after, sep)) =~~= views_of(
                    out@,
                ) + split_spec(after, sep));
            }
        }
        i = i + 1;
    }
    let ghost before = out@;
    let ghost chunk = s@.subrange(token_start as int, n as int);
    let tok = s.substring_char(token_start, n).to_owned();
    out.push(tok);
    proof {
        lemma_split_no_sep(chunk, sep);
        assert(views_of(out@) =~~= views_of(before) + seq![chunk]);
        assert(split_spec(s@, sep) =~~= views_of(out@));
    }
    out
}

} // verus!
