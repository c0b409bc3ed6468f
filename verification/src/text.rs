//! Character-level scanning helpers: character classes, maximal-prefix
//! splitting, decimal parsing and printing, and region comparison against
//! string literals.

use vstd::prelude::*;
use vstd::string::StrSliceExecFns;
use vstd::string::StringExecFns;

verus! {

/// The whitespace characters that separate fields within a line and make a
/// line blank: space, tab, line feed, vertical tab, form feed, carriage
/// return.
pub open spec fn is_space_char(c: char) -> bool {
    c as u32 == 32 || c as u32 == 9 || c as u32 == 10 || c as u32 == 11 || c as u32 == 12
        || c as u32 == 13
}

/// A decimal digit `'0'..='9'`.
pub open spec fn is_digit_char(c: char) -> bool {
    48 <= c as u32 && c as u32 <= 57
}

/// The numeric value of a decimal digit character.
pub open spec fn digit_val(c: char) -> int {
    c as u32 - 48
}

/// A lowercase hexadecimal digit `'0'..='9'` or `'a'..='f'`.
pub open spec fn is_hex_lower_char(c: char) -> bool {
    is_digit_char(c) || (97 <= c as u32 && c as u32 <= 102)
}

/// A line is blank when every character in it is whitespace; in particular
/// the empty line is blank.
pub open spec fn blank_line(s: Seq<char>) -> bool {
    forall|i: int| 0 <= i < s.len() ==> is_space_char(#[trigger] s[i])
}

pub fn space_char(c: char) -> (b: bool)
    ensures
        b == is_space_char(c),
{
    let u = c as u32;
    u == 32 || u == 9 || u == 10 || u == 11 || u == 12 || u == 13
}

pub fn digit_char_test(c: char) -> (b: bool)
    ensures
        b == is_digit_char(c),
{
    let u = c as u32;
    48 <= u && u <= 57
}

pub fn hex_lower_char_test(c: char) -> (b: bool)
    ensures
        b == is_hex_lower_char(c),
{
    let u = c as u32;
    (48 <= u && u <= 57) || (97 <= u && u <= 102)
}

pub fn is_blank(s: &str) -> (b: bool)
    ensures
        b == blank_line(s@),
{
    let n = s.unicode_len();
    let mut i: usize = 0;
    while i < n
        invariant
            i <= n,
            n == s@.len(),
            forall|q: int| 0 <= q < i ==> is_space_char(#[trigger] s@[q]),
        decreases n - i,
    {
        if !space_char(s.get_char(i)) {
            return false;
        }
        i = i + 1;
    }
    true
}

/// Length of the maximal prefix of `s` whose characters all satisfy `p`.
pub open spec fn split_point(s: Seq<char>, p: spec_fn(char) -> bool) -> int
    decreases s.len(),
{
    if s.len() == 0 || !p(s[0]) {
        0
    } else {
        1 + split_point(s.skip(1), p)
    }
}

pub proof fn lemma_split_point(s: Seq<char>, p: spec_fn(char) -> bool)
    ensures
        0 <= split_point(s, p) <= s.len(),
        forall|q: int| 0 <= q < split_point(s, p) ==> p(#[trigger] s[q]),
        split_point(s, p) < s.len() ==> !p(s[split_point(s, p)]),
    decreases s.len(),
{
    if s.len() == 0 || !p(s[0]) {
    } else {
        lemma_split_point(s.skip(1), p);
        assert forall|q: int| 0 <= q < split_point(s, p) implies p(#[trigger] s[q]) by {
            if q > 0 {
                assert(s.skip(1)[q - 1] == s[q]);
            }
        }
        if split_point(s, p) < s.len() {
            assert(s.skip(1)[split_point(s.skip(1), p)] == s[split_point(s, p)]);
        }
    }
}

/// The three characterizing properties pin the split point down uniquely.
pub proof fn lemma_split_point_is(s: Seq<char>, p: spec_fn(char) -> bool, n: int)
    requires
        0 <= n <= s.len(),
        forall|q: int| 0 <= q < n ==> p(#[trigger] s[q]),
        n < s.len() ==> !p(s[n]),
    ensures
        split_point(s, p) == n,
{
    lemma_split_point(s, p);
    let m = split_point(s, p);
    if m < n {
        assert(p(s[m]));
    } else if n < m {
        assert(p(s[n]));
    }
}

/// The decimal value of a digit string, most significant digit first.
pub open spec fn dec_value(s: Seq<char>) -> int
    decreases s.len(),
{
    if s.len() == 0 {
        0
    } else {
        dec_value(s.drop_last()) * 10 + digit_val(s.last())
    }
}

pub open spec fn all_digits(s: Seq<char>) -> bool {
    forall|i: int| 0 <= i < s.len() ==> is_digit_char(#[trigger] s[i])
}

/// A string that the numeric parser accepts: non-empty, all decimal digits,
/// and its value fits in a `u32`.
pub open spec fn is_dec_u32(s: Seq<char>) -> bool {
    s.len() > 0 && all_digits(s) && dec_value(s) <= u32::MAX
}

pub proof fn lemma_dec_value_nonneg(s: Seq<char>)
    requires
        all_digits(s),
    ensures
        dec_value(s) >= 0,
    decreases s.len(),
{
    if s.len() > 0 {
        assert forall|i: int| 0 <= i < s.drop_last().len() implies is_digit_char(
            #[trigger] s.drop_last()[i],
        ) by {
            assert(s.drop_last()[i] == s[i]);
        }
        lemma_dec_value_nonneg(s.drop_last());
        assert(is_digit_char(s[s.len() - 1]));
        assert(digit_val(s.last()) >= 0);
    }
}

pub proof fn lemma_dec_value_extend(s: Seq<char>, from: int, i: int)
    requires
        0 <= from <= i < s.len(),
    ensures
        dec_value(s.subrange(from, i + 1)) == dec_value(s.subrange(from, i)) * 10 + digit_val(
            s[i],
        ),
{
    assert(s.subrange(from, i + 1).drop_last() =~= s.subrange(from, i));
    assert(s.subrange(from, i + 1).last() == s[i]);
}

/// Appending digits never shrinks the value of a digit string.
pub proof fn lemma_dec_value_mono(s: Seq<char>, from: int, mid: int, to: int)
    requires
        0 <= from <= mid <= to <= s.len(),
        all_digits(s.subrange(from, to)),
    ensures
        dec_value(s.subrange(from, mid)) <= dec_value(s.subrange(from, to)),
    decreases to - mid,
{
    if mid < to {
        assert forall|q: int| 0 <= q < mid - from implies is_digit_char(
            #[trigger] s.subrange(from, mid)[q],
        ) by {
            assert(s.subrange(from, mid)[q] == s.subrange(from, to)[q]);
        }
        lemma_dec_value_nonneg(s.subrange(from, mid));
        lemma_dec_value_extend(s, from, mid);
        assert(is_digit_char(s.subrange(from, to)[mid - from]));
        assert(s.subrange(from, to)[mid - from] == s[mid]);
        assert(digit_val(s[mid]) >= 0);
        assert(dec_value(s.subrange(from, mid)) <= dec_value(s.subrange(from, mid)) * 10
            + digit_val(s[mid]));
        assert(dec_value(s.subrange(from, mid + 1)) == dec_value(s.subrange(from, mid)) * 10
            + digit_val(s[mid]));
        lemma_dec_value_mono(s, from, mid + 1, to);
    }
}

/// Parse `s[from..to]` as a non-negative decimal integer. Returns `None` on
/// an empty range, a non-digit character, or a value that does not fit in a
/// `u32`.
pub fn parse_u32_region(s: &str, from: usize, to: usize) -> (r: Option<u32>)
    requires
        from <= to <= s@.len(),
    ensures
        match r {
            Some(v) => is_dec_u32(s@.subrange(from as int, to as int)) && v == dec_value(
                s@.subrange(from as int, to as int),
            ),
            None => !is_dec_u32(s@.subrange(from as int, to as int)),
        },
{
    let ghost whole = s@.subrange(from as int, to as int);
    if from == to {
        return None;
    }
    let mut acc: u64 = 0;
    let mut i: usize = from;
    while i < to
        invariant
            from <= i <= to <= s@.len(),
            whole == s@.subrange(from as int, to as int),
            all_digits(s@.subrange(from as int, i as int)),
            acc == dec_value(s@.subrange(from as int, i as int)),
            acc <= u32::MAX,
        decreases to - i,
    {
        let c = s.get_char(i);
        let u = c as u32;
        if !(48 <= u && u <= 57) {
            proof {
                assert(whole[i - from] == s@[i as int]);
            }
            return None;
        }
        proof {
            lemma_dec_value_extend(s@, from as int, i as int);
            assert forall|q: int| 0 <= q < i + 1 - from implies is_digit_char(
                #[trigger] s@.subrange(from as int, i + 1)[q],
            ) by {
                if q < i - from {
                    assert(s@.subrange(from as int, i + 1)[q] == s@.subrange(
                        from as int,
                        i as int,
                    )[q]);
                } else {
                    assert(s@.subrange(from as int, i + 1)[q] == s@[i as int]);
                }
            }
        }
        acc = acc * 10 + ((u - 48) as u64);
        i = i + 1;
        if acc > (u32::MAX as u64) {
            proof {
                if all_digits(whole) {
                    lemma_dec_value_mono(s@, from as int, i as int, to as int);
                }
            }
            return None;
        }
    }
    Some(acc as u32)
}

/// The decimal digit character for a value in `0..=9`.
pub open spec fn digit_char(d: int) -> char {
    if d == 0 {
        '0'
    } else if d == 1 {
        '1'
    } else if d == 2 {
        '2'
    } else if d == 3 {
        '3'
    } else if d == 4 {
        '4'
    } else if d == 5 {
        '5'
    } else if d == 6 {
        '6'
    } else if d == 7 {
        '7'
    } else if d == 8 {
        '8'
    } else {
        '9'
    }
}

/// The decimal rendering of a non-negative integer, without leading zeros
/// (a lone zero renders as "0").
pub open spec fn dec_str(v: int) -> Seq<char>
    decreases v,
{
    if v < 10 {
        seq![digit_char(v)]
    } else {
        dec_str(v / 10).push(digit_char(v % 10))
    }
}

fn append_digit(s: &mut String, d: u32)
    requires
        d < 10,
    ensures
        final(s)@ == old(s)@ + seq![digit_char(d as int)],
{
    match d {
        0 => {
            s.append("0");
            proof {
                reveal_strlit("0");
                assert(s@ =~= old(s)@ + seq![digit_char(0)]);
            }
        },
        1 => {
            s.append("1");
            proof {
                reveal_strlit("1");
                assert(s@ =~= old(s)@ + seq![digit_char(1)]);
            }
        },
        2 => {
            s.append("2");
            proof {
                reveal_strlit("2");
                assert(s@ =~= old(s)@ + seq![digit_char(2)]);
            }
        },
        3 => {
            s.append("3");
            proof {
                reveal_strlit("3");
                assert(s@ =~= old(s)@ + seq![digit_char(3)]);
            }
        },
        4 => {
            s.append("4");
            proof {
                reveal_strlit("4");
                assert(s@ =~= old(s)@ + seq![digit_char(4)]);
            }
        },
        5 => {
            s.append("5");
            proof {
                reveal_strlit("5");
                assert(s@ =~= old(s)@ + seq![digit_char(5)]);
            }
        },
        6 => {
            s.append("6");
            proof {
                reveal_strlit("6");
                assert(s@ =~= old(s)@ + seq![digit_char(6)]);
            }
        },
        7 => {
            s.append("7");
            proof {
                reveal_strlit("7");
                assert(s@ =~= old(s)@ + seq![digit_char(7)]);
            }
        },
        8 => {
            s.append("8");
            proof {
                reveal_strlit("8");
                assert(s@ =~= old(s)@ + seq![digit_char(8)]);
            }
        },
        _ => {
            s.append("9");
            proof {
                reveal_strlit("9");
                assert(s@ =~= old(s)@ + seq![digit_char(9)]);
            }
        },
    }
}

/// Render a `u32` in decimal, as violation diagnostics do for numeric
/// fields.
pub fn u32_to_string(v: u32) -> (s: String)
    ensures
        s@ == dec_str(v as int),
    decreases v,
{
    if v < 10 {
        let mut s = String::new();
        append_digit(&mut s, v);
        proof {
            assert(s@ =~= dec_str(v as int));
        }
        s
    } else {
        let mut s = u32_to_string(v / 10);
        append_digit(&mut s, v % 10);
        proof {
            assert(s@ =~= dec_str(v as int));
        }
        s
    }
}

/// Compare `s[from..to]` against a literal, character by character.
pub fn region_matches(s: &str, from: usize, to: usize, lit: &str) -> (b: bool)
    requires
        from <= to <= s@.len(),
    ensures
        b == (s@.subrange(from as int, to as int) == lit@),
{
    let n = lit.unicode_len();
    if to - from != n {
        proof {
            assert(s@.subrange(from as int, to as int).len() != lit@.len());
        }
        return false;
    }
    let mut k: usize = 0;
    while k < n
        invariant
            k <= n,
            n == lit@.len(),
            from <= to <= s@.len(),
            to - from == n,
            forall|q: int| 0 <= q < k ==> s@[from + q] == lit@[q],
        decreases n - k,
    {
        let c1 = s.get_char(from + k);
        let c2 = lit.get_char(k);
        if c1 != c2 {
            proof {
                assert(s@.subrange(from as int, to as int)[k as int] != lit@[k as int]);
            }
            return false;
        }
        k = k + 1;
    }
    proof {
        assert(s@.subrange(from as int, to as int) =~= lit@);
    }
    true
}

} // verus!
