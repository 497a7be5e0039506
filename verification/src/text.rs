//! Character classes and unsigned integer parsing for `numa_maps` tokens.

use vstd::prelude::*;

verus! {

/// The whitespace characters that separate the tokens of a line.
pub open spec fn is_space(c: char) -> bool {
    c == ' ' || c == '\t' || c == '\n' || c == '\r' || c == '\x0b' || c == '\x0c'
}

/// A decimal digit `0` through `9`.
pub open spec fn is_dec_digit(c: char) -> bool {
    '0' <= c && c <= '9'
}

/// The numeric value of a decimal digit.
pub open spec fn dec_digit_val(c: char) -> nat
    recommends
        is_dec_digit(c),
{
    (c as int - '0' as int) as nat
}

/// Every character of `s` is a decimal digit.
pub open spec fn all_dec_digits(s: Seq<char>) -> bool {
    forall|i: int| 0 <= i < s.len() ==> is_dec_digit(#[trigger] s[i])
}

/// The value of `s` read as a base-10 numeral.
pub open spec fn dec_value(s: Seq<char>) -> nat
    recommends
        all_dec_digits(s),
    decreases s.len(),
{
    if s.len() == 0 {
        0
    } else {
        dec_value(s.drop_last()) * 10 + dec_digit_val(s.last())
    }
}

/// A hexadecimal digit, either case.
pub open spec fn is_hex_digit(c: char) -> bool {
    ('0' <= c && c <= '9') || ('a' <= c && c <= 'f') || ('A' <= c && c <= 'F')
}

/// The numeric value of a hexadecimal digit.
pub open spec fn hex_digit_val(c: char) -> nat
    recommends
        is_hex_digit(c),
{
    if '0' <= c && c <= '9' {
        (c as int - '0' as int) as nat
    } else if 'a' <= c && c <= 'f' {
        (c as int - 'a' as int + 10) as nat
    } else {
        (c as int - 'A' as int + 10) as nat
    }
}

/// Every character of `s` is a hexadecimal digit.
pub open spec fn all_hex_digits(s: Seq<char>) -> bool {
    forall|i: int| 0 <= i < s.len() ==> is_hex_digit(#[trigger] s[i])
}

/// The value of `s` read as a base-16 numeral.
pub open spec fn hex_value(s: Seq<char>) -> nat
    recommends
        all_hex_digits(s),
    decreases s.len(),
{
    if s.len() == 0 {
        0
    } else {
        hex_value(s.drop_last()) * 16 + hex_digit_val(s.last())
    }
}

/// A prefix of a numeral never has a larger value than the numeral itself.
proof fn lemma_dec_value_take_le(s: Seq<char>, i: int)
    requires
        0 <= i <= s.len(),
    ensures
        dec_value(s.take(i)) <= dec_value(s),
    decreases s.len() - i,
{
    if i == s.len() {
        assert(s.take(i) =~= s);
    } else {
        assert(s.take(i + 1).drop_last() =~= s.take(i));
        assert(dec_value(s.take(i)) <= dec_value(s.take(i + 1))) by {
            assert(dec_value(s.take(i + 1)) == dec_value(s.take(i)) * 10 + dec_digit_val(
                s.take(i + 1).last(),
            ));
            assert(dec_value(s.take(i)) * 10 >= dec_value(s.take(i))) by (nonlinear_arith);
        }
        lemma_dec_value_take_le(s, i + 1);
    }
}

/// A prefix of a hex numeral never has a larger value than the numeral itself.
proof fn lemma_hex_value_take_le(s: Seq<char>, i: int)
    requires
        0 <= i <= s.len(),
    ensures
        hex_value(s.take(i)) <= hex_value(s),
    decreases s.len() - i,
{
    if i == s.len() {
        assert(s.take(i) =~= s);
    } else {
        assert(s.take(i + 1).drop_last() =~= s.take(i));
        assert(hex_value(s.take(i)) <= hex_value(s.take(i + 1))) by {
            assert(hex_value(s.take(i + 1)) == hex_value(s.take(i)) * 16 + hex_digit_val(
                s.take(i + 1).last(),
            ));
            assert(hex_value(s.take(i)) * 16 >= hex_value(s.take(i))) by (nonlinear_arith);
        }
        lemma_hex_value_take_le(s, i + 1);
    }
}

/// Length of the leading run of non-whitespace characters of `s`.
pub open spec fn run_len(s: Seq<char>) -> nat
    decreases s.len(),
{
    if s.len() == 0 || is_space(s[0]) {
        0
    } else {
        1 + run_len(s.skip(1))
    }
}

/// What `run_len` returns: the first `run_len(s)` characters are not
/// whitespace, and the run ends at the end of `s` or at a whitespace
/// character.
proof fn lemma_run_len(s: Seq<char>)
    ensures
        run_len(s) <= s.len(),
        forall|i: int| 0 <= i < run_len(s) ==> !is_space(#[trigger] s[i]),
        run_len(s) < s.len() ==> is_space(s[run_len(s) as int]),
    decreases s.len(),
{
    if s.len() == 0 || is_space(s[0]) {
    } else {
        lemma_run_len(s.skip(1));
        assert forall|i: int| 0 <= i < run_len(s) implies !is_space(#[trigger] s[i]) by {
            if i > 0 {
                assert(s[i] == s.skip(1)[i - 1]);
            }
        }
        if run_len(s) < s.len() {
            assert(s[run_len(s) as int] == s.skip(1)[run_len(s.skip(1)) as int]);
        }
    }
}

/// Any position with the properties of `lemma_run_len` is `run_len(s)`.
proof fn lemma_run_len_is(s: Seq<char>, k: int)
    requires
        0 <= k <= s.len(),
        forall|i: int| 0 <= i < k ==> !is_space(#[trigger] s[i]),
        k < s.len() ==> is_space(s[k]),
    ensures
        run_len(s) == k,
    decreases s.len(),
{
    if s.len() == 0 {
    } else if is_space(s[0]) {
        assert(k == 0);
    } else {
        assert(k >= 1);
        assert forall|i: int| 0 <= i < k - 1 implies !is_space(#[trigger] s.skip(1)[i]) by {
            assert(s.skip(1)[i] == s[i + 1]);
        }
        if k - 1 < s.skip(1).len() {
            assert(s.skip(1)[k - 1] == s[k]);
        }
        lemma_run_len_is(s.skip(1), k - 1);
    }
}

/// The whitespace-separated tokens of `s`, in order: the maximal runs of
/// non-whitespace characters.
pub open spec fn tokens_of(s: Seq<char>) -> Seq<Seq<char>>
    decreases s.len(),
    via tokens_of_decreases
{
    if s.len() == 0 {
        Seq::empty()
    } else if is_space(s[0]) {
        tokens_of(s.skip(1))
    } else {
        let k = 1 + run_len(s.skip(1));
        seq![s.take(k as int)] + tokens_of(s.skip(k as int))
    }
}

#[via_fn]
proof fn tokens_of_decreases(s: Seq<char>) {
    if s.len() != 0 && !is_space(s[0]) {
        lemma_run_len(s.skip(1));
    }
}

/// Whether `c` separates tokens.
fn space(c: char) -> (b: bool)
    ensures
        b == is_space(c),
{
    c == ' ' || c == '\t' || c == '\n' || c == '\r' || c == '\x0b' || c == '\x0c'
}

/// Whether the character of `s` at position `i` separates tokens.
fn space_at(s: &str, i: usize) -> (b: bool)
    requires
        i < s@.len(),
    ensures
        b == is_space(s@[i as int]),
{
    space(s.get_char(i))
}

/// The view of each string in a sequence of strings.
pub open spec fn views_of(ts: Seq<String>) -> Seq<Seq<char>> {
    ts.map_values(|t: String| t@)
}

/// Splits `line` into its whitespace-separated tokens.
pub fn tokenize(line: &str) -> (r: Vec<String>)
    ensures
        views_of(r@) == tokens_of(line@),
{
    let n = line.unicode_len();
    let mut r: Vec<String> = Vec::new();
    let mut i: usize = 0;
    proof {
        assert(line@.skip(0) =~= line@);
        assert(views_of(r@) + tokens_of(line@) =~~= tokens_of(line@));
    }
    while i < n
        invariant
            i <= n == line@.len(),
            tokens_of(line@) == views_of(r@) + tokens_of(line@.skip(i as int)),
        decreases n - i,
    {
        let c = line.get_char(i);
        if space(c) {
            proof {
                assert(line@.skip(i as int).skip(1) =~= line@.skip(i + 1));
                assert(views_of(r@) + tokens_of(line@.skip(i as int)) =~~= views_of(r@)
                    + tokens_of(line@.skip(i + 1)));
            }
            i += 1;
        } else {
            let start = i;
            let mut j = i + 1;
            while j < n && !space_at(line, j)
                invariant
                    start < j <= n == line@.len(),
                    forall|m: int| start <= m < j ==> !is_space(#[trigger] line@[m]),
                decreases n - j,
            {
                j += 1;
            }
            let rest = Ghost(line@.skip(start as int));
            proof {
                assert forall|m: int| 0 <= m < j - start implies !is_space(
                    #[trigger] rest@[m],
                ) by {
                    assert(rest@[m] == line@[start + m]);
                }
                if j - start < rest@.len() {
                    assert(rest@[j - start] == line@[j as int]);
                }
                lemma_run_len_is(rest@, j - start);
            }
            let tok = line.substring_char(start, j).to_owned();
            proof {
                assert(tok@ =~= rest@.take(j - start));
                assert(rest@.skip(j - start) =~= line@.skip(j as int));
                assert(tokens_of(line@.skip(start as int)) == seq![tok@] + tokens_of(
                    line@.skip(j as int),
                ));
                assert(views_of(r@.push(tok)) =~= views_of(r@).push(tok@));
                assert(views_of(r@.push(tok)) + tokens_of(line@.skip(j as int)) =~~= views_of(r@)
                    + tokens_of(line@.skip(start as int)));
            }
            r.push(tok);
            i = j;
        }
    }
    proof {
        assert(line@.skip(n as int) =~= Seq::<char>::empty());
        assert(views_of(r@) =~~= views_of(r@) + tokens_of(line@.skip(n as int)));
    }
    r
}

/// Character-for-character equality of two string slices.
pub fn str_eq(a: &str, b: &str) -> (r: bool)
    ensures
        r == (a@ == b@),
{
    let na = a.unicode_len();
    let nb = b.unicode_len();
    if na != nb {
        return false;
    }
    let mut i: usize = 0;
    while i < na
        invariant
            i <= na == a@.len(),
            na == nb == b@.len(),
            forall|j: int| 0 <= j < i ==> a@[j] == b@[j],
        decreases na - i,
    {
        if a.get_char(i) != b.get_char(i) {
            return false;
        }
        i += 1;
    }
    proof {
        assert(a@ =~= b@);
    }
    true
}

/// Parses `s` as an unsigned base-10 integer: the whole string must consist
/// of decimal digits, be non-empty, and denote a value that fits in `usize`.
pub fn parse_dec_usize(s: &str) -> (r: Option<usize>)
    ensures
        r is Some <==> s@.len() > 0 && all_dec_digits(s@) && dec_value(s@) <= usize::MAX,
        r matches Some(v) ==> v == dec_value(s@),
{
    let n = s.unicode_len();
    if n == 0 {
        return None;
    }
    let mut acc: usize = 0;
    let mut i: usize = 0;
    while i < n
        invariant
            0 < n == s@.len(),
            i <= n,
            all_dec_digits(s@.take(i as int)),
            acc == dec_value(s@.take(i as int)),
        decreases n - i,
    {
        let c = s.get_char(i);
        if !(c >= '0' && c <= '9') {
            assert(!is_dec_digit(s@[i as int]));
            return None;
        }
        let d: usize = (c as u32 - '0' as u32) as usize;
        proof {
            assert(s@.take(i + 1).drop_last() =~= s@.take(i as int));
            assert(s@.take(i + 1).last() == s@[i as int]);
            assert(d == dec_digit_val(s@[i as int]));
        }
        let scaled = match acc.checked_mul(10) {
            Some(x) => x,
            None => {
                proof {
                    assert(dec_value(s@.take(i + 1)) > usize::MAX) by (nonlinear_arith)
                        requires
                            dec_value(s@.take(i + 1)) == acc * 10 + dec_digit_val(s@[i as int]),
                            acc * 10 > usize::MAX,
                    ;
                    lemma_dec_value_take_le(s@, i + 1);
                }
                return None;
            },
        };
        acc = match scaled.checked_add(d) {
            Some(x) => x,
            None => {
                proof {
                    lemma_dec_value_take_le(s@, i + 1);
                }
                return None;
            },
        };
        i += 1;
    }
    proof {
        assert(s@.take(n as int) =~= s@);
    }
    Some(acc)
}

/// Parses `s` as an unsigned base-16 integer: the whole string must consist
/// of hexadecimal digits, be non-empty, and denote a value that fits in `usize`.
pub fn parse_hex_usize(s: &str) -> (r: Option<usize>)
    ensures
        r is Some <==> s@.len() > 0 && all_hex_digits(s@) && hex_value(s@) <= usize::MAX,
        r matches Some(v) ==> v == hex_value(s@),
{
    let n = s.unicode_len();
    if n == 0 {
        return None;
    }
    let mut acc: usize = 0;
    let mut i: usize = 0;
    while i < n
        invariant
            0 < n == s@.len(),
            i <= n,
            all_hex_digits(s@.take(i as int)),
            acc == hex_value(s@.take(i as int)),
        decreases n - i,
    {
        let c = s.get_char(i);
        let d: usize = if c >= '0' && c <= '9' {
            (c as u32 - '0' as u32) as usize
        } else if c >= 'a' && c <= 'f' {
            (c as u32 - 'a' as u32 + 10) as usize
        } else if c >= 'A' && c <= 'F' {
            (c as u32 - 'A' as u32 + 10) as usize
        } else {
            assert(!is_hex_digit(s@[i as int]));
            return None;
        };
        proof {
            assert(s@.take(i + 1).drop_last() =~= s@.take(i as int));
            assert(s@.take(i + 1).last() == s@[i as int]);
            assert(d == hex_digit_val(s@[i as int]));
        }
        let scaled = match acc.checked_mul(16) {
            Some(x) => x,
            None => {
                proof {
                    assert(hex_value(s@.take(i + 1)) > usize::MAX) by (nonlinear_arith)
                        requires
                            hex_value(s@.take(i + 1)) == acc * 16 + hex_digit_val(s@[i as int]),
                            acc * 16 > usize::MAX,
                    ;
                    lemma_hex_value_take_le(s@, i + 1);
                }
                return None;
            },
        };
        acc = match scaled.checked_add(d) {
            Some(x) => x,
            None => {
                proof {
                    lemma_hex_value_take_le(s@, i + 1);
                }
                return None;
            },
        };
        i += 1;
    }
    proof {
        assert(s@.take(n as int) =~= s@);
    }
    Some(acc)
}

} // verus!
