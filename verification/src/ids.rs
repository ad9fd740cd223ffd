//! Reach identifiers.
//!
//! The network database keys reaches by prefixed strings such as
//! `wb-4175`; the integer after the first dash is the canonical reach
//! id. Lateral-inflow files are named `cat-<id>.csv`. This module
//! parses and prints those forms.

use vstd::prelude::*;
use vstd::string::StrSliceExecFns;
use vstd::string::StringExecFns;

verus! {

/// The character for one decimal digit.
pub open spec fn digit_char(d: int) -> char {
    if d == 0 {
        '0'
    } else if d == 1 {
        '1'
    } else if d == 2 {
        '2'
    } else if d == 3 {
        '3'
    } else if d == 4 {
        '4'
    } else if d == 5 {
        '5'
    } else if d == 6 {
        '6'
    } else if d == 7 {
        '7'
    } else if d == 8 {
        '8'
    } else {
        '9'
    }
}

pub open spec fn is_dec_digit(c: char) -> bool {
    '0' <= c && c <= '9'
}

/// The numeric value of one decimal digit character.
pub open spec fn digit_val(c: char) -> int {
    c as int - '0' as int
}

pub open spec fn all_dec_digits(s: Seq<char>) -> bool {
    forall|k: int| 0 <= k < s.len() ==> is_dec_digit(#[trigger] s[k])
}

/// The value of a most-significant-first decimal digit string.
pub open spec fn dec_value(s: Seq<char>) -> int
    decreases s.len(),
{
    if s.len() == 0 {
        0
    } else {
        dec_value(s.drop_last()) * 10 + digit_val(s.last())
    }
}

/// The canonical decimal digit string of a number.
pub open spec fn dec_digits(n: int) -> Seq<char>
    decreases n,
{
    if n < 10 {
        seq![digit_char(n)]
    } else {
        dec_digits(n / 10).push(digit_char(n % 10))
    }
}

/// The position of the first `-` in `s` at or after `from`, or the
/// length of `s` when there is none.
pub open spec fn first_dash_from(s: Seq<char>, from: int) -> int
    decreases s.len() - from,
{
    if from < 0 || from >= s.len() {
        s.len() as int
    } else if s[from] == '-' {
        from
    } else {
        first_dash_from(s, from + 1)
    }
}

/// The reach id encoded in a database key: the segment between the
/// first dash and the following dash (or the end) must be a nonempty
/// decimal number that fits in a `u32`.
pub open spec fn spec_key_id(s: Seq<char>) -> Option<u32> {
    let i = first_dash_from(s, 0);
    if i >= s.len() {
        None
    } else {
        let seg = s.subrange(i + 1, first_dash_from(s, i + 1));
        if seg.len() > 0 && all_dec_digits(seg) && dec_value(seg) <= u32::MAX {
            Some(dec_value(seg) as u32)
        } else {
            None
        }
    }
}

proof fn lemma_first_dash_from(s: Seq<char>, from: int, k: int)
    requires
        0 <= from <= k <= s.len(),
        forall|m: int| from <= m < k ==> s[m] != '-',
        k == s.len() || s[k] == '-',
    ensures
        first_dash_from(s, from) == k,
    decreases k - from,
{
    if from < s.len() && s[from] != '-' {
        lemma_first_dash_from(s, from + 1, k);
    }
}

/// Extending an all-digit string cannot shrink its value.
proof fn lemma_dec_value_prefix(s: Seq<char>, k: int)
    requires
        0 <= k <= s.len(),
        all_dec_digits(s),
    ensures
        dec_value(s) >= dec_value(s.subrange(0, k)),
        dec_value(s) >= 0,
    decreases s.len() - k,
{
    if k == s.len() {
        assert(s.subrange(0, k) =~= s);
        lemma_dec_value_nonneg(s);
    } else {
        lemma_dec_value_prefix(s, k + 1);
        let t = s.subrange(0, k + 1);
        assert(t.drop_last() =~= s.subrange(0, k));
        lemma_dec_value_nonneg(s.subrange(0, k));
    }
}

proof fn lemma_dec_value_nonneg(s: Seq<char>)
    requires
        all_dec_digits(s),
    ensures
        dec_value(s) >= 0,
    decreases s.len(),
{
    if s.len() > 0 {
        assert(all_dec_digits(s.drop_last()));
        lemma_dec_value_nonneg(s.drop_last());
    }
}

/// Parse the integer reach id out of a prefixed database key such as
/// `wb-4175`. Returns `None` when the key has no dash, the segment
/// after the first dash is empty or not all digits, or the number does
/// not fit in a `u32`.
pub fn parse_reach_key(s: &str) -> (r: Option<u32>)
    ensures
        r == spec_key_id(s@),
{
    let len = s.unicode_len();
    let ghost sv = s@;

    // Find the first dash.
    let mut i: usize = 0;
    while i < len && s.get_char(i) != '-'
        invariant
            0 <= i <= len,
            len == sv.len(),
            s@ == sv,
            forall|m: int| 0 <= m < i ==> sv[m] != '-',
        decreases len - i,
    {
        i += 1;
    }
    proof {
        lemma_first_dash_from(sv, 0, i as int);
    }
    if i >= len {
        return None;
    }

    // Find the dash that ends the id segment.
    let mut j: usize = i + 1;
    while j < len && s.get_char(j) != '-'
        invariant
            i + 1 <= j <= len,
            len == sv.len(),
            s@ == sv,
            forall|m: int| i + 1 <= m < j ==> sv[m] != '-',
        decreases len - j,
    {
        j += 1;
    }
    proof {
        lemma_first_dash_from(sv, i as int + 1, j as int);
    }
    let ghost seg = sv.subrange(i as int + 1, j as int);
    if j == i + 1 {
        return None;
    }

    // Accumulate the decimal value of the segment.
    let mut acc: u32 = 0;
    let mut k: usize = i + 1;
    while k < j
        invariant
            i + 1 <= k <= j <= len,
            i < len,
            len == sv.len(),
            s@ == sv,
            first_dash_from(sv, 0) == i as int,
            first_dash_from(sv, i as int + 1) == j as int,
            seg == sv.subrange(i as int + 1, j as int),
            seg.len() > 0,
            all_dec_digits(sv.subrange(i as int + 1, k as int)),
            acc == dec_value(sv.subrange(i as int + 1, k as int)),
        decreases j - k,
    {
        let c = s.get_char(k);
        if c < '0' || c > '9' {
            proof {
                assert(seg[k - i - 1] == sv[k as int]);
                assert(!is_dec_digit(c));
                assert(!all_dec_digits(seg));
            }
            return None;
        }
        let d: u32 = (c as u32) - ('0' as u32);
        if acc > (u32::MAX - d) / 10 {
            proof {
                let pre = sv.subrange(i as int + 1, k as int + 1);
                assert(pre.drop_last() =~= sv.subrange(i as int + 1, k as int));
                assert(pre.last() == c);
                assert(digit_val(c) == d);
                assert(dec_value(pre) == acc * 10 + d);
                assert(acc * 10 + d > u32::MAX) by (nonlinear_arith)
                    requires
                        acc > (u32::MAX - d) / 10,
                        d <= 9,
                ;
                if all_dec_digits(seg) {
                    lemma_dec_value_prefix(seg, k + 1 - (i + 1));
                    assert(pre =~= seg.subrange(0, k + 1 - (i + 1)));
                }
            }
            return None;
        }
        proof {
            let pre = sv.subrange(i as int + 1, k as int + 1);
            assert(pre.drop_last() =~= sv.subrange(i as int + 1, k as int));
            assert(pre.last() == c);
        }
        acc = acc * 10 + d;
        k += 1;
    }
    proof {
        assert(sv.subrange(i as int + 1, k as int) =~= seg);
    }
    Some(acc)
}

/// Append the decimal digits of `n` to `out`.
fn push_decimal(out: &mut String, n: u32)
    ensures
        final(out)@ == old(out)@ + dec_digits(n as int),
    decreases n,
{
    if n >= 10 {
        push_decimal(out, n / 10);
    }
    let d = n % 10;
    if d == 0 {
        out.append("0");
    } else if d == 1 {
        out.append("1");
    } else if d == 2 {
        out.append("2");
    } else if d == 3 {
        out.append("3");
    } else if d == 4 {
        out.append("4");
    } else if d == 5 {
        out.append("5");
    } else if d == 6 {
        out.append("6");
    } else if d == 7 {
        out.append("7");
    } else if d == 8 {
        out.append("8");
    } else {
        out.append("9");
    }
    proof {
        reveal_strlit("0");
        reveal_strlit("1");
        reveal_strlit("2");
        reveal_strlit("3");
        reveal_strlit("4");
        reveal_strlit("5");
        reveal_strlit("6");
        reveal_strlit("7");
        reveal_strlit("8");
        reveal_strlit("9");
        if n < 10 {
            assert(dec_digits(n as int) =~= seq![digit_char(n as int)]);
        } else {
            assert(dec_digits(n as int) =~= dec_digits(n as int / 10).push(
                digit_char(n as int % 10),
            ));
        }
    }
}

/// The database key of a reach: `wb-` followed by the decimal id.
pub fn reach_key(id: u32) -> (r: String)
    ensures
        r@ == "wb-"@ + dec_digits(id as int),
{
    let mut out = "wb-".to_owned();
    push_decimal(&mut out, id);
    out
}

/// The lateral-inflow file name of a reach: `cat-<id>.csv`.
pub fn qlat_file_name(id: u32) -> (r: String)
    ensures
        r@ == "cat-"@ + dec_digits(id as int) + ".csv"@,
{
    let mut out = "cat-".to_owned();
    push_decimal(&mut out, id);
    out.append(".csv");
    out
}

} // verus!
