//! Decimal text for integers: the writer's formatting of signed and
//! unsigned values, the parser's reading of them, and the proof that the
//! two are inverse to each other.

use crate::bytes::{digit_pred, is_digit, is_sign, run_end};
use vstd::prelude::*;

verus! {

/// Decimal digits of `n`, most significant first, no sign and no padding.
pub open spec fn dec_digits(n: nat) -> Seq<u8>
    decreases n,
{
    if n < 10 {
        seq![(0x30 + n) as u8]
    } else {
        dec_digits(n / 10).push((0x30 + n % 10) as u8)
    }
}

/// Decimal text of an integer: a `-` sign for negative values, then digits.
pub open spec fn spec_dec_int(v: int) -> Seq<u8> {
    if v < 0 {
        seq![0x2du8] + dec_digits((-v) as nat)
    } else {
        dec_digits(v as nat)
    }
}

/// The number denoted by a digit sequence, most significant first.
pub open spec fn digits_val(ds: Seq<u8>) -> nat
    decreases ds.len(),
{
    if ds.len() == 0 {
        0
    } else {
        digits_val(ds.drop_last()) * 10 + (ds.last() - 0x30) as nat
    }
}

pub open spec fn all_digits(ds: Seq<u8>) -> bool {
    forall|i: int| 0 <= i < ds.len() ==> is_digit(#[trigger] ds[i])
}

/// The integer denoted by an optionally signed, all-digit token; `None`
/// where the token does not have that shape.  This is the unbounded value;
/// the bounded readers below add their range checks.
pub open spec fn spec_parse_int_text(s: Seq<u8>) -> Option<int> {
    if s.len() == 0 {
        None
    } else {
        let ds = if is_sign(s[0]) {
            s.skip(1)
        } else {
            s
        };
        if ds.len() >= 1 && all_digits(ds) {
            if s[0] == 0x2du8 {
                Some(-(digits_val(ds) as int))
            } else {
                Some(digits_val(ds) as int)
            }
        } else {
            None
        }
    }
}

/// A whole token read as a 64-bit signed integer; out-of-range values fail.
pub open spec fn spec_parse_i64(s: Seq<u8>) -> Option<i64> {
    match spec_parse_int_text(s) {
        Some(v) => if i64::MIN <= v <= i64::MAX {
            Some(v as i64)
        } else {
            None
        },
        None => None,
    }
}

/// A whole token read as an unsigned machine integer; a `-` sign fails.
pub open spec fn spec_parse_usize(s: Seq<u8>) -> Option<usize> {
    if s.len() >= 1 && s[0] == 0x2du8 {
        None
    } else {
        match spec_parse_int_text(s) {
            Some(v) => if v <= usize::MAX {
                Some(v as usize)
            } else {
                None
            },
            None => None,
        }
    }
}

pub proof fn lemma_dec_digits(n: nat)
    ensures
        dec_digits(n).len() >= 1,
        all_digits(dec_digits(n)),
        digits_val(dec_digits(n)) == n,
        is_digit(dec_digits(n)[0]),
    decreases n,
{
    if n < 10 {
        let ds = dec_digits(n);
        assert(ds.drop_last() =~= Seq::<u8>::empty());
        assert(digits_val(ds.drop_last()) == 0);
        assert(ds.last() == (0x30 + n) as u8);
        assert((0x30 + n) as u8 == 0x30 + n);
        assert(digits_val(ds) == digits_val(ds.drop_last()) * 10 + (ds.last() - 0x30) as nat);
        assert(digits_val(ds) == n);
    } else {
        lemma_dec_digits(n / 10);
        let hi = dec_digits(n / 10);
        let c = (0x30 + n % 10) as u8;
        let ds = hi.push(c);
        assert(ds.drop_last() =~= hi);
        assert(ds.last() == c);
        assert(digits_val(ds) == (n / 10) * 10 + n % 10);
        assert((n / 10) * 10 + n % 10 == n) by (nonlinear_arith);
        assert forall|i: int| 0 <= i < ds.len() implies is_digit(#[trigger] ds[i]) by {
            if i < hi.len() {
                assert(ds[i] == hi[i]);
            }
        }
        assert(ds[0] == hi[0]);
    }
}

/// The value of a digit prefix never exceeds the value of the whole.
pub proof fn lemma_digits_val_prefix(ds: Seq<u8>, k: int)
    requires
        0 <= k <= ds.len(),
    ensures
        digits_val(ds.take(k)) <= digits_val(ds),
    decreases ds.len(),
{
    if k == ds.len() {
        assert(ds.take(k) =~= ds);
    } else {
        let head = ds.drop_last();
        lemma_digits_val_prefix(head, k);
        assert(ds.take(k) =~= head.take(k));
        assert(digits_val(ds) == digits_val(head) * 10 + (ds.last() - 0x30) as nat);
        assert(digits_val(head) * 10 >= digits_val(head));
    }
}

/// Reading back the decimal text of an integer yields the integer.
pub proof fn lemma_parse_dec_int(v: int)
    ensures
        spec_parse_int_text(spec_dec_int(v)) == Some(v),
        spec_dec_int(v).len() >= 1,
    decreases (if v < 0 { 1int } else { 0int }),
{
    if v < 0 {
        lemma_dec_digits((-v) as nat);
        let s = spec_dec_int(v);
        assert(s[0] == 0x2du8);
        assert(is_sign(s[0]));
        assert(s.skip(1) =~= dec_digits((-v) as nat));
    } else {
        lemma_dec_digits(v as nat);
        let s = spec_dec_int(v);
        assert(s == dec_digits(v as nat));
        assert(is_digit(s[0]));
        assert(!is_sign(s[0]));
        assert(s[0] != 0x2du8);
    }
}

/// Reading back the decimal digits of an unsigned machine integer yields
/// the integer.
pub proof fn lemma_parse_dec_usize(v: usize)
    ensures
        spec_parse_usize(dec_digits(v as nat)) == Some(v),
{
    lemma_dec_digits(v as nat);
    let s = dec_digits(v as nat);
    assert(is_digit(s[0]));
    assert(s[0] != 0x2du8);
    assert(!is_sign(s[0]));
}

/// Every byte of decimal text is a digit, except a leading `-` sign.
pub proof fn lemma_dec_int_bytes(v: int)
    ensures
        forall|i: int|
            0 <= i < spec_dec_int(v).len() ==> is_digit(#[trigger] spec_dec_int(v)[i]) || (i == 0
                && spec_dec_int(v)[i] == 0x2du8),
{
    let s = spec_dec_int(v);
    if v < 0 {
        lemma_dec_digits((-v) as nat);
        assert forall|i: int| 0 <= i < s.len() implies is_digit(#[trigger] s[i]) || (i == 0 && s[i]
            == 0x2du8) by {
            if i > 0 {
                assert(s[i] == dec_digits((-v) as nat)[i - 1]);
            }
        }
    } else {
        lemma_dec_digits(v as nat);
    }
}

/// Appends the decimal digits of `n` to `out`.
pub fn push_dec_u64(n: u64, out: &mut Vec<u8>)
    ensures
        final(out)@ == old(out)@ + dec_digits(n as nat),
    decreases n,
{
    if n < 10 {
        out.push((n as u8) + 0x30);
        proof {
            assert(final(out)@ =~= old(out)@ + dec_digits(n as nat));
        }
    } else {
        push_dec_u64(n / 10, out);
        out.push(((n % 10) as u8) + 0x30);
        proof {
            assert(final(out)@ =~= old(out)@ + dec_digits(n as nat));
        }
    }
}

/// Appends the decimal text of `v`, with a `-` sign when negative.
pub fn push_dec_i64(v: i64, out: &mut Vec<u8>)
    ensures
        final(out)@ == old(out)@ + spec_dec_int(v as int),
{
    if v < 0 {
        out.push(0x2d);
        let mag: u64 = if v == i64::MIN {
            0x8000_0000_0000_0000u64
        } else {
            (-v) as u64
        };
        push_dec_u64(mag, out);
        proof {
            assert(final(out)@ =~= old(out)@ + spec_dec_int(v as int));
        }
    } else {
        push_dec_u64(v as u64, out);
    }
}

/// Appends the decimal digits of the unsigned machine integer `n`.
pub fn push_dec_usize(n: usize, out: &mut Vec<u8>)
    ensures
        final(out)@ == old(out)@ + dec_digits(n as nat),
{
    push_dec_u64(n as u64, out);
}

/// Reads the all-digit tail `s[start..]` as a number, up to `bound`.
fn parse_mag(s: &[u8], start: usize, bound: u128) -> (r: Option<u128>)
    requires
        start < s@.len(),
        bound <= 0xffff_ffff_ffff_ffff_ffffu128,
    ensures
        ({
            let ds = s@.skip(start as int);
            match r {
                Some(a) => all_digits(ds) && a == digits_val(ds) && a <= bound,
                None => !all_digits(ds) || digits_val(ds) > bound,
            }
        }),
{
    let ghost ds = s@.skip(start as int);
    let mut acc: u128 = 0;
    let mut i: usize = start;
    while i < s.len()
        invariant
            start <= i <= s@.len(),
            start < s@.len(),
            bound <= 0xffff_ffff_ffff_ffff_ffffu128,
            ds == s@.skip(start as int),
            acc == digits_val(s@.subrange(start as int, i as int)),
            all_digits(s@.subrange(start as int, i as int)),
            acc <= bound,
        decreases s@.len() - i,
    {
        let b = s[i];
        let ghost pre = s@.subrange(start as int, i as int);
        if b < 0x30 || b > 0x39 {
            proof {
                assert(ds[i - start] == s@[i as int]);
                assert(!is_digit(ds[i - start]));
            }
            return None;
        }
        acc = acc * 10 + (b - 0x30) as u128;
        proof {
            let cur = s@.subrange(start as int, i as int + 1);
            assert(cur.drop_last() =~= pre);
            assert(cur.last() == s@[i as int]);
            assert(acc == digits_val(cur));
            assert forall|j: int| 0 <= j < cur.len() implies is_digit(#[trigger] cur[j]) by {
                if j < pre.len() {
                    assert(cur[j] == pre[j]);
                }
            }
        }
        if acc > bound {
            proof {
                let cur = s@.subrange(start as int, i as int + 1);
                if all_digits(ds) {
                    assert(cur =~= ds.take(i + 1 - start));
                    lemma_digits_val_prefix(ds, i + 1 - start);
                }
            }
            return None;
        }
        i = i + 1;
    }
    proof {
        assert(s@.subrange(start as int, s@.len() as int) =~= ds);
    }
    Some(acc)
}

/// Reads a whole token as a 64-bit signed integer, as `spec_parse_i64`.
pub fn parse_i64_text(s: &[u8]) -> (r: Option<i64>)
    ensures
        r == spec_parse_i64(s@),
{
    if s.len() == 0 {
        return None;
    }
    let b0 = s[0];
    let neg = b0 == 0x2d;
    let start: usize = if b0 == 0x2d || b0 == 0x2b {
        1
    } else {
        0
    };
    if s.len() <= start {
        proof {
            assert(s@.skip(1).len() == 0);
        }
        return None;
    }
    let bound: u128 = if neg {
        0x8000_0000_0000_0000u128
    } else {
        0x7fff_ffff_ffff_ffffu128
    };
    let ghost ds = if is_sign(s@[0]) {
        s@.skip(1)
    } else {
        s@
    };
    proof {
        if start == 0 {
            assert(s@.skip(0) =~= s@);
        }
    }
    match parse_mag(s, start, bound) {
        Some(acc) => {
            proof {
                assert(s@.skip(start as int) == ds);
            }
            if neg {
                if acc == 0x8000_0000_0000_0000u128 {
                    Some(i64::MIN)
                } else {
                    Some(-((acc as u64) as i64))
                }
            } else {
                Some((acc as u64) as i64)
            }
        },
        None => {
            proof {
                assert(s@.skip(start as int) == ds);
                if all_digits(ds) && ds.len() >= 1 {
                    assert(digits_val(ds) > bound);
                }
            }
            None
        },
    }
}

/// Reads a whole token as an unsigned machine integer, as `spec_parse_usize`.
pub fn parse_usize_text(s: &[u8]) -> (r: Option<usize>)
    ensures
        r == spec_parse_usize(s@),
{
    if s.len() == 0 {
        return None;
    }
    let b0 = s[0];
    if b0 == 0x2d {
        return None;
    }
    let start: usize = if b0 == 0x2b {
        1
    } else {
        0
    };
    if s.len() <= start {
        proof {
            assert(s@.skip(1).len() == 0);
        }
        return None;
    }
    let ghost ds = if is_sign(s@[0]) {
        s@.skip(1)
    } else {
        s@
    };
    proof {
        if start == 0 {
            assert(s@.skip(0) =~= s@);
        }
    }
    match parse_mag(s, start, usize::MAX as u128) {
        Some(acc) => {
            proof {
                assert(s@.skip(start as int) == ds);
            }
            Some(acc as usize)
        },
        None => {
            proof {
                assert(s@.skip(start as int) == ds);
                if all_digits(ds) && ds.len() >= 1 {
                    assert(digits_val(ds) > usize::MAX);
                }
            }
            None
        },
    }
}

/// Where the leftmost integer lexeme (optional sign, then digits) begins.
pub open spec fn int_match_at(s: Seq<u8>, i: int) -> bool
    recommends
        0 <= i < s.len(),
{
    is_digit(s[i]) || (is_sign(s[i]) && i + 1 < s.len() && is_digit(s[i + 1]))
}

pub open spec fn find_int_start(s: Seq<u8>, i: int) -> Option<int>
    decreases s.len() - i,
    when 0 <= i <= s.len()
{
    if i >= s.len() {
        None
    } else if int_match_at(s, i) {
        Some(i)
    } else {
        find_int_start(s, i + 1)
    }
}

/// End of the integer lexeme that starts at `k`: the digit run, preceded
/// by the sign byte when one is present.
pub open spec fn int_match_end(s: Seq<u8>, k: int) -> int
    recommends
        0 <= k < s.len(),
        int_match_at(s, k),
{
    if is_digit(s[k]) {
        run_end(s, k, digit_pred())
    } else {
        run_end(s, k + 1, digit_pred())
    }
}

/// The leftmost integer lexeme of `s`, as a start/end byte range.
pub open spec fn spec_find_int(s: Seq<u8>) -> Option<(int, int)> {
    match find_int_start(s, 0) {
        Some(k) => Some((k, int_match_end(s, k))),
        None => None,
    }
}

/// Finds the leftmost integer lexeme, as `spec_find_int` describes.
pub fn find_int(s: &[u8]) -> (r: Option<(usize, usize)>)
    ensures
        r is Some <==> spec_find_int(s@) is Some,
        r matches Some((k, e)) ==> spec_find_int(s@) == Some((k as int, e as int)) && k <= e
            <= s@.len(),
{
    let mut i: usize = 0;
    while i < s.len()
        invariant
            0 <= i <= s@.len(),
            find_int_start(s@, 0) == find_int_start(s@, i as int),
        decreases s@.len() - i,
    {
        let b = s[i];
        let is_d = 0x30 <= b && b <= 0x39;
        let next_d = (b == 0x2b || b == 0x2d) && i + 1 < s.len() && {
            let c = s[i + 1];
            0x30 <= c && c <= 0x39
        };
        if is_d || next_d {
            assert(int_match_at(s@, i as int));
            let run_start: usize = if is_d {
                i
            } else {
                i + 1
            };
            let mut e: usize = run_start;
            while e < s.len() && 0x30 <= s[e] && s[e] <= 0x39
                invariant
                    run_start <= e <= s@.len(),
                    run_end(s@, run_start as int, digit_pred()) == run_end(
                        s@,
                        e as int,
                        digit_pred(),
                    ),
                decreases s@.len() - e,
            {
                e = e + 1;
            }
            proof {
                assert(run_end(s@, e as int, digit_pred()) == e);
                assert(int_match_end(s@, i as int) == e);
            }
            return Some((i, e));
        }
        proof {
            assert(!int_match_at(s@, i as int));
        }
        i = i + 1;
    }
    None
}

} // verus!
