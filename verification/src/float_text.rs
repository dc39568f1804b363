//! The lexical grammar of floating-point values in the text format: an
//! optional sign, a decimal core (`12`, `12.5` or `.5`), and an optional
//! exponent part.  The codec stores such values as their lexeme bytes and
//! never interprets them numerically, so the grammar below is the whole
//! story: matching is greedy, and a leftmost match is taken, as for the
//! other value patterns.

use crate::bytes::{digit_pred, is_digit, is_sign, run_end};
use vstd::prelude::*;

verus! {

/// End of the decimal core (`digits`, `digits.digits` or `.digits`)
/// starting at `j`, or `None` where no core starts there.
pub open spec fn float_core_end(s: Seq<u8>, j: int) -> Option<int>
    recommends
        0 <= j <= s.len(),
{
    let r1 = run_end(s, j, digit_pred());
    if r1 > j {
        if r1 < s.len() && s[r1] == 0x2eu8 && r1 + 1 < s.len() && is_digit(s[r1 + 1]) {
            Some(run_end(s, r1 + 1, digit_pred()))
        } else {
            Some(r1)
        }
    } else {
        if j < s.len() && s[j] == 0x2eu8 && j + 1 < s.len() && is_digit(s[j + 1]) {
            Some(run_end(s, j + 1, digit_pred()))
        } else {
            None
        }
    }
}

/// End of the optional exponent part (`e` or `E`, an optional sign, then
/// digits) whose candidate start is `k`; `k` itself where there is none.
pub open spec fn float_exp_end(s: Seq<u8>, k: int) -> int
    recommends
        0 <= k <= s.len(),
{
    if k < s.len() && (s[k] == 0x65u8 || s[k] == 0x45u8) {
        if k + 1 < s.len() && is_digit(s[k + 1]) {
            run_end(s, k + 1, digit_pred())
        } else if k + 2 < s.len() && is_sign(s[k + 1]) && is_digit(s[k + 2]) {
            run_end(s, k + 2, digit_pred())
        } else {
            k
        }
    } else {
        k
    }
}

/// End of the float lexeme starting at `i`, or `None` where none starts.
pub open spec fn float_match_end(s: Seq<u8>, i: int) -> Option<int>
    recommends
        0 <= i <= s.len(),
{
    if i < s.len() && is_sign(s[i]) {
        match float_core_end(s, i + 1) {
            Some(c) => Some(float_exp_end(s, c)),
            None => None,
        }
    } else {
        match float_core_end(s, i) {
            Some(c) => Some(float_exp_end(s, c)),
            None => None,
        }
    }
}

/// Start of the leftmost float lexeme at or after `i`.
pub open spec fn find_float_start(s: Seq<u8>, i: int) -> Option<int>
    decreases s.len() - i,
    when 0 <= i <= s.len()
{
    if i >= s.len() {
        None
    } else if float_match_end(s, i) is Some {
        Some(i)
    } else {
        find_float_start(s, i + 1)
    }
}

/// The leftmost float lexeme of `s`, as a start/end byte range.
pub open spec fn spec_find_float(s: Seq<u8>) -> Option<(int, int)> {
    match find_float_start(s, 0) {
        Some(k) => match float_match_end(s, k) {
            Some(e) => Some((k, e)),
            None => None,
        },
        None => None,
    }
}

/// A whole token that is exactly one float lexeme.  This is the
/// well-formedness condition of stored float values: such a token, written
/// out and matched again, is recovered in full.
pub open spec fn is_float_lexeme(t: Seq<u8>) -> bool {
    t.len() >= 1 && float_match_end(t, 0) == Some(t.len() as int)
}

/// A byte that can occur in a float lexeme.
pub open spec fn is_float_char(b: u8) -> bool {
    is_digit(b) || is_sign(b) || b == 0x2eu8 || b == 0x65u8 || b == 0x45u8
}

pub proof fn lemma_float_core_end(s: Seq<u8>, j: int)
    requires
        0 <= j <= s.len(),
    ensures
        match float_core_end(s, j) {
            Some(c) => j < c <= s.len() && forall|x: int| j <= x < c ==> is_float_char(s[x]),
            None => true,
        },
{
    crate::bytes::lemma_run_end(s, j, digit_pred());
    let r1 = run_end(s, j, digit_pred());
    if r1 > j {
        if r1 < s.len() && s[r1] == 0x2eu8 && r1 + 1 < s.len() && is_digit(s[r1 + 1]) {
            crate::bytes::lemma_run_end(s, r1 + 1, digit_pred());
        }
    } else {
        if j < s.len() && s[j] == 0x2eu8 && j + 1 < s.len() && is_digit(s[j + 1]) {
            crate::bytes::lemma_run_end(s, j + 1, digit_pred());
        }
    }
}

pub proof fn lemma_float_exp_end(s: Seq<u8>, k: int)
    requires
        0 <= k <= s.len(),
    ensures
        k <= float_exp_end(s, k) <= s.len(),
        forall|x: int| k <= x < float_exp_end(s, k) ==> is_float_char(s[x]),
{
    if k < s.len() && (s[k] == 0x65u8 || s[k] == 0x45u8) {
        if k + 1 < s.len() && is_digit(s[k + 1]) {
            crate::bytes::lemma_run_end(s, k + 1, digit_pred());
        } else if k + 2 < s.len() && is_sign(s[k + 1]) && is_digit(s[k + 2]) {
            crate::bytes::lemma_run_end(s, k + 2, digit_pred());
        }
    }
}

pub proof fn lemma_float_match_end(s: Seq<u8>, i: int)
    requires
        0 <= i <= s.len(),
    ensures
        match float_match_end(s, i) {
            Some(e) => i < e <= s.len() && forall|x: int| i <= x < e ==> is_float_char(s[x]),
            None => true,
        },
{
    if i < s.len() && is_sign(s[i]) {
        lemma_float_core_end(s, i + 1);
        match float_core_end(s, i + 1) {
            Some(c) => {
                lemma_float_exp_end(s, c);
            },
            None => {},
        }
    } else {
        lemma_float_core_end(s, i);
        match float_core_end(s, i) {
            Some(c) => {
                lemma_float_exp_end(s, c);
            },
            None => {},
        }
    }
}

/// Every byte of a well-formed float token is a float character; in
/// particular such tokens carry no tab and no comma.
pub proof fn lemma_float_lexeme_chars(t: Seq<u8>)
    requires
        is_float_lexeme(t),
    ensures
        forall|x: int| 0 <= x < t.len() ==> is_float_char(#[trigger] t[x]),
{
    lemma_float_match_end(t, 0);
}

/// A token that is exactly one float lexeme is found whole: the leftmost
/// match starts at its first byte and runs to its end.
pub proof fn lemma_find_float_whole(t: Seq<u8>)
    requires
        is_float_lexeme(t),
    ensures
        spec_find_float(t) == Some((0int, t.len() as int)),
{
    assert(find_float_start(t, 0) == Some(0int));
}

pub proof fn lemma_find_float_start(s: Seq<u8>, i: int)
    requires
        0 <= i <= s.len(),
    ensures
        match find_float_start(s, i) {
            Some(k) => i <= k < s.len() && float_match_end(s, k) is Some,
            None => true,
        },
    decreases s.len() - i,
{
    if i < s.len() && float_match_end(s, i) is None {
        lemma_find_float_start(s, i + 1);
    }
}

/// The core of a match, taken inside the matched range, is the same core.
proof fn lemma_float_core_subrange(s: Seq<u8>, k: int, e: int, j: int)
    requires
        0 <= k <= j <= e <= s.len(),
        float_core_end(s, j) is Some,
        float_core_end(s, j)->Some_0 <= e,
    ensures
        float_core_end(s.subrange(k, e), j - k) == Some(float_core_end(s, j)->Some_0 - k),
{
    let t = s.subrange(k, e);
    let c = float_core_end(s, j)->Some_0;
    crate::bytes::lemma_run_end(s, j, digit_pred());
    let r1 = run_end(s, j, digit_pred());
    if r1 > j {
        if r1 < s.len() && s[r1] == 0x2eu8 && r1 + 1 < s.len() && is_digit(s[r1 + 1]) {
            assert(c == run_end(s, r1 + 1, digit_pred()));
            crate::bytes::lemma_run_end(s, r1 + 1, digit_pred());
            assert(c >= r1 + 2);
            crate::bytes::lemma_run_end_subrange(s, k, e, j, digit_pred());
            let r1t = run_end(t, j - k, digit_pred());
            assert(r1t == r1 - k);
            assert(t[r1 - k] == s[r1]);
            assert(t[r1 + 1 - k] == s[r1 + 1]);
            crate::bytes::lemma_run_end_subrange(s, k, e, r1 + 1, digit_pred());
            assert(float_core_end(t, j - k) == Some(c - k));
        } else {
            assert(c == r1);
            crate::bytes::lemma_run_end_subrange(s, k, e, j, digit_pred());
            let r1t = run_end(t, j - k, digit_pred());
            assert(r1t == r1 - k);
            if r1t < t.len() && t[r1t] == 0x2eu8 && r1t + 1 < t.len() && is_digit(t[r1t + 1]) {
                assert(r1 < e);
                assert(t[r1t] == s[r1]);
                assert(r1 + 1 < e);
                assert(t[r1t + 1] == s[r1 + 1]);
                assert(false);
            }
            assert(float_core_end(t, j - k) == Some(c - k));
        }
    } else {
        assert(j < s.len() && s[j] == 0x2eu8 && j + 1 < s.len() && is_digit(s[j + 1]));
        assert(c == run_end(s, j + 1, digit_pred()));
        crate::bytes::lemma_run_end(s, j + 1, digit_pred());
        assert(c >= j + 2);
        assert(t[j - k] == s[j]);
        assert(t[j + 1 - k] == s[j + 1]);
        assert(run_end(t, j - k, digit_pred()) == j - k) by {
            assert(!is_digit(t[j - k]));
        }
        crate::bytes::lemma_run_end_subrange(s, k, e, j + 1, digit_pred());
        assert(float_core_end(t, j - k) == Some(c - k));
    }
}

/// The exponent of a match, taken inside the matched range, is the same.
proof fn lemma_float_exp_subrange(s: Seq<u8>, k: int, e: int, c: int)
    requires
        0 <= k <= c <= e <= s.len(),
        float_exp_end(s, c) == e,
    ensures
        float_exp_end(s.subrange(k, e), c - k) == e - k,
{
    let t = s.subrange(k, e);
    if c < s.len() && (s[c] == 0x65u8 || s[c] == 0x45u8) {
        if c + 1 < s.len() && is_digit(s[c + 1]) {
            assert(e == run_end(s, c + 1, digit_pred()));
            crate::bytes::lemma_run_end(s, c + 1, digit_pred());
            assert(e >= c + 2);
            assert(t[c - k] == s[c]);
            assert(t[c + 1 - k] == s[c + 1]);
            crate::bytes::lemma_run_end_subrange(s, k, e, c + 1, digit_pred());
            assert(float_exp_end(t, c - k) == e - k);
        } else if c + 2 < s.len() && is_sign(s[c + 1]) && is_digit(s[c + 2]) {
            assert(e == run_end(s, c + 2, digit_pred()));
            crate::bytes::lemma_run_end(s, c + 2, digit_pred());
            assert(e >= c + 3);
            assert(t[c - k] == s[c]);
            assert(t[c + 1 - k] == s[c + 1]);
            assert(t[c + 2 - k] == s[c + 2]);
            crate::bytes::lemma_run_end_subrange(s, k, e, c + 2, digit_pred());
            assert(float_exp_end(t, c - k) == e - k);
        } else {
            assert(e == c);
            assert(c - k == t.len());
            assert(float_exp_end(t, c - k) == e - k);
        }
    } else {
        assert(e == c);
        assert(c - k == t.len());
        assert(float_exp_end(t, c - k) == e - k);
    }
}

/// A matched float lexeme, taken by itself, is a whole float token: the
/// greedy match is self-delimiting.
pub proof fn lemma_float_match_subrange(s: Seq<u8>, k: int, e: int)
    requires
        0 <= k <= s.len(),
        float_match_end(s, k) == Some(e),
    ensures
        is_float_lexeme(s.subrange(k, e)),
{
    lemma_float_match_end(s, k);
    let t = s.subrange(k, e);
    if k < s.len() && is_sign(s[k]) {
        let c = float_core_end(s, k + 1)->Some_0;
        lemma_float_core_end(s, k + 1);
        lemma_float_exp_end(s, c);
        assert(e == float_exp_end(s, c));
        assert(c <= e);
        lemma_float_core_subrange(s, k, e, k + 1);
        lemma_float_exp_subrange(s, k, e, c);
        assert(t[0] == s[k]);
        assert(float_match_end(t, 0) == Some(e - k));
    } else {
        assert(k < s.len()) by {
            if k == s.len() {
                assert(run_end(s, k, digit_pred()) == k);
                assert(float_core_end(s, k) is None);
            }
        }
        let c = float_core_end(s, k)->Some_0;
        lemma_float_core_end(s, k);
        lemma_float_exp_end(s, c);
        assert(e == float_exp_end(s, c));
        assert(c <= e);
        lemma_float_core_subrange(s, k, e, k);
        lemma_float_exp_subrange(s, k, e, c);
        assert(t[0] == s[k]);
        assert(!is_sign(t[0]));
        assert(float_match_end(t, 0) == Some(e - k));
    }
}

/// Computes the end of the maximal digit run from `j`.
pub fn digit_run_from(s: &[u8], j: usize) -> (e: usize)
    requires
        j <= s@.len(),
    ensures
        e == run_end(s@, j as int, digit_pred()),
        j <= e <= s@.len(),
{
    let mut e: usize = j;
    while e < s.len() && 0x30 <= s[e] && s[e] <= 0x39
        invariant
            j <= e <= s@.len(),
            run_end(s@, j as int, digit_pred()) == run_end(s@, e as int, digit_pred()),
        decreases s@.len() - e,
    {
        e = e + 1;
    }
    proof {
        assert(run_end(s@, e as int, digit_pred()) == e);
    }
    e
}

/// Computes `float_core_end` at `j`.
fn float_core_from(s: &[u8], j: usize) -> (r: Option<usize>)
    requires
        j <= s@.len(),
    ensures
        match r {
            Some(c) => float_core_end(s@, j as int) == Some(c as int) && j < c <= s@.len(),
            None => float_core_end(s@, j as int) is None,
        },
{
    proof {
        lemma_float_core_end(s@, j as int);
    }
    let r1 = digit_run_from(s, j);
    if r1 > j {
        if r1 < s.len() && s[r1] == 0x2e && r1 + 1 < s.len() && 0x30 <= s[r1 + 1] && s[r1 + 1]
            <= 0x39 {
            Some(digit_run_from(s, r1 + 1))
        } else {
            Some(r1)
        }
    } else {
        if j < s.len() && s[j] == 0x2e && j + 1 < s.len() && 0x30 <= s[j + 1] && s[j + 1] <= 0x39 {
            Some(digit_run_from(s, j + 1))
        } else {
            None
        }
    }
}

/// Computes `float_exp_end` at `k`.
fn float_exp_from(s: &[u8], k: usize) -> (e: usize)
    requires
        k <= s@.len(),
    ensures
        e as int == float_exp_end(s@, k as int),
        k <= e <= s@.len(),
{
    proof {
        lemma_float_exp_end(s@, k as int);
    }
    if k < s.len() && (s[k] == 0x65 || s[k] == 0x45) {
        if k + 1 < s.len() && 0x30 <= s[k + 1] && s[k + 1] <= 0x39 {
            digit_run_from(s, k + 1)
        } else if k + 1 < s.len() && (s[k + 1] == 0x2b || s[k + 1] == 0x2d) && k + 2 < s.len()
            && 0x30 <= s[k + 2] && s[k + 2] <= 0x39 {
            digit_run_from(s, k + 2)
        } else {
            k
        }
    } else {
        k
    }
}

/// Computes `float_match_end` at `i`.
pub fn float_end_at(s: &[u8], i: usize) -> (r: Option<usize>)
    requires
        i <= s@.len(),
    ensures
        match r {
            Some(e) => float_match_end(s@, i as int) == Some(e as int) && i < e <= s@.len(),
            None => float_match_end(s@, i as int) is None,
        },
{
    proof {
        lemma_float_match_end(s@, i as int);
    }
    let core_start: usize = if i < s.len() && (s[i] == 0x2b || s[i] == 0x2d) {
        i + 1
    } else {
        i
    };
    match float_core_from(s, core_start) {
        Some(c) => Some(float_exp_from(s, c)),
        None => None,
    }
}

/// Whether a whole token is exactly one float lexeme.
pub fn is_float_token(t: &[u8]) -> (r: bool)
    ensures
        r == is_float_lexeme(t@),
{
    if t.len() == 0 {
        return false;
    }
    match float_end_at(t, 0) {
        Some(e) => e == t.len(),
        None => false,
    }
}

/// Finds the leftmost float lexeme, as `spec_find_float` describes.
pub fn find_float(s: &[u8]) -> (r: Option<(usize, usize)>)
    ensures
        r is Some <==> spec_find_float(s@) is Some,
        r matches Some((k, e)) ==> spec_find_float(s@) == Some((k as int, e as int)) && k < e
            <= s@.len(),
{
    let mut i: usize = 0;
    while i < s.len()
        invariant
            0 <= i <= s@.len(),
            find_float_start(s@, 0) == find_float_start(s@, i as int),
        decreases s@.len() - i,
    {
        match float_end_at(s, i) {
            Some(e) => {
                return Some((i, e));
            },
            None => {},
        }
        i = i + 1;
    }
    None
}

} // verus!
