//! Byte classes and byte-sequence helpers shared by the codec, the line
//! parser and the writer: character classes of the text grammar, maximal
//! runs, leftmost matches, and splitting/joining on a separator byte.

use vstd::prelude::*;

verus! {

/// Visible ASCII, the `!`..=`~` range.
pub open spec fn is_printable(b: u8) -> bool {
    0x21 <= b <= 0x7e
}

/// Visible ASCII or the space byte.
pub open spec fn is_print_or_space(b: u8) -> bool {
    0x20 <= b <= 0x7e
}

pub open spec fn is_digit(b: u8) -> bool {
    0x30 <= b <= 0x39
}

pub open spec fn is_alpha(b: u8) -> bool {
    (0x41 <= b <= 0x5a) || (0x61 <= b <= 0x7a)
}

pub open spec fn is_alnum(b: u8) -> bool {
    is_alpha(b) || is_digit(b)
}

/// An uppercase hexadecimal digit, `0`-`9` or `A`-`F`.
pub open spec fn is_hex_upper(b: u8) -> bool {
    is_digit(b) || (0x41 <= b <= 0x46)
}

pub open spec fn is_sign(b: u8) -> bool {
    b == 0x2bu8 || b == 0x2du8
}

/// Whether the byte `b` occurs anywhere in `s`.
pub open spec fn has_byte(s: Seq<u8>, b: u8) -> bool {
    exists|i: int| 0 <= i < s.len() && s[i] == b
}

pub open spec fn digit_pred() -> spec_fn(u8) -> bool {
    |b: u8| is_digit(b)
}

pub open spec fn printable_pred() -> spec_fn(u8) -> bool {
    |b: u8| is_printable(b)
}

pub open spec fn print_or_space_pred() -> spec_fn(u8) -> bool {
    |b: u8| is_print_or_space(b)
}

pub open spec fn hex_upper_pred() -> spec_fn(u8) -> bool {
    |b: u8| is_hex_upper(b)
}

/// End of the maximal run of bytes satisfying `p` that starts at `i`.
pub open spec fn run_end(s: Seq<u8>, i: int, p: spec_fn(u8) -> bool) -> int
    decreases s.len() - i,
    when 0 <= i <= s.len()
{
    if i < s.len() && p(s[i]) {
        run_end(s, i + 1, p)
    } else {
        i
    }
}

pub proof fn lemma_run_end(s: Seq<u8>, i: int, p: spec_fn(u8) -> bool)
    requires
        0 <= i <= s.len(),
    ensures
        i <= run_end(s, i, p) <= s.len(),
        forall|j: int| i <= j < run_end(s, i, p) ==> p(s[j]),
        run_end(s, i, p) == s.len() || !p(s[run_end(s, i, p)]),
    decreases s.len() - i,
{
    if i < s.len() && p(s[i]) {
        lemma_run_end(s, i + 1, p);
    }
}

/// A run that stays within `k..e` ends at the same place inside the
/// subrange `s[k..e]` as in `s` itself.
pub proof fn lemma_run_end_subrange(s: Seq<u8>, k: int, e: int, j: int, p: spec_fn(u8) -> bool)
    requires
        0 <= k <= j <= e <= s.len(),
        run_end(s, j, p) <= e,
    ensures
        run_end(s.subrange(k, e), j - k, p) == run_end(s, j, p) - k,
    decreases s.len() - j,
{
    let t = s.subrange(k, e);
    lemma_run_end(s, j, p);
    if j < s.len() && p(s[j]) {
        assert(run_end(s, j, p) == run_end(s, j + 1, p));
        assert(run_end(s, j, p) >= j + 1);
        assert(j < e);
        assert(t[j - k] == s[j]);
        lemma_run_end_subrange(s, k, e, j + 1, p);
    } else {
        assert(run_end(s, j, p) == j);
        if j < e {
            assert(t[j - k] == s[j]);
            assert(j < s.len());
            assert(!p(t[j - k]));
        } else {
            assert(j - k == t.len());
        }
    }
}

/// Position of the leftmost byte at or after `i` that satisfies `p`.
pub open spec fn find_from(s: Seq<u8>, i: int, p: spec_fn(u8) -> bool) -> Option<int>
    decreases s.len() - i,
    when 0 <= i <= s.len()
{
    if i >= s.len() {
        None
    } else if p(s[i]) {
        Some(i)
    } else {
        find_from(s, i + 1, p)
    }
}

pub proof fn lemma_find_from(s: Seq<u8>, i: int, p: spec_fn(u8) -> bool)
    requires
        0 <= i <= s.len(),
    ensures
        match find_from(s, i, p) {
            Some(k) => i <= k < s.len() && p(s[k]) && forall|j: int| i <= j < k ==> !p(s[j]),
            None => forall|j: int| i <= j < s.len() ==> !p(s[j]),
        },
    decreases s.len() - i,
{
    if i < s.len() && !p(s[i]) {
        lemma_find_from(s, i + 1, p);
    }
}

/// Splits `s` on the separator byte `sep`.  As with the usual textual
/// convention, there is always one piece more than there are separators;
/// in particular the split of the empty sequence is one empty piece.
pub open spec fn spec_split(s: Seq<u8>, sep: u8) -> Seq<Seq<u8>>
    decreases s.len(),
{
    if s.len() == 0 {
        seq![Seq::<u8>::empty()]
    } else if s[0] == sep {
        seq![Seq::<u8>::empty()] + spec_split(s.skip(1), sep)
    } else {
        let rest = spec_split(s.skip(1), sep);
        seq![seq![s[0]] + rest[0]] + rest.skip(1)
    }
}

/// Joins the pieces with the separator byte `sep` between them.
pub open spec fn spec_join(ps: Seq<Seq<u8>>, sep: u8) -> Seq<u8>
    decreases ps.len(),
{
    if ps.len() == 0 {
        Seq::empty()
    } else if ps.len() == 1 {
        ps[0]
    } else {
        ps[0] + seq![sep] + spec_join(ps.skip(1), sep)
    }
}

pub proof fn lemma_split_len(s: Seq<u8>, sep: u8)
    ensures
        spec_split(s, sep).len() >= 1,
    decreases s.len(),
{
    if s.len() > 0 {
        lemma_split_len(s.skip(1), sep);
    }
}

/// No piece of a split holds the separator, nor any byte the whole
/// sequence does not hold.
pub proof fn lemma_split_pieces_bytes(s: Seq<u8>, sep: u8, b: u8)
    requires
        b == sep || !has_byte(s, b),
    ensures
        forall|i: int|
            0 <= i < spec_split(s, sep).len() ==> !has_byte(#[trigger] spec_split(s, sep)[i], b),
    decreases s.len(),
{
    lemma_split_len(s, sep);
    if s.len() == 0 {
        assert forall|i: int| 0 <= i < spec_split(s, sep).len() implies !has_byte(
            #[trigger] spec_split(s, sep)[i],
            b,
        ) by {
            assert(spec_split(s, sep)[i].len() == 0);
        }
    } else {
        assert(b == sep || !has_byte(s.skip(1), b)) by {
            if b != sep && has_byte(s.skip(1), b) {
                let j = choose|j: int| 0 <= j < s.skip(1).len() && s.skip(1)[j] == b;
                assert(s[j + 1] == b);
            }
        }
        lemma_split_pieces_bytes(s.skip(1), sep, b);
        let rest = spec_split(s.skip(1), sep);
        if s[0] == sep {
            assert forall|i: int| 0 <= i < spec_split(s, sep).len() implies !has_byte(
                #[trigger] spec_split(s, sep)[i],
                b,
            ) by {
                if i == 0 {
                    assert(spec_split(s, sep)[0].len() == 0);
                } else {
                    assert(spec_split(s, sep)[i] == rest[i - 1]);
                    assert(!has_byte(rest[i - 1], b));
                }
            }
        } else {
            lemma_split_len(s.skip(1), sep);
            assert(s[0] != b) by {
                if b != sep {
                    assert(!has_byte(s, b));
                }
            }
            assert forall|i: int| 0 <= i < spec_split(s, sep).len() implies !has_byte(
                #[trigger] spec_split(s, sep)[i],
                b,
            ) by {
                if i == 0 {
                    let head = seq![s[0]] + rest[0];
                    assert(!has_byte(rest[0], b));
                    assert(spec_split(s, sep)[0] == head);
                    assert forall|j: int| 0 <= j < head.len() implies head[j] != b by {
                        if j > 0 {
                            assert(head[j] == rest[0][j - 1]);
                            assert(rest[0][j - 1] != b);
                        }
                    }
                } else {
                    assert(spec_split(s, sep)[i] == rest.skip(1)[i - 1]);
                    assert(rest.skip(1)[i - 1] == rest[i]);
                    assert(!has_byte(rest[i], b));
                }
            }
        }
    }
}

/// A sequence without the separator splits into itself as the single piece.
pub proof fn lemma_split_whole(s: Seq<u8>, sep: u8)
    requires
        !has_byte(s, sep),
    ensures
        spec_split(s, sep) =~= seq![s],
    decreases s.len(),
{
    if s.len() == 0 {
        assert(s =~= Seq::<u8>::empty());
        assert(spec_split(s, sep) =~~= seq![s]);
    } else {
        assert(s[0] != sep);
        assert(!has_byte(s.skip(1), sep)) by {
            assert forall|i: int| 0 <= i < s.skip(1).len() implies s.skip(1)[i] != sep by {
                assert(s.skip(1)[i] == s[i + 1]);
            }
        }
        lemma_split_whole(s.skip(1), sep);
        let rest = spec_split(s.skip(1), sep);
        assert(rest[0] == s.skip(1));
        assert(seq![s[0]] + rest[0] =~= s);
        assert(rest.skip(1) =~= Seq::<Seq<u8>>::empty());
        assert(spec_split(s, sep) =~= seq![seq![s[0]] + rest[0]] + rest.skip(1));
        assert(spec_split(s, sep) =~= seq![s]);
    }
}

/// Splitting `p ++ [sep] ++ tail` peels off `p` as the first piece when `p`
/// itself has no separator in it.
pub proof fn lemma_split_glue(p: Seq<u8>, tail: Seq<u8>, sep: u8)
    requires
        !has_byte(p, sep),
    ensures
        spec_split(p + seq![sep] + tail, sep) =~= seq![p] + spec_split(tail, sep),
    decreases p.len(),
{
    let s = p + seq![sep] + tail;
    lemma_split_len(tail, sep);
    if p.len() == 0 {
        assert(p =~= Seq::<u8>::empty());
        assert(s[0] == sep);
        assert(s.skip(1) =~= tail);
        assert(spec_split(s, sep) =~= seq![Seq::<u8>::empty()] + spec_split(tail, sep));
        assert(spec_split(s, sep) =~= seq![p] + spec_split(tail, sep));
    } else {
        assert(s[0] == p[0]);
        assert(p[0] != sep);
        assert(!has_byte(p.skip(1), sep)) by {
            assert forall|i: int| 0 <= i < p.skip(1).len() implies p.skip(1)[i] != sep by {
                assert(p.skip(1)[i] == p[i + 1]);
            }
        }
        lemma_split_glue(p.skip(1), tail, sep);
        assert(s.skip(1) =~= p.skip(1) + seq![sep] + tail);
        let rest = spec_split(s.skip(1), sep);
        assert(rest =~= seq![p.skip(1)] + spec_split(tail, sep));
        assert(rest[0] == p.skip(1));
        assert(seq![s[0]] + rest[0] =~= p);
        assert(rest.skip(1) =~= spec_split(tail, sep));
        assert(spec_split(s, sep) =~= seq![seq![s[0]] + rest[0]] + rest.skip(1));
        assert(spec_split(s, sep) =~= seq![p] + spec_split(tail, sep));
    }
}

/// Splitting the join of separator-free pieces gives the pieces back.
pub proof fn lemma_split_join(ps: Seq<Seq<u8>>, sep: u8)
    requires
        ps.len() >= 1,
        forall|i: int| 0 <= i < ps.len() ==> !has_byte(#[trigger] ps[i], sep),
    ensures
        spec_split(spec_join(ps, sep), sep) =~= ps,
    decreases ps.len(),
{
    if ps.len() == 1 {
        lemma_split_whole(ps[0], sep);
        assert(spec_join(ps, sep) == ps[0]);
        assert(spec_split(spec_join(ps, sep), sep) =~= seq![ps[0]]);
        assert(seq![ps[0]] =~= ps);
    } else {
        let tail = ps.skip(1);
        assert(forall|i: int| 0 <= i < tail.len() ==> !has_byte(#[trigger] tail[i], sep)) by {
            assert forall|i: int| 0 <= i < tail.len() implies !has_byte(#[trigger] tail[i], sep) by {
                assert(tail[i] == ps[i + 1]);
            }
        }
        lemma_split_join(tail, sep);
        lemma_split_glue(ps[0], spec_join(tail, sep), sep);
        assert(spec_split(spec_join(ps, sep), sep) =~= seq![ps[0]] + tail);
        assert(seq![ps[0]] + tail =~= ps);
    }
}

/// A byte class that holds of every piece and of the separator holds of
/// the whole join.
pub proof fn lemma_join_bytes(ps: Seq<Seq<u8>>, sep: u8, p: spec_fn(u8) -> bool)
    requires
        p(sep),
        forall|i: int, j: int|
            0 <= i < ps.len() && 0 <= j < ps[i].len() ==> p(#[trigger] ps[i][j]),
    ensures
        forall|x: int| 0 <= x < spec_join(ps, sep).len() ==> p(#[trigger] spec_join(ps, sep)[x]),
    decreases ps.len(),
{
    if ps.len() == 0 {
    } else if ps.len() == 1 {
        assert forall|x: int| 0 <= x < spec_join(ps, sep).len() implies p(
            #[trigger] spec_join(ps, sep)[x],
        ) by {
            assert(spec_join(ps, sep)[x] == ps[0][x]);
        }
    } else {
        let tail = ps.skip(1);
        assert forall|i: int, j: int|
            0 <= i < tail.len() && 0 <= j < tail[i].len() implies p(#[trigger] tail[i][j]) by {
            assert(tail[i] == ps[i + 1]);
        }
        lemma_join_bytes(tail, sep, p);
        let whole = spec_join(ps, sep);
        let head_len = ps[0].len() as int;
        assert forall|x: int| 0 <= x < whole.len() implies p(#[trigger] whole[x]) by {
            if x < head_len {
                assert(whole[x] == ps[0][x]);
            } else if x == head_len {
                assert(whole[x] == sep);
            } else {
                assert(whole[x] == spec_join(tail, sep)[x - head_len - 1]);
            }
        }
    }
}

/// Appending one more piece to a non-empty join adds a separator and the piece.
pub proof fn lemma_join_push(ps: Seq<Seq<u8>>, p: Seq<u8>, sep: u8)
    requires
        ps.len() >= 1,
    ensures
        spec_join(ps.push(p), sep) =~= spec_join(ps, sep) + seq![sep] + p,
    decreases ps.len(),
{
    if ps.len() == 1 {
        assert(ps.push(p)[0] == ps[0]);
        assert(ps.push(p).skip(1) =~= seq![p]);
        assert(spec_join(ps.push(p), sep) == ps[0] + seq![sep] + spec_join(seq![p], sep));
        assert(spec_join(seq![p], sep) == p);
        assert(spec_join(ps, sep) == ps[0]);
        assert(spec_join(ps.push(p), sep) =~= spec_join(ps, sep) + seq![sep] + p);
    } else {
        lemma_join_push(ps.skip(1), p, sep);
        assert(ps.push(p).skip(1) =~= ps.skip(1).push(p));
        assert(ps.push(p)[0] == ps[0]);
        assert(spec_join(ps.push(p), sep) == ps[0] + seq![sep] + spec_join(ps.skip(1).push(p), sep));
        assert(spec_join(ps.skip(1).push(p), sep) == spec_join(ps.skip(1), sep) + seq![sep] + p);
        assert(spec_join(ps, sep) == ps[0] + seq![sep] + spec_join(ps.skip(1), sep));
        assert(ps[0] + seq![sep] + (spec_join(ps.skip(1), sep) + seq![sep] + p) =~= (ps[0] + seq![sep]
            + spec_join(ps.skip(1), sep)) + seq![sep] + p);
    }
}

/// The views of a sequence of byte vectors.
pub open spec fn seq_views(vs: Seq<Vec<u8>>) -> Seq<Seq<u8>> {
    vs.map_values(|v: Vec<u8>| v@)
}

/// Appends all of `s` to `out`.
pub fn push_all(s: &[u8], out: &mut Vec<u8>)
    ensures
        final(out)@ == old(out)@ + s@,
{
    let mut i: usize = 0;
    proof {
        assert(out@ =~= old(out)@ + s@.take(0));
    }
    while i < s.len()
        invariant
            0 <= i <= s@.len(),
            out@ == old(out)@ + s@.take(i as int),
        decreases s@.len() - i,
    {
        out.push(s[i]);
        i = i + 1;
        proof {
            assert(out@ =~= old(out)@ + s@.take(i as int));
        }
    }
    proof {
        assert(s@.take(s@.len() as int) =~= s@);
    }
}

/// A fresh copy of the byte range `start..end` of `s`.
pub fn copy_range(s: &[u8], start: usize, end: usize) -> (r: Vec<u8>)
    requires
        start <= end <= s@.len(),
    ensures
        r@ == s@.subrange(start as int, end as int),
{
    let mut r: Vec<u8> = Vec::new();
    let mut i: usize = start;
    while i < end
        invariant
            start <= i <= end <= s@.len(),
            r@ =~= s@.subrange(start as int, i as int),
        decreases end - i,
    {
        r.push(s[i]);
        i = i + 1;
        proof {
            assert(r@ =~= s@.subrange(start as int, i as int));
        }
    }
    r
}

/// Splits a byte string on the separator byte, as `spec_split` describes.
pub fn split_bytes(s: &[u8], sep: u8) -> (r: Vec<Vec<u8>>)
    ensures
        r@.map_values(|v: Vec<u8>| v@) =~= spec_split(s@, sep),
{
    let mut pieces: Vec<Vec<u8>> = Vec::new();
    let mut cur: Vec<u8> = Vec::new();
    let mut i: usize = 0;
    proof {
        lemma_split_len(s@, sep);
        assert(s@.skip(0) =~= s@);
        let ps = spec_split(s@, sep);
        assert(Seq::<u8>::empty() + ps[0] =~= ps[0]);
        assert(prepend_head(Seq::empty(), ps) =~= ps);
        assert(pieces@.map_values(|v: Vec<u8>| v@) =~= Seq::<Seq<u8>>::empty());
    }
    while i < s.len()
        invariant
            0 <= i <= s@.len(),
            spec_split(s@, sep) =~= pieces@.map_values(|v: Vec<u8>| v@) + prepend_head(
                cur@,
                spec_split(s@.skip(i as int), sep),
            ),
        decreases s@.len() - i,
    {
        proof {
            lemma_split_len(s@.skip(i as int + 1), sep);
            assert(s@.skip(i as int).skip(1) =~= s@.skip(i as int + 1));
        }
        let ghost old_pieces = pieces@;
        let ghost old_cur = cur@;
        let ghost rest = spec_split(s@.skip(i as int + 1), sep);
        if s[i] == sep {
            proof {
                assert(spec_split(s@.skip(i as int), sep) =~= seq![Seq::<u8>::empty()] + rest);
                assert(prepend_head(old_cur, seq![Seq::<u8>::empty()] + rest) =~= seq![old_cur]
                    + prepend_head(Seq::empty(), rest));
            }
            pieces.push(cur);
            cur = Vec::new();
            proof {
                assert(pieces@.map_values(|v: Vec<u8>| v@) =~= old_pieces.map_values(
                    |v: Vec<u8>| v@,
                ) + seq![old_cur]);
            }
        } else {
            proof {
                let rest0 = spec_split(s@.skip(i as int), sep);
                assert(rest0 =~= seq![seq![s@[i as int]] + rest[0]] + rest.skip(1));
                assert(prepend_head(old_cur, rest0) =~= prepend_head(old_cur.push(s@[i as int]), rest)) by {
                    assert(old_cur + rest0[0] =~= old_cur.push(s@[i as int]) + rest[0]);
                    assert(rest0.skip(1) =~= rest.skip(1));
                }
            }
            cur.push(s[i]);
        }
        i = i + 1;
    }
    proof {
        assert(s@.skip(i as int) =~= Seq::<u8>::empty());
        assert(spec_split(s@.skip(i as int), sep) =~= seq![Seq::<u8>::empty()]);
        assert(prepend_head(cur@, seq![Seq::<u8>::empty()]) =~= seq![cur@]);
    }
    let ghost old_pieces = pieces@;
    let ghost last = cur@;
    pieces.push(cur);
    proof {
        assert(pieces@.map_values(|v: Vec<u8>| v@) =~= old_pieces.map_values(|v: Vec<u8>| v@)
            + seq![last]);
    }
    pieces
}

/// The split of a longer input, expressed through the piece being built:
/// the bytes `c` seen since the last separator extend the first piece of
/// the split of the remainder.
pub open spec fn prepend_head(c: Seq<u8>, ps: Seq<Seq<u8>>) -> Seq<Seq<u8>>
    recommends
        ps.len() >= 1,
{
    seq![c + ps[0]] + ps.skip(1)
}

} // verus!
