//! The tagged-value codec for optional fields.
//!
//! An optional field is a two-byte tag and a typed value, written in text
//! as `TAG:TYPE:VALUE`.  The tag's first byte is alphabetic and its second
//! alphanumeric; the type byte selects one of a closed set of value
//! grammars.  Decoding takes the leftmost value-pattern match, as the text
//! format tolerates; encoding is the exact inverse, and
//! `lemma_decode_encode` proves the round trip for every well-formed field.
//!
//! Floating-point values are kept as their lexeme bytes and never
//! interpreted numerically; see `float_text`.

use crate::bytes::{
    copy_range, find_from, has_byte, hex_upper_pred, is_alnum, is_alpha, is_digit, is_hex_upper,
    is_print_or_space, is_printable, print_or_space_pred, printable_pred, run_end, seq_views,
    spec_join, spec_split, split_bytes,
};
use crate::float_text::{
    find_float, is_float_char, is_float_lexeme, is_float_token, spec_find_float,
};
use crate::numbers::{
    dec_digits, find_int, int_match_end, parse_i64_text, push_dec_i64, spec_dec_int,
    spec_find_int, spec_parse_i64,
};
use vstd::prelude::*;

verus! {

/// One SAM-style typed value.  The `B` array type of the text format is
/// split into its integer and float forms.  Float values hold their
/// lexeme bytes, exactly as matched or as the caller wrote them.
#[derive(Debug, Clone, PartialEq)]
pub enum OptFieldVal {
    A(u8),
    Int(i64),
    Float(Vec<u8>),
    Z(Vec<u8>),
    J(Vec<u8>),
    H(Vec<u8>),
    BInt(Vec<i64>),
    BFloat(Vec<Vec<u8>>),
}

/// An optional field: a two-byte tag and its value.
#[derive(Debug, Clone, PartialEq)]
pub struct OptField {
    pub tag: [u8; 2],
    pub value: OptFieldVal,
}

/// The mathematical value of an `OptFieldVal`.
#[verifier::ext_equal]
pub ghost enum OptFieldValV {
    A(u8),
    Int(i64),
    Float(Seq<u8>),
    Z(Seq<u8>),
    J(Seq<u8>),
    H(Seq<u8>),
    BInt(Seq<i64>),
    BFloat(Seq<Seq<u8>>),
}

/// The mathematical value of an `OptField`.
#[verifier::ext_equal]
pub ghost struct OptFieldV {
    pub tag0: u8,
    pub tag1: u8,
    pub value: OptFieldValV,
}

impl View for OptFieldVal {
    type V = OptFieldValV;

    open spec fn view(&self) -> OptFieldValV {
        match self {
            OptFieldVal::A(x) => OptFieldValV::A(*x),
            OptFieldVal::Int(x) => OptFieldValV::Int(*x),
            OptFieldVal::Float(t) => OptFieldValV::Float(t@),
            OptFieldVal::Z(t) => OptFieldValV::Z(t@),
            OptFieldVal::J(t) => OptFieldValV::J(t@),
            OptFieldVal::H(ns) => OptFieldValV::H(ns@),
            OptFieldVal::BInt(xs) => OptFieldValV::BInt(xs@),
            OptFieldVal::BFloat(ts) => OptFieldValV::BFloat(seq_views(ts@)),
        }
    }
}

impl View for OptField {
    type V = OptFieldV;

    open spec fn view(&self) -> OptFieldV {
        OptFieldV { tag0: self.tag@[0], tag1: self.tag@[1], value: self.value@ }
    }
}

/// The tag invariant: the first byte alphabetic, the second alphanumeric.
pub open spec fn wf_tag(t0: u8, t1: u8) -> bool {
    is_alpha(t0) && is_alnum(t1)
}

/// Which values the codec can construct: exactly the decodable shapes.
pub open spec fn wf_val(v: OptFieldValV) -> bool {
    match v {
        OptFieldValV::A(x) => is_printable(x),
        OptFieldValV::Int(_) => true,
        OptFieldValV::Float(t) => is_float_lexeme(t),
        OptFieldValV::Z(t) => t.len() >= 1 && forall|i: int|
            0 <= i < t.len() ==> is_print_or_space(#[trigger] t[i]),
        OptFieldValV::J(t) => t.len() >= 1 && forall|i: int|
            0 <= i < t.len() ==> is_print_or_space(#[trigger] t[i]),
        OptFieldValV::H(ns) => ns.len() >= 1 && forall|i: int| 0 <= i < ns.len() ==> #[trigger] ns[i]
            < 16,
        OptFieldValV::BInt(_) => true,
        OptFieldValV::BFloat(ts) => forall|i: int|
            0 <= i < ts.len() ==> is_float_lexeme(#[trigger] ts[i]),
    }
}

/// A constructible optional field.
pub open spec fn wf_field(f: OptFieldV) -> bool {
    wf_tag(f.tag0, f.tag1) && wf_val(f.value)
}

/// The type byte that announces each value form.
pub open spec fn type_byte(v: OptFieldValV) -> u8 {
    match v {
        OptFieldValV::A(_) => 0x41u8,
        OptFieldValV::Int(_) => 0x69u8,
        OptFieldValV::Float(_) => 0x66u8,
        OptFieldValV::Z(_) => 0x5au8,
        OptFieldValV::J(_) => 0x4au8,
        OptFieldValV::H(_) => 0x48u8,
        OptFieldValV::BInt(_) => 0x42u8,
        OptFieldValV::BFloat(_) => 0x42u8,
    }
}

/// The uppercase hexadecimal digit of a value below sixteen.
pub open spec fn hex_digit_upper(n: u8) -> u8 {
    if n < 10 {
        (0x30 + n) as u8
    } else {
        (0x37 + n) as u8
    }
}

/// The value of an uppercase hexadecimal digit byte.
pub open spec fn hex_val(b: u8) -> u8 {
    if is_digit(b) {
        (b - 0x30) as u8
    } else {
        (b - 0x37) as u8
    }
}

/// The value text of a field, after the second colon.  Arrays announce
/// their element type first (`I` for integers, `f` for floats, the byte
/// the decoder selects on) and join their elements with commas; hex byte
/// arrays are the uppercase digits of their nibbles, undelimited.
pub open spec fn spec_encode_val(v: OptFieldValV) -> Seq<u8> {
    match v {
        OptFieldValV::A(x) => seq![x],
        OptFieldValV::Int(x) => spec_dec_int(x as int),
        OptFieldValV::Float(t) => t,
        OptFieldValV::Z(t) => t,
        OptFieldValV::J(t) => t,
        OptFieldValV::H(ns) => ns.map_values(|n: u8| hex_digit_upper(n)),
        OptFieldValV::BInt(xs) => seq![0x49u8] + spec_join(
            xs.map_values(|x: i64| spec_dec_int(x as int)),
            0x2c,
        ),
        OptFieldValV::BFloat(ts) => seq![0x66u8] + spec_join(ts, 0x2c),
    }
}

/// The text of a whole field: `TAG:TYPE:VALUE`.
pub open spec fn spec_encode(f: OptFieldV) -> Seq<u8> {
    seq![f.tag0, f.tag1, 0x3au8, type_byte(f.value), 0x3au8] + spec_encode_val(f.value)
}

/// Integer array elements that parse, kept in order; failing tokens are
/// dropped, as the format's leniency for array elements asks.
pub open spec fn collect_ints(toks: Seq<Seq<u8>>) -> Seq<i64>
    decreases toks.len(),
{
    if toks.len() == 0 {
        Seq::empty()
    } else {
        let rest = collect_ints(toks.drop_last());
        match spec_parse_i64(toks.last()) {
            Some(v) => rest.push(v),
            None => rest,
        }
    }
}

/// Float array elements that are whole float lexemes, kept in order.
pub open spec fn collect_floats(toks: Seq<Seq<u8>>) -> Seq<Seq<u8>>
    decreases toks.len(),
{
    if toks.len() == 0 {
        Seq::empty()
    } else {
        let rest = collect_floats(toks.drop_last());
        if is_float_lexeme(toks.last()) {
            rest.push(toks.last())
        } else {
            rest
        }
    }
}

/// The value decoded from type byte `t` and value text `c`.
pub open spec fn spec_decode_val(t: u8, c: Seq<u8>) -> Option<OptFieldValV> {
    if t == 0x41u8 {
        match find_from(c, 0, printable_pred()) {
            Some(k) => Some(OptFieldValV::A(c[k])),
            None => None,
        }
    } else if t == 0x69u8 {
        match spec_find_int(c) {
            Some((k, e)) => match spec_parse_i64(c.subrange(k, e)) {
                Some(v) => Some(OptFieldValV::Int(v)),
                None => None,
            },
            None => None,
        }
    } else if t == 0x66u8 {
        match spec_find_float(c) {
            Some((k, e)) => Some(OptFieldValV::Float(c.subrange(k, e))),
            None => None,
        }
    } else if t == 0x5au8 || t == 0x4au8 {
        match find_from(c, 0, print_or_space_pred()) {
            Some(k) => {
                let piece = c.subrange(k, run_end(c, k, print_or_space_pred()));
                if t == 0x5au8 {
                    Some(OptFieldValV::Z(piece))
                } else {
                    Some(OptFieldValV::J(piece))
                }
            },
            None => None,
        }
    } else if t == 0x48u8 {
        match find_from(c, 0, hex_upper_pred()) {
            Some(k) => Some(
                OptFieldValV::H(
                    c.subrange(k, run_end(c, k, hex_upper_pred())).map_values(|b: u8| hex_val(b)),
                ),
            ),
            None => None,
        }
    } else if t == 0x42u8 {
        if c.len() == 0 {
            None
        } else {
            let toks = spec_split(c.skip(1), 0x2c);
            if c[0] == 0x66u8 {
                Some(OptFieldValV::BFloat(collect_floats(toks)))
            } else {
                Some(OptFieldValV::BInt(collect_ints(toks)))
            }
        }
    } else {
        None
    }
}

/// The field decoded from one token, or `None` where the token does not
/// carry one.  A malformed token never stops a caller: it merely decodes
/// to nothing.
pub open spec fn spec_decode(s: Seq<u8>) -> Option<OptFieldV> {
    if s.len() < 5 {
        None
    } else if !(wf_tag(s[0], s[1]) && s[2] == 0x3au8 && s[4] == 0x3au8) {
        None
    } else {
        match spec_decode_val(s[3], s.skip(5)) {
            Some(v) => Some(OptFieldV { tag0: s[0], tag1: s[1], value: v }),
            None => None,
        }
    }
}

/// The fields decoded from a run of tokens, in arrival order; tokens that
/// decode to nothing are dropped.
pub open spec fn collect_fields(toks: Seq<Seq<u8>>) -> Seq<OptFieldV>
    decreases toks.len(),
{
    if toks.len() == 0 {
        Seq::empty()
    } else {
        let rest = collect_fields(toks.drop_last());
        match spec_decode(toks.last()) {
            Some(f) => rest.push(f),
            None => rest,
        }
    }
}

/// Finds the leftmost printable byte.
fn find_printable_at(c: &[u8]) -> (r: Option<usize>)
    ensures
        match r {
            Some(k) => find_from(c@, 0, printable_pred()) == Some(k as int) && k < c@.len(),
            None => find_from(c@, 0, printable_pred()) is None,
        },
{
    let mut i: usize = 0;
    while i < c.len()
        invariant
            0 <= i <= c@.len(),
            find_from(c@, 0, printable_pred()) == find_from(c@, i as int, printable_pred()),
        decreases c@.len() - i,
    {
        if 0x21 <= c[i] && c[i] <= 0x7e {
            return Some(i);
        }
        i = i + 1;
    }
    None
}

/// Finds the leftmost run of printable-or-space bytes.
fn find_run_print_space(c: &[u8]) -> (r: Option<(usize, usize)>)
    ensures
        r is Some <==> find_from(c@, 0, print_or_space_pred()) is Some,
        r matches Some((k, e)) ==> find_from(c@, 0, print_or_space_pred()) == Some(k as int) && e
            as int == run_end(c@, k as int, print_or_space_pred()) && k < e <= c@.len(),
{
    let mut i: usize = 0;
    while i < c.len()
        invariant
            0 <= i <= c@.len(),
            find_from(c@, 0, print_or_space_pred()) == find_from(c@, i as int, print_or_space_pred()),
        decreases c@.len() - i,
    {
        if 0x20 <= c[i] && c[i] <= 0x7e {
            let mut e: usize = i;
            while e < c.len() && 0x20 <= c[e] && c[e] <= 0x7e
                invariant
                    i <= e <= c@.len(),
                    run_end(c@, i as int, print_or_space_pred()) == run_end(
                        c@,
                        e as int,
                        print_or_space_pred(),
                    ),
                decreases c@.len() - e,
            {
                e = e + 1;
            }
            proof {
                assert(run_end(c@, e as int, print_or_space_pred()) == e);
                crate::bytes::lemma_run_end(c@, i as int, print_or_space_pred());
            }
            return Some((i, e));
        }
        i = i + 1;
    }
    None
}

/// Finds the leftmost run of uppercase hexadecimal digits.
fn find_run_hex(c: &[u8]) -> (r: Option<(usize, usize)>)
    ensures
        r is Some <==> find_from(c@, 0, hex_upper_pred()) is Some,
        r matches Some((k, e)) ==> find_from(c@, 0, hex_upper_pred()) == Some(k as int) && e as int
            == run_end(c@, k as int, hex_upper_pred()) && k < e <= c@.len(),
{
    let mut i: usize = 0;
    while i < c.len()
        invariant
            0 <= i <= c@.len(),
            find_from(c@, 0, hex_upper_pred()) == find_from(c@, i as int, hex_upper_pred()),
        decreases c@.len() - i,
    {
        if (0x30 <= c[i] && c[i] <= 0x39) || (0x41 <= c[i] && c[i] <= 0x46) {
            let mut e: usize = i;
            while e < c.len() && ((0x30 <= c[e] && c[e] <= 0x39) || (0x41 <= c[e] && c[e] <= 0x46))
                invariant
                    i <= e <= c@.len(),
                    run_end(c@, i as int, hex_upper_pred()) == run_end(
                        c@,
                        e as int,
                        hex_upper_pred(),
                    ),
                decreases c@.len() - e,
            {
                e = e + 1;
            }
            proof {
                assert(run_end(c@, e as int, hex_upper_pred()) == e);
                crate::bytes::lemma_run_end(c@, i as int, hex_upper_pred());
            }
            return Some((i, e));
        }
        i = i + 1;
    }
    None
}

/// Decodes the value text `c` under the type byte `ty`.
fn parse_val(ty: u8, c: &[u8]) -> (r: Option<OptFieldVal>)
    ensures
        match r {
            Some(v) => spec_decode_val(ty, c@) == Some(v@),
            None => spec_decode_val(ty, c@) is None,
        },
{
    if ty == 0x41 {
        match find_printable_at(c) {
            Some(k) => Some(OptFieldVal::A(c[k])),
            None => None,
        }
    } else if ty == 0x69 {
        match find_int(c) {
            Some((k, e)) => {
                let lex = copy_range(c, k, e);
                match parse_i64_text(lex.as_slice()) {
                    Some(v) => Some(OptFieldVal::Int(v)),
                    None => None,
                }
            },
            None => None,
        }
    } else if ty == 0x66 {
        match find_float(c) {
            Some((k, e)) => Some(OptFieldVal::Float(copy_range(c, k, e))),
            None => None,
        }
    } else if ty == 0x5a || ty == 0x4a {
        match find_run_print_space(c) {
            Some((k, e)) => {
                let piece = copy_range(c, k, e);
                if ty == 0x5a {
                    Some(OptFieldVal::Z(piece))
                } else {
                    Some(OptFieldVal::J(piece))
                }
            },
            None => None,
        }
    } else if ty == 0x48 {
        match find_run_hex(c) {
            Some((k, e)) => {
                let ghost run = c@.subrange(k as int, e as int);
                let mut ns: Vec<u8> = Vec::new();
                let mut i: usize = k;
                proof {
                    crate::bytes::lemma_run_end(c@, k as int, hex_upper_pred());
                    assert(ns@ =~= run.take(0).map_values(|b: u8| hex_val(b)));
                }
                while i < e
                    invariant
                        k <= i <= e <= c@.len(),
                        run == c@.subrange(k as int, e as int),
                        forall|j: int| k <= j < e ==> is_hex_upper(c@[j]),
                        ns@ == run.take(i - k).map_values(|b: u8| hex_val(b)),
                    decreases e - i,
                {
                    let b = c[i];
                    let v: u8 = if b <= 0x39 {
                        b - 0x30
                    } else {
                        b - 0x37
                    };
                    ns.push(v);
                    i = i + 1;
                    proof {
                        assert(run.take(i - k) =~= run.take(i - k - 1).push(c@[i - 1]));
                        assert(ns@ =~= run.take(i - k).map_values(|b: u8| hex_val(b)));
                    }
                }
                proof {
                    assert(run.take(e - k) =~= run);
                }
                Some(OptFieldVal::H(ns))
            },
            None => None,
        }
    } else if ty == 0x42 {
        if c.len() == 0 {
            None
        } else {
            let first = c[0];
            let rest = copy_range(c, 1, c.len());
            proof {
                assert(rest@ =~= c@.skip(1));
            }
            let toks = split_bytes(rest.as_slice(), 0x2c);
            let ghost tviews = spec_split(c@.skip(1), 0x2c);
            proof {
                assert(seq_views(toks@) == tviews);
            }
            if first == 0x66 {
                let mut out: Vec<Vec<u8>> = Vec::new();
                let mut i: usize = 0;
                proof {
                    assert(tviews.take(0) =~= Seq::<Seq<u8>>::empty());
                    assert(seq_views(out@) =~= collect_floats(tviews.take(0)));
                }
                while i < toks.len()
                    invariant
                        0 <= i <= toks@.len(),
                        seq_views(toks@) == tviews,
                        seq_views(out@) == collect_floats(tviews.take(i as int)),
                    decreases toks@.len() - i,
                {
                    let ghost pre = out@;
                    if is_float_token(toks[i].as_slice()) {
                        let t = copy_range(toks[i].as_slice(), 0, toks[i].len());
                        proof {
                            assert(t@ =~= toks@[i as int]@);
                        }
                        out.push(t);
                        proof {
                            assert(seq_views(out@) =~= seq_views(pre).push(toks@[i as int]@));
                        }
                    }
                    i = i + 1;
                    proof {
                        assert(tviews.take(i as int).drop_last() =~= tviews.take(i as int - 1));
                        assert(tviews.take(i as int).last() == tviews[i as int - 1]);
                        assert(tviews[i as int - 1] == toks@[i as int - 1]@);
                        assert(seq_views(out@) =~= collect_floats(tviews.take(i as int)));
                    }
                }
                proof {
                    assert(tviews.take(toks@.len() as int) =~= tviews);
                }
                Some(OptFieldVal::BFloat(out))
            } else {
                let mut out: Vec<i64> = Vec::new();
                let mut i: usize = 0;
                proof {
                    assert(tviews.take(0) =~= Seq::<Seq<u8>>::empty());
                    assert(out@ =~= collect_ints(tviews.take(0)));
                }
                while i < toks.len()
                    invariant
                        0 <= i <= toks@.len(),
                        seq_views(toks@) == tviews,
                        out@ == collect_ints(tviews.take(i as int)),
                    decreases toks@.len() - i,
                {
                    match parse_i64_text(toks[i].as_slice()) {
                        Some(v) => {
                            out.push(v);
                        },
                        None => {},
                    }
                    i = i + 1;
                    proof {
                        assert(tviews.take(i as int).drop_last() =~= tviews.take(i as int - 1));
                        assert(tviews.take(i as int).last() == tviews[i as int - 1]);
                        assert(tviews[i as int - 1] == toks@[i as int - 1]@);
                        assert(out@ =~= collect_ints(tviews.take(i as int)));
                    }
                }
                proof {
                    assert(tviews.take(toks@.len() as int) =~= tviews);
                }
                Some(OptFieldVal::BInt(out))
            }
        }
    } else {
        None
    }
}

impl OptField {
    /// Checks the tag invariant: two bytes, the first alphabetic, the
    /// second alphanumeric.  An invalid tag is a caller error and is
    /// reported, never stored.
    pub fn tag(t: &[u8]) -> (r: Option<[u8; 2]>)
        ensures
            match r {
                Some(tag) => t@.len() == 2 && wf_tag(t@[0], t@[1]) && tag@ =~= t@,
                None => !(t@.len() == 2 && wf_tag(t@[0], t@[1])),
            },
    {
        if t.len() != 2 {
            return None;
        }
        let t0 = t[0];
        let t1 = t[1];
        let alpha0 = (0x41 <= t0 && t0 <= 0x5a) || (0x61 <= t0 && t0 <= 0x7a);
        let alnum1 = (0x41 <= t1 && t1 <= 0x5a) || (0x61 <= t1 && t1 <= 0x7a) || (0x30 <= t1 && t1
            <= 0x39);
        if alpha0 && alnum1 {
            let tag = [t0, t1];
            proof {
                assert(tag@ =~= t@);
            }
            Some(tag)
        } else {
            None
        }
    }

    /// Builds a field from a tag and a value; an invalid tag is refused.
    pub fn new(tag: &[u8], value: OptFieldVal) -> (r: Option<OptField>)
        ensures
            match r {
                Some(f) => tag@.len() == 2 && wf_tag(tag@[0], tag@[1]) && f@ == (OptFieldV {
                    tag0: tag@[0],
                    tag1: tag@[1],
                    value: value@,
                }),
                None => !(tag@.len() == 2 && wf_tag(tag@[0], tag@[1])),
            },
    {
        match Self::tag(tag) {
            Some(t) => Some(OptField { tag: t, value }),
            None => None,
        }
    }

    /// Decodes one `TAG:TYPE:VALUE` token, as `spec_decode` describes.
    pub fn parse(input: &[u8]) -> (r: Option<OptField>)
        ensures
            match r {
                Some(f) => spec_decode(input@) == Some(f@),
                None => spec_decode(input@) is None,
            },
    {
        if input.len() < 5 {
            return None;
        }
        let t0 = input[0];
        let t1 = input[1];
        let alpha0 = (0x41 <= t0 && t0 <= 0x5a) || (0x61 <= t0 && t0 <= 0x7a);
        let alnum1 = (0x41 <= t1 && t1 <= 0x5a) || (0x61 <= t1 && t1 <= 0x7a) || (0x30 <= t1 && t1
            <= 0x39);
        if !(alpha0 && alnum1 && input[2] == 0x3a && input[4] == 0x3a) {
            return None;
        }
        let c = copy_range(input, 5, input.len());
        proof {
            assert(c@ =~= input@.skip(5));
        }
        match parse_val(input[3], c.as_slice()) {
            Some(v) => {
                let f = OptField { tag: [t0, t1], value: v };
                proof {
                    assert(f.tag@ =~= seq![t0, t1]);
                }
                Some(f)
            },
            None => None,
        }
    }

    /// The text of this field, `TAG:TYPE:VALUE`; the exact inverse of
    /// `parse` on well-formed fields.
    pub fn encode(&self) -> (r: Vec<u8>)
        ensures
            r@ == spec_encode(self@),
    {
        let mut out: Vec<u8> = Vec::new();
        self.push_text(&mut out);
        out
    }

    /// Appends the text of this field to `out`.
    pub fn push_text(&self, out: &mut Vec<u8>)
        ensures
            final(out)@ == old(out)@ + spec_encode(self@),
    {
        out.push(self.tag[0]);
        out.push(self.tag[1]);
        out.push(0x3a);
        let ty: u8 = match &self.value {
            OptFieldVal::A(_) => 0x41,
            OptFieldVal::Int(_) => 0x69,
            OptFieldVal::Float(_) => 0x66,
            OptFieldVal::Z(_) => 0x5a,
            OptFieldVal::J(_) => 0x4a,
            OptFieldVal::H(_) => 0x48,
            OptFieldVal::BInt(_) => 0x42,
            OptFieldVal::BFloat(_) => 0x42,
        };
        out.push(ty);
        out.push(0x3a);
        let ghost head = old(out)@ + seq![
            self.tag@[0],
            self.tag@[1],
            0x3au8,
            type_byte(self.value@),
            0x3au8,
        ];
        proof {
            assert(out@ =~= head);
        }
        push_val(&self.value, out);
        proof {
            assert(final(out)@ =~= old(out)@ + spec_encode(self@));
        }
    }
}

/// Appends the value text of `v` to `out`.
fn push_val(v: &OptFieldVal, out: &mut Vec<u8>)
    ensures
        final(out)@ == old(out)@ + spec_encode_val(v@),
{
    match v {
        OptFieldVal::A(x) => {
            out.push(*x);
            proof {
                assert(final(out)@ =~= old(out)@ + spec_encode_val(v@));
            }
        },
        OptFieldVal::Int(x) => {
            push_dec_i64(*x, out);
        },
        OptFieldVal::Float(t) => {
            crate::bytes::push_all(t.as_slice(), out);
        },
        OptFieldVal::Z(t) => {
            crate::bytes::push_all(t.as_slice(), out);
        },
        OptFieldVal::J(t) => {
            crate::bytes::push_all(t.as_slice(), out);
        },
        OptFieldVal::H(ns) => {
            let ghost base = out@;
            let mut i: usize = 0;
            proof {
                assert(out@ =~= base + ns@.take(0).map_values(|n: u8| hex_digit_upper(n)));
            }
            while i < ns.len()
                invariant
                    0 <= i <= ns@.len(),
                    out@ == base + ns@.take(i as int).map_values(|n: u8| hex_digit_upper(n)),
                decreases ns@.len() - i,
            {
                let n = ns[i];
                let d: u8 = if n < 10 {
                    0x30 + n
                } else {
                    #[verifier::truncate] ((0x37u16 + (n as u16)) as u8)
                };
                out.push(d);
                i = i + 1;
                proof {
                    assert(d == hex_digit_upper(ns@[i - 1]));
                    assert(ns@.take(i as int) =~= ns@.take(i as int - 1).push(ns@[i - 1]));
                    assert(ns@.take(i as int).map_values(|n: u8| hex_digit_upper(n)) =~= ns@.take(
                        i as int - 1,
                    ).map_values(|n: u8| hex_digit_upper(n)).push(hex_digit_upper(ns@[i - 1])));
                    assert(out@ =~= base + ns@.take(i as int).map_values(
                        |n: u8| hex_digit_upper(n),
                    ));
                }
            }
            proof {
                assert(ns@.take(ns@.len() as int) =~= ns@);
            }
        },
        OptFieldVal::BInt(xs) => {
            out.push(0x49);
            let ghost base = out@;
            let ghost pieces = xs@.map_values(|x: i64| spec_dec_int(x as int));
            let mut i: usize = 0;
            proof {
                assert(out@ =~= base + spec_join(pieces.take(0), 0x2c));
            }
            while i < xs.len()
                invariant
                    0 <= i <= xs@.len(),
                    pieces == xs@.map_values(|x: i64| spec_dec_int(x as int)),
                    out@ == base + spec_join(pieces.take(i as int), 0x2c),
                decreases xs@.len() - i,
            {
                if i > 0 {
                    out.push(0x2c);
                }
                push_dec_i64(xs[i], out);
                i = i + 1;
                proof {
                    assert(pieces.take(i as int) =~= pieces.take(i as int - 1).push(
                        pieces[i as int - 1],
                    ));
                    if i > 1 {
                        crate::bytes::lemma_join_push(pieces.take(i as int - 1), pieces[i as int - 1], 0x2c);
                    }
                    assert(out@ =~= base + spec_join(pieces.take(i as int), 0x2c));
                }
            }
            proof {
                assert(pieces.take(xs@.len() as int) =~= pieces);
                assert(final(out)@ =~= old(out)@ + spec_encode_val(v@));
            }
        },
        OptFieldVal::BFloat(ts) => {
            out.push(0x66);
            let ghost base = out@;
            let ghost pieces = seq_views(ts@);
            let mut i: usize = 0;
            proof {
                assert(out@ =~= base + spec_join(pieces.take(0), 0x2c));
            }
            while i < ts.len()
                invariant
                    0 <= i <= ts@.len(),
                    pieces == seq_views(ts@),
                    out@ == base + spec_join(pieces.take(i as int), 0x2c),
                decreases ts@.len() - i,
            {
                if i > 0 {
                    out.push(0x2c);
                }
                crate::bytes::push_all(ts[i].as_slice(), out);
                i = i + 1;
                proof {
                    assert(pieces.take(i as int) =~= pieces.take(i as int - 1).push(
                        pieces[i as int - 1],
                    ));
                    if i > 1 {
                        crate::bytes::lemma_join_push(pieces.take(i as int - 1), pieces[i as int - 1], 0x2c);
                    }
                    assert(out@ =~= base + spec_join(pieces.take(i as int), 0x2c));
                }
            }
            proof {
                assert(pieces.take(ts@.len() as int) =~= pieces);
                assert(final(out)@ =~= old(out)@ + spec_encode_val(v@));
            }
        },
    }
}

/// Index of the first field carrying the tag `(t0, t1)`.
pub open spec fn first_with_tag(fields: Seq<OptFieldV>, t0: u8, t1: u8) -> Option<int>
    decreases fields.len(),
{
    if fields.len() == 0 {
        None
    } else if fields[0].tag0 == t0 && fields[0].tag1 == t1 {
        Some(0)
    } else {
        match first_with_tag(fields.skip(1), t0, t1) {
            Some(i) => Some(i + 1),
            None => None,
        }
    }
}

pub proof fn lemma_first_with_tag(fields: Seq<OptFieldV>, t0: u8, t1: u8)
    ensures
        match first_with_tag(fields, t0, t1) {
            Some(i) => 0 <= i < fields.len() && fields[i].tag0 == t0 && fields[i].tag1 == t1
                && forall|j: int| 0 <= j < i ==> !(#[trigger] fields[j].tag0 == t0 && fields[j].tag1
                == t1),
            None => forall|j: int|
                0 <= j < fields.len() ==> !(#[trigger] fields[j].tag0 == t0 && fields[j].tag1
                    == t1),
        },
    decreases fields.len(),
{
    if fields.len() > 0 && !(fields[0].tag0 == t0 && fields[0].tag1 == t1) {
        lemma_first_with_tag(fields.skip(1), t0, t1);
        let rest = fields.skip(1);
        match first_with_tag(rest, t0, t1) {
            Some(i) => {
                assert(fields[i + 1] == rest[i]);
                assert forall|j: int| 0 <= j < i + 1 implies !(#[trigger] fields[j].tag0 == t0
                    && fields[j].tag1 == t1) by {
                    if j > 0 {
                        assert(rest[j - 1] == fields[j]);
                        assert(!(rest[j - 1].tag0 == t0 && rest[j - 1].tag1 == t1));
                    }
                }
            },
            None => {
                assert forall|j: int| 0 <= j < fields.len() implies !(#[trigger] fields[j].tag0
                    == t0 && fields[j].tag1 == t1) by {
                    if j > 0 {
                        assert(rest[j - 1] == fields[j]);
                        assert(!(rest[j - 1].tag0 == t0 && rest[j - 1].tag1 == t1));
                    }
                }
            },
        }
    }
}

/// How optional fields are parsed, stored and queried.  Every record kind
/// is generic over the store, so a caller chooses between keeping the
/// fields and skipping them without touching the grammar logic.  The two
/// proof obligations tie each store into the round-trip law: whatever a
/// store can hold comes back unchanged from parsing its own encoded text.
pub trait OptFields: Sized {
    /// The fields this store holds, in order.
    spec fn spec_fields(&self) -> Seq<OptFieldV>;

    /// Which field sequences a value of this store can hold.
    spec fn can_hold(fields: Seq<OptFieldV>) -> bool;

    /// What `parse` keeps of a run of tokens.
    spec fn spec_from_tokens(toks: Seq<Seq<u8>>) -> Seq<OptFieldV>;

    /// Every store value holds a sequence it can hold.
    proof fn lemma_fields_can_hold(&self)
        ensures
            Self::can_hold(self.spec_fields()),
    ;

    /// The storage round trip: parsing the encoded texts of well-formed
    /// fields that this store can hold gives exactly those fields.
    proof fn lemma_from_tokens_encoded(fields: Seq<OptFieldV>)
        requires
            Self::can_hold(fields),
            forall|i: int| 0 <= i < fields.len() ==> wf_field(#[trigger] fields[i]),
        ensures
            Self::spec_from_tokens(fields.map_values(|f: OptFieldV| spec_encode(f))) == fields,
    ;

    /// Whatever the store keeps of any run of tokens is well-formed:
    /// parsed stores hold constructible fields only.
    proof fn lemma_from_tokens_wf(toks: Seq<Seq<u8>>)
        ensures
            forall|i: int|
                0 <= i < Self::spec_from_tokens(toks).len() ==> wf_field(
                    #[trigger] Self::spec_from_tokens(toks)[i],
                ),
    ;

    /// A store with no fields.
    fn empty() -> (r: Self)
        ensures
            r.spec_fields() == Seq::<OptFieldV>::empty(),
    ;

    /// The first stored field whose tag equals `tag`, if any.
    fn get_field(&self, tag: &[u8]) -> (r: Option<&OptField>)
        ensures
            ({
                let idx = if tag@.len() == 2 {
                    first_with_tag(self.spec_fields(), tag@[0], tag@[1])
                } else {
                    None
                };
                match r {
                    Some(f) => idx is Some && f@ == self.spec_fields()[idx->Some_0],
                    None => idx is None,
                }
            }),
    ;

    /// All stored fields, in order.
    fn fields(&self) -> (r: &[OptField])
        ensures
            r@.map_values(|f: OptField| f@) == self.spec_fields(),
    ;

    /// Decodes the tokens from `start` on and stores what this store
    /// keeps.  A token that decodes to nothing is dropped without failing:
    /// a malformed optional field never aborts the record around it.
    fn parse(toks: &Vec<Vec<u8>>, start: usize) -> (r: Self)
        requires
            start <= toks@.len(),
        ensures
            r.spec_fields() == Self::spec_from_tokens(seq_views(toks@).skip(start as int)),
    ;
}

/// The store that keeps every decoded field, in arrival order.
pub type OptionalFields = Vec<OptField>;

/// The store that drops all optional fields, at no memory cost.
pub type NoOptionalFields = ();

impl OptFields for () {
    open spec fn spec_fields(&self) -> Seq<OptFieldV> {
        Seq::empty()
    }

    open spec fn can_hold(fields: Seq<OptFieldV>) -> bool {
        fields.len() == 0
    }

    open spec fn spec_from_tokens(toks: Seq<Seq<u8>>) -> Seq<OptFieldV> {
        Seq::empty()
    }

    proof fn lemma_fields_can_hold(&self) {
    }

    proof fn lemma_from_tokens_encoded(fields: Seq<OptFieldV>) {
        assert(fields =~= Seq::<OptFieldV>::empty());
    }

    proof fn lemma_from_tokens_wf(toks: Seq<Seq<u8>>) {
    }

    fn empty() -> (r: Self) {
    }

    fn get_field(&self, tag: &[u8]) -> (r: Option<&OptField>) {
        None
    }

    fn fields(&self) -> (r: &[OptField]) {
        proof {
            assert(Seq::<OptField>::empty().map_values(|f: OptField| f@) =~= Seq::<
                OptFieldV,
            >::empty());
        }
        &[]
    }

    fn parse(toks: &Vec<Vec<u8>>, start: usize) -> (r: Self) {
    }
}

impl OptFields for Vec<OptField> {
    open spec fn spec_fields(&self) -> Seq<OptFieldV> {
        self@.map_values(|f: OptField| f@)
    }

    open spec fn can_hold(fields: Seq<OptFieldV>) -> bool {
        true
    }

    open spec fn spec_from_tokens(toks: Seq<Seq<u8>>) -> Seq<OptFieldV> {
        collect_fields(toks)
    }

    proof fn lemma_fields_can_hold(&self) {
    }

    proof fn lemma_from_tokens_encoded(fields: Seq<OptFieldV>) {
        lemma_collect_encoded(fields);
    }

    proof fn lemma_from_tokens_wf(toks: Seq<Seq<u8>>) {
        lemma_collect_fields_wf(toks);
    }

    fn empty() -> (r: Self) {
        let r: Vec<OptField> = Vec::new();
        proof {
            assert(r@.map_values(|f: OptField| f@) =~= Seq::<OptFieldV>::empty());
        }
        r
    }

    fn get_field(&self, tag: &[u8]) -> (r: Option<&OptField>) {
        let ghost fs = self.spec_fields();
        if tag.len() != 2 {
            return None;
        }
        proof {
            lemma_first_with_tag(fs, tag@[0], tag@[1]);
        }
        let mut i: usize = 0;
        while i < self.len()
            invariant
                0 <= i <= self@.len(),
                fs == self@.map_values(|f: OptField| f@),
                tag@.len() == 2,
                forall|j: int| 0 <= j < i ==> !(#[trigger] fs[j].tag0 == tag@[0] && fs[j].tag1
                    == tag@[1]),
            decreases self@.len() - i,
        {
            let f = &self[i];
            if f.tag[0] == tag[0] && f.tag[1] == tag[1] {
                proof {
                    assert(fs[i as int] == self@[i as int]@);
                    lemma_first_with_tag_prefix(fs, tag@[0], tag@[1], i as int);
                }
                return Some(f);
            }
            proof {
                assert(fs[i as int] == self@[i as int]@);
            }
            i = i + 1;
        }
        None
    }

    fn fields(&self) -> (r: &[OptField]) {
        self.as_slice()
    }

    fn parse(toks: &Vec<Vec<u8>>, start: usize) -> (r: Self) {
        let ghost all = seq_views(toks@).skip(start as int);
        let mut out: Vec<OptField> = Vec::new();
        let mut i: usize = start;
        proof {
            assert(all.take(0) =~= Seq::<Seq<u8>>::empty());
            assert(out@.map_values(|f: OptField| f@) =~= collect_fields(all.take(0)));
        }
        while i < toks.len()
            invariant
                start <= i <= toks@.len(),
                all == seq_views(toks@).skip(start as int),
                out@.map_values(|f: OptField| f@) == collect_fields(all.take(i - start)),
            decreases toks@.len() - i,
        {
            let ghost pre = out@;
            match OptField::parse(toks[i].as_slice()) {
                Some(f) => {
                    out.push(f);
                    proof {
                        assert(out@.map_values(|g: OptField| g@) =~= pre.map_values(
                            |g: OptField| g@,
                        ).push(out@.last()@));
                    }
                },
                None => {},
            }
            i = i + 1;
            proof {
                assert(all.take(i - start).drop_last() =~= all.take(i - start - 1));
                assert(all.take(i - start).last() == all[i - start - 1]);
                assert(all[i - start - 1] == toks@[i - 1]@);
                assert(out@.map_values(|f: OptField| f@) =~= collect_fields(all.take(i - start)));
            }
        }
        proof {
            assert(all.take(toks@.len() - start) =~= all);
        }
        out
    }
}

/// Where the first `i` fields miss the tag and field `i` carries it, the
/// first carrier is `i` itself.
proof fn lemma_first_with_tag_prefix(fields: Seq<OptFieldV>, t0: u8, t1: u8, i: int)
    requires
        0 <= i < fields.len(),
        fields[i].tag0 == t0 && fields[i].tag1 == t1,
        forall|j: int| 0 <= j < i ==> !(#[trigger] fields[j].tag0 == t0 && fields[j].tag1 == t1),
    ensures
        first_with_tag(fields, t0, t1) == Some(i),
{
    lemma_first_with_tag(fields, t0, t1);
    match first_with_tag(fields, t0, t1) {
        Some(k) => {
            if k < i {
                assert(!(fields[k].tag0 == t0 && fields[k].tag1 == t1));
            }
            if k > i {
                assert(!(fields[i].tag0 == t0 && fields[i].tag1 == t1));
            }
        },
        None => {
            assert(!(fields[i].tag0 == t0 && fields[i].tag1 == t1));
        },
    }
}

/// Integer array elements encode to tokens that parse back to themselves.
proof fn lemma_collect_ints_encoded(xs: Seq<i64>)
    ensures
        collect_ints(xs.map_values(|x: i64| spec_dec_int(x as int))) == xs,
    decreases xs.len(),
{
    let ps = xs.map_values(|x: i64| spec_dec_int(x as int));
    if xs.len() == 0 {
        assert(ps =~= Seq::<Seq<u8>>::empty());
        assert(collect_ints(ps) =~= xs);
    } else {
        lemma_collect_ints_encoded(xs.drop_last());
        assert(ps.drop_last() =~= xs.drop_last().map_values(|x: i64| spec_dec_int(x as int)));
        assert(ps.last() == spec_dec_int(xs.last() as int));
        crate::numbers::lemma_parse_dec_int(xs.last() as int);
        assert(spec_parse_i64(ps.last()) == Some(xs.last()));
        assert(collect_ints(ps) == collect_ints(ps.drop_last()).push(xs.last()));
        assert(xs.drop_last().push(xs.last()) =~= xs);
    }
}

/// Float array elements that are whole lexemes are all kept.
proof fn lemma_collect_floats_lexemes(ts: Seq<Seq<u8>>)
    requires
        forall|i: int| 0 <= i < ts.len() ==> is_float_lexeme(#[trigger] ts[i]),
    ensures
        collect_floats(ts) == ts,
    decreases ts.len(),
{
    if ts.len() > 0 {
        lemma_collect_floats_lexemes(ts.drop_last());
        assert(is_float_lexeme(ts.last()));
        assert(ts.drop_last().push(ts.last()) =~= ts);
    }
}

/// A run of byte-class facts: where `p` holds of every byte that the run
/// admits, the leftmost run is the whole sequence.
proof fn lemma_whole_run(c: Seq<u8>, p: spec_fn(u8) -> bool)
    requires
        c.len() >= 1,
        forall|i: int| 0 <= i < c.len() ==> p(#[trigger] c[i]),
    ensures
        find_from(c, 0, p) == Some(0int),
        run_end(c, 0, p) == c.len() as int,
{
    crate::bytes::lemma_run_end(c, 0, p);
    let e = run_end(c, 0, p);
    if e < c.len() {
        assert(p(c[e]));
        assert(false);
    }
}

/// Decoding the value text of a well-formed value yields the value.
proof fn lemma_decode_val_encode(v: OptFieldValV)
    requires
        wf_val(v),
    ensures
        spec_decode_val(type_byte(v), spec_encode_val(v)) == Some(v),
{
    let c = spec_encode_val(v);
    match v {
        OptFieldValV::A(x) => {
            assert(c[0] == x);
            assert(printable_pred()(c[0]));
            assert(find_from(c, 0, printable_pred()) == Some(0int));
        },
        OptFieldValV::Int(x) => {
            crate::numbers::lemma_parse_dec_int(x as int);
            crate::numbers::lemma_dec_int_bytes(x as int);
            crate::numbers::lemma_dec_digits(if x < 0 {
                (-(x as int)) as nat
            } else {
                x as nat
            });
            if x < 0 {
                assert(c[0] == 0x2du8);
                assert(c[1] == dec_digits((-(x as int)) as nat)[0]);
                assert(is_digit(c[1]));
                assert(crate::numbers::int_match_at(c, 0));
                assert(crate::numbers::find_int_start(c, 0) == Some(0int));
                crate::bytes::lemma_run_end(c, 1, crate::bytes::digit_pred());
                let e = run_end(c, 1, crate::bytes::digit_pred());
                assert(forall|i: int| 1 <= i < c.len() ==> is_digit(#[trigger] c[i]));
                if e < c.len() {
                    assert(crate::bytes::digit_pred()(c[e]));
                    assert(false);
                }
                assert(!is_digit(c[0]));
                assert(int_match_end(c, 0) == c.len());
            } else {
                assert(c == dec_digits(x as nat));
                assert(is_digit(c[0]));
                assert(crate::numbers::find_int_start(c, 0) == Some(0int));
                crate::bytes::lemma_run_end(c, 0, crate::bytes::digit_pred());
                let e = run_end(c, 0, crate::bytes::digit_pred());
                assert(forall|i: int| 0 <= i < c.len() ==> is_digit(#[trigger] c[i]));
                if e < c.len() {
                    assert(crate::bytes::digit_pred()(c[e]));
                    assert(false);
                }
                assert(int_match_end(c, 0) == c.len());
            }
            assert(spec_find_int(c) == Some((0int, c.len() as int)));
            assert(c.subrange(0, c.len() as int) =~= c);
        },
        OptFieldValV::Float(t) => {
            crate::float_text::lemma_find_float_whole(t);
            assert(c.subrange(0, c.len() as int) =~= c);
        },
        OptFieldValV::Z(t) => {
            assert forall|i: int| 0 <= i < c.len() implies print_or_space_pred()(#[trigger] c[i]) by {
                assert(is_print_or_space(t[i]));
            }
            lemma_whole_run(c, print_or_space_pred());
            assert(c.subrange(0, c.len() as int) =~= c);
        },
        OptFieldValV::J(t) => {
            assert forall|i: int| 0 <= i < c.len() implies print_or_space_pred()(#[trigger] c[i]) by {
                assert(is_print_or_space(t[i]));
            }
            lemma_whole_run(c, print_or_space_pred());
            assert(c.subrange(0, c.len() as int) =~= c);
        },
        OptFieldValV::H(ns) => {
            assert forall|i: int| 0 <= i < c.len() implies hex_upper_pred()(#[trigger] c[i]) by {
                assert(c[i] == hex_digit_upper(ns[i]));
                assert(ns[i] < 16);
            }
            lemma_whole_run(c, hex_upper_pred());
            let piece = c.subrange(0, run_end(c, 0, hex_upper_pred()));
            assert(piece =~= c);
            assert(piece.map_values(|b: u8| hex_val(b)) =~= ns) by {
                assert forall|i: int| 0 <= i < c.len() implies c.map_values(|b: u8| hex_val(b))[i]
                    == ns[i] by {
                    assert(c[i] == hex_digit_upper(ns[i]));
                    assert(ns[i] < 16);
                    assert(hex_val(hex_digit_upper(ns[i])) == ns[i]);
                }
            }
        },
        OptFieldValV::BInt(xs) => {
            let ps = xs.map_values(|x: i64| spec_dec_int(x as int));
            assert(c[0] == 0x49u8);
            assert(c.len() >= 1);
            assert(c.skip(1) =~= spec_join(ps, 0x2c));
            if xs.len() == 0 {
                assert(ps =~= Seq::<Seq<u8>>::empty());
                assert(spec_join(ps, 0x2c) =~= Seq::<u8>::empty());
                let toks = spec_split(c.skip(1), 0x2c);
                assert(toks =~= seq![Seq::<u8>::empty()]);
                assert(toks.drop_last() =~= Seq::<Seq<u8>>::empty());
                assert(spec_parse_i64(toks.last()) is None);
                assert(collect_ints(Seq::<Seq<u8>>::empty()) == Seq::<i64>::empty());
                assert(collect_ints(toks) =~= xs);
            } else {
                assert forall|i: int| 0 <= i < ps.len() implies !has_byte(#[trigger] ps[i], 0x2c) by {
                    crate::numbers::lemma_dec_int_bytes(xs[i] as int);
                    assert(ps[i] == spec_dec_int(xs[i] as int));
                    assert forall|j: int| 0 <= j < ps[i].len() implies ps[i][j] != 0x2c by {
                        assert(is_digit(ps[i][j]) || (j == 0 && ps[i][j] == 0x2du8));
                    }
                }
                crate::bytes::lemma_split_join(ps, 0x2c);
                lemma_collect_ints_encoded(xs);
            }
        },
        OptFieldValV::BFloat(ts) => {
            assert(c[0] == 0x66u8);
            assert(c.len() >= 1);
            assert(c.skip(1) =~= spec_join(ts, 0x2c));
            if ts.len() == 0 {
                assert(ts =~= Seq::<Seq<u8>>::empty());
                assert(spec_join(ts, 0x2c) =~= Seq::<u8>::empty());
                let toks = spec_split(c.skip(1), 0x2c);
                assert(toks =~= seq![Seq::<u8>::empty()]);
                assert(toks.drop_last() =~= Seq::<Seq<u8>>::empty());
                assert(!is_float_lexeme(toks.last()));
                assert(collect_floats(Seq::<Seq<u8>>::empty()) == Seq::<Seq<u8>>::empty());
                assert(collect_floats(toks) =~= ts);
            } else {
                assert forall|i: int| 0 <= i < ts.len() implies !has_byte(#[trigger] ts[i], 0x2c) by {
                    crate::float_text::lemma_float_lexeme_chars(ts[i]);
                    assert forall|j: int| 0 <= j < ts[i].len() implies ts[i][j] != 0x2c by {
                        assert(is_float_char(ts[i][j]));
                    }
                }
                crate::bytes::lemma_split_join(ts, 0x2c);
                lemma_collect_floats_lexemes(ts);
            }
        },
    }
}

/// The round-trip law of the codec: decoding the text of any well-formed
/// optional field yields exactly that field.
pub proof fn lemma_decode_encode(f: OptFieldV)
    requires
        wf_field(f),
    ensures
        spec_decode(spec_encode(f)) == Some(f),
{
    let s = spec_encode(f);
    let head = seq![f.tag0, f.tag1, 0x3au8, type_byte(f.value), 0x3au8];
    assert(s.len() == 5 + spec_encode_val(f.value).len());
    assert(s[0] == f.tag0);
    assert(s[1] == f.tag1);
    assert(s[2] == 0x3au8);
    assert(s[3] == type_byte(f.value));
    assert(s[4] == 0x3au8);
    assert(s.skip(5) =~= spec_encode_val(f.value));
    lemma_decode_val_encode(f.value);
}

/// The leniency law of the token run: one token that decodes to nothing
/// falls out, and the remaining tokens decode as if it were never there.
pub proof fn lemma_lenient_token(pre: Seq<Seq<u8>>, bad: Seq<u8>, post: Seq<Seq<u8>>)
    requires
        spec_decode(bad) is None,
    ensures
        collect_fields(pre + seq![bad] + post) == collect_fields(pre + post),
    decreases post.len(),
{
    if post.len() == 0 {
        assert(pre + seq![bad] + post =~= pre + seq![bad]);
        assert((pre + seq![bad]).drop_last() =~= pre);
        assert((pre + seq![bad]).last() == bad);
        assert(pre + post =~= pre);
    } else {
        let all = pre + seq![bad] + post;
        assert(all.drop_last() =~= pre + seq![bad] + post.drop_last());
        assert(all.last() == post.last());
        lemma_lenient_token(pre, bad, post.drop_last());
        assert((pre + post).drop_last() =~= pre + post.drop_last());
        assert((pre + post).last() == post.last());
        assert((pre + post).len() >= 1);
    }
}

/// Well-formed fields encode to tokens that decode back to themselves, a
/// token at a time.
pub proof fn lemma_collect_encoded(fields: Seq<OptFieldV>)
    requires
        forall|i: int| 0 <= i < fields.len() ==> wf_field(#[trigger] fields[i]),
    ensures
        collect_fields(fields.map_values(|f: OptFieldV| spec_encode(f))) == fields,
    decreases fields.len(),
{
    let toks = fields.map_values(|f: OptFieldV| spec_encode(f));
    if fields.len() == 0 {
        assert(toks =~= Seq::<Seq<u8>>::empty());
        assert(collect_fields(toks) =~= fields);
    } else {
        lemma_collect_encoded(fields.drop_last());
        assert(toks.drop_last() =~= fields.drop_last().map_values(|f: OptFieldV| spec_encode(f)));
        assert(toks.last() == spec_encode(fields.last()));
        lemma_decode_encode(fields.last());
        assert(collect_fields(toks) == collect_fields(toks.drop_last()).push(fields.last()));
        assert(fields.drop_last().push(fields.last()) =~= fields);
    }
}

/// Float array elements that the decoder keeps are whole float lexemes.
proof fn lemma_collect_floats_wf(toks: Seq<Seq<u8>>)
    ensures
        forall|i: int|
            0 <= i < collect_floats(toks).len() ==> is_float_lexeme(
                #[trigger] collect_floats(toks)[i],
            ),
    decreases toks.len(),
{
    if toks.len() > 0 {
        lemma_collect_floats_wf(toks.drop_last());
        let rest = collect_floats(toks.drop_last());
        assert forall|i: int| 0 <= i < collect_floats(toks).len() implies is_float_lexeme(
            #[trigger] collect_floats(toks)[i],
        ) by {
            if i < rest.len() {
                assert(collect_floats(toks)[i] == rest[i]);
            }
        }
    }
}

/// Every field the decoder produces is well-formed: a parsed field is a
/// constructible value, so the round-trip law applies to it.
pub proof fn lemma_decode_wf(s: Seq<u8>)
    ensures
        spec_decode(s) matches Some(f) ==> wf_field(f),
{
    if s.len() >= 5 && wf_tag(s[0], s[1]) && s[2] == 0x3au8 && s[4] == 0x3au8 {
        let t = s[3];
        let c = s.skip(5);
        if t == 0x41u8 {
            crate::bytes::lemma_find_from(c, 0, printable_pred());
        } else if t == 0x66u8 {
            match spec_find_float(c) {
                Some((k, e)) => {
                    crate::float_text::lemma_find_float_start(c, 0);
                    crate::float_text::lemma_float_match_subrange(c, k, e);
                },
                None => {},
            }
        } else if t == 0x5au8 || t == 0x4au8 {
            match find_from(c, 0, print_or_space_pred()) {
                Some(k) => {
                    crate::bytes::lemma_find_from(c, 0, print_or_space_pred());
                    crate::bytes::lemma_run_end(c, k, print_or_space_pred());
                    let e = run_end(c, k, print_or_space_pred());
                    assert(e > k);
                    let piece = c.subrange(k, e);
                    assert forall|i: int| 0 <= i < piece.len() implies is_print_or_space(
                        #[trigger] piece[i],
                    ) by {
                        assert(piece[i] == c[k + i]);
                        assert(print_or_space_pred()(c[k + i]));
                    }
                },
                None => {},
            }
        } else if t == 0x48u8 {
            match find_from(c, 0, hex_upper_pred()) {
                Some(k) => {
                    crate::bytes::lemma_find_from(c, 0, hex_upper_pred());
                    crate::bytes::lemma_run_end(c, k, hex_upper_pred());
                    let e = run_end(c, k, hex_upper_pred());
                    assert(e > k);
                    let ns = c.subrange(k, e).map_values(|b: u8| hex_val(b));
                    assert forall|i: int| 0 <= i < ns.len() implies #[trigger] ns[i] < 16 by {
                        assert(c.subrange(k, e)[i] == c[k + i]);
                        assert(hex_upper_pred()(c[k + i]));
                        assert(is_hex_upper(c[k + i]));
                    }
                },
                None => {},
            }
        } else if t == 0x42u8 {
            if c.len() > 0 && c[0] == 0x66u8 {
                lemma_collect_floats_wf(spec_split(c.skip(1), 0x2cu8));
            }
        }
    }
}

/// Every field a run of tokens decodes to is well-formed.
pub proof fn lemma_collect_fields_wf(toks: Seq<Seq<u8>>)
    ensures
        forall|i: int|
            0 <= i < collect_fields(toks).len() ==> wf_field(#[trigger] collect_fields(toks)[i]),
    decreases toks.len(),
{
    if toks.len() > 0 {
        lemma_collect_fields_wf(toks.drop_last());
        lemma_decode_wf(toks.last());
        let rest = collect_fields(toks.drop_last());
        assert forall|i: int| 0 <= i < collect_fields(toks).len() implies wf_field(
            #[trigger] collect_fields(toks)[i],
        ) by {
            if i < rest.len() {
                assert(collect_fields(toks)[i] == rest[i]);
            }
        }
    }
}

/// Every byte of a well-formed field's text is visible ASCII or a space;
/// in particular the text holds no tab and no line break, so fields can
/// stand as fields of a tab-delimited line.
pub proof fn lemma_encode_bytes(f: OptFieldV)
    requires
        wf_field(f),
    ensures
        forall|x: int|
            0 <= x < spec_encode(f).len() ==> is_print_or_space(#[trigger] spec_encode(f)[x]),
{
    let s = spec_encode(f);
    let c = spec_encode_val(f.value);
    assert forall|x: int| 0 <= x < c.len() implies is_print_or_space(#[trigger] c[x]) by {
        match f.value {
            OptFieldValV::A(_) => {},
            OptFieldValV::Int(v) => {
                crate::numbers::lemma_dec_int_bytes(v as int);
                assert(is_digit(c[x]) || c[x] == 0x2du8);
            },
            OptFieldValV::Float(t) => {
                crate::float_text::lemma_float_lexeme_chars(t);
                assert(is_float_char(c[x]));
            },
            OptFieldValV::Z(t) => {},
            OptFieldValV::J(t) => {},
            OptFieldValV::H(ns) => {
                assert(c[x] == hex_digit_upper(ns[x]));
                assert(ns[x] < 16);
            },
            OptFieldValV::BInt(xs) => {
                let ps = xs.map_values(|y: i64| spec_dec_int(y as int));
                assert forall|i: int, j: int|
                    0 <= i < ps.len() && 0 <= j < ps[i].len() implies print_or_space_pred()(
                    #[trigger] ps[i][j],
                ) by {
                    crate::numbers::lemma_dec_int_bytes(xs[i] as int);
                    assert(ps[i] == spec_dec_int(xs[i] as int));
                    assert(is_digit(ps[i][j]) || ps[i][j] == 0x2du8);
                }
                crate::bytes::lemma_join_bytes(ps, 0x2c, print_or_space_pred());
                if x > 0 {
                    assert(c[x] == spec_join(ps, 0x2c)[x - 1]);
                    assert(print_or_space_pred()(c[x]));
                }
            },
            OptFieldValV::BFloat(ts) => {
                assert forall|i: int, j: int|
                    0 <= i < ts.len() && 0 <= j < ts[i].len() implies print_or_space_pred()(
                    #[trigger] ts[i][j],
                ) by {
                    crate::float_text::lemma_float_lexeme_chars(ts[i]);
                    assert(is_float_char(ts[i][j]));
                }
                crate::bytes::lemma_join_bytes(ts, 0x2c, print_or_space_pred());
                if x > 0 {
                    assert(c[x] == spec_join(ts, 0x2c)[x - 1]);
                    assert(print_or_space_pred()(c[x]));
                }
            },
        }
    }
    assert forall|x: int| 0 <= x < s.len() implies is_print_or_space(#[trigger] s[x]) by {
        if x >= 5 {
            assert(s[x] == c[x - 5]);
        }
    }
}

} // verus!
