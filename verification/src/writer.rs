//! The writer: the exact inverse of the line grammar.  Each record is
//! emitted as its marker byte and fixed fields, tab-separated, then its
//! optional fields in stored order, each rendered by the codec and
//! preceded by a tab.  The `lemma_write_parse_*` laws prove that parsing a
//! written line recovers the record, for every well-formed record whose
//! fields its store can hold.

use crate::bytes::{
    has_byte, is_print_or_space, is_printable, push_all, seq_views, spec_join, spec_split,
};
use crate::gfa::{
    is_sequence_char, wf_containment, wf_fields, wf_header, wf_link, wf_name, wf_path, wf_segment,
    Containment, ContainmentV, Header, HeaderV, Line, LineV, Link, LinkV, Orientation, Path,
    PathV, Segment, SegmentV, GFA, GFAV,
};
use crate::numbers::{dec_digits, push_dec_usize};
use crate::optfields::{
    spec_encode, wf_field, OptField, OptFieldV, OptFieldValV, OptFields, lemma_decode_encode,
    lemma_encode_bytes,
};
use crate::parser::{
    spec_enabled, spec_parse_containment, spec_parse_header, spec_parse_line, spec_parse_link,
    spec_parse_name, spec_parse_path, spec_parse_segment, spec_parse_sequence, GFAParsingConfig,
};
use vstd::prelude::*;

verus! {

/// The view of an optional version field.
pub open spec fn opt_bytes_view(v: Option<Vec<u8>>) -> Option<Seq<u8>> {
    match v {
        Some(x) => Some(x@),
        None => None,
    }
}

/// The text of a run of optional fields: each preceded by a tab, in order.
pub open spec fn spec_write_opt_fields(fs: Seq<OptFieldV>) -> Seq<u8>
    decreases fs.len(),
{
    if fs.len() == 0 {
        Seq::empty()
    } else {
        spec_write_opt_fields(fs.drop_last()) + seq![0x09u8] + spec_encode(fs.last())
    }
}

/// A header line: the marker alone, or the marker and the version field.
pub open spec fn spec_write_header(version: Option<Seq<u8>>) -> Seq<u8> {
    match version {
        Some(v) => seq![0x48u8, 0x09u8, 0x56u8, 0x4eu8, 0x3au8, 0x5au8, 0x3au8] + v,
        None => seq![0x48u8],
    }
}

/// The fixed fields of a segment line.
pub open spec fn segment_tokens(s: SegmentV) -> Seq<Seq<u8>> {
    seq![seq![0x53u8], s.name, s.sequence]
}

pub open spec fn spec_write_segment(s: SegmentV) -> Seq<u8> {
    spec_join(segment_tokens(s), 0x09u8) + spec_write_opt_fields(s.optional)
}

/// The fixed fields of a link line.
pub open spec fn link_tokens(l: LinkV) -> Seq<Seq<u8>> {
    seq![
        seq![0x4cu8],
        l.from_segment,
        seq![l.from_orient.spec_byte()],
        l.to_segment,
        seq![l.to_orient.spec_byte()],
        l.overlap,
    ]
}

pub open spec fn spec_write_link(l: LinkV) -> Seq<u8> {
    spec_join(link_tokens(l), 0x09u8) + spec_write_opt_fields(l.optional)
}

/// The fixed fields of a containment line.
pub open spec fn containment_tokens(c: ContainmentV) -> Seq<Seq<u8>> {
    seq![
        seq![0x43u8],
        c.container_name,
        seq![c.container_orient.spec_byte()],
        c.contained_name,
        seq![c.contained_orient.spec_byte()],
        dec_digits(c.pos as nat),
        c.overlap,
    ]
}

pub open spec fn spec_write_containment(c: ContainmentV) -> Seq<u8> {
    spec_join(containment_tokens(c), 0x09u8) + spec_write_opt_fields(c.optional)
}

/// The fixed fields of a path line; the overlaps are comma-joined into
/// their one field.
pub open spec fn path_tokens(p: PathV) -> Seq<Seq<u8>> {
    seq![seq![0x50u8], p.path_name, p.segment_names, spec_join(p.overlaps, 0x2cu8)]
}

pub open spec fn spec_write_path(p: PathV) -> Seq<u8> {
    spec_join(path_tokens(p), 0x09u8) + spec_write_opt_fields(p.optional)
}

pub open spec fn spec_write_segments(ss: Seq<SegmentV>) -> Seq<u8>
    decreases ss.len(),
{
    if ss.len() == 0 {
        Seq::empty()
    } else {
        spec_write_segments(ss.drop_last()) + spec_write_segment(ss.last()) + seq![0x0au8]
    }
}

pub open spec fn spec_write_paths(ps: Seq<PathV>) -> Seq<u8>
    decreases ps.len(),
{
    if ps.len() == 0 {
        Seq::empty()
    } else {
        spec_write_paths(ps.drop_last()) + spec_write_path(ps.last()) + seq![0x0au8]
    }
}

pub open spec fn spec_write_links(ls: Seq<LinkV>) -> Seq<u8>
    decreases ls.len(),
{
    if ls.len() == 0 {
        Seq::empty()
    } else {
        spec_write_links(ls.drop_last()) + spec_write_link(ls.last()) + seq![0x0au8]
    }
}

pub open spec fn spec_write_containments(cs: Seq<ContainmentV>) -> Seq<u8>
    decreases cs.len(),
{
    if cs.len() == 0 {
        Seq::empty()
    } else {
        spec_write_containments(cs.drop_last()) + spec_write_containment(cs.last()) + seq![0x0au8]
    }
}

/// A whole aggregate: the header line, then every segment, path, link and
/// containment, one newline-terminated line each.
pub open spec fn spec_write_gfa(g: GFAV) -> Seq<u8> {
    spec_write_header(g.header.version) + seq![0x0au8] + spec_write_segments(g.segments)
        + spec_write_paths(g.paths) + spec_write_links(g.links) + spec_write_containments(
        g.containments,
    )
}

/// Writes every optional field, each preceded by a tab, in stored order.
pub fn write_optional_fields(fields: &[OptField], out: &mut Vec<u8>)
    ensures
        final(out)@ == old(out)@ + spec_write_opt_fields(
            fields@.map_values(|f: OptField| f@),
        ),
{
    let ghost fs = fields@.map_values(|f: OptField| f@);
    let mut i: usize = 0;
    proof {
        assert(fs.take(0) =~= Seq::<OptFieldV>::empty());
        assert(out@ =~= old(out)@ + spec_write_opt_fields(fs.take(0)));
    }
    while i < fields.len()
        invariant
            0 <= i <= fields@.len(),
            fs == fields@.map_values(|f: OptField| f@),
            out@ == old(out)@ + spec_write_opt_fields(fs.take(i as int)),
        decreases fields@.len() - i,
    {
        out.push(0x09);
        fields[i].push_text(out);
        i = i + 1;
        proof {
            assert(fs.take(i as int).drop_last() =~= fs.take(i as int - 1));
            assert(fs.take(i as int).last() == fs[i as int - 1]);
            assert(fs[i as int - 1] == fields@[i as int - 1]@);
            assert(out@ =~= old(out)@ + spec_write_opt_fields(fs.take(i as int)));
        }
    }
    proof {
        assert(fs.take(fields@.len() as int) =~= fs);
    }
}

/// Writes a header line: `H` alone, or `H`, a tab and the version field.
pub fn write_header(version: &Option<Vec<u8>>, out: &mut Vec<u8>)
    ensures
        final(out)@ == old(out)@ + spec_write_header(opt_bytes_view(*version)),
{
    out.push(0x48);
    match version {
        Some(v) => {
            out.push(0x09);
            out.push(0x56);
            out.push(0x4e);
            out.push(0x3a);
            out.push(0x5a);
            out.push(0x3a);
            push_all(v.as_slice(), out);
            proof {
                assert(final(out)@ =~= old(out)@ + spec_write_header(opt_bytes_view(*version)));
            }
        },
        None => {
            proof {
                assert(final(out)@ =~= old(out)@ + spec_write_header(opt_bytes_view(*version)));
            }
        },
    }
}

/// Writes a segment line.
pub fn write_segment<T: OptFields>(seg: &Segment<T>, out: &mut Vec<u8>)
    ensures
        final(out)@ == old(out)@ + spec_write_segment(seg@),
{
    let ghost toks = segment_tokens(seg@);
    out.push(0x53);
    proof {
        assert(toks.take(1) =~= seq![seq![0x53u8]]);
        assert(out@ =~= old(out)@ + spec_join(toks.take(1), 0x09u8));
    }
    out.push(0x09);
    push_all(seg.name.as_slice(), out);
    proof {
        crate::bytes::lemma_join_push(toks.take(1), toks[1], 0x09u8);
        assert(toks.take(2) =~= toks.take(1).push(toks[1]));
        assert(out@ =~= old(out)@ + spec_join(toks.take(2), 0x09u8));
    }
    out.push(0x09);
    push_all(seg.sequence.as_slice(), out);
    proof {
        crate::bytes::lemma_join_push(toks.take(2), toks[2], 0x09u8);
        assert(toks.take(3) =~= toks.take(2).push(toks[2]));
        assert(toks.take(3) =~= toks);
        assert(out@ =~= old(out)@ + spec_join(toks, 0x09u8));
    }
    write_optional_fields(seg.optional.fields(), out);
    proof {
        assert(final(out)@ =~= old(out)@ + spec_write_segment(seg@));
    }
}

/// The text of one segment line.
pub fn segment_string<T: OptFields>(seg: &Segment<T>) -> (r: Vec<u8>)
    ensures
        r@ == spec_write_segment(seg@),
{
    let mut out: Vec<u8> = Vec::new();
    write_segment(seg, &mut out);
    out
}

/// Writes a link line.
#[verifier::rlimit(60)]
pub fn write_link<T: OptFields>(link: &Link<T>, out: &mut Vec<u8>)
    ensures
        final(out)@ == old(out)@ + spec_write_link(link@),
{
    let ghost toks = link_tokens(link@);
    out.push(0x4c);
    proof {
        assert(toks.take(1) =~= seq![seq![0x4cu8]]);
        assert(out@ =~= old(out)@ + spec_join(toks.take(1), 0x09u8));
    }
    out.push(0x09);
    push_all(link.from_segment.as_slice(), out);
    proof {
        crate::bytes::lemma_join_push(toks.take(1), toks[1], 0x09u8);
        assert(toks.take(2) =~= toks.take(1).push(toks[1]));
        assert(out@ =~= old(out)@ + spec_join(toks.take(2), 0x09u8));
    }
    out.push(0x09);
    out.push(link.from_orient.byte());
    proof {
        crate::bytes::lemma_join_push(toks.take(2), toks[2], 0x09u8);
        assert(toks.take(3) =~= toks.take(2).push(toks[2]));
        assert(out@ =~= old(out)@ + spec_join(toks.take(3), 0x09u8));
    }
    out.push(0x09);
    push_all(link.to_segment.as_slice(), out);
    proof {
        crate::bytes::lemma_join_push(toks.take(3), toks[3], 0x09u8);
        assert(toks.take(4) =~= toks.take(3).push(toks[3]));
        assert(out@ =~= old(out)@ + spec_join(toks.take(4), 0x09u8));
    }
    out.push(0x09);
    out.push(link.to_orient.byte());
    proof {
        crate::bytes::lemma_join_push(toks.take(4), toks[4], 0x09u8);
        assert(toks.take(5) =~= toks.take(4).push(toks[4]));
        assert(out@ =~= old(out)@ + spec_join(toks.take(5), 0x09u8));
    }
    out.push(0x09);
    push_all(link.overlap.as_slice(), out);
    proof {
        crate::bytes::lemma_join_push(toks.take(5), toks[5], 0x09u8);
        assert(toks.take(6) =~= toks.take(5).push(toks[5]));
        assert(toks.take(6) =~= toks);
        assert(out@ =~= old(out)@ + spec_join(toks, 0x09u8));
    }
    write_optional_fields(link.optional.fields(), out);
    proof {
        assert(final(out)@ =~= old(out)@ + spec_write_link(link@));
    }
}

/// The text of one link line.
pub fn link_string<T: OptFields>(link: &Link<T>) -> (r: Vec<u8>)
    ensures
        r@ == spec_write_link(link@),
{
    let mut out: Vec<u8> = Vec::new();
    write_link(link, &mut out);
    out
}

/// Writes a containment line.
#[verifier::rlimit(80)]
pub fn write_containment<T: OptFields>(cont: &Containment<T>, out: &mut Vec<u8>)
    ensures
        final(out)@ == old(out)@ + spec_write_containment(cont@),
{
    let ghost toks = containment_tokens(cont@);
    out.push(0x43);
    proof {
        assert(toks.take(1) =~= seq![seq![0x43u8]]);
        assert(out@ =~= old(out)@ + spec_join(toks.take(1), 0x09u8));
    }
    out.push(0x09);
    push_all(cont.container_name.as_slice(), out);
    proof {
        crate::bytes::lemma_join_push(toks.take(1), toks[1], 0x09u8);
        assert(toks.take(2) =~= toks.take(1).push(toks[1]));
        assert(out@ =~= old(out)@ + spec_join(toks.take(2), 0x09u8));
    }
    out.push(0x09);
    out.push(cont.container_orient.byte());
    proof {
        crate::bytes::lemma_join_push(toks.take(2), toks[2], 0x09u8);
        assert(toks.take(3) =~= toks.take(2).push(toks[2]));
        assert(out@ =~= old(out)@ + spec_join(toks.take(3), 0x09u8));
    }
    out.push(0x09);
    push_all(cont.contained_name.as_slice(), out);
    proof {
        crate::bytes::lemma_join_push(toks.take(3), toks[3], 0x09u8);
        assert(toks.take(4) =~= toks.take(3).push(toks[3]));
        assert(out@ =~= old(out)@ + spec_join(toks.take(4), 0x09u8));
    }
    out.push(0x09);
    out.push(cont.contained_orient.byte());
    proof {
        crate::bytes::lemma_join_push(toks.take(4), toks[4], 0x09u8);
        assert(toks.take(5) =~= toks.take(4).push(toks[4]));
        assert(out@ =~= old(out)@ + spec_join(toks.take(5), 0x09u8));
    }
    out.push(0x09);
    push_dec_usize(cont.pos, out);
    proof {
        crate::bytes::lemma_join_push(toks.take(5), toks[5], 0x09u8);
        assert(toks.take(6) =~= toks.take(5).push(toks[5]));
        assert(out@ =~= old(out)@ + spec_join(toks.take(6), 0x09u8));
    }
    out.push(0x09);
    push_all(cont.overlap.as_slice(), out);
    proof {
        crate::bytes::lemma_join_push(toks.take(6), toks[6], 0x09u8);
        assert(toks.take(7) =~= toks.take(6).push(toks[6]));
        assert(toks.take(7) =~= toks);
        assert(out@ =~= old(out)@ + spec_join(toks, 0x09u8));
    }
    write_optional_fields(cont.optional.fields(), out);
    proof {
        assert(final(out)@ =~= old(out)@ + spec_write_containment(cont@));
    }
}

/// The text of one containment line.
pub fn containment_string<T: OptFields>(cont: &Containment<T>) -> (r: Vec<u8>)
    ensures
        r@ == spec_write_containment(cont@),
{
    let mut out: Vec<u8> = Vec::new();
    write_containment(cont, &mut out);
    out
}

/// Writes a path line; the overlaps are comma-joined into one field.
pub fn write_path<T: OptFields>(path: &Path<T>, out: &mut Vec<u8>)
    ensures
        final(out)@ == old(out)@ + spec_write_path(path@),
{
    let ghost toks = path_tokens(path@);
    out.push(0x50);
    proof {
        assert(toks.take(1) =~= seq![seq![0x50u8]]);
        assert(out@ =~= old(out)@ + spec_join(toks.take(1), 0x09u8));
    }
    out.push(0x09);
    push_all(path.path_name.as_slice(), out);
    proof {
        crate::bytes::lemma_join_push(toks.take(1), toks[1], 0x09u8);
        assert(toks.take(2) =~= toks.take(1).push(toks[1]));
        assert(out@ =~= old(out)@ + spec_join(toks.take(2), 0x09u8));
    }
    out.push(0x09);
    push_all(path.segment_names.as_slice(), out);
    proof {
        crate::bytes::lemma_join_push(toks.take(2), toks[2], 0x09u8);
        assert(toks.take(3) =~= toks.take(2).push(toks[2]));
        assert(out@ =~= old(out)@ + spec_join(toks.take(3), 0x09u8));
    }
    out.push(0x09);
    let ghost overlaps = seq_views(path.overlaps@);
    let mut i: usize = 0;
    let ghost mid = out@;
    proof {
        assert(mid =~= mid + spec_join(overlaps.take(0), 0x2cu8));
    }
    while i < path.overlaps.len()
        invariant
            0 <= i <= path.overlaps@.len(),
            overlaps == seq_views(path.overlaps@),
            out@ == mid + spec_join(overlaps.take(i as int), 0x2cu8),
        decreases path.overlaps@.len() - i,
    {
        if i > 0 {
            out.push(0x2c);
        }
        push_all(path.overlaps[i].as_slice(), out);
        i = i + 1;
        proof {
            assert(overlaps.take(i as int) =~= overlaps.take(i as int - 1).push(
                overlaps[i as int - 1],
            ));
            if i > 1 {
                crate::bytes::lemma_join_push(overlaps.take(i as int - 1), overlaps[i as int - 1], 0x2cu8);
            }
            assert(out@ =~= mid + spec_join(overlaps.take(i as int), 0x2cu8));
        }
    }
    proof {
        assert(overlaps.take(path.overlaps@.len() as int) =~= overlaps);
        crate::bytes::lemma_join_push(toks.take(3), toks[3], 0x09u8);
        assert(toks.take(4) =~= toks.take(3).push(toks[3]));
        assert(toks.take(4) =~= toks);
        assert(out@ =~= old(out)@ + spec_join(toks, 0x09u8));
    }
    write_optional_fields(path.optional.fields(), out);
    proof {
        assert(final(out)@ =~= old(out)@ + spec_write_path(path@));
    }
}

/// The text of one path line.
pub fn path_string<T: OptFields>(path: &Path<T>) -> (r: Vec<u8>)
    ensures
        r@ == spec_write_path(path@),
{
    let mut out: Vec<u8> = Vec::new();
    write_path(path, &mut out);
    out
}

/// Writes a whole aggregate, one newline-terminated line per record.
pub fn write_gfa<T: OptFields>(gfa: &GFA<T>, out: &mut Vec<u8>)
    ensures
        final(out)@ == old(out)@ + spec_write_gfa(gfa@),
{
    write_header(&gfa.header.version, out);
    out.push(0x0a);
    let ghost head_done = out@;
    let ghost segs = gfa.segments@.map_values(|s: Segment<T>| s@);
    proof {
        assert(head_done =~= old(out)@ + spec_write_header(gfa@.header.version) + seq![0x0au8]);
        assert(out@ =~= head_done + spec_write_segments(segs.take(0)));
    }
    let mut i: usize = 0;
    while i < gfa.segments.len()
        invariant
            0 <= i <= gfa.segments@.len(),
            segs == gfa.segments@.map_values(|s: Segment<T>| s@),
            out@ == head_done + spec_write_segments(segs.take(i as int)),
        decreases gfa.segments@.len() - i,
    {
        write_segment(&gfa.segments[i], out);
        out.push(0x0a);
        i = i + 1;
        proof {
            assert(segs.take(i as int).drop_last() =~= segs.take(i as int - 1));
            assert(segs.take(i as int).last() == segs[i as int - 1]);
            assert(out@ =~= head_done + spec_write_segments(segs.take(i as int)));
        }
    }
    let ghost segs_done = out@;
    let ghost paths = gfa.paths@.map_values(|p: Path<T>| p@);
    proof {
        assert(segs.take(gfa.segments@.len() as int) =~= segs);
        assert(out@ =~= segs_done + spec_write_paths(paths.take(0)));
    }
    let mut i: usize = 0;
    while i < gfa.paths.len()
        invariant
            0 <= i <= gfa.paths@.len(),
            paths == gfa.paths@.map_values(|p: Path<T>| p@),
            out@ == segs_done + spec_write_paths(paths.take(i as int)),
        decreases gfa.paths@.len() - i,
    {
        write_path(&gfa.paths[i], out);
        out.push(0x0a);
        i = i + 1;
        proof {
            assert(paths.take(i as int).drop_last() =~= paths.take(i as int - 1));
            assert(paths.take(i as int).last() == paths[i as int - 1]);
            assert(out@ =~= segs_done + spec_write_paths(paths.take(i as int)));
        }
    }
    let ghost paths_done = out@;
    let ghost links = gfa.links@.map_values(|l: Link<T>| l@);
    proof {
        assert(paths.take(gfa.paths@.len() as int) =~= paths);
        assert(out@ =~= paths_done + spec_write_links(links.take(0)));
    }
    let mut i: usize = 0;
    while i < gfa.links.len()
        invariant
            0 <= i <= gfa.links@.len(),
            links == gfa.links@.map_values(|l: Link<T>| l@),
            out@ == paths_done + spec_write_links(links.take(i as int)),
        decreases gfa.links@.len() - i,
    {
        write_link(&gfa.links[i], out);
        out.push(0x0a);
        i = i + 1;
        proof {
            assert(links.take(i as int).drop_last() =~= links.take(i as int - 1));
            assert(links.take(i as int).last() == links[i as int - 1]);
            assert(out@ =~= paths_done + spec_write_links(links.take(i as int)));
        }
    }
    let ghost links_done = out@;
    let ghost conts = gfa.containments@.map_values(|c: Containment<T>| c@);
    proof {
        assert(links.take(gfa.links@.len() as int) =~= links);
        assert(out@ =~= links_done + spec_write_containments(conts.take(0)));
    }
    let mut i: usize = 0;
    while i < gfa.containments.len()
        invariant
            0 <= i <= gfa.containments@.len(),
            conts == gfa.containments@.map_values(|c: Containment<T>| c@),
            out@ == links_done + spec_write_containments(conts.take(i as int)),
        decreases gfa.containments@.len() - i,
    {
        write_containment(&gfa.containments[i], out);
        out.push(0x0a);
        i = i + 1;
        proof {
            assert(conts.take(i as int).drop_last() =~= conts.take(i as int - 1));
            assert(conts.take(i as int).last() == conts[i as int - 1]);
            assert(out@ =~= links_done + spec_write_containments(conts.take(i as int)));
        }
    }
    proof {
        assert(conts.take(gfa.containments@.len() as int) =~= conts);
        assert(final(out)@ =~= old(out)@ + spec_write_gfa(gfa@));
    }
}

/// The text of a whole aggregate.
pub fn gfa_string<T: OptFields>(gfa: &GFA<T>) -> (r: Vec<u8>)
    ensures
        r@ == spec_write_gfa(gfa@),
{
    let mut out: Vec<u8> = Vec::new();
    write_gfa(gfa, &mut out);
    out
}

pub open spec fn not_tab_pred() -> spec_fn(u8) -> bool {
    |b: u8| b != 0x09u8
}

/// A written line equals the join of all its fields, fixed and optional.
proof fn lemma_join_fields(front: Seq<Seq<u8>>, fs: Seq<OptFieldV>)
    requires
        front.len() >= 1,
    ensures
        spec_join(front + fs.map_values(|f: OptFieldV| spec_encode(f)), 0x09u8) == spec_join(
            front,
            0x09u8,
        ) + spec_write_opt_fields(fs),
    decreases fs.len(),
{
    let encs = fs.map_values(|f: OptFieldV| spec_encode(f));
    if fs.len() == 0 {
        assert(encs =~= Seq::<Seq<u8>>::empty());
        assert(front + encs =~= front);
        assert(spec_join(front, 0x09u8) + spec_write_opt_fields(fs) =~= spec_join(front, 0x09u8));
    } else {
        lemma_join_fields(front, fs.drop_last());
        let prev = front + fs.drop_last().map_values(|f: OptFieldV| spec_encode(f));
        assert(front + encs =~= prev.push(spec_encode(fs.last())));
        crate::bytes::lemma_join_push(prev, spec_encode(fs.last()), 0x09u8);
        assert(spec_join(front + encs, 0x09u8) == spec_join(prev, 0x09u8) + seq![0x09u8]
            + spec_encode(fs.last()));
        assert((spec_join(front, 0x09u8) + spec_write_opt_fields(fs.drop_last())) + seq![0x09u8]
            + spec_encode(fs.last()) =~= spec_join(front, 0x09u8) + (spec_write_opt_fields(
            fs.drop_last(),
        ) + seq![0x09u8] + spec_encode(fs.last())));
    }
}

/// The first byte of a join is the first byte of its first piece.
proof fn lemma_join_first(ps: Seq<Seq<u8>>, sep: u8)
    requires
        ps.len() >= 1,
        ps[0].len() >= 1,
    ensures
        spec_join(ps, sep).len() >= 1,
        spec_join(ps, sep)[0] == ps[0][0],
{
}

/// A well-formed field's text holds no tab.
proof fn lemma_encode_tab_free(f: OptFieldV)
    requires
        wf_field(f),
    ensures
        !has_byte(spec_encode(f), 0x09u8),
{
    lemma_encode_bytes(f);
    assert forall|j: int| 0 <= j < spec_encode(f).len() implies spec_encode(f)[j] != 0x09u8 by {
        assert(is_print_or_space(spec_encode(f)[j]));
    }
}

/// Round trip of the header line: parsing a written header yields the
/// header, under any configuration.  The header line carries only the
/// version field, so this speaks of headers without further fields.
pub proof fn lemma_write_parse_header<T: OptFields>(cfg: GFAParsingConfig, h: HeaderV)
    requires
        wf_header(h),
        T::can_hold(h.optional),
    ensures
        spec_parse_line::<T>(cfg, spec_write_header(h.version)) == Some(LineV::Header(h)),
{
    let v = h.version->Some_0;
    let f = OptFieldV { tag0: 0x56u8, tag1: 0x4eu8, value: OptFieldValV::Z(v) };
    let line = spec_write_header(h.version);
    let enc = spec_encode(f);
    assert(enc =~= seq![0x56u8, 0x4eu8, 0x3au8, 0x5au8, 0x3au8] + v);
    let pieces = seq![seq![0x48u8], enc];
    assert(pieces.skip(1) =~= seq![enc]);
    assert(spec_join(seq![enc], 0x09u8) == enc);
    assert(spec_join(pieces, 0x09u8) == pieces[0] + seq![0x09u8] + enc);
    assert(line =~= spec_join(pieces, 0x09u8));
    lemma_encode_tab_free(f);
    assert forall|i: int| 0 <= i < pieces.len() implies !has_byte(#[trigger] pieces[i], 0x09u8) by {
        if i == 0 {
            assert forall|j: int| 0 <= j < pieces[0].len() implies pieces[0][j] != 0x09u8 by {
                assert(pieces[0][j] == 0x48u8);
            }
        }
    }
    crate::bytes::lemma_split_join(pieces, 0x09u8);
    lemma_join_first(pieces, 0x09u8);
    assert(line[0] == 0x48u8);
    assert(spec_enabled(cfg, line[0]));
    let toks = spec_split(line, 0x09u8);
    assert(toks == pieces);
    assert(toks[0].len() == 1 && toks[0][0] == 0x48u8);
    let sub = toks.skip(1);
    assert(sub =~= seq![enc]);
    assert(sub[0] == enc);
    lemma_decode_encode(f);
    assert(sub.skip(1) =~= Seq::<Seq<u8>>::empty());
    assert(h.optional =~= Seq::<OptFieldV>::empty());
    T::lemma_from_tokens_encoded(h.optional);
    assert(h.optional.map_values(|g: OptFieldV| spec_encode(g)) =~= Seq::<Seq<u8>>::empty());
    assert(T::spec_from_tokens(Seq::<Seq<u8>>::empty()) == h.optional);
    assert(spec_parse_header::<T>(sub) == Some(
        HeaderV { version: Some(v), optional: h.optional },
    ));
    assert(HeaderV { version: Some(v), optional: h.optional } =~= h);
}

/// Round trip of a segment line: parsing a written well-formed segment
/// yields the segment, whenever segments are enabled and the store can
/// hold its fields.
pub proof fn lemma_write_parse_segment<T: OptFields>(cfg: GFAParsingConfig, s: SegmentV)
    requires
        wf_segment(s),
        T::can_hold(s.optional),
        cfg.segments,
    ensures
        spec_parse_line::<T>(cfg, spec_write_segment(s)) == Some(LineV::Segment(s)),
{
    let front = segment_tokens(s);
    let encs = s.optional.map_values(|f: OptFieldV| spec_encode(f));
    let pieces = front + encs;
    lemma_join_fields(front, s.optional);
    let line = spec_write_segment(s);
    assert(line == spec_join(pieces, 0x09u8));
    assert forall|i: int| 0 <= i < pieces.len() implies !has_byte(#[trigger] pieces[i], 0x09u8) by {
        if i == 0 {
            assert forall|j: int| 0 <= j < pieces[0].len() implies pieces[0][j] != 0x09u8 by {
                assert(pieces[0][j] == 0x53u8);
            }
        } else if i == 1 {
            assert forall|j: int| 0 <= j < s.name.len() implies s.name[j] != 0x09u8 by {
                assert(is_printable(s.name[j]));
            }
        } else if i == 2 {
            assert forall|j: int| 0 <= j < s.sequence.len() implies s.sequence[j] != 0x09u8 by {
                if !(s.sequence.len() == 1 && s.sequence[0] == 0x2au8) {
                    assert(is_sequence_char(s.sequence[j]));
                }
            }
        } else {
            assert(pieces[i] == encs[i - 3]);
            assert(encs[i - 3] == spec_encode(s.optional[i - 3]));
            assert(wf_field(s.optional[i - 3]));
            lemma_encode_tab_free(s.optional[i - 3]);
        }
    }
    crate::bytes::lemma_split_join(pieces, 0x09u8);
    lemma_join_first(pieces, 0x09u8);
    assert(line[0] == 0x53u8);
    assert(spec_enabled(cfg, line[0]));
    let toks = spec_split(line, 0x09u8);
    assert(toks == pieces);
    assert(toks[0].len() == 1 && toks[0][0] == 0x53u8);
    let sub = toks.skip(1);
    assert(sub =~= seq![s.name, s.sequence] + encs);
    assert(sub[0] == s.name);
    assert(sub[1] == s.sequence);
    crate::parser::lemma_parse_name_whole(s.name);
    crate::parser::lemma_parse_sequence_whole(s.sequence);
    assert(sub.skip(2) =~= encs);
    T::lemma_from_tokens_encoded(s.optional);
    assert(spec_parse_segment::<T>(sub) == Some(
        SegmentV { name: s.name, sequence: s.sequence, optional: s.optional },
    ));
    assert(SegmentV { name: s.name, sequence: s.sequence, optional: s.optional } =~= s);
}

/// An orientation written as its byte reads back as itself.
proof fn lemma_orientation_token(o: Orientation)
    ensures
        Orientation::spec_from_token(seq![o.spec_byte()]) == Some(o),
{
}

/// Round trip of a link line.
#[verifier::rlimit(60)]
pub proof fn lemma_write_parse_link<T: OptFields>(cfg: GFAParsingConfig, l: LinkV)
    requires
        wf_link(l),
        T::can_hold(l.optional),
        cfg.links,
    ensures
        spec_parse_line::<T>(cfg, spec_write_link(l)) == Some(LineV::Link(l)),
{
    let front = link_tokens(l);
    let encs = l.optional.map_values(|f: OptFieldV| spec_encode(f));
    let pieces = front + encs;
    lemma_join_fields(front, l.optional);
    let line = spec_write_link(l);
    assert(line == spec_join(pieces, 0x09u8));
    assert forall|i: int| 0 <= i < pieces.len() implies !has_byte(#[trigger] pieces[i], 0x09u8) by {
        if i == 0 || i == 2 || i == 4 {
            assert(pieces[i].len() == 1);
            assert(pieces[i][0] != 0x09u8);
        } else if i == 1 {
            assert forall|j: int| 0 <= j < l.from_segment.len() implies l.from_segment[j] != 0x09u8 by {
                assert(is_printable(l.from_segment[j]));
            }
        } else if i == 3 {
            assert forall|j: int| 0 <= j < l.to_segment.len() implies l.to_segment[j] != 0x09u8 by {
                assert(is_printable(l.to_segment[j]));
            }
        } else if i == 5 {
        } else {
            assert(pieces[i] == encs[i - 6]);
            assert(encs[i - 6] == spec_encode(l.optional[i - 6]));
            assert(wf_field(l.optional[i - 6]));
            lemma_encode_tab_free(l.optional[i - 6]);
        }
    }
    crate::bytes::lemma_split_join(pieces, 0x09u8);
    lemma_join_first(pieces, 0x09u8);
    assert(line[0] == 0x4cu8);
    assert(spec_enabled(cfg, line[0]));
    let toks = spec_split(line, 0x09u8);
    assert(toks == pieces);
    assert(toks[0].len() == 1 && toks[0][0] == 0x4cu8);
    let sub = toks.skip(1);
    assert(sub =~= seq![
        l.from_segment,
        seq![l.from_orient.spec_byte()],
        l.to_segment,
        seq![l.to_orient.spec_byte()],
        l.overlap,
    ] + encs);
    crate::parser::lemma_parse_name_whole(l.from_segment);
    crate::parser::lemma_parse_name_whole(l.to_segment);
    lemma_orientation_token(l.from_orient);
    lemma_orientation_token(l.to_orient);
    assert(sub[0] == l.from_segment);
    assert(sub[1] == seq![l.from_orient.spec_byte()]);
    assert(sub[2] == l.to_segment);
    assert(sub[3] == seq![l.to_orient.spec_byte()]);
    assert(sub[4] == l.overlap);
    assert(sub.skip(5) =~= encs);
    T::lemma_from_tokens_encoded(l.optional);
    assert(spec_parse_link::<T>(sub) == Some(
        LinkV {
            from_segment: l.from_segment,
            from_orient: l.from_orient,
            to_segment: l.to_segment,
            to_orient: l.to_orient,
            overlap: l.overlap,
            optional: l.optional,
        },
    ));
    assert(LinkV {
        from_segment: l.from_segment,
        from_orient: l.from_orient,
        to_segment: l.to_segment,
        to_orient: l.to_orient,
        overlap: l.overlap,
        optional: l.optional,
    } =~= l);
}

/// Round trip of a containment line.
#[verifier::rlimit(80)]
pub proof fn lemma_write_parse_containment<T: OptFields>(cfg: GFAParsingConfig, c: ContainmentV)
    requires
        wf_containment(c),
        T::can_hold(c.optional),
        cfg.containments,
    ensures
        spec_parse_line::<T>(cfg, spec_write_containment(c)) == Some(LineV::Containment(c)),
{
    let front = containment_tokens(c);
    let encs = c.optional.map_values(|f: OptFieldV| spec_encode(f));
    let pieces = front + encs;
    lemma_join_fields(front, c.optional);
    let line = spec_write_containment(c);
    assert(line == spec_join(pieces, 0x09u8));
    crate::numbers::lemma_dec_digits(c.pos as nat);
    assert forall|i: int| 0 <= i < pieces.len() implies !has_byte(#[trigger] pieces[i], 0x09u8) by {
        if i == 0 || i == 2 || i == 4 {
            assert(pieces[i].len() == 1);
            assert(pieces[i][0] != 0x09u8);
        } else if i == 1 {
            assert forall|j: int| 0 <= j < c.container_name.len() implies c.container_name[j]
                != 0x09u8 by {
                assert(is_printable(c.container_name[j]));
            }
        } else if i == 3 {
            assert forall|j: int| 0 <= j < c.contained_name.len() implies c.contained_name[j]
                != 0x09u8 by {
                assert(is_printable(c.contained_name[j]));
            }
        } else if i == 5 {
            assert forall|j: int| 0 <= j < pieces[5].len() implies pieces[5][j] != 0x09u8 by {
                assert(crate::bytes::is_digit(dec_digits(c.pos as nat)[j]));
            }
        } else if i == 6 {
        } else {
            assert(pieces[i] == encs[i - 7]);
            assert(encs[i - 7] == spec_encode(c.optional[i - 7]));
            assert(wf_field(c.optional[i - 7]));
            lemma_encode_tab_free(c.optional[i - 7]);
        }
    }
    crate::bytes::lemma_split_join(pieces, 0x09u8);
    lemma_join_first(pieces, 0x09u8);
    assert(line[0] == 0x43u8);
    assert(spec_enabled(cfg, line[0]));
    let toks = spec_split(line, 0x09u8);
    assert(toks == pieces);
    assert(toks[0].len() == 1 && toks[0][0] == 0x43u8);
    let sub = toks.skip(1);
    assert(sub =~= seq![
        c.container_name,
        seq![c.container_orient.spec_byte()],
        c.contained_name,
        seq![c.contained_orient.spec_byte()],
        dec_digits(c.pos as nat),
        c.overlap,
    ] + encs);
    crate::parser::lemma_parse_name_whole(c.container_name);
    crate::parser::lemma_parse_name_whole(c.contained_name);
    lemma_orientation_token(c.container_orient);
    lemma_orientation_token(c.contained_orient);
    crate::numbers::lemma_parse_dec_usize(c.pos);
    assert(sub[0] == c.container_name);
    assert(sub[1] == seq![c.container_orient.spec_byte()]);
    assert(sub[2] == c.contained_name);
    assert(sub[3] == seq![c.contained_orient.spec_byte()]);
    assert(sub[4] == dec_digits(c.pos as nat));
    assert(sub[5] == c.overlap);
    assert(sub.skip(6) =~= encs);
    T::lemma_from_tokens_encoded(c.optional);
    assert(spec_parse_containment::<T>(sub) == Some(
        ContainmentV {
            container_name: c.container_name,
            container_orient: c.container_orient,
            contained_name: c.contained_name,
            contained_orient: c.contained_orient,
            pos: c.pos,
            overlap: c.overlap,
            optional: c.optional,
        },
    ));
    assert(ContainmentV {
        container_name: c.container_name,
        container_orient: c.container_orient,
        contained_name: c.contained_name,
        contained_orient: c.contained_orient,
        pos: c.pos,
        overlap: c.overlap,
        optional: c.optional,
    } =~= c);
}

/// Round trip of a path line.
#[verifier::rlimit(60)]
pub proof fn lemma_write_parse_path<T: OptFields>(cfg: GFAParsingConfig, p: PathV)
    requires
        wf_path(p),
        T::can_hold(p.optional),
        cfg.paths,
    ensures
        spec_parse_line::<T>(cfg, spec_write_path(p)) == Some(LineV::Path(p)),
{
    let front = path_tokens(p);
    let encs = p.optional.map_values(|f: OptFieldV| spec_encode(f));
    let pieces = front + encs;
    lemma_join_fields(front, p.optional);
    let line = spec_write_path(p);
    assert(line == spec_join(pieces, 0x09u8));
    let joined = spec_join(p.overlaps, 0x2cu8);
    assert forall|x: int| 0 <= x < joined.len() implies not_tab_pred()(#[trigger] joined[x]) by {
        assert forall|a: int, b: int|
            0 <= a < p.overlaps.len() && 0 <= b < p.overlaps[a].len() implies not_tab_pred()(
            #[trigger] p.overlaps[a][b],
        ) by {
            assert(!has_byte(p.overlaps[a], 0x09u8));
        }
        crate::bytes::lemma_join_bytes(p.overlaps, 0x2cu8, not_tab_pred());
    }
    assert forall|i: int| 0 <= i < pieces.len() implies !has_byte(#[trigger] pieces[i], 0x09u8) by {
        if i == 0 {
            assert(pieces[0].len() == 1);
            assert(pieces[0][0] != 0x09u8);
        } else if i == 1 {
            assert forall|j: int| 0 <= j < p.path_name.len() implies p.path_name[j] != 0x09u8 by {
                assert(is_printable(p.path_name[j]));
            }
        } else if i == 2 {
        } else if i == 3 {
            assert forall|j: int| 0 <= j < pieces[3].len() implies pieces[3][j] != 0x09u8 by {
                assert(not_tab_pred()(joined[j]));
            }
        } else {
            assert(pieces[i] == encs[i - 4]);
            assert(encs[i - 4] == spec_encode(p.optional[i - 4]));
            assert(wf_field(p.optional[i - 4]));
            lemma_encode_tab_free(p.optional[i - 4]);
        }
    }
    crate::bytes::lemma_split_join(pieces, 0x09u8);
    lemma_join_first(pieces, 0x09u8);
    assert(line[0] == 0x50u8);
    assert(spec_enabled(cfg, line[0]));
    let toks = spec_split(line, 0x09u8);
    assert(toks == pieces);
    assert(toks[0].len() == 1 && toks[0][0] == 0x50u8);
    let sub = toks.skip(1);
    assert(sub =~= seq![p.path_name, p.segment_names, joined] + encs);
    crate::parser::lemma_parse_name_whole(p.path_name);
    assert(sub[0] == p.path_name);
    assert(sub[1] == p.segment_names);
    assert(sub[2] == joined);
    crate::bytes::lemma_split_join(p.overlaps, 0x2cu8);
    assert(spec_split(sub[2], 0x2cu8) == p.overlaps);
    assert(sub.skip(3) =~= encs);
    T::lemma_from_tokens_encoded(p.optional);
    assert(spec_parse_path::<T>(sub) == Some(
        PathV {
            path_name: p.path_name,
            segment_names: p.segment_names,
            overlaps: p.overlaps,
            optional: p.optional,
        },
    ));
    assert(PathV {
        path_name: p.path_name,
        segment_names: p.segment_names,
        overlaps: p.overlaps,
        optional: p.optional,
    } =~= p);
}

} // verus!
