//! The record kinds of the format: header, segment, link, containment and
//! path, each generic over the optional-field store, plus the aggregate
//! that collects parsed records.  Each kind has a mathematical view and a
//! well-formedness predicate saying which values the text grammar can
//! carry; writing such a value and parsing the line back recovers it.

use crate::bytes::{has_byte, is_printable, seq_views};
use crate::optfields::{wf_field, OptFieldV, OptFields};
use vstd::prelude::*;

verus! {

/// The strand a segment is traversed in; written `+` and `-`.
#[derive(Debug, Clone, Copy, PartialEq, Eq, Structural)]
pub enum Orientation {
    Forward,
    Backward,
}

impl Orientation {
    /// The byte this orientation is written as.
    pub open spec fn spec_byte(self) -> u8 {
        match self {
            Orientation::Forward => 0x2bu8,
            Orientation::Backward => 0x2du8,
        }
    }

    /// An orientation token is exactly `+` or `-`; anything else fails.
    pub open spec fn spec_from_token(t: Seq<u8>) -> Option<Orientation> {
        if t.len() == 1 && t[0] == 0x2bu8 {
            Some(Orientation::Forward)
        } else if t.len() == 1 && t[0] == 0x2du8 {
            Some(Orientation::Backward)
        } else {
            None
        }
    }

    /// Reads an orientation token.
    pub fn from_bytes(t: &[u8]) -> (r: Option<Orientation>)
        ensures
            r == Self::spec_from_token(t@),
    {
        if t.len() == 1 && t[0] == 0x2b {
            Some(Orientation::Forward)
        } else if t.len() == 1 && t[0] == 0x2d {
            Some(Orientation::Backward)
        } else {
            None
        }
    }

    /// The byte this orientation is written as.
    pub fn byte(&self) -> (r: u8)
        ensures
            r == self.spec_byte(),
    {
        match self {
            Orientation::Forward => 0x2b,
            Orientation::Backward => 0x2d,
        }
    }
}

/// A header record: the version text, when the line carried one.
#[derive(Debug, Clone, PartialEq)]
pub struct Header<T: OptFields> {
    pub version: Option<Vec<u8>>,
    pub optional: T,
}

/// A node of the graph: a named sequence.
#[derive(Debug, Clone, PartialEq)]
pub struct Segment<T: OptFields> {
    pub name: Vec<u8>,
    pub sequence: Vec<u8>,
    pub optional: T,
}

/// An edge between two oriented segment ends, with an opaque overlap.
#[derive(Debug, Clone, PartialEq)]
pub struct Link<T: OptFields> {
    pub from_segment: Vec<u8>,
    pub from_orient: Orientation,
    pub to_segment: Vec<u8>,
    pub to_orient: Orientation,
    pub overlap: Vec<u8>,
    pub optional: T,
}

/// One segment's containment in another, at a position.
#[derive(Debug, Clone, PartialEq)]
pub struct Containment<T: OptFields> {
    pub container_name: Vec<u8>,
    pub container_orient: Orientation,
    pub contained_name: Vec<u8>,
    pub contained_orient: Orientation,
    pub pos: usize,
    pub overlap: Vec<u8>,
    pub optional: T,
}

/// An ordered walk: the oriented segment names are kept as one opaque
/// comma-joined text, and the per-step overlaps as an ordered list.
#[derive(Debug, Clone, PartialEq)]
pub struct Path<T: OptFields> {
    pub path_name: Vec<u8>,
    pub segment_names: Vec<u8>,
    pub overlaps: Vec<Vec<u8>>,
    pub optional: T,
}

/// One parsed line, of whichever kind its marker byte selected.
#[derive(Debug, Clone, PartialEq)]
pub enum Line<T: OptFields> {
    Header(Header<T>),
    Segment(Segment<T>),
    Link(Link<T>),
    Containment(Containment<T>),
    Path(Path<T>),
}

#[verifier::ext_equal]
pub ghost struct HeaderV {
    pub version: Option<Seq<u8>>,
    pub optional: Seq<OptFieldV>,
}

#[verifier::ext_equal]
pub ghost struct SegmentV {
    pub name: Seq<u8>,
    pub sequence: Seq<u8>,
    pub optional: Seq<OptFieldV>,
}

#[verifier::ext_equal]
pub ghost struct LinkV {
    pub from_segment: Seq<u8>,
    pub from_orient: Orientation,
    pub to_segment: Seq<u8>,
    pub to_orient: Orientation,
    pub overlap: Seq<u8>,
    pub optional: Seq<OptFieldV>,
}

#[verifier::ext_equal]
pub ghost struct ContainmentV {
    pub container_name: Seq<u8>,
    pub container_orient: Orientation,
    pub contained_name: Seq<u8>,
    pub contained_orient: Orientation,
    pub pos: usize,
    pub overlap: Seq<u8>,
    pub optional: Seq<OptFieldV>,
}

#[verifier::ext_equal]
pub ghost struct PathV {
    pub path_name: Seq<u8>,
    pub segment_names: Seq<u8>,
    pub overlaps: Seq<Seq<u8>>,
    pub optional: Seq<OptFieldV>,
}

#[verifier::ext_equal]
pub ghost enum LineV {
    Header(HeaderV),
    Segment(SegmentV),
    Link(LinkV),
    Containment(ContainmentV),
    Path(PathV),
}

impl<T: OptFields> View for Header<T> {
    type V = HeaderV;

    open spec fn view(&self) -> HeaderV {
        HeaderV {
            version: match self.version {
                Some(v) => Some(v@),
                None => None,
            },
            optional: self.optional.spec_fields(),
        }
    }
}

impl<T: OptFields> View for Segment<T> {
    type V = SegmentV;

    open spec fn view(&self) -> SegmentV {
        SegmentV {
            name: self.name@,
            sequence: self.sequence@,
            optional: self.optional.spec_fields(),
        }
    }
}

impl<T: OptFields> View for Link<T> {
    type V = LinkV;

    open spec fn view(&self) -> LinkV {
        LinkV {
            from_segment: self.from_segment@,
            from_orient: self.from_orient,
            to_segment: self.to_segment@,
            to_orient: self.to_orient,
            overlap: self.overlap@,
            optional: self.optional.spec_fields(),
        }
    }
}

impl<T: OptFields> View for Containment<T> {
    type V = ContainmentV;

    open spec fn view(&self) -> ContainmentV {
        ContainmentV {
            container_name: self.container_name@,
            container_orient: self.container_orient,
            contained_name: self.contained_name@,
            contained_orient: self.contained_orient,
            pos: self.pos,
            overlap: self.overlap@,
            optional: self.optional.spec_fields(),
        }
    }
}

impl<T: OptFields> View for Path<T> {
    type V = PathV;

    open spec fn view(&self) -> PathV {
        PathV {
            path_name: self.path_name@,
            segment_names: self.segment_names@,
            overlaps: seq_views(self.overlaps@),
            optional: self.optional.spec_fields(),
        }
    }
}

impl<T: OptFields> View for Line<T> {
    type V = LineV;

    open spec fn view(&self) -> LineV {
        match self {
            Line::Header(h) => LineV::Header(h@),
            Line::Segment(s) => LineV::Segment(s@),
            Line::Link(l) => LineV::Link(l@),
            Line::Containment(c) => LineV::Containment(c@),
            Line::Path(p) => LineV::Path(p@),
        }
    }
}

/// A byte that may open a name token: visible ASCII less `*` and `=`.
pub open spec fn is_name_start(b: u8) -> bool {
    is_printable(b) && b != 0x2au8 && b != 0x3du8
}

/// A byte of a sequence token: a letter, `=` or `.`.
pub open spec fn is_sequence_char(b: u8) -> bool {
    crate::bytes::is_alpha(b) || b == 0x3du8 || b == 0x2eu8
}

/// A whole name token: non-empty, visible ASCII, not opening with `*` or
/// `=`.  Such a name is recovered in full by the name pattern.
pub open spec fn wf_name(n: Seq<u8>) -> bool {
    n.len() >= 1 && is_name_start(n[0]) && forall|i: int|
        0 <= i < n.len() ==> is_printable(#[trigger] n[i])
}

/// A whole sequence token: the unknown marker `*` alone, or a non-empty
/// run of sequence characters.
pub open spec fn wf_sequence(s: Seq<u8>) -> bool {
    (s.len() == 1 && s[0] == 0x2au8) || (s.len() >= 1 && forall|i: int|
        0 <= i < s.len() ==> is_sequence_char(#[trigger] s[i]))
}

/// Opaque text that can stand as one field of a tab-delimited line.
pub open spec fn wf_opaque(t: Seq<u8>) -> bool {
    !has_byte(t, 0x09u8) && !has_byte(t, 0x0au8)
}

/// All optional fields well-formed.
pub open spec fn wf_fields(fs: Seq<OptFieldV>) -> bool {
    forall|i: int| 0 <= i < fs.len() ==> wf_field(#[trigger] fs[i])
}

/// A header the writer can emit and the parser recover: it carries a
/// version whose text is a whole `Z`-value, and no further fields, since
/// the header line is written as the version token alone.
pub open spec fn wf_header(h: HeaderV) -> bool {
    &&& h.version is Some
    &&& wf_field(
        OptFieldV { tag0: 0x56u8, tag1: 0x4eu8, value: crate::optfields::OptFieldValV::Z(h.version->Some_0) },
    )
    &&& h.optional.len() == 0
}

pub open spec fn wf_segment(s: SegmentV) -> bool {
    wf_name(s.name) && wf_sequence(s.sequence) && wf_fields(s.optional)
}

pub open spec fn wf_link(l: LinkV) -> bool {
    wf_name(l.from_segment) && wf_name(l.to_segment) && wf_opaque(l.overlap) && wf_fields(
        l.optional,
    )
}

pub open spec fn wf_containment(c: ContainmentV) -> bool {
    wf_name(c.container_name) && wf_name(c.contained_name) && wf_opaque(c.overlap) && wf_fields(
        c.optional,
    )
}

/// A path's overlaps list is non-empty and each entry free of comma and
/// tab, as the comma-joined overlap field requires.
pub open spec fn wf_path(p: PathV) -> bool {
    &&& wf_name(p.path_name)
    &&& wf_opaque(p.segment_names)
    &&& p.overlaps.len() >= 1
    &&& forall|i: int|
        0 <= i < p.overlaps.len() ==> wf_opaque(#[trigger] p.overlaps[i]) && !has_byte(
            p.overlaps[i],
            0x2cu8,
        )
    &&& wf_fields(p.optional)
}

impl<T: OptFields> Segment<T> {
    /// A segment with no optional fields.
    pub fn new(name: &[u8], sequence: &[u8]) -> (r: Self)
        ensures
            r@ == (SegmentV { name: name@, sequence: sequence@, optional: Seq::<OptFieldV>::empty() }),
    {
        Segment {
            name: crate::bytes::copy_range(name, 0, name.len()),
            sequence: crate::bytes::copy_range(sequence, 0, sequence.len()),
            optional: T::empty(),
        }
    }
}

impl<T: OptFields> Link<T> {
    /// A link with no optional fields.
    pub fn new(
        from_segment: &[u8],
        from_orient: Orientation,
        to_segment: &[u8],
        to_orient: Orientation,
        overlap: &[u8],
    ) -> (r: Self)
        ensures
            r@ == (LinkV {
                from_segment: from_segment@,
                from_orient,
                to_segment: to_segment@,
                to_orient,
                overlap: overlap@,
                optional: Seq::<OptFieldV>::empty(),
            }),
    {
        Link {
            from_segment: crate::bytes::copy_range(from_segment, 0, from_segment.len()),
            from_orient,
            to_segment: crate::bytes::copy_range(to_segment, 0, to_segment.len()),
            to_orient,
            overlap: crate::bytes::copy_range(overlap, 0, overlap.len()),
            optional: T::empty(),
        }
    }
}

impl<T: OptFields> Path<T> {
    /// A path with no optional fields; the oriented segment names are
    /// joined with commas into the opaque segment-names text.
    pub fn new(path_name: &[u8], segment_names: Vec<Vec<u8>>, overlaps: Vec<Vec<u8>>) -> (r: Self)
        ensures
            r@ == (PathV {
                path_name: path_name@,
                segment_names: crate::bytes::spec_join(seq_views(segment_names@), 0x2cu8),
                overlaps: seq_views(overlaps@),
                optional: Seq::<OptFieldV>::empty(),
            }),
    {
        let mut joined: Vec<u8> = Vec::new();
        let ghost pieces = seq_views(segment_names@);
        let mut i: usize = 0;
        proof {
            assert(joined@ =~= crate::bytes::spec_join(pieces.take(0), 0x2cu8));
        }
        while i < segment_names.len()
            invariant
                0 <= i <= segment_names@.len(),
                pieces == seq_views(segment_names@),
                joined@ == crate::bytes::spec_join(pieces.take(i as int), 0x2cu8),
            decreases segment_names@.len() - i,
        {
            if i > 0 {
                joined.push(0x2c);
            }
            crate::bytes::push_all(segment_names[i].as_slice(), &mut joined);
            i = i + 1;
            proof {
                assert(pieces.take(i as int) =~= pieces.take(i as int - 1).push(
                    pieces[i as int - 1],
                ));
                if i > 1 {
                    crate::bytes::lemma_join_push(pieces.take(i as int - 1), pieces[i as int - 1], 0x2cu8);
                }
                assert(joined@ =~= crate::bytes::spec_join(pieces.take(i as int), 0x2cu8));
            }
        }
        proof {
            assert(pieces.take(segment_names@.len() as int) =~= pieces);
        }
        Path { path_name: crate::bytes::copy_range(path_name, 0, path_name.len()), segment_names: joined, overlaps, optional: T::empty() }
    }
}

/// The aggregate a whole stream parses into: a thin collection of the
/// records, in arrival order per kind.
#[derive(Debug, Clone, PartialEq)]
pub struct GFA<T: OptFields> {
    pub header: Header<T>,
    pub segments: Vec<Segment<T>>,
    pub links: Vec<Link<T>>,
    pub containments: Vec<Containment<T>>,
    pub paths: Vec<Path<T>>,
}

#[verifier::ext_equal]
pub ghost struct GFAV {
    pub header: HeaderV,
    pub segments: Seq<SegmentV>,
    pub links: Seq<LinkV>,
    pub containments: Seq<ContainmentV>,
    pub paths: Seq<PathV>,
}

impl<T: OptFields> View for GFA<T> {
    type V = GFAV;

    open spec fn view(&self) -> GFAV {
        GFAV {
            header: self.header@,
            segments: self.segments@.map_values(|s: Segment<T>| s@),
            links: self.links@.map_values(|l: Link<T>| l@),
            containments: self.containments@.map_values(|c: Containment<T>| c@),
            paths: self.paths@.map_values(|p: Path<T>| p@),
        }
    }
}

/// What inserting one parsed line does to the aggregate's view.
pub open spec fn spec_insert_line(g: GFAV, line: LineV) -> GFAV {
    match line {
        LineV::Header(h) => GFAV { header: h, ..g },
        LineV::Segment(s) => GFAV { segments: g.segments.push(s), ..g },
        LineV::Link(l) => GFAV { links: g.links.push(l), ..g },
        LineV::Containment(c) => GFAV { containments: g.containments.push(c), ..g },
        LineV::Path(p) => GFAV { paths: g.paths.push(p), ..g },
    }
}

impl<T: OptFields> GFA<T> {
    /// An empty aggregate: no records, a header without a version.
    pub fn new() -> (r: Self)
        ensures
            r@ == (GFAV {
                header: HeaderV { version: None, optional: Seq::<OptFieldV>::empty() },
                segments: Seq::<SegmentV>::empty(),
                links: Seq::<LinkV>::empty(),
                containments: Seq::<ContainmentV>::empty(),
                paths: Seq::<PathV>::empty(),
            }),
    {
        let r = GFA {
            header: Header { version: None, optional: T::empty() },
            segments: Vec::new(),
            links: Vec::new(),
            containments: Vec::new(),
            paths: Vec::new(),
        };
        proof {
            assert(r.segments@.map_values(|s: Segment<T>| s@) =~= Seq::<SegmentV>::empty());
            assert(r.links@.map_values(|l: Link<T>| l@) =~= Seq::<LinkV>::empty());
            assert(r.containments@.map_values(|c: Containment<T>| c@) =~= Seq::<
                ContainmentV,
            >::empty());
            assert(r.paths@.map_values(|p: Path<T>| p@) =~= Seq::<PathV>::empty());
        }
        r
    }

    /// Files one parsed line under its kind.
    pub fn insert_line(&mut self, line: Line<T>)
        ensures
            final(self)@ == spec_insert_line(old(self)@, line@),
    {
        let ghost pre = self@;
        let ghost lv = line@;
        match line {
            Line::Header(h) => {
                self.header = h;
            },
            Line::Segment(s) => {
                self.segments.push(s);
                proof {
                    assert(self.segments@.map_values(|x: Segment<T>| x@) =~= pre.segments.push(
                        lv->Segment_0,
                    ));
                }
            },
            Line::Link(l) => {
                self.links.push(l);
                proof {
                    assert(self.links@.map_values(|x: Link<T>| x@) =~= pre.links.push(lv->Link_0));
                }
            },
            Line::Containment(c) => {
                self.containments.push(c);
                proof {
                    assert(self.containments@.map_values(|x: Containment<T>| x@)
                        =~= pre.containments.push(lv->Containment_0));
                }
            },
            Line::Path(p) => {
                self.paths.push(p);
                proof {
                    assert(self.paths@.map_values(|x: Path<T>| x@) =~= pre.paths.push(lv->Path_0));
                }
            },
        }
        proof {
            assert(self@ =~= spec_insert_line(pre, lv));
        }
    }
}

} // verus!
