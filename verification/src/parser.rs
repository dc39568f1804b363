//! The line-grammar parser.  A line is split on tabs; its first field
//! selects the record kind; each kind consumes its fixed fields under a
//! strict token grammar and hands the remaining tokens to the
//! optional-field store.  Any fixed-field mismatch yields no record — a
//! bad line is skipped, never an error.

use crate::bytes::{
    find_from, is_printable, run_end, seq_views, spec_split, copy_range, split_bytes,
};
use crate::gfa::{
    is_name_start, is_sequence_char, Containment, ContainmentV, Header, HeaderV, Line, LineV,
    Link, LinkV, Orientation, Path, PathV, Segment, SegmentV, GFA, GFAV,
};
use crate::numbers::spec_parse_usize;
use crate::optfields::{spec_decode, OptField, OptFieldV, OptFieldVal, OptFields};
use vstd::prelude::*;

verus! {

pub open spec fn name_start_pred() -> spec_fn(u8) -> bool {
    |b: u8| is_name_start(b)
}

pub open spec fn sequence_start_pred() -> spec_fn(u8) -> bool {
    |b: u8| b == 0x2au8 || is_sequence_char(b)
}

pub open spec fn sequence_char_pred() -> spec_fn(u8) -> bool {
    |b: u8| is_sequence_char(b)
}

/// The leftmost name in a token: a name-start byte, then the longest run
/// of visible ASCII.
pub open spec fn spec_parse_name(t: Seq<u8>) -> Option<Seq<u8>> {
    match find_from(t, 0, name_start_pred()) {
        Some(k) => Some(t.subrange(k, run_end(t, k + 1, crate::bytes::printable_pred()))),
        None => None,
    }
}

/// The leftmost sequence in a token: the unknown marker `*` alone, or the
/// longest run of sequence characters; the marker wins where both start.
pub open spec fn spec_parse_sequence(t: Seq<u8>) -> Option<Seq<u8>> {
    match find_from(t, 0, sequence_start_pred()) {
        Some(k) => if t[k] == 0x2au8 {
            Some(t.subrange(k, k + 1))
        } else {
            Some(t.subrange(k, run_end(t, k, sequence_char_pred())))
        },
        None => None,
    }
}

/// Reads the leftmost name of a token, as `spec_parse_name`.
fn parse_name(tok: &[u8]) -> (r: Option<Vec<u8>>)
    ensures
        match r {
            Some(v) => spec_parse_name(tok@) == Some(v@),
            None => spec_parse_name(tok@) is None,
        },
{
    let mut i: usize = 0;
    while i < tok.len()
        invariant
            0 <= i <= tok@.len(),
            find_from(tok@, 0, name_start_pred()) == find_from(tok@, i as int, name_start_pred()),
        decreases tok@.len() - i,
    {
        let b = tok[i];
        if 0x21 <= b && b <= 0x7e && b != 0x2a && b != 0x3d {
            let mut e: usize = i + 1;
            while e < tok.len() && 0x21 <= tok[e] && tok[e] <= 0x7e
                invariant
                    i + 1 <= e <= tok@.len(),
                    run_end(tok@, i as int + 1, crate::bytes::printable_pred()) == run_end(
                        tok@,
                        e as int,
                        crate::bytes::printable_pred(),
                    ),
                decreases tok@.len() - e,
            {
                e = e + 1;
            }
            proof {
                assert(run_end(tok@, e as int, crate::bytes::printable_pred()) == e);
            }
            return Some(copy_range(tok, i, e));
        }
        i = i + 1;
    }
    None
}

/// Reads the leftmost sequence of a token, as `spec_parse_sequence`.
fn parse_sequence(tok: &[u8]) -> (r: Option<Vec<u8>>)
    ensures
        match r {
            Some(v) => spec_parse_sequence(tok@) == Some(v@),
            None => spec_parse_sequence(tok@) is None,
        },
{
    let mut i: usize = 0;
    while i < tok.len()
        invariant
            0 <= i <= tok@.len(),
            find_from(tok@, 0, sequence_start_pred()) == find_from(
                tok@,
                i as int,
                sequence_start_pred(),
            ),
        decreases tok@.len() - i,
    {
        let b = tok[i];
        let is_seq_char = (0x41 <= b && b <= 0x5a) || (0x61 <= b && b <= 0x7a) || b == 0x3d || b
            == 0x2e;
        if b == 0x2a {
            return Some(copy_range(tok, i, i + 1));
        }
        if is_seq_char {
            let mut e: usize = i;
            while e < tok.len() && ((0x41 <= tok[e] && tok[e] <= 0x5a) || (0x61 <= tok[e] && tok[e]
                <= 0x7a) || tok[e] == 0x3d || tok[e] == 0x2e)
                invariant
                    i <= e <= tok@.len(),
                    run_end(tok@, i as int, sequence_char_pred()) == run_end(
                        tok@,
                        e as int,
                        sequence_char_pred(),
                    ),
                decreases tok@.len() - e,
            {
                e = e + 1;
            }
            proof {
                assert(run_end(tok@, e as int, sequence_char_pred()) == e);
            }
            return Some(copy_range(tok, i, e));
        }
        i = i + 1;
    }
    None
}

/// A header line holds exactly one fixed token, which must decode as the
/// `VN`-tagged text field; the rest go to the store.
pub open spec fn spec_parse_header<T: OptFields>(toks: Seq<Seq<u8>>) -> Option<HeaderV> {
    if toks.len() < 1 {
        None
    } else {
        match spec_decode(toks[0]) {
            Some(f) => if f.tag0 == 0x56u8 && f.tag1 == 0x4eu8 && f.value is Z {
                Some(
                    HeaderV {
                        version: Some(f.value->Z_0),
                        optional: T::spec_from_tokens(toks.skip(1)),
                    },
                )
            } else {
                None
            },
            None => None,
        }
    }
}

pub open spec fn spec_parse_segment<T: OptFields>(toks: Seq<Seq<u8>>) -> Option<SegmentV> {
    if toks.len() < 2 {
        None
    } else {
        match spec_parse_name(toks[0]) {
            Some(name) => match spec_parse_sequence(toks[1]) {
                Some(sequence) => Some(
                    SegmentV { name, sequence, optional: T::spec_from_tokens(toks.skip(2)) },
                ),
                None => None,
            },
            None => None,
        }
    }
}

pub open spec fn spec_parse_link<T: OptFields>(toks: Seq<Seq<u8>>) -> Option<LinkV> {
    if toks.len() < 5 {
        None
    } else {
        match (
            spec_parse_name(toks[0]),
            Orientation::spec_from_token(toks[1]),
            spec_parse_name(toks[2]),
            Orientation::spec_from_token(toks[3]),
        ) {
            (Some(from_segment), Some(from_orient), Some(to_segment), Some(to_orient)) => Some(
                LinkV {
                    from_segment,
                    from_orient,
                    to_segment,
                    to_orient,
                    overlap: toks[4],
                    optional: T::spec_from_tokens(toks.skip(5)),
                },
            ),
            _ => None,
        }
    }
}

pub open spec fn spec_parse_containment<T: OptFields>(toks: Seq<Seq<u8>>) -> Option<ContainmentV> {
    if toks.len() < 6 {
        None
    } else {
        match (
            spec_parse_name(toks[0]),
            Orientation::spec_from_token(toks[1]),
            spec_parse_name(toks[2]),
            Orientation::spec_from_token(toks[3]),
            spec_parse_usize(toks[4]),
        ) {
            (
                Some(container_name),
                Some(container_orient),
                Some(contained_name),
                Some(contained_orient),
                Some(pos),
            ) => Some(
                ContainmentV {
                    container_name,
                    container_orient,
                    contained_name,
                    contained_orient,
                    pos,
                    overlap: toks[5],
                    optional: T::spec_from_tokens(toks.skip(6)),
                },
            ),
            _ => None,
        }
    }
}

pub open spec fn spec_parse_path<T: OptFields>(toks: Seq<Seq<u8>>) -> Option<PathV> {
    if toks.len() < 3 {
        None
    } else {
        match spec_parse_name(toks[0]) {
            Some(path_name) => Some(
                PathV {
                    path_name,
                    segment_names: toks[1],
                    overlaps: spec_split(toks[2], 0x2cu8),
                    optional: T::spec_from_tokens(toks.skip(3)),
                },
            ),
            None => None,
        }
    }
}

impl<T: OptFields> Header<T> {
    /// Parses the fields of a header line, the marker already consumed.
    pub fn parse_line(toks: &Vec<Vec<u8>>, start: usize) -> (r: Option<Self>)
        requires
            start <= toks@.len(),
        ensures
            match r {
                Some(h) => spec_parse_header::<T>(seq_views(toks@).skip(start as int)) == Some(h@),
                None => spec_parse_header::<T>(seq_views(toks@).skip(start as int)) is None,
            },
    {
        let ghost sub = seq_views(toks@).skip(start as int);
        if start >= toks.len() {
            return None;
        }
        proof {
            assert(sub[0] == toks@[start as int]@);
        }
        match OptField::parse(toks[start].as_slice()) {
            Some(f) => {
                if f.tag[0] == 0x56 && f.tag[1] == 0x4e {
                    match f.value {
                        OptFieldVal::Z(v) => {
                            let optional = T::parse(toks, start + 1);
                            proof {
                                assert(sub.skip(1) =~= seq_views(toks@).skip(start as int + 1));
                            }
                            Some(Header { version: Some(v), optional })
                        },
                        _ => None,
                    }
                } else {
                    None
                }
            },
            None => None,
        }
    }
}

impl<T: OptFields> Segment<T> {
    /// Parses the fields of a segment line, the marker already consumed.
    pub fn parse_line(toks: &Vec<Vec<u8>>, start: usize) -> (r: Option<Self>)
        requires
            start <= toks@.len(),
        ensures
            match r {
                Some(s) => spec_parse_segment::<T>(seq_views(toks@).skip(start as int)) == Some(s@),
                None => spec_parse_segment::<T>(seq_views(toks@).skip(start as int)) is None,
            },
    {
        let ghost sub = seq_views(toks@).skip(start as int);
        if toks.len() - start < 2 {
            return None;
        }
        proof {
            assert(sub[0] == toks@[start as int]@);
            assert(sub[1] == toks@[start as int + 1]@);
        }
        let name = match parse_name(toks[start].as_slice()) {
            Some(n) => n,
            None => {
                return None;
            },
        };
        let sequence = match parse_sequence(toks[start + 1].as_slice()) {
            Some(s) => s,
            None => {
                return None;
            },
        };
        let optional = T::parse(toks, start + 2);
        proof {
            assert(sub.skip(2) =~= seq_views(toks@).skip(start as int + 2));
        }
        Some(Segment { name, sequence, optional })
    }
}

impl<T: OptFields> Link<T> {
    /// Parses the fields of a link line, the marker already consumed.
    pub fn parse_line(toks: &Vec<Vec<u8>>, start: usize) -> (r: Option<Self>)
        requires
            start <= toks@.len(),
        ensures
            match r {
                Some(l) => spec_parse_link::<T>(seq_views(toks@).skip(start as int)) == Some(l@),
                None => spec_parse_link::<T>(seq_views(toks@).skip(start as int)) is None,
            },
    {
        let ghost sub = seq_views(toks@).skip(start as int);
        if toks.len() - start < 5 {
            return None;
        }
        proof {
            assert(sub[0] == toks@[start as int]@);
            assert(sub[1] == toks@[start as int + 1]@);
            assert(sub[2] == toks@[start as int + 2]@);
            assert(sub[3] == toks@[start as int + 3]@);
            assert(sub[4] == toks@[start as int + 4]@);
        }
        let from_segment = match parse_name(toks[start].as_slice()) {
            Some(n) => n,
            None => {
                return None;
            },
        };
        let from_orient = match Orientation::from_bytes(toks[start + 1].as_slice()) {
            Some(o) => o,
            None => {
                return None;
            },
        };
        let to_segment = match parse_name(toks[start + 2].as_slice()) {
            Some(n) => n,
            None => {
                return None;
            },
        };
        let to_orient = match Orientation::from_bytes(toks[start + 3].as_slice()) {
            Some(o) => o,
            None => {
                return None;
            },
        };
        let overlap = copy_range(toks[start + 4].as_slice(), 0, toks[start + 4].len());
        proof {
            assert(overlap@ =~= sub[4]);
        }
        let optional = T::parse(toks, start + 5);
        proof {
            assert(sub.skip(5) =~= seq_views(toks@).skip(start as int + 5));
        }
        Some(Link { from_segment, from_orient, to_segment, to_orient, overlap, optional })
    }
}

impl<T: OptFields> Containment<T> {
    /// Parses the fields of a containment line, the marker already
    /// consumed.
    pub fn parse_line(toks: &Vec<Vec<u8>>, start: usize) -> (r: Option<Self>)
        requires
            start <= toks@.len(),
        ensures
            match r {
                Some(c) => spec_parse_containment::<T>(seq_views(toks@).skip(start as int)) == Some(
                    c@,
                ),
                None => spec_parse_containment::<T>(seq_views(toks@).skip(start as int)) is None,
            },
    {
        let ghost sub = seq_views(toks@).skip(start as int);
        if toks.len() - start < 6 {
            return None;
        }
        proof {
            assert(sub[0] == toks@[start as int]@);
            assert(sub[1] == toks@[start as int + 1]@);
            assert(sub[2] == toks@[start as int + 2]@);
            assert(sub[3] == toks@[start as int + 3]@);
            assert(sub[4] == toks@[start as int + 4]@);
            assert(sub[5] == toks@[start as int + 5]@);
        }
        let container_name = match parse_name(toks[start].as_slice()) {
            Some(n) => n,
            None => {
                return None;
            },
        };
        let container_orient = match Orientation::from_bytes(toks[start + 1].as_slice()) {
            Some(o) => o,
            None => {
                return None;
            },
        };
        let contained_name = match parse_name(toks[start + 2].as_slice()) {
            Some(n) => n,
            None => {
                return None;
            },
        };
        let contained_orient = match Orientation::from_bytes(toks[start + 3].as_slice()) {
            Some(o) => o,
            None => {
                return None;
            },
        };
        let pos = match crate::numbers::parse_usize_text(toks[start + 4].as_slice()) {
            Some(p) => p,
            None => {
                return None;
            },
        };
        let overlap = copy_range(toks[start + 5].as_slice(), 0, toks[start + 5].len());
        proof {
            assert(overlap@ =~= sub[5]);
        }
        let optional = T::parse(toks, start + 6);
        proof {
            assert(sub.skip(6) =~= seq_views(toks@).skip(start as int + 6));
        }
        Some(
            Containment {
                container_name,
                container_orient,
                contained_name,
                contained_orient,
                pos,
                overlap,
                optional,
            },
        )
    }
}

impl<T: OptFields> Path<T> {
    /// Parses the fields of a path line, the marker already consumed.
    pub fn parse_line(toks: &Vec<Vec<u8>>, start: usize) -> (r: Option<Self>)
        requires
            start <= toks@.len(),
        ensures
            match r {
                Some(p) => spec_parse_path::<T>(seq_views(toks@).skip(start as int)) == Some(p@),
                None => spec_parse_path::<T>(seq_views(toks@).skip(start as int)) is None,
            },
    {
        let ghost sub = seq_views(toks@).skip(start as int);
        if toks.len() - start < 3 {
            return None;
        }
        proof {
            assert(sub[0] == toks@[start as int]@);
            assert(sub[1] == toks@[start as int + 1]@);
            assert(sub[2] == toks@[start as int + 2]@);
        }
        let path_name = match parse_name(toks[start].as_slice()) {
            Some(n) => n,
            None => {
                return None;
            },
        };
        let segment_names = copy_range(toks[start + 1].as_slice(), 0, toks[start + 1].len());
        proof {
            assert(segment_names@ =~= sub[1]);
        }
        let overlaps = split_bytes(toks[start + 2].as_slice(), 0x2c);
        let optional = T::parse(toks, start + 3);
        proof {
            assert(sub.skip(3) =~= seq_views(toks@).skip(start as int + 3));
        }
        Some(Path { path_name, segment_names, overlaps, optional })
    }
}

/// The configuration that enables every line kind.
pub open spec fn spec_config_all() -> GFAParsingConfig {
    GFAParsingConfig { segments: true, links: true, containments: true, paths: true }
}

/// Which line kinds a parser accepts.  Header lines always pass; each of
/// the other four kinds can be switched off, and a disabled kind's lines
/// are skipped exactly as malformed lines are.
#[derive(Debug, Clone, Copy, PartialEq, Eq, Structural)]
pub struct GFAParsingConfig {
    pub segments: bool,
    pub links: bool,
    pub containments: bool,
    pub paths: bool,
}

impl GFAParsingConfig {
    /// Parse no optional line kinds: only headers pass.
    pub fn none() -> (r: Self)
        ensures
            r == (GFAParsingConfig { segments: false, links: false, containments: false, paths: false }),
    {
        GFAParsingConfig { segments: false, links: false, containments: false, paths: false }
    }

    /// Parse every line kind.
    pub fn all() -> (r: Self)
        ensures
            r == (GFAParsingConfig { segments: true, links: true, containments: true, paths: true }),
    {
        GFAParsingConfig { segments: true, links: true, containments: true, paths: true }
    }
}

impl Default for GFAParsingConfig {
    /// The default accepts every line kind.
    fn default() -> (r: Self)
        ensures
            r == (GFAParsingConfig { segments: true, links: true, containments: true, paths: true }),
    {
        GFAParsingConfig { segments: true, links: true, containments: true, paths: true }
    }
}

/// Whether a line whose first byte is `b` passes the configured filter.
pub open spec fn spec_enabled(cfg: GFAParsingConfig, b: u8) -> bool {
    b == 0x48u8 || (b == 0x53u8 && cfg.segments) || (b == 0x4cu8 && cfg.links) || (b == 0x43u8
        && cfg.containments) || (b == 0x50u8 && cfg.paths)
}

/// What one line parses to: nothing for an empty, filtered-out, unmarked
/// or malformed line; otherwise the record of the kind its marker selects.
pub open spec fn spec_parse_line<T: OptFields>(cfg: GFAParsingConfig, line: Seq<u8>) -> Option<
    LineV,
> {
    if line.len() == 0 || !spec_enabled(cfg, line[0]) {
        None
    } else {
        let toks = spec_split(line, 0x09u8);
        if toks[0].len() != 1 {
            None
        } else if toks[0][0] == 0x48u8 {
            match spec_parse_header::<T>(toks.skip(1)) {
                Some(h) => Some(LineV::Header(h)),
                None => None,
            }
        } else if toks[0][0] == 0x53u8 {
            match spec_parse_segment::<T>(toks.skip(1)) {
                Some(s) => Some(LineV::Segment(s)),
                None => None,
            }
        } else if toks[0][0] == 0x4cu8 {
            match spec_parse_link::<T>(toks.skip(1)) {
                Some(l) => Some(LineV::Link(l)),
                None => None,
            }
        } else if toks[0][0] == 0x43u8 {
            match spec_parse_containment::<T>(toks.skip(1)) {
                Some(c) => Some(LineV::Containment(c)),
                None => None,
            }
        } else if toks[0][0] == 0x50u8 {
            match spec_parse_path::<T>(toks.skip(1)) {
                Some(p) => Some(LineV::Path(p)),
                None => None,
            }
        } else {
            None
        }
    }
}

/// The empty aggregate view.
pub open spec fn spec_empty_gfa() -> GFAV {
    GFAV {
        header: HeaderV { version: None, optional: Seq::<OptFieldV>::empty() },
        segments: Seq::<SegmentV>::empty(),
        links: Seq::<LinkV>::empty(),
        containments: Seq::<ContainmentV>::empty(),
        paths: Seq::<PathV>::empty(),
    }
}

/// What a whole stream of lines parses to: each line's record inserted in
/// order, lines that parse to nothing silently skipped.
pub open spec fn spec_parse_all<T: OptFields>(cfg: GFAParsingConfig, lines: Seq<Seq<u8>>) -> GFAV
    decreases lines.len(),
{
    if lines.len() == 0 {
        spec_empty_gfa()
    } else {
        let g = spec_parse_all::<T>(cfg, lines.drop_last());
        match spec_parse_line::<T>(cfg, lines.last()) {
            Some(l) => crate::gfa::spec_insert_line(g, l),
            None => g,
        }
    }
}

/// A parsing configuration bound to a choice of optional-field store.
pub struct GFAParser<T: OptFields> {
    pub config: GFAParsingConfig,
    pub _store: core::marker::PhantomData<T>,
}

impl<T: OptFields> GFAParser<T> {
    /// A parser that accepts every line kind.
    pub fn new() -> (r: Self)
        ensures
            r.config == spec_config_all(),
    {
        Self::with_config(GFAParsingConfig::all())
    }

    /// A parser restricted to the kinds the configuration enables.
    pub fn with_config(config: GFAParsingConfig) -> (r: Self)
        ensures
            r.config == config,
    {
        GFAParser { config, _store: core::marker::PhantomData }
    }

    /// Passes a line through the configured filter unchanged; a line of a
    /// disabled kind, or of no known kind, is withheld.
    fn filter_line<'a>(&self, line: &'a [u8]) -> (r: Option<&'a [u8]>)
        ensures
            match r {
                Some(l) => l@ == line@ && line@.len() > 0 && spec_enabled(self.config, line@[0]),
                None => line@.len() == 0 || !spec_enabled(self.config, line@[0]),
            },
    {
        if line.len() == 0 {
            return None;
        }
        let b = line[0];
        let enabled = b == 0x48 || (b == 0x53 && self.config.segments) || (b == 0x4c
            && self.config.links) || (b == 0x43 && self.config.containments) || (b == 0x50
            && self.config.paths);
        if enabled {
            Some(line)
        } else {
            None
        }
    }

    /// Parses one line, as `spec_parse_line` describes: `None` for a
    /// filtered-out or malformed line, the typed record otherwise.
    pub fn parse_line(&self, line: &[u8]) -> (r: Option<Line<T>>)
        ensures
            match r {
                Some(l) => spec_parse_line::<T>(self.config, line@) == Some(l@),
                None => spec_parse_line::<T>(self.config, line@) is None,
            },
    {
        let line = match self.filter_line(line) {
            Some(l) => l,
            None => {
                return None;
            },
        };
        let toks = split_bytes(line, 0x09);
        proof {
            crate::bytes::lemma_split_len(line@, 0x09u8);
            assert(seq_views(toks@)[0] == toks@[0]@);
        }
        if toks[0].len() != 1 {
            return None;
        }
        let m = toks[0][0];
        if m == 0x48 {
            match Header::parse_line(&toks, 1) {
                Some(h) => Some(Line::Header(h)),
                None => None,
            }
        } else if m == 0x53 {
            match Segment::parse_line(&toks, 1) {
                Some(s) => Some(Line::Segment(s)),
                None => None,
            }
        } else if m == 0x4c {
            match Link::parse_line(&toks, 1) {
                Some(l) => Some(Line::Link(l)),
                None => None,
            }
        } else if m == 0x43 {
            match Containment::parse_line(&toks, 1) {
                Some(c) => Some(Line::Containment(c)),
                None => None,
            }
        } else if m == 0x50 {
            match Path::parse_line(&toks, 1) {
                Some(p) => Some(Line::Path(p)),
                None => None,
            }
        } else {
            None
        }
    }

    /// Parses a stream of byte lines into the aggregate, skipping the
    /// lines that parse to nothing, as `spec_parse_all` describes.
    pub fn parse_all(&self, input: &Vec<Vec<u8>>) -> (r: GFA<T>)
        ensures
            r@ == spec_parse_all::<T>(self.config, seq_views(input@)),
    {
        let ghost lines = seq_views(input@);
        let mut gfa: GFA<T> = GFA::new();
        let mut i: usize = 0;
        proof {
            assert(lines.take(0) =~= Seq::<Seq<u8>>::empty());
            assert(gfa@ =~= spec_parse_all::<T>(self.config, lines.take(0)));
        }
        while i < input.len()
            invariant
                0 <= i <= input@.len(),
                lines == seq_views(input@),
                gfa@ == spec_parse_all::<T>(self.config, lines.take(i as int)),
            decreases input@.len() - i,
        {
            match self.parse_line(input[i].as_slice()) {
                Some(l) => {
                    gfa.insert_line(l);
                },
                None => {},
            }
            i = i + 1;
            proof {
                assert(lines.take(i as int).drop_last() =~= lines.take(i as int - 1));
                assert(lines.take(i as int).last() == lines[i as int - 1]);
                assert(lines[i as int - 1] == input@[i as int - 1]@);
                assert(gfa@ =~= spec_parse_all::<T>(self.config, lines.take(i as int)));
            }
        }
        proof {
            assert(lines.take(input@.len() as int) =~= lines);
        }
        gfa
    }
}

impl<T: OptFields> Default for GFAParser<T> {
    /// The default parser accepts every line kind.
    fn default() -> (r: Self)
        ensures
            r.config == spec_config_all(),
    {
        Self::new()
    }
}

/// A whole well-formed name token is matched in full.
pub proof fn lemma_parse_name_whole(n: Seq<u8>)
    requires
        crate::gfa::wf_name(n),
    ensures
        spec_parse_name(n) == Some(n),
{
    assert(name_start_pred()(n[0]));
    assert(find_from(n, 0, name_start_pred()) == Some(0int));
    crate::bytes::lemma_run_end(n, 1, crate::bytes::printable_pred());
    let e = run_end(n, 1, crate::bytes::printable_pred());
    if e < n.len() {
        assert(is_printable(n[e]));
        assert(crate::bytes::printable_pred()(n[e]));
        assert(false);
    }
    assert(n.subrange(0, n.len() as int) =~= n);
}

/// A whole well-formed sequence token is matched in full.
pub proof fn lemma_parse_sequence_whole(s: Seq<u8>)
    requires
        crate::gfa::wf_sequence(s),
    ensures
        spec_parse_sequence(s) == Some(s),
{
    if s.len() == 1 && s[0] == 0x2au8 {
        assert(sequence_start_pred()(s[0]));
        assert(find_from(s, 0, sequence_start_pred()) == Some(0int));
        assert(s.subrange(0, 1) =~= s);
    } else {
        assert(is_sequence_char(s[0]));
        assert(sequence_start_pred()(s[0]));
        assert(find_from(s, 0, sequence_start_pred()) == Some(0int));
        assert(s[0] != 0x2au8);
        crate::bytes::lemma_run_end(s, 0, sequence_char_pred());
        let e = run_end(s, 0, sequence_char_pred());
        if e < s.len() {
            assert(is_sequence_char(s[e]));
            assert(sequence_char_pred()(s[e]));
            assert(false);
        }
        assert(s.subrange(0, s.len() as int) =~= s);
    }
}

/// A matched name token is itself a whole well-formed name.
pub proof fn lemma_parse_name_wf(t: Seq<u8>)
    ensures
        spec_parse_name(t) matches Some(n) ==> crate::gfa::wf_name(n),
{
    match find_from(t, 0, name_start_pred()) {
        Some(k) => {
            crate::bytes::lemma_find_from(t, 0, name_start_pred());
            crate::bytes::lemma_run_end(t, k + 1, crate::bytes::printable_pred());
            let e = run_end(t, k + 1, crate::bytes::printable_pred());
            let n = t.subrange(k, e);
            assert(is_name_start(t[k]));
            assert(n[0] == t[k]);
            assert forall|i: int| 0 <= i < n.len() implies is_printable(#[trigger] n[i]) by {
                assert(n[i] == t[k + i]);
                if i > 0 {
                    assert(crate::bytes::printable_pred()(t[k + i]));
                }
            }
        },
        None => {},
    }
}

/// A matched sequence token is itself a whole well-formed sequence.
pub proof fn lemma_parse_sequence_wf(t: Seq<u8>)
    ensures
        spec_parse_sequence(t) matches Some(s) ==> crate::gfa::wf_sequence(s),
{
    match find_from(t, 0, sequence_start_pred()) {
        Some(k) => {
            crate::bytes::lemma_find_from(t, 0, sequence_start_pred());
            if t[k] == 0x2au8 {
                let s = t.subrange(k, k + 1);
                assert(s[0] == t[k]);
            } else {
                assert(is_sequence_char(t[k]));
                crate::bytes::lemma_run_end(t, k, sequence_char_pred());
                let e = run_end(t, k, sequence_char_pred());
                assert(e > k) by {
                    assert(sequence_char_pred()(t[k]));
                }
                let s = t.subrange(k, e);
                assert forall|i: int| 0 <= i < s.len() implies is_sequence_char(
                    #[trigger] s[i],
                ) by {
                    assert(s[i] == t[k + i]);
                    assert(sequence_char_pred()(t[k + i]));
                }
            }
        },
        None => {},
    }
}

/// Parsed records are well-formed: whatever record a line yields, the
/// writer can emit it and the round-trip laws recover it.  The one
/// exception is the header, whose written line carries the version alone;
/// a parsed header with trailing optional fields is recovered without
/// them.
pub proof fn lemma_parse_line_wf<T: OptFields>(cfg: GFAParsingConfig, line: Seq<u8>)
    requires
        !crate::bytes::has_byte(line, 0x0au8),
    ensures
        match spec_parse_line::<T>(cfg, line) {
            Some(LineV::Segment(s)) => crate::gfa::wf_segment(s),
            Some(LineV::Link(l)) => crate::gfa::wf_link(l),
            Some(LineV::Containment(c)) => crate::gfa::wf_containment(c),
            Some(LineV::Path(p)) => crate::gfa::wf_path(p),
            _ => true,
        },
{
    if line.len() == 0 || !spec_enabled(cfg, line[0]) {
    } else {
        let toks = spec_split(line, 0x09u8);
        crate::bytes::lemma_split_len(line, 0x09u8);
        crate::bytes::lemma_split_pieces_bytes(line, 0x09u8, 0x09u8);
        crate::bytes::lemma_split_pieces_bytes(line, 0x09u8, 0x0au8);
        assert forall|i: int| 0 <= i < toks.len() implies crate::gfa::wf_opaque(
            #[trigger] toks[i],
        ) by {
            assert(!crate::bytes::has_byte(toks[i], 0x09u8));
            assert(!crate::bytes::has_byte(toks[i], 0x0au8));
        }
        let sub = toks.skip(1);
        assert(forall|i: int| 0 <= i < sub.len() ==> #[trigger] sub[i] == toks[i + 1]);
        if toks[0].len() == 1 && toks[0][0] == 0x53u8 {
            match spec_parse_segment::<T>(sub) {
                Some(s) => {
                    lemma_parse_name_wf(sub[0]);
                    lemma_parse_sequence_wf(sub[1]);
                    T::lemma_from_tokens_wf(sub.skip(2));
                },
                None => {},
            }
        } else if toks[0].len() == 1 && toks[0][0] == 0x4cu8 {
            match spec_parse_link::<T>(sub) {
                Some(l) => {
                    lemma_parse_name_wf(sub[0]);
                    lemma_parse_name_wf(sub[2]);
                    assert(l.overlap == sub[4]);
                    assert(crate::gfa::wf_opaque(toks[5]));
                    T::lemma_from_tokens_wf(sub.skip(5));
                },
                None => {},
            }
        } else if toks[0].len() == 1 && toks[0][0] == 0x43u8 {
            match spec_parse_containment::<T>(sub) {
                Some(c) => {
                    lemma_parse_name_wf(sub[0]);
                    lemma_parse_name_wf(sub[2]);
                    assert(c.overlap == sub[5]);
                    assert(crate::gfa::wf_opaque(toks[6]));
                    T::lemma_from_tokens_wf(sub.skip(6));
                },
                None => {},
            }
        } else if toks[0].len() == 1 && toks[0][0] == 0x50u8 {
            match spec_parse_path::<T>(sub) {
                Some(p) => {
                    lemma_parse_name_wf(sub[0]);
                    assert(p.segment_names == sub[1]);
                    assert(crate::gfa::wf_opaque(toks[2]));
                    let list = sub[2];
                    assert(crate::gfa::wf_opaque(toks[3]));
                    crate::bytes::lemma_split_len(list, 0x2cu8);
                    crate::bytes::lemma_split_pieces_bytes(list, 0x2cu8, 0x2cu8);
                    crate::bytes::lemma_split_pieces_bytes(list, 0x2cu8, 0x09u8);
                    crate::bytes::lemma_split_pieces_bytes(list, 0x2cu8, 0x0au8);
                    assert forall|i: int|
                        0 <= i < p.overlaps.len() implies crate::gfa::wf_opaque(
                        #[trigger] p.overlaps[i],
                    ) && !crate::bytes::has_byte(p.overlaps[i], 0x2cu8) by {
                        assert(p.overlaps[i] == spec_split(list, 0x2cu8)[i]);
                    }
                    T::lemma_from_tokens_wf(sub.skip(3));
                },
                None => {},
            }
        }
    }
}

/// The filtering law: a parser never yields a record of a disabled kind,
/// whatever the line says.
pub proof fn lemma_filtering<T: OptFields>(cfg: GFAParsingConfig, line: Seq<u8>)
    ensures
        !cfg.segments ==> !(spec_parse_line::<T>(cfg, line) matches Some(LineV::Segment(_))),
        !cfg.links ==> !(spec_parse_line::<T>(cfg, line) matches Some(LineV::Link(_))),
        !cfg.containments ==> !(spec_parse_line::<T>(cfg, line) matches Some(
            LineV::Containment(_),
        )),
        !cfg.paths ==> !(spec_parse_line::<T>(cfg, line) matches Some(LineV::Path(_))),
{
    if line.len() > 0 && spec_enabled(cfg, line[0]) {
        let toks = spec_split(line, 0x09u8);
        if line[0] == 0x09u8 {
            assert(toks[0] == Seq::<u8>::empty());
        } else {
            crate::bytes::lemma_split_len(line.skip(1), 0x09u8);
            assert(toks[0] == seq![line[0]] + spec_split(line.skip(1), 0x09u8)[0]);
            assert(toks[0][0] == line[0]);
        }
    }
}

} // verus!
