use gfa::gfa::{Containment, Header, Line, Link, Orientation, Path, Segment, GFA};
use gfa::optfields::{OptField, OptFieldVal, OptionalFields};
use gfa::parser::GFAParser;
use gfa::writer::{
    containment_string, gfa_string, link_string, path_string, segment_string, write_header,
    write_optional_fields,
};

fn b(s: &str) -> Vec<u8> {
    s.as_bytes().to_vec()
}

#[test]
fn print_segment() {
    let segment: Segment<()> = Segment::new(b"seg1", b"GCCCTA");
    let string = segment_string(&segment);
    assert_eq!(string, b("S\tseg1\tGCCCTA"));
}

#[test]
fn print_link() {
    let link: Link<()> = Link::new(
        b"13",
        Orientation::Forward,
        b"552",
        Orientation::Backward,
        b"0M",
    );
    let string = link_string(&link);
    assert_eq!(string, b("L\t13\t+\t552\t-\t0M"));
}

#[test]
fn print_path() {
    let path: Path<()> = Path::new(
        b"path1",
        vec![b("13+"), b("51-"), b("241+")],
        vec![b("8M"), b("1M"), b("3M")],
    );

    let string = path_string(&path);
    assert_eq!(string, b("P\tpath1\t13+,51-,241+\t8M,1M,3M"));
}

#[test]
fn print_containment() {
    let cont: Containment<()> = Containment {
        container_name: b("1"),
        container_orient: Orientation::Backward,
        contained_name: b("2"),
        contained_orient: Orientation::Forward,
        pos: 110,
        overlap: b("100M"),
        optional: (),
    };
    assert_eq!(containment_string(&cont), b("C\t1\t-\t2\t+\t110\t100M"));
}

#[test]
fn print_header() {
    let mut out = Vec::new();
    write_header(&Some(b("1.0")), &mut out);
    assert_eq!(out, b("H\tVN:Z:1.0"));
    let mut out = Vec::new();
    write_header(&None, &mut out);
    assert_eq!(out, b("H"));
}

#[test]
fn print_optional_fields() {
    let fields = vec![
        OptField::new(b"LN", OptFieldVal::Int(4)).unwrap(),
        OptField::new(b"UR", OptFieldVal::Z(b("http://x/"))).unwrap(),
    ];
    let mut out = Vec::new();
    write_optional_fields(&fields, &mut out);
    assert_eq!(out, b("\tLN:i:4\tUR:Z:http://x/"));
}

#[test]
fn print_segment_with_fields() {
    let seg: Segment<OptionalFields> = Segment {
        name: b("s1"),
        sequence: b("ACGT"),
        optional: vec![OptField::new(b"LN", OptFieldVal::Int(4)).unwrap()],
    };
    assert_eq!(segment_string(&seg), b("S\ts1\tACGT\tLN:i:4"));
}

#[test]
fn print_gfa_round_trip() {
    let parser: GFAParser<OptionalFields> = GFAParser::new();
    let text = "H\tVN:Z:1.0\nS\t1\tACGT\nS\t2\tTT\nP\t14\t1+,2-\t4M\nL\t1\t+\t2\t-\t4M\nC\t1\t-\t2\t+\t110\t100M\n";
    let lines: Vec<Vec<u8>> = text
        .trim_end_matches('\n')
        .split('\n')
        .map(|l| l.as_bytes().to_vec())
        .collect();
    let parsed = parser.parse_all(&lines);
    let written = gfa_string(&parsed);
    assert_eq!(String::from_utf8(written).unwrap(), text);
}

#[test]
fn record_round_trips_through_text() {
    // write a record, parse the written line, and get the record back
    let parser: GFAParser<OptionalFields> = GFAParser::new();
    let link: Link<OptionalFields> = Link {
        from_segment: b("11"),
        from_orient: Orientation::Forward,
        to_segment: b("12"),
        to_orient: Orientation::Backward,
        overlap: b("4M"),
        optional: vec![
            OptField::new(b"RC", OptFieldVal::Int(123)).unwrap(),
            OptField::new(b"ID", OptFieldVal::Z(b("edge 7"))).unwrap(),
        ],
    };
    match parser.parse_line(&link_string(&link)) {
        Some(Line::Link(l)) => assert_eq!(l, link),
        _ => panic!("written link must parse back"),
    }

    let path: Path<OptionalFields> = Path {
        path_name: b("p"),
        segment_names: b("11+,12-"),
        overlaps: vec![b("4M"), b("5M")],
        optional: vec![],
    };
    match parser.parse_line(&path_string(&path)) {
        Some(Line::Path(p)) => assert_eq!(p, path),
        _ => panic!("written path must parse back"),
    }

    let cont: Containment<OptionalFields> = Containment {
        container_name: b("1"),
        container_orient: Orientation::Backward,
        contained_name: b("2"),
        contained_orient: Orientation::Forward,
        pos: usize::MAX,
        overlap: b(""),
        optional: vec![],
    };
    match parser.parse_line(&containment_string(&cont)) {
        Some(Line::Containment(c)) => assert_eq!(c, cont),
        _ => panic!("written containment must parse back"),
    }

    let header: Header<OptionalFields> = Header {
        version: Some(b("2.0")),
        optional: vec![],
    };
    let mut line = Vec::new();
    write_header(&header.version, &mut line);
    match parser.parse_line(&line) {
        Some(Line::Header(h)) => assert_eq!(h, header),
        _ => panic!("written header must parse back"),
    }
}

#[test]
fn empty_gfa_prints_bare_header() {
    let gfa: GFA<()> = GFA::new();
    assert_eq!(gfa_string(&gfa), b("H\n"));
}
