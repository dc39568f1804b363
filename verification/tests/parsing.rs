use gfa::gfa::{Containment, Header, Line, Link, Orientation, Path, Segment};
use gfa::optfields::OptFieldVal::{BInt, Int, A, H, Z};
use gfa::optfields::{OptField, OptFieldVal, OptFields, OptionalFields};
use gfa::parser::{GFAParser, GFAParsingConfig};

fn b(s: &str) -> Vec<u8> {
    s.as_bytes().to_vec()
}

fn toks(s: &str) -> Vec<Vec<u8>> {
    s.split('\t').map(|t| t.as_bytes().to_vec()).collect()
}

#[test]
fn can_parse_header() {
    let hdr = "VN:Z:1.0";
    let hdr_ = Header {
        version: Some(b("1.0")),
        optional: (),
    };

    let result: Option<Header<()>> = Header::parse_line(&vec![b(hdr)], 0);

    match result {
        None => {
            panic!("Error parsing header");
        }
        Some(h) => assert_eq!(h, hdr_),
    }
}

#[test]
fn can_parse_link() {
    let link = "11\t+\t12\t-\t4M";
    let link_ = Link {
        from_segment: b("11"),
        from_orient: Orientation::Forward,
        to_segment: b("12"),
        to_orient: Orientation::Backward,
        overlap: b("4M"),
        optional: (),
    };
    let fields = toks(link);
    let parsed: Option<Link<()>> = Link::parse_line(&fields, 0);
    match parsed {
        None => {
            panic!("Error parsing link");
        }
        Some(l) => assert_eq!(l, link_),
    }
}

#[test]
fn can_parse_containment() {
    let cont = "1\t-\t2\t+\t110\t100M";

    let cont_: Containment<()> = Containment {
        container_name: b("1"),
        container_orient: Orientation::Backward,
        contained_name: b("2"),
        contained_orient: Orientation::Forward,
        pos: 110,
        overlap: b("100M"),
        optional: (),
    };

    let fields = toks(cont);
    let parsed: Option<Containment<()>> = Containment::parse_line(&fields, 0);
    match parsed {
        None => {
            panic!("Error parsing containment");
        }
        Some(c) => assert_eq!(c, cont_),
    }
}

#[test]
fn can_parse_path() {
    let path = "14\t11+,12-,13+\t4M,5M";

    let path_ = Path {
        path_name: b("14"),
        segment_names: b("11+,12-,13+"),
        overlaps: vec![b("4M"), b("5M")],
        optional: (),
    };

    let fields = toks(path);
    let result: Option<Path<()>> = Path::parse_line(&fields, 0);

    match result {
        None => {
            panic!("Error parsing path");
        }
        Some(p) => assert_eq!(p, path_),
    }
}

#[test]
fn segment_parser() {
    let name = "11";
    let seq = "ACCTT";
    let seg = "11\tACCTT\tLN:i:123\tSH:H:AACCFF05\tRC:i:123\tUR:Z:http://test.com/\tIJ:A:x\tAB:B:I1,2,3,52124";
    let fields = toks(seg);

    let optional_fields: Vec<_> = vec![
        OptField::new(b"LN", Int(123)).unwrap(),
        OptField::new(b"SH", H(vec![0xA, 0xA, 0xC, 0xC, 0xF, 0xF, 0x0, 0x5])).unwrap(),
        OptField::new(b"RC", Int(123)).unwrap(),
        OptField::new(b"UR", Z(b("http://test.com/"))).unwrap(),
        OptField::new(b"IJ", A(b'x')).unwrap(),
        OptField::new(b"AB", BInt(vec![1, 2, 3, 52124])).unwrap(),
    ]
    .into_iter()
    .collect();

    let segment_1: Option<Segment<()>> = Segment::parse_line(&fields, 0);

    assert_eq!(
        Some(Segment {
            name: b(name),
            sequence: b(seq),
            optional: ()
        }),
        segment_1
    );

    let segment_2: Segment<OptionalFields> = Segment::parse_line(&fields, 0).unwrap();

    assert_eq!(segment_2.name, b(name));
    assert_eq!(segment_2.sequence, b(seq));
    assert_eq!(segment_2.optional, optional_fields);
}

#[test]
fn parse_line_dispatches_on_marker() {
    let parser: GFAParser<()> = GFAParser::new();
    match parser.parse_line(b"S\tseg\tACGT") {
        Some(Line::Segment(s)) => {
            assert_eq!(s.name, b("seg"));
            assert_eq!(s.sequence, b("ACGT"));
        }
        _ => panic!("expected a segment"),
    }
    match parser.parse_line(b"H\tVN:Z:1.0") {
        Some(Line::Header(h)) => assert_eq!(h.version, Some(b("1.0"))),
        _ => panic!("expected a header"),
    }
    // unknown marker, empty line, malformed fixed field: all skipped
    assert_eq!(parser.parse_line(b"X\tfoo"), None);
    assert_eq!(parser.parse_line(b""), None);
    assert_eq!(parser.parse_line(b"L\t11\tx\t12\t-\t4M"), None);
    assert_eq!(parser.parse_line(b"C\t1\t-\t2\t+\tabc\t100M"), None);
}

#[test]
fn filter_skips_disabled_kinds() {
    let config = GFAParsingConfig {
        segments: false,
        ..GFAParsingConfig::all()
    };
    let parser: GFAParser<()> = GFAParser::with_config(config);
    let lines = vec![b("S\t1\tACGT"), b("L\t11\t+\t12\t-\t4M")];
    let parsed = parser.parse_all(&lines);
    assert_eq!(parsed.segments.len(), 0);
    assert_eq!(parsed.links.len(), 1);
    assert_eq!(parsed.links[0].from_segment, b("11"));
}

#[test]
fn lenient_optional_field_tokens() {
    let parser: GFAParser<OptionalFields> = GFAParser::new();
    let line = b"S\t1\tACGT\tLN:i:4\tnot-a-field\tUR:Z:x";
    match parser.parse_line(line) {
        Some(Line::Segment(s)) => {
            let expected = vec![
                OptField::new(b"LN", OptFieldVal::Int(4)).unwrap(),
                OptField::new(b"UR", OptFieldVal::Z(b("x"))).unwrap(),
            ];
            assert_eq!(s.optional, expected);
        }
        _ => panic!("the malformed optional token must not abort the record"),
    }
}

#[test]
fn parse_all_collects_records() {
    let parser: GFAParser<()> = GFAParser::new();
    let lines = vec![
        b("H\tVN:Z:1.0"),
        b("S\t1\tACGT"),
        b("S\t2\tTTGA"),
        b("L\t1\t+\t2\t-\t4M"),
        b("C\t1\t-\t2\t+\t110\t100M"),
        b("P\t14\t11+,12-\t4M,5M"),
        b("# a comment line is skipped"),
        b("S\tbroken"),
    ];
    let parsed = parser.parse_all(&lines);
    assert_eq!(parsed.header.version, Some(b("1.0")));
    assert_eq!(parsed.segments.len(), 2);
    assert_eq!(parsed.links.len(), 1);
    assert_eq!(parsed.containments.len(), 1);
    assert_eq!(parsed.paths.len(), 1);
}

#[test]
fn header_needs_the_version_field() {
    // the single token must be a Z-typed field tagged VN
    assert_eq!(Header::<()>::parse_line(&vec![b("VN:i:5")], 0), None);
    assert_eq!(Header::<()>::parse_line(&vec![], 0), None);
}

#[test]
fn get_field_returns_first_match() {
    let fields = vec![
        OptField::new(b"AB", OptFieldVal::Int(1)).unwrap(),
        OptField::new(b"CD", OptFieldVal::Int(2)).unwrap(),
        OptField::new(b"AB", OptFieldVal::Int(3)).unwrap(),
    ];
    let got = fields.get_field(b"AB").unwrap();
    assert_eq!(got.value, OptFieldVal::Int(1));
    assert!(fields.get_field(b"ZZ").is_none());
    assert_eq!(fields.fields().len(), 3);
    let none_store = ();
    assert!(none_store.get_field(b"AB").is_none());
    assert_eq!(none_store.fields().len(), 0);
}
