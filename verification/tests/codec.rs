use gfa::optfields::{OptField, OptFieldVal};

fn b(s: &str) -> Vec<u8> {
    s.as_bytes().to_vec()
}

fn round_trip(tag: &[u8], value: OptFieldVal) {
    let field = OptField::new(tag, value).unwrap();
    let text = field.encode();
    assert_eq!(OptField::parse(&text), Some(field));
}

#[test]
fn decode_encode_round_trips_every_variant() {
    round_trip(b"AB", OptFieldVal::A(b'x'));
    round_trip(b"i1", OptFieldVal::Int(123));
    round_trip(b"i2", OptFieldVal::Int(-99));
    round_trip(b"i3", OptFieldVal::Int(i64::MIN));
    round_trip(b"i4", OptFieldVal::Int(i64::MAX));
    round_trip(b"fA", OptFieldVal::Float(b("1.5")));
    round_trip(b"fB", OptFieldVal::Float(b("-0.25e-3")));
    round_trip(b"fC", OptFieldVal::Float(b("+.5E2")));
    round_trip(b"ZZ", OptFieldVal::Z(b("hello world")));
    round_trip(b"JS", OptFieldVal::J(b("{\"a\": 1}")));
    round_trip(b"SH", OptFieldVal::H(vec![0xA, 0x0, 0xF, 0x5]));
    round_trip(b"BI", OptFieldVal::BInt(vec![1, -2, 52124]));
    round_trip(b"BE", OptFieldVal::BInt(vec![]));
    round_trip(b"BF", OptFieldVal::BFloat(vec![b("1.5"), b("2"), b("3e7")]));
    round_trip(b"BG", OptFieldVal::BFloat(vec![]));
}

#[test]
fn encode_produces_spec_text() {
    let f = OptField::new(b"LN", OptFieldVal::Int(-7)).unwrap();
    assert_eq!(f.encode(), b("LN:i:-7"));
    let f = OptField::new(b"SH", OptFieldVal::H(vec![0xA, 0xC, 0x0])).unwrap();
    assert_eq!(f.encode(), b("SH:H:AC0"));
    let f = OptField::new(b"AB", OptFieldVal::BInt(vec![1, 2])).unwrap();
    assert_eq!(f.encode(), b("AB:B:I1,2"));
    let f = OptField::new(b"AC", OptFieldVal::BFloat(vec![b("1.5"), b("2")])).unwrap();
    assert_eq!(f.encode(), b("AC:B:f1.5,2"));
    let f = OptField::new(b"UR", OptFieldVal::Z(b("a b"))).unwrap();
    assert_eq!(f.encode(), b("UR:Z:a b"));
}

#[test]
fn tag_validity_is_enforced() {
    // first byte must be alphabetic, second alphanumeric
    assert!(OptField::new(b"1A", OptFieldVal::Int(0)).is_none());
    assert!(OptField::new(b"a%", OptFieldVal::Int(0)).is_none());
    assert!(OptField::new(b"", OptFieldVal::Int(0)).is_none());
    assert!(OptField::new(b"ABC", OptFieldVal::Int(0)).is_none());
    assert!(OptField::tag(b"9X").is_none());
    assert_eq!(OptField::tag(b"Xz"), Some([b'X', b'z']));
    assert!(OptField::new(b"x9", OptFieldVal::Int(0)).is_some());
}

#[test]
fn decode_accepts_each_type_code() {
    assert_eq!(
        OptField::parse(b"IJ:A:x"),
        Some(OptField::new(b"IJ", OptFieldVal::A(b'x')).unwrap())
    );
    assert_eq!(
        OptField::parse(b"LN:i:+123"),
        Some(OptField::new(b"LN", OptFieldVal::Int(123)).unwrap())
    );
    assert_eq!(
        OptField::parse(b"FL:f:3.25"),
        Some(OptField::new(b"FL", OptFieldVal::Float(b("3.25"))).unwrap())
    );
    assert_eq!(
        OptField::parse(b"UR:Z:http://test.com/"),
        Some(OptField::new(b"UR", OptFieldVal::Z(b("http://test.com/"))).unwrap())
    );
    assert_eq!(
        OptField::parse(b"SH:H:AACCFF05"),
        Some(
            OptField::new(b"SH", OptFieldVal::H(vec![0xA, 0xA, 0xC, 0xC, 0xF, 0xF, 0x0, 0x5]))
                .unwrap()
        )
    );
    assert_eq!(
        OptField::parse(b"AB:B:I1,2,3,52124"),
        Some(OptField::new(b"AB", OptFieldVal::BInt(vec![1, 2, 3, 52124])).unwrap())
    );
    assert_eq!(
        OptField::parse(b"AB:B:f0.5,2"),
        Some(OptField::new(b"AB", OptFieldVal::BFloat(vec![b("0.5"), b("2")])).unwrap())
    );
}

#[test]
fn decode_rejects_malformed_tokens() {
    assert_eq!(OptField::parse(b""), None);
    assert_eq!(OptField::parse(b"AB"), None);
    assert_eq!(OptField::parse(b"AB:i"), None);
    // unknown type byte
    assert_eq!(OptField::parse(b"AB:q:x"), None);
    // tag invariant violated in the token
    assert_eq!(OptField::parse(b"1B:i:5"), None);
    assert_eq!(OptField::parse(b"A%:i:5"), None);
    // separators must be colons
    assert_eq!(OptField::parse(b"AB.i.5"), None);
    // value pattern not found
    assert_eq!(OptField::parse(b"LN:i:abc"), None);
    assert_eq!(OptField::parse(b"SH:H:xyz"), None);
    // 64-bit overflow fails the whole field
    assert_eq!(OptField::parse(b"LN:i:99999999999999999999"), None);
    // an empty array payload has no sub-type byte
    assert_eq!(OptField::parse(b"AB:B:"), None);
}

#[test]
fn decode_takes_leftmost_value_match() {
    // the value pattern is searched for, as the lenient grammar asks
    assert_eq!(
        OptField::parse(b"LN:i:x-12y"),
        Some(OptField::new(b"LN", OptFieldVal::Int(-12)).unwrap())
    );
    assert_eq!(
        OptField::parse(b"FL:f:abc1.5e2"),
        Some(OptField::new(b"FL", OptFieldVal::Float(b("1.5e2"))).unwrap())
    );
}

#[test]
fn array_elements_are_dropped_independently() {
    // a token that fails to parse vanishes; the rest stay
    assert_eq!(
        OptField::parse(b"AB:B:I1,x,3"),
        Some(OptField::new(b"AB", OptFieldVal::BInt(vec![1, 3])).unwrap())
    );
    assert_eq!(
        OptField::parse(b"AB:B:f1.5,nope,2"),
        Some(OptField::new(b"AB", OptFieldVal::BFloat(vec![b("1.5"), b("2")])).unwrap())
    );
    // every element failing leaves an empty array, not a failure
    assert_eq!(
        OptField::parse(b"AB:B:Ix,y"),
        Some(OptField::new(b"AB", OptFieldVal::BInt(vec![])).unwrap())
    );
}
