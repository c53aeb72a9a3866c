use geom_well_known::coord::CoordF64;
use geom_well_known::errors::{ConvField, WkError};
use geom_well_known::{LineString, Point, WKGeom};

fn f(v: f64) -> CoordF64 {
    CoordF64::from_bits(v.to_bits())
}

#[test]
fn point_obj() {
    let point = Point::new(f(0f32 as f64), f(0f32 as f64));
    assert_eq!(point.x, f(0f32 as f64));
    assert_eq!(point.to_wkt().unwrap(), "POINT (0 0)".to_string());
    assert_eq!(point.to_wkt().unwrap(), "POINT (0 0)".to_string());

    let new_point_o = Point::<i64>::from_wkt("POINT (1 3)");
    assert!(new_point_o.is_ok());
    let new_point: Point<i64> = new_point_o.unwrap();
    assert_eq!(new_point.x, 1);
    assert_eq!(new_point.y, 3);

    let point = Point::new(f(2f64), f(4f64));
    let hex_wkb = "010100000000000000000000400000000000001040".to_string();
    assert_eq!(point.to_wkb_hexstring().unwrap(), hex_wkb);

    let new_point = Point::from_wkb_hexstring(hex_wkb).unwrap();
    assert_eq!(new_point, point);
}

#[test]
fn lines() {
    let mut line = LineString::new_empty();
    line.push_point(Point::new(f(0f64), f(0f64)));
    line.push_point(Point::new(f(0f64), f(1f64)));
    assert_eq!(line.to_wkt().unwrap(), "LINESTRING (0 0, 0 1)".to_string());
    assert_eq!(
        line.to_wkb_hexstring().unwrap(),
        "010200000002000000000000000000000000000000000000000000000000000000000000000000f03f"
            .to_string()
    );

    let new_line: LineString<CoordF64> = LineString::from_wkb(line.to_wkb().unwrap()).unwrap();
    assert_eq!(new_line, line);
}

#[test]
fn wkb_point_round_trip_fractional() {
    // a coordinate with a fractional part round-trips through WKB bit-exactly
    let p = Point::new(f(1.5), f(-2.25));
    let bytes = p.to_wkb().unwrap();
    assert_eq!(bytes.len(), 21);
    let q: Point<CoordF64> = Point::from_wkb(bytes).unwrap();
    assert_eq!(q, p);
}

#[test]
fn wkb_line_round_trip_order() {
    let mut line = LineString::new_empty();
    line.push_point(Point::new(f(1.0), f(2.0)));
    line.push_point(Point::new(f(3.5), f(-4.0)));
    line.push_point(Point::new(f(5.0), f(6.0)));
    assert_eq!(line.npoints(), 3);
    let dec: LineString<CoordF64> = LineString::from_wkb(line.to_wkb().unwrap()).unwrap();
    assert_eq!(dec.npoints(), 3);
    assert_eq!(dec, line);
}

#[test]
fn wkb_line_round_trip_empty() {
    let line: LineString<CoordF64> = LineString::new_empty();
    let bytes = line.to_wkb().unwrap();
    assert_eq!(bytes.len(), 9);
    let dec: LineString<CoordF64> = LineString::from_wkb(bytes).unwrap();
    assert_eq!(dec.npoints(), 0);
}

#[test]
fn wkt_point_round_trip_integers() {
    let p = Point::<i64>::new(-12345, 678);
    let text = p.to_wkt().unwrap();
    assert_eq!(text, "POINT (-12345 678)");
    let q: Point<i64> = Point::from_wkt(&text).unwrap();
    assert_eq!(q, p);
}

#[test]
fn wkt_parsing_is_liberal_about_spaces() {
    let p: Point<i64> = Point::from_wkt("  POINT  (  7   -9  )  ").unwrap();
    assert_eq!(p.x, 7);
    assert_eq!(p.y, -9);

    let l: LineString<i64> = LineString::from_wkt("LINESTRING ( 1 2 ,  3 4 )").unwrap();
    assert_eq!(l.npoints(), 2);
    assert_eq!(l.points[0], Point::new(1, 2));
    assert_eq!(l.points[1], Point::new(3, 4));
}

#[test]
fn wkt_plus_sign_and_negative_zero() {
    let p: Point<i64> = Point::from_wkt("POINT (+8 -7)").unwrap();
    assert_eq!(p.x, 8);
    assert_eq!(p.y, -7);

    // "-0" parses to IEEE negative zero, as f64 parsing does
    let q: Point<CoordF64> = Point::from_wkt("POINT (-0 0)").unwrap();
    assert_eq!(q.x.bits, (-0.0f64).to_bits());
    assert_eq!(q.y.bits, 0.0f64.to_bits());
}

#[test]
fn encoding_is_deterministic() {
    let p = Point::new(f(2.5), f(-7.125));
    assert_eq!(p.to_wkb().unwrap(), p.to_wkb().unwrap());
    let mut line = LineString::new_empty();
    line.push_point(p);
    assert_eq!(line.to_wkb().unwrap(), line.to_wkb().unwrap());
}

#[test]
fn byte_order_superset() {
    // the same point, written by hand in big-endian and little-endian
    let x = 2.0f64;
    let y = 4.0f64;
    let mut be: Vec<u8> = Vec::new();
    be.push(0u8);
    be.extend_from_slice(&1u32.to_be_bytes());
    be.extend_from_slice(&x.to_bits().to_be_bytes());
    be.extend_from_slice(&y.to_bits().to_be_bytes());
    let mut le: Vec<u8> = Vec::new();
    le.push(1u8);
    le.extend_from_slice(&1u32.to_le_bytes());
    le.extend_from_slice(&x.to_bits().to_le_bytes());
    le.extend_from_slice(&y.to_bits().to_le_bytes());

    let from_be: Point<CoordF64> = Point::from_wkb(be).unwrap();
    let from_le: Point<CoordF64> = Point::from_wkb(le).unwrap();
    assert_eq!(from_be, from_le);
    assert_eq!(from_be, Point::new(f(2.0), f(4.0)));
}

#[test]
fn big_endian_line_decodes() {
    let mut be: Vec<u8> = Vec::new();
    be.push(0u8);
    be.extend_from_slice(&2u32.to_be_bytes());
    be.extend_from_slice(&1u32.to_be_bytes());
    be.extend_from_slice(&9.5f64.to_bits().to_be_bytes());
    be.extend_from_slice(&(-1.0f64).to_bits().to_be_bytes());
    let l: LineString<CoordF64> = LineString::from_wkb(be).unwrap();
    assert_eq!(l.npoints(), 1);
    assert_eq!(l.points[0], Point::new(f(9.5), f(-1.0)));
}

#[test]
fn integer_coordinates_reach_wkb() {
    // an i64 point encodes to the same bytes as the equal-valued doubles
    let p = Point::<i64>::new(2, 4);
    let hex = p.to_wkb_hexstring().unwrap();
    assert_eq!(hex, "010100000000000000000000400000000000001040");
    let q: Point<i64> = Point::from_wkb_hexstring(hex).unwrap();
    assert_eq!(q, p);
}

#[test]
fn wrong_length_fails() {
    let short = vec![1u8; 20];
    let r: Result<Point<CoordF64>, WkError> = Point::from_wkb(short);
    assert!(matches!(r, Err(WkError::FormatWrongLength(20))));
}

#[test]
fn type_mismatch_fails_both_decoders() {
    let mut buf: Vec<u8> = Vec::new();
    buf.push(1u8);
    buf.extend_from_slice(&3u32.to_le_bytes());
    buf.extend_from_slice(&0.0f64.to_bits().to_le_bytes());
    buf.extend_from_slice(&0.0f64.to_bits().to_le_bytes());
    let rp: Result<Point<CoordF64>, WkError> = Point::from_wkb(buf.clone());
    assert!(matches!(rp, Err(WkError::FormatTypeMismatch(3))));
    let rl: Result<LineString<CoordF64>, WkError> = LineString::from_wkb(buf);
    assert!(matches!(rl, Err(WkError::FormatTypeMismatch(3))));
}

#[test]
fn bad_byte_order_flag_fails() {
    let mut buf = vec![2u8];
    buf.extend_from_slice(&[0u8; 20]);
    let r: Result<Point<CoordF64>, WkError> = Point::from_wkb(buf);
    assert!(matches!(r, Err(WkError::FormatBadByteOrder(2))));
}

#[test]
fn truncated_line_fails() {
    let mut line = LineString::new_empty();
    line.push_point(Point::new(f(1.0), f(2.0)));
    line.push_point(Point::new(f(3.0), f(4.0)));
    let mut bytes = line.to_wkb().unwrap();
    bytes.truncate(bytes.len() - 5);
    let r: Result<LineString<CoordF64>, WkError> = LineString::from_wkb(bytes);
    assert!(matches!(r, Err(WkError::FormatTruncated)));
}

#[test]
fn malformed_wkt_fails() {
    assert!(matches!(
        Point::<i64>::from_wkt("POINT 1 3"),
        Err(WkError::ParseMalformed)
    ));
    assert!(matches!(
        Point::<i64>::from_wkt("POINT (1)"),
        Err(WkError::ParseMalformed)
    ));
    assert!(matches!(
        LineString::<i64>::from_wkt("LINESTRING ()"),
        Err(WkError::ParseMalformed)
    ));
    assert!(matches!(
        Point::<i64>::from_wkt("CIRCLE (1 3)"),
        Err(WkError::ParseMalformed)
    ));
}

#[test]
fn bad_coordinate_token_is_named() {
    let r = Point::<i64>::from_wkt("POINT (12a 3)");
    match r {
        Err(WkError::ParseBadCoordinate(tok)) => assert_eq!(tok, "12a"),
        _ => panic!("expected a bad-coordinate error"),
    }
    let r2 = LineString::<i64>::from_wkt("LINESTRING (1 2, 3 4x5)");
    match r2 {
        Err(WkError::ParseBadCoordinate(tok)) => assert_eq!(tok, "4x5"),
        _ => panic!("expected a bad-coordinate error"),
    }
}

#[test]
fn fractional_value_has_no_integer_form() {
    // 2.5 cannot convert to i64, so decoding its bytes as integers
    // fails, naming the x coordinate and its bit pattern
    let p = Point::new(f(2.5), f(4.0));
    let bytes = p.to_wkb().unwrap();
    let r: Result<Point<i64>, WkError> = Point::from_wkb(bytes);
    match r {
        Err(WkError::ConversionUnrepresentable(ConvField::CoordX, Some(b))) => {
            assert_eq!(b, 2.5f64.to_bits());
        }
        _ => panic!("expected a conversion error on x"),
    }

    // a fractional y is named as y, with its value
    let q = Point::new(f(2.0), f(4.5));
    let r2: Result<Point<i64>, WkError> = Point::from_wkb(q.to_wkb().unwrap());
    match r2 {
        Err(WkError::ConversionUnrepresentable(ConvField::CoordY, Some(b))) => {
            assert_eq!(b, 4.5f64.to_bits());
        }
        _ => panic!("expected a conversion error on y"),
    }

    // and an integer outside the model's exact range fails to encode
    let big = Point::<i64>::new(9007199254740992, 0);
    assert!(matches!(
        big.to_wkb(),
        Err(WkError::ConversionUnrepresentable(ConvField::CoordX, None))
    ));
}

#[test]
fn invalid_hex_fails() {
    let r: Result<Point<CoordF64>, WkError> = Point::from_wkb_hexstring("zz".to_string());
    assert!(matches!(r, Err(WkError::EncodingBadHex)));
    let r2: Result<Point<CoordF64>, WkError> = Point::from_wkb_hexstring("010".to_string());
    assert!(matches!(r2, Err(WkError::EncodingBadHex)));
}

#[test]
fn uppercase_hex_decodes() {
    let hex = "010100000000000000000000400000000000001040".to_uppercase();
    let p: Point<CoordF64> = Point::from_wkb_hexstring(hex).unwrap();
    assert_eq!(p, Point::new(f(2.0), f(4.0)));
}

#[test]
fn exact_integer_boundary_round_trips() {
    let top = 9007199254740991i64;  // 2^53 - 1, the last exactly representable integer
    let p = Point::<i64>::new(top, -top);
    let q: Point<i64> = Point::from_wkb(p.to_wkb().unwrap()).unwrap();
    assert_eq!(q, p);
    let bits = (9007199254740991f64).to_bits().to_le_bytes();
    let mut expect: Vec<u8> = vec![1u8];
    expect.extend_from_slice(&1u32.to_le_bytes());
    expect.extend_from_slice(&bits);
    expect.extend_from_slice(&(-9007199254740991f64).to_bits().to_le_bytes());
    assert_eq!(p.to_wkb().unwrap(), expect);
}
