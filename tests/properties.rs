use hocr_edit::number::{Decimal, decimal_chars, digits_chars, parse_decimal, parse_u32};
use hocr_edit::ocr_class::OCRClass;
use hocr_edit::property::{BBox, OCRProperty, PropertyError, parse_bbox};
use hocr_edit::text::{chars_of, split_chars, trim_chars};

fn dec(units: i64, scale: u32) -> Decimal {
    Decimal { units, scale }
}

fn chars(s: &str) -> Vec<char> {
    s.chars().collect()
}

#[test]
fn bbox_reads_four_coordinates_in_order() {
    let props = OCRProperty::parse_properties("bbox 10 20 30 40").unwrap();
    let b = props.get("bbox").unwrap().as_bbox().unwrap();
    assert_eq!(
        *b,
        BBox { left: dec(10, 0), top: dec(20, 0), right: dec(30, 0), bottom: dec(40, 0) }
    );
}

#[test]
fn bbox_with_fractions_and_extra_tokens() {
    let b = parse_bbox(&chars(" 1.5 -2 3 4 99 ")).unwrap();
    assert_eq!(b, BBox { left: dec(15, 1), top: dec(-2, 0), right: dec(3, 0), bottom: dec(4, 0) });
    assert_eq!(parse_bbox(&chars("1 2 3")), None);
    assert_eq!(parse_bbox(&chars("1 2 x 4")), None);
}

#[test]
fn missing_bbox_fails_the_element() {
    let r = OCRProperty::parse_properties("image \"a.png\"; x_wconf 96");
    assert_eq!(r.err(), Some(PropertyError::MissingBoundingBox));
    let r = OCRProperty::parse_properties("");
    assert_eq!(r.err(), Some(PropertyError::MissingBoundingBox));
}

#[test]
fn malformed_bbox_counts_as_missing() {
    let r = OCRProperty::parse_properties("bbox 1 2 three 4");
    assert_eq!(r.err(), Some(PropertyError::MissingBoundingBox));
}

#[test]
fn every_known_key_reads_as_its_type() {
    let text = "bbox 0 0 2480 3508; image \"/tmp/page.png\"; ppageno 0; scan_res 300 301; \
                baseline 0.004 -11; x_size 32.5; x_descenders 8.125; x_ascenders 8; x_wconf 96; \
                unknown 5";
    let p = OCRProperty::parse_properties(text).unwrap();
    assert_eq!(p.len(), 9);
    match p.get("image").unwrap() {
        OCRProperty::Image(s) => assert_eq!(s, "/tmp/page.png"),
        other => panic!("unexpected {:?}", other),
    }
    assert!(matches!(p.get("ppageno"), Some(OCRProperty::UInt(0))));
    assert!(matches!(p.get("x_wconf"), Some(OCRProperty::UInt(96))));
    assert!(matches!(p.get("scan_res"), Some(OCRProperty::ScanRes(300, 301))));
    match p.get("baseline").unwrap() {
        OCRProperty::Baseline(a, b) => {
            assert_eq!(*a, dec(4, 3));
            assert_eq!(*b, dec(-11, 0));
        },
        other => panic!("unexpected {:?}", other),
    }
    match p.get("x_size").unwrap() {
        OCRProperty::Float(f) => assert_eq!(*f, dec(325, 1)),
        other => panic!("unexpected {:?}", other),
    }
    assert!(p.get("unknown").is_none());
}

#[test]
fn malformed_clause_is_dropped() {
    let p = OCRProperty::parse_properties("bbox 1 2 3 4; x_wconf ninety; scan_res 300").unwrap();
    assert_eq!(p.len(), 1);
    assert!(p.get("x_wconf").is_none());
    assert!(p.get("scan_res").is_none());
}

#[test]
fn later_clause_overrides_earlier_one() {
    let p = OCRProperty::parse_properties("x_wconf 10; bbox 1 2 3 4; x_wconf 20").unwrap();
    assert_eq!(p.len(), 2);
    assert_eq!(p.key_at(0), "x_wconf");
    assert!(matches!(p.value_at(0), OCRProperty::UInt(20)));
}

#[test]
fn trailing_separator_is_ignored() {
    let p = OCRProperty::parse_properties("bbox 1 2 3 4; ").unwrap();
    assert_eq!(p.len(), 1);
}

#[test]
fn properties_write_back_out() {
    let p = OCRProperty::parse_properties("bbox 10.7 20 30 40; x_size 32.50; image \"a b.png\"; scan_res 300 300")
        .unwrap();
    assert_eq!(p.get("bbox").unwrap().to_str(), "10.7 20 30 40");
    assert_eq!(p.get("x_size").unwrap().to_str(), "32.50");
    assert_eq!(p.get("image").unwrap().to_str(), "\"a b.png\"");
    assert_eq!(p.title(), "bbox 10.7 20 30 40; x_size 32.50; image \"a b.png\"; scan_res 300 300");
}

#[test]
fn fractional_and_negative_boxes_read_back() {
    let p = OCRProperty::parse_properties("bbox 10.5 -3 30.25 40").unwrap();
    assert_eq!(p.title(), "bbox 10.5 -3 30.25 40");
    let q = OCRProperty::parse_properties(&p.title()).unwrap();
    assert_eq!(
        *q.get("bbox").unwrap().as_bbox().unwrap(),
        BBox { left: dec(105, 1), top: dec(-3, 0), right: dec(3025, 2), bottom: dec(40, 0) }
    );
}

#[test]
fn numbers_read_and_write() {
    assert_eq!(parse_decimal(&chars("-12.50")), Some(dec(-1250, 2)));
    assert_eq!(parse_decimal(&chars(".5")), Some(dec(5, 1)));
    assert_eq!(parse_decimal(&chars("+7")), Some(dec(7, 0)));
    assert_eq!(parse_decimal(&chars("1.2.3")), None);
    assert_eq!(parse_decimal(&chars("-")), None);
    assert_eq!(parse_decimal(&chars("1234567890123456789")), None);
    assert_eq!(parse_u32(&chars("4294967295")), Some(4294967295));
    assert_eq!(parse_u32(&chars("4294967296")), None);
    assert_eq!(parse_u32(&chars("+12")), Some(12));
    assert_eq!(parse_u32(&chars("-1")), None);
    assert_eq!(parse_u32(&chars("")), None);
    let s: String = decimal_chars(dec(-5, 3)).into_iter().collect();
    assert_eq!(s, "-0.005");
    let s: String = digits_chars(1200).into_iter().collect();
    assert_eq!(s, "1200");
}

#[test]
fn text_helpers() {
    assert_eq!(chars_of("añb"), vec!['a', 'ñ', 'b']);
    assert_eq!(trim_chars(&chars("\u{a0} x y\t")), chars("x y"));
    let parts = split_chars(&chars("a  b"), ' ');
    assert_eq!(parts, vec![chars("a"), vec![], chars("b")]);
}

#[test]
fn class_names() {
    assert_eq!(OCRClass::variants().len(), 8);
    assert_eq!(OCRClass::CArea.to_string(), "ocr_carea");
    assert_eq!(OCRClass::Word.to_string(), "ocrx_word");
    assert_eq!(OCRClass::CArea.to_user_str(), "Area");
    assert_eq!(OCRClass::Photo.to_id_str(), "block");
    assert_eq!(OCRClass::Caption.to_id_str(), "line");
    assert_eq!(OCRClass::Page.to_id_str(), "page");
    assert_eq!("ocr_line".parse::<OCRClass>().ok(), Some(OCRClass::Line));
    assert!("ocr_nothing".parse::<OCRClass>().is_err());
    assert_eq!(OCRClass::default(), OCRClass::Page);
    for c in OCRClass::variants() {
        assert_eq!(OCRClass::from_class_name(&c.to_string()).ok(), Some(c));
    }
}
