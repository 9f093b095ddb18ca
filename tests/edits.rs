use hocr_edit::edit::{EditRequest, apply_edit, apply_edits, new_child_element};
use hocr_edit::element::OCRElement;
use hocr_edit::ocr_class::OCRClass;
use hocr_edit::property::OCRProperty;
use hocr_edit::tree::{Position, Tree, TreeError};

fn elt(class: OCRClass, title: &str, text: &str) -> OCRElement {
    OCRElement {
        html_element_type: "span".to_string(),
        ocr_element_type: class,
        ocr_properties: OCRProperty::parse_properties(title).unwrap(),
        ocr_text: text.to_string(),
        ocr_lang: None,
    }
}

fn sample() -> (Tree<OCRElement>, u32, u32, u32) {
    let mut t = Tree::new();
    let line = t.add_root(elt(OCRClass::Line, "bbox 0 0 100 10", ""));
    let a = t.push_child(&line, elt(OCRClass::Word, "bbox 0 0 10 10", "a")).unwrap();
    let b = t.push_child(&line, elt(OCRClass::Word, "bbox 20 0 30 10", "b")).unwrap();
    (t, line, a, b)
}

#[test]
fn new_child_is_an_empty_word_with_the_parents_box() {
    let (t, line, _, _) = sample();
    let c = new_child_element(t.get_node(&line).unwrap());
    assert_eq!(c.ocr_element_type, OCRClass::Word);
    assert_eq!(c.html_element_type, "span");
    assert_eq!(c.ocr_text, "");
    assert_eq!(c.ocr_properties.len(), 1);
    assert_eq!(c.ocr_properties.get("bbox").unwrap().to_str(), "0 0 100 10");
}

#[test]
fn sibling_edit_copies_the_node() {
    let (mut t, line, a, b) = sample();
    let n = apply_edit(&mut t, &EditRequest::Sibling(a, Position::After)).unwrap().unwrap();
    assert_eq!(t.children(&line), vec![a, n, b]);
    assert_eq!(t.get_node(&n).unwrap().ocr_text, "a");
    assert_eq!(apply_edit(&mut t, &EditRequest::Sibling(99, Position::After)), Err(TreeError::NotFound(99)));
}

#[test]
fn delete_edit_returns_the_following_sibling() {
    let (mut t, line, a, b) = sample();
    assert_eq!(apply_edit(&mut t, &EditRequest::Delete(a)), Ok(Some(b)));
    assert_eq!(t.children(&line), vec![b]);
    assert_eq!(apply_edit(&mut t, &EditRequest::Delete(a)), Ok(None));
}

#[test]
fn batch_applies_in_order() {
    let (mut t, line, a, b) = sample();
    let reqs = vec![
        EditRequest::NewChild(a),
        EditRequest::Merge(a, Position::After),
        EditRequest::NewChild(42),
    ];
    let results = apply_edits(&mut t, &reqs);
    assert_eq!(results.len(), 3);
    let child = results[0].unwrap().unwrap();
    assert_eq!(results[1], Ok(None));
    assert_eq!(results[2], Err(TreeError::NotFound(42)));
    assert_eq!(t.children(&line), vec![a]);
    assert_eq!(t.children(&a), vec![child]);
    assert!(t.get_node(&b).is_none());
}
