use hocr_edit::element::{ImportError, OCRElement};
use hocr_edit::export::{IdCounters, add_as_body, next_element_id};
use hocr_edit::import::ImportDiagnostic;
use hocr_edit::markup::{Markup, MarkupElement, MarkupNode};
use hocr_edit::ocr_class::OCRClass;
use hocr_edit::property::OCRProperty;
use hocr_edit::tree::Tree;

/// Builds documents node by node, in document order.
struct Doc {
    nodes: Vec<MarkupNode>,
}

impl Doc {
    fn new() -> Doc {
        Doc { nodes: Vec::new() }
    }

    fn element(&mut self, parent: Option<usize>, name: &str, class: &str, title: Option<&str>, lang: Option<&str>) -> usize {
        let mut attrs = Vec::new();
        if let Some(t) = title {
            attrs.push(("title".to_string(), t.to_string()));
        }
        if let Some(l) = lang {
            attrs.push(("lang".to_string(), l.to_string()));
        }
        let classes = class.split_whitespace().map(|c| c.to_string()).collect();
        self.push(parent, MarkupNode::Element(MarkupElement { name: name.to_string(), classes, attrs, children: Vec::new() }))
    }

    fn text(&mut self, parent: usize, s: &str) -> usize {
        self.push(Some(parent), MarkupNode::Text(s.to_string()))
    }

    fn push(&mut self, parent: Option<usize>, node: MarkupNode) -> usize {
        let i = self.nodes.len();
        self.nodes.push(node);
        if let Some(p) = parent {
            if let MarkupNode::Element(e) = &mut self.nodes[p] {
                e.children.push(i);
            }
        }
        i
    }

    fn done(self) -> Markup {
        Markup { nodes: self.nodes }
    }
}

fn sample() -> Markup {
    let mut d = Doc::new();
    let html = d.element(None, "html", "", None, None);
    let body = d.element(Some(html), "body", "", None, None);
    let page = d.element(Some(body), "div", "ocr_page", Some("image \"p.png\"; bbox 0 0 100 200; ppageno 0"), None);
    let area = d.element(Some(page), "div", "ocr_carea", Some("bbox 0 0 100 50"), None);
    let par = d.element(Some(area), "p", "ocr_par", Some("bbox 0 0 100 50"), Some("eng"));
    let line = d.element(Some(par), "span", "ocr_line", Some("bbox 0 0 100 20; baseline 0 -3; x_size 12.5"), None);
    let w1 = d.element(Some(line), "span", "ocrx_word", Some("bbox 0 0 40 20; x_wconf 90"), None);
    d.text(w1, "Hello");
    d.text(line, " ");
    let w2 = d.element(Some(line), "span", "ocrx_word", Some("x_wconf 80"), None);
    d.text(w2, "lost");
    let w3 = d.element(Some(line), "span", "ocrx_word", Some("bbox 50 0 100 20"), None);
    d.text(w3, "   ");
    d.text(w3, "world");
    let _plain = d.element(Some(line), "span", "other", Some("bbox 1 1 1 1"), None);
    d.done()
}

fn text_of(t: &Tree<OCRElement>, id: u32) -> String {
    t.get_node(&id).unwrap().ocr_text.clone()
}

fn class_of(t: &Tree<OCRElement>, id: u32) -> OCRClass {
    t.get_node(&id).unwrap().ocr_element_type
}

#[test]
fn import_builds_the_forest() {
    let (t, diags) = OCRElement::html_to_ocr_tree(&sample());
    let roots = t.roots();
    assert_eq!(roots.len(), 1);
    let page = roots[0];
    assert_eq!(class_of(&t, page), OCRClass::Page);
    let area = t.children(&page)[0];
    assert_eq!(class_of(&t, area), OCRClass::CArea);
    let par = t.children(&area)[0];
    assert_eq!(t.get_node(&par).unwrap().ocr_lang.as_deref(), Some("eng"));
    let line = t.children(&par)[0];
    let words = t.children(&line);
    assert_eq!(words.len(), 2);
    assert_eq!(text_of(&t, words[0]), "Hello");
    assert_eq!(text_of(&t, words[1]), "world");
    assert_eq!(text_of(&t, line), "");
    assert_eq!(diags, vec![ImportDiagnostic { element: 9, error: ImportError::MissingBoundingBox }]);
}

#[test]
fn element_without_bbox_is_absent_with_its_subtree() {
    let mut d = Doc::new();
    let page = d.element(None, "div", "ocr_page", Some("bbox 0 0 10 10"), None);
    let line = d.element(Some(page), "span", "ocr_line", Some("baseline 0 0"), None);
    let _word = d.element(Some(line), "span", "ocrx_word", Some("bbox 0 0 1 1"), None);
    let (t, diags) = OCRElement::html_to_ocr_tree(&d.done());
    let roots = t.roots();
    assert_eq!(roots.len(), 1);
    assert!(t.children(&roots[0]).is_empty());
    assert_eq!(diags, vec![ImportDiagnostic { element: 1, error: ImportError::MissingBoundingBox }]);
}

#[test]
fn conversion_errors() {
    let mut d = Doc::new();
    let a = d.element(None, "div", "plain", Some("bbox 0 0 1 1"), None);
    let b = d.element(None, "div", "ocr_unknown", Some("bbox 0 0 1 1"), None);
    let c = d.element(None, "div", "ocr_line", None, None);
    let e = d.element(None, "div", "x ocr_line ocr_page", Some("bbox 0 0 1 1"), None);
    let doc = d.done();
    assert_eq!(OCRElement::html_elt_to_ocr_elt(&doc, a).err(), Some(ImportError::NoOcrClass));
    assert_eq!(OCRElement::html_elt_to_ocr_elt(&doc, b).err(), Some(ImportError::UnknownClass));
    assert_eq!(OCRElement::html_elt_to_ocr_elt(&doc, c).err(), Some(ImportError::MissingTitle));
    let elt = OCRElement::html_elt_to_ocr_elt(&doc, e).ok().unwrap();
    assert_eq!(elt.ocr_element_type, OCRClass::Line);
}

#[test]
fn identifiers_follow_the_families() {
    let mut ids = IdCounters::new();
    assert_eq!(next_element_id(&mut ids, OCRClass::Page), "page_1");
    assert_eq!(next_element_id(&mut ids, OCRClass::CArea), "block_1_1");
    assert_eq!(next_element_id(&mut ids, OCRClass::Photo), "block_1_2");
    assert_eq!(next_element_id(&mut ids, OCRClass::Caption), "line_1_1");
    assert_eq!(next_element_id(&mut ids, OCRClass::Line), "line_1_2");
    assert_eq!(next_element_id(&mut ids, OCRClass::Page), "page_2");
    assert_eq!(next_element_id(&mut ids, OCRClass::Par), "par_2_1");
    assert_eq!(next_element_id(&mut ids, OCRClass::Word), "word_2_1");
}

fn element(doc: &Markup, i: usize) -> &MarkupElement {
    match &doc.nodes[i] {
        MarkupNode::Element(e) => e,
        MarkupNode::Text(_) => panic!("node {} is text", i),
    }
}

fn attr<'a>(e: &'a MarkupElement, name: &str) -> Option<&'a str> {
    e.attrs.iter().find(|(k, _)| k == name).map(|(_, v)| v.as_str())
}

#[test]
fn export_writes_fresh_identifiers_and_titles() {
    let (t, _) = OCRElement::html_to_ocr_tree(&sample());
    let out = add_as_body(&t);
    let body = element(&out, 0);
    assert_eq!(body.name, "body");
    assert_eq!(body.children.len(), 1);
    let page = element(&out, body.children[0]);
    assert_eq!(attr(page, "id"), Some("page_1"));
    assert_eq!(attr(page, "class"), Some("ocr_page"));
    assert_eq!(attr(page, "title"), Some("image \"p.png\"; bbox 0 0 100 200; ppageno 0"));
    let area = element(&out, page.children[0]);
    assert_eq!(attr(area, "id"), Some("block_1_1"));
    let par = element(&out, area.children[0]);
    assert_eq!(attr(par, "id"), Some("par_1_1"));
    assert_eq!(attr(par, "lang"), Some("eng"));
    let line = element(&out, par.children[0]);
    assert_eq!(attr(line, "id"), Some("line_1_1"));
    assert_eq!(attr(line, "title"), Some("bbox 0 0 100 20; baseline 0 -3; x_size 12.5"));
    let w = element(&out, line.children[1]);
    assert_eq!(attr(w, "id"), Some("word_1_2"));
    match &out.nodes[w.children[0]] {
        MarkupNode::Text(s) => assert_eq!(s, "world"),
        MarkupNode::Element(_) => panic!("expected text"),
    }
}

#[test]
fn counters_run_on_across_pages() {
    let mut t: Tree<OCRElement> = Tree::new();
    let mk = |class: OCRClass| OCRElement {
        html_element_type: "div".to_string(),
        ocr_element_type: class,
        ocr_properties: OCRProperty::parse_properties("bbox 0 0 1 1").unwrap(),
        ocr_text: String::new(),
        ocr_lang: None,
    };
    let p1 = t.add_root(mk(OCRClass::Page));
    t.push_child(&p1, mk(OCRClass::Line)).unwrap();
    let p2 = t.add_root(mk(OCRClass::Page));
    t.push_child(&p2, mk(OCRClass::Line)).unwrap();
    let out = add_as_body(&t);
    let body = element(&out, 0);
    let second = element(&out, body.children[1]);
    assert_eq!(attr(second, "id"), Some("page_2"));
    assert_eq!(attr(element(&out, second.children[0]), "id"), Some("line_2_2"));
}

fn shape(t: &Tree<OCRElement>, id: u32) -> String {
    let v = t.get_node(&id).unwrap();
    let mut s = format!("{}[{}|{}|{}", v.ocr_element_type.to_string(), v.ocr_properties.title(), v.ocr_text, v.html_element_type);
    for c in t.children(&id) {
        s.push_str(&shape(t, c));
    }
    s.push(']');
    s
}

#[test]
fn import_export_import_keeps_the_shape() {
    let (first, _) = OCRElement::html_to_ocr_tree(&sample());
    let out = add_as_body(&first);
    let (second, diags) = OCRElement::html_to_ocr_tree(&out);
    assert!(diags.is_empty());
    let a: Vec<String> = first.roots().into_iter().map(|r| shape(&first, r)).collect();
    let b: Vec<String> = second.roots().into_iter().map(|r| shape(&second, r)).collect();
    assert_eq!(a, b);
}
