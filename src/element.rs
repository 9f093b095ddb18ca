//! The OCR element stored in each forest node, and how a markup element
//! becomes one.

use vstd::prelude::*;
use crate::markup::{Markup, MarkupElement, MarkupNode, attr, class_tokens, get_attr};
use crate::ocr_class::{OCRClass, class_named};
use crate::property::{OCRProperty, PropertyModel, Properties, properties_of, unique_keys};
use crate::text::{chars_of, push_chars, trim, trim_chars};

verus! {

/// An OCR element: its tag name, its class, its properties, its text (words
/// only) and its language, if one is given.
pub struct OCRElement {
    pub html_element_type: String,
    pub ocr_element_type: OCRClass,
    pub ocr_properties: Properties,
    pub ocr_text: String,
    pub ocr_lang: Option<String>,
}

/// What an OCR element holds, with text as characters.
pub struct ElementModel {
    pub tag: Seq<char>,
    pub class: OCRClass,
    pub props: Seq<(Seq<char>, PropertyModel)>,
    pub text: Seq<char>,
    pub lang: Option<Seq<char>>,
}

impl View for OCRElement {
    type V = ElementModel;

    open spec fn view(&self) -> ElementModel {
        ElementModel {
            tag: self.html_element_type@,
            class: self.ocr_element_type,
            props: self.ocr_properties@,
            text: self.ocr_text@,
            lang: match self.ocr_lang {
                Some(l) => Some(l@),
                None => None,
            },
        }
    }
}

/// Why a markup element did not become an OCR element.
#[derive(Debug, Clone, Copy, PartialEq, Eq, Structural)]
pub enum ImportError {
    /// No class token starts with `ocr`.
    NoOcrClass,
    /// The first class token that starts with `ocr` names no OCR class.
    UnknownClass,
    /// The element has no `title` attribute.
    MissingTitle,
    /// The `title` attribute gives no bounding box.
    MissingBoundingBox,
    /// The forest has handed out every identity it can.
    IdentitiesExhausted,
}

/// The token starts with `ocr`, the prefix of OCR class names.
pub open spec fn starts_with_ocr(t: Seq<char>) -> bool {
    t.len() >= 3 && t[0] == 'o' && t[1] == 'c' && t[2] == 'r'
}

/// The first token that starts with `ocr`.
pub open spec fn first_ocr_token(ts: Seq<Seq<char>>) -> Option<Seq<char>>
    decreases ts.len(),
{
    if ts.len() == 0 {
        None
    } else if starts_with_ocr(ts[0]) {
        Some(ts[0])
    } else {
        first_ocr_token(ts.drop_first())
    }
}

/// The text of node `j` where it is a run of text that is not all white
/// space; nothing otherwise.
pub open spec fn text_piece(doc: Markup, j: int) -> Seq<char> {
    if 0 <= j < doc.nodes@.len() && doc.nodes@[j] is Text && trim(doc.nodes@[j]->Text_0@).len() > 0 {
        doc.nodes@[j]->Text_0@
    } else {
        Seq::empty()
    }
}

/// The text pieces of the nodes `cs`, one after another.
pub open spec fn word_text(doc: Markup, cs: Seq<usize>) -> Seq<char>
    decreases cs.len(),
{
    if cs.len() == 0 {
        Seq::empty()
    } else {
        word_text(doc, cs.drop_last()) + text_piece(doc, cs.last() as int)
    }
}

/// The OCR element that element `i` of `doc` becomes, or why it does not.
pub open spec fn element_model(doc: Markup, i: int) -> Result<ElementModel, ImportError> {
    let e = doc.element(i);
    match first_ocr_token(class_tokens(e)) {
        None => Err(ImportError::NoOcrClass),
        Some(tok) => match class_named(tok) {
            None => Err(ImportError::UnknownClass),
            Some(c) => match attr(e, "title"@) {
                None => Err(ImportError::MissingTitle),
                Some(t) => match properties_of(t) {
                    None => Err(ImportError::MissingBoundingBox),
                    Some(props) => Ok(
                        ElementModel {
                            tag: e.name@,
                            class: c,
                            props,
                            text: if c == OCRClass::Word {
                                word_text(doc, e.children@)
                            } else {
                                Seq::empty()
                            },
                            lang: attr(e, "lang"@),
                        },
                    ),
                },
            },
        },
    }
}

/// The first class token of `e` that starts with `ocr`.
fn find_ocr_token(e: &MarkupElement) -> (r: Option<Vec<char>>)
    ensures
        match r {
            Some(t) => first_ocr_token(class_tokens(*e)) == Some(t@),
            None => first_ocr_token(class_tokens(*e)) is None,
        },
{
    let ghost ts = class_tokens(*e);
    let mut i: usize = 0;
    assert(ts.skip(0) =~= ts);
    while i < e.classes.len()
        invariant
            i <= e.classes@.len(),
            ts == class_tokens(*e),
            first_ocr_token(ts) == first_ocr_token(ts.skip(i as int)),
        decreases e.classes@.len() - i,
    {
        let t = chars_of(e.classes[i].as_str());
        assert(ts.skip(i as int)[0] == t@);
        assert(ts.skip(i as int).drop_first() =~= ts.skip(i + 1));
        if t.len() >= 3 && t[0] == 'o' && t[1] == 'c' && t[2] == 'r' {
            return Some(t);
        }
        i = i + 1;
    }
    None
}

/// The text pieces of the children of `e`, one after another.
fn gather_text(doc: &Markup, e: &MarkupElement) -> (r: String)
    ensures
        r@ == word_text(*doc, e.children@),
{
    let mut s = String::new();
    let mut k: usize = 0;
    assert(e.children@.take(0) =~= Seq::<usize>::empty());
    while k < e.children.len()
        invariant
            k <= e.children@.len(),
            s@ == word_text(*doc, e.children@.take(k as int)),
        decreases e.children@.len() - k,
    {
        let j = e.children[k];
        assert(e.children@.take(k + 1).drop_last() =~= e.children@.take(k as int));
        if j < doc.nodes.len() {
            match &doc.nodes[j] {
                MarkupNode::Text(t) => {
                    let cs = chars_of(t.as_str());
                    if trim_chars(&cs).len() > 0 {
                        push_chars(&mut s, &cs);
                    } else {
                        assert(s@ + Seq::<char>::empty() =~= s@);
                    }
                },
                MarkupNode::Element(_) => {
                    assert(s@ + Seq::<char>::empty() =~= s@);
                },
            }
        } else {
            assert(s@ + Seq::<char>::empty() =~= s@);
        }
        k = k + 1;
    }
    assert(e.children@.take(e.children@.len() as int) =~= e.children@);
    s
}

impl OCRElement {
    /// The OCR element that element `i` of `doc` becomes, as `element_model`
    /// says.
    pub fn html_elt_to_ocr_elt(doc: &Markup, i: usize) -> (r: Result<OCRElement, ImportError>)
        requires
            doc.is_element(i as int),
        ensures
            match r {
                Ok(elt) => element_model(*doc, i as int) == Ok::<ElementModel, ImportError>(elt@) && unique_keys(elt@.props),
                Err(err) => element_model(*doc, i as int) == Err::<ElementModel, ImportError>(err),
            },
    {
        let e = match &doc.nodes[i] {
            MarkupNode::Element(e) => e,
            MarkupNode::Text(_) => {
                return Err(ImportError::NoOcrClass);
            },
        };
        let tok = match find_ocr_token(e) {
            Some(t) => t,
            None => {
                return Err(ImportError::NoOcrClass);
            },
        };
        let class = match OCRClass::from_chars(&tok) {
            Ok(c) => c,
            Err(_) => {
                return Err(ImportError::UnknownClass);
            },
        };
        let title = match get_attr(e, "title") {
            Some(t) => t,
            None => {
                return Err(ImportError::MissingTitle);
            },
        };
        let props = match OCRProperty::parse_properties(title.as_str()) {
            Ok(p) => p,
            Err(_) => {
                return Err(ImportError::MissingBoundingBox);
            },
        };
        let text = if class == OCRClass::Word {
            gather_text(doc, e)
        } else {
            String::new()
        };
        let lang = match get_attr(e, "lang") {
            Some(l) => Some(l.clone()),
            None => None,
        };
        Ok(
            OCRElement {
                html_element_type: e.name.clone(),
                ocr_element_type: class,
                ocr_properties: props,
                ocr_text: text,
                ocr_lang: lang,
            },
        )
    }
}

} // verus!
