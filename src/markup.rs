//! A markup document as plain values: a list of nodes in document order,
//! each element naming its children by their place in the list.

use vstd::prelude::*;
use crate::text::chars_of;

verus! {

/// An element: its tag name, its class tokens, its other attributes in order
/// and the places of its children in the document, all after its own.
pub struct MarkupElement {
    pub name: String,
    pub classes: Vec<String>,
    pub attrs: Vec<(String, String)>,
    pub children: Vec<usize>,
}

/// A node of a document: an element or a run of text.
pub enum MarkupNode {
    Element(MarkupElement),
    Text(String),
}

/// A document: its nodes in document order.
pub struct Markup {
    pub nodes: Vec<MarkupNode>,
}

impl Markup {
    /// Every child stands after its parent, within the document.
    pub open spec fn wf(&self) -> bool {
        forall|i: int, k: int|
            0 <= i < self.nodes@.len() && self.nodes@[i] is Element && 0 <= k < self.nodes@[i]->Element_0.children@.len()
                ==> i < #[trigger] self.nodes@[i]->Element_0.children@[k] < self.nodes@.len()
    }

    /// Node `i`, read as an element.
    pub open spec fn element(&self, i: int) -> MarkupElement {
        self.nodes@[i]->Element_0
    }

    /// Node `i` exists and is an element.
    pub open spec fn is_element(&self, i: int) -> bool {
        0 <= i < self.nodes@.len() && self.nodes@[i] is Element
    }
}

/// The class tokens of `e`, as characters.
pub open spec fn class_tokens(e: MarkupElement) -> Seq<Seq<char>> {
    Seq::new(e.classes@.len(), |k: int| e.classes@[k]@)
}

/// `e` carries the class token `c`.
pub open spec fn has_class(e: MarkupElement, c: Seq<char>) -> bool {
    class_tokens(e).contains(c)
}

/// The value of the first attribute in `attrs` named `name`.
pub open spec fn attr_in(attrs: Seq<(String, String)>, name: Seq<char>) -> Option<Seq<char>>
    decreases attrs.len(),
{
    if attrs.len() == 0 {
        None
    } else if attrs[0].0@ == name {
        Some(attrs[0].1@)
    } else {
        attr_in(attrs.drop_first(), name)
    }
}

/// The value of the first attribute of `e` named `name`.
pub open spec fn attr(e: MarkupElement, name: Seq<char>) -> Option<Seq<char>> {
    attr_in(e.attrs@, name)
}

/// The value of the first attribute of `e` named `name`.
pub fn get_attr<'a>(e: &'a MarkupElement, name: &str) -> (r: Option<&'a String>)
    ensures
        match r {
            Some(v) => attr(*e, name@) == Some(v@),
            None => attr(*e, name@) is None,
        },
{
    let mut i: usize = 0;
    let target = chars_of(name);
    assert(e.attrs@.skip(0) =~= e.attrs@);
    while i < e.attrs.len()
        invariant
            i <= e.attrs@.len(),
            target@ == name@,
            attr(*e, name@) == attr_in(e.attrs@.skip(i as int), name@),
        decreases e.attrs@.len() - i,
    {
        assert(e.attrs@.skip(i as int).drop_first() =~= e.attrs@.skip(i + 1));
        assert(e.attrs@.skip(i as int)[0] == e.attrs@[i as int]);
        if crate::text::same_chars(&chars_of(e.attrs[i].0.as_str()), &target) {
            return Some(&e.attrs[i].1);
        }
        i = i + 1;
    }
    None
}

/// Whether `e` carries the class token `c`.
pub fn carries_class(e: &MarkupElement, c: &str) -> (r: bool)
    ensures
        r == has_class(*e, c@),
{
    let target = chars_of(c);
    let mut i: usize = 0;
    while i < e.classes.len()
        invariant
            i <= e.classes@.len(),
            target@ == c@,
            forall|k: int| 0 <= k < i ==> e.classes@[k]@ != c@,
        decreases e.classes@.len() - i,
    {
        if crate::text::same_chars(&chars_of(e.classes[i].as_str()), &target) {
            assert(class_tokens(*e)[i as int] == c@);
            return true;
        }
        i = i + 1;
    }
    assert(!class_tokens(*e).contains(c@)) by {
        if class_tokens(*e).contains(c@) {
            let k = class_tokens(*e).index_of(c@);
            assert(e.classes@[k]@ == c@);
        }
    }
    false
}

} // verus!
