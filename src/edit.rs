//! Structural edits that an editor asks for by identity, applied to a forest
//! of OCR elements one after another.

use vstd::prelude::*;
use crate::element::{ElementModel, OCRElement};
use crate::ocr_class::OCRClass;
use crate::property::{OCRProperty, Properties, PropertyModel, has_key, key_index, put, unique_keys};
use crate::tree::{Position, Tree, TreeError};

verus! {

/// An edit asked for by identity.
#[derive(Debug, Clone, Copy, PartialEq, Eq, Structural)]
pub enum EditRequest {
    /// Fold the sibling on the given side into the node.
    Merge(u32, Position),
    /// Insert a copy of the node next to it.
    Sibling(u32, Position),
    /// Append an empty word, with the node's bounding box, as its last child.
    NewChild(u32),
    /// Delete the node and everything below it.
    Delete(u32),
}

impl OCRElement {
    /// A copy of this element.
    pub fn copy(&self) -> (r: OCRElement)
        ensures
            r@ == self@,
    {
        OCRElement {
            html_element_type: self.html_element_type.clone(),
            ocr_element_type: self.ocr_element_type,
            ocr_properties: self.ocr_properties.copy(),
            ocr_text: self.ocr_text.clone(),
            ocr_lang: match &self.ocr_lang {
                Some(l) => Some(l.clone()),
                None => None,
            },
        }
    }
}

/// The element a new child of an element with properties `props` starts as:
/// an empty `span` word whose only property is the parent's bounding box,
/// where it has one.
pub open spec fn new_child_model(props: Seq<(Seq<char>, PropertyModel)>) -> ElementModel {
    ElementModel {
        tag: "span"@,
        class: OCRClass::Word,
        props: if has_key(props, "bbox"@) {
            seq![("bbox"@, props[key_index(props, "bbox"@)].1)]
        } else {
            Seq::empty()
        },
        text: Seq::empty(),
        lang: None,
    }
}

/// The element a new child of `parent` starts as, as `new_child_model` says.
pub fn new_child_element(parent: &OCRElement) -> (r: OCRElement)
    requires
        unique_keys(parent.ocr_properties@),
    ensures
        r@ == new_child_model(parent.ocr_properties@),
{
    let mut props = Properties::new();
    match parent.ocr_properties.get("bbox") {
        Some(b) => {
            props.insert("bbox".to_owned(), b.copy());
            assert(put(Seq::empty(), "bbox"@, b@) =~= seq![("bbox"@, b@)]);
        },
        None => {},
    }
    OCRElement {
        html_element_type: "span".to_owned(),
        ocr_element_type: OCRClass::Word,
        ocr_properties: props,
        ocr_text: String::new(),
        ocr_lang: None,
    }
}

/// Every element in `tree` has a map of properties without a repeated key.
pub open spec fn keys_unique(tree: Tree<OCRElement>) -> bool {
    forall|x: u32| #[trigger] tree.contains(x) ==> unique_keys(tree.value_of(x).ocr_properties@)
}

/// `new` and `r` are what applying `req` to `old` gives: a merge as
/// `merge_sibling` says, a sibling that copies the node's value as
/// `add_sibling` says, a new child as `new_child_model` and `push_child` say,
/// a deletion as `delete_node` says, returning the node that followed.
pub open spec fn edit_applied(
    old: Tree<OCRElement>,
    new: Tree<OCRElement>,
    req: EditRequest,
    r: Result<Option<u32>, TreeError>,
) -> bool {
    match req {
        EditRequest::Merge(id, pos) => r == Ok::<Option<u32>, TreeError>(None) && match old.merge_partner(id, pos) {
            None => new == old,
            Some(sib) => new.sibling_merged(old, id, sib, pos),
        },
        EditRequest::Sibling(id, pos) => match r {
            Ok(Some(n)) => exists|v: OCRElement|
                v@ == old.value_of(id)@ && #[trigger] new.sibling_inserted(old, id, v, pos, n),
            Ok(None) => false,
            Err(e) => new == old && (e == TreeError::NotFound(id) || e == TreeError::IdentitiesExhausted)
                && (e == TreeError::NotFound(id) <==> !old.contains(id))
                && (e == TreeError::IdentitiesExhausted <==> old.contains(id) && old.next_id()
                >= u32::MAX),
        },
        EditRequest::NewChild(id) => match r {
            Ok(Some(n)) => {
                &&& old.contains(id)
                &&& new.next_id() == old.next_id() + 1
                &&& !old.contains(n)
                &&& new.children_of(n) == Seq::<u32>::empty()
                &&& new.root_ids() == old.root_ids()
                &&& new.value_of(id) == old.value_of(id)
                &&& new.parent_of(id) == old.parent_of(id)
                &&& forall|x: u32| #[trigger] old.contains(x) && x != id ==> new.same_node(old, x)
                &&& n == old.next_id()
                &&& new.value_of(n)@ == new_child_model(old.value_of(id).ocr_properties@)
                &&& new.parent_of(n) == Some(id)
                &&& new.children_of(id) == old.children_of(id).push(n)
                &&& new.ids() == old.ids().insert(n)
            },
            Ok(None) => false,
            Err(e) => new == old && (e == TreeError::NotFound(id) || e == TreeError::IdentitiesExhausted)
                && (e == TreeError::NotFound(id) <==> !old.contains(id))
                && (e == TreeError::IdentitiesExhausted <==> old.contains(id) && old.next_id()
                >= u32::MAX),
        },
        EditRequest::Delete(id) => {
            &&& r == Ok::<Option<u32>, TreeError>(old.next_sibling_of(id))
            &&& old.contains(id) ==> new.subtree_deleted(old, id)
            &&& !old.contains(id) ==> new == old
        },
    }
}

/// Applies one edit. A merge or a deletion of an absent node does nothing;
/// an insertion next to or under an absent node is refused, as is one when
/// the forest has handed out every identity. Returns the new node of an
/// insertion, and the node that followed a deleted one.
#[verifier::rlimit(80)]
pub fn apply_edit(tree: &mut Tree<OCRElement>, req: &EditRequest) -> (r: Result<Option<u32>, TreeError>)
    requires
        old(tree).wf(),
        keys_unique(*old(tree)),
    ensures
        final(tree).wf(),
        keys_unique(*final(tree)),
        edit_applied(*old(tree), *final(tree), *req, r),
{
    match *req {
        EditRequest::Merge(id, pos) => {
            tree.merge_sibling(&id, &pos);
            proof {
                assert forall|x: u32| #[trigger] tree.contains(x) implies unique_keys(tree.value_of(x).ocr_properties@) by {
                    if old(tree).merge_partner(id, pos) is Some {
                        assert(tree.ids().contains(x));
                    }
                }
            }
            Ok(None)
        },
        EditRequest::Sibling(id, pos) => {
            let v = match tree.get_node(&id) {
                Some(v) => v.copy(),
                None => {
                    return Err(TreeError::NotFound(id));
                },
            };
            if !tree.has_room() {
                return Err(TreeError::IdentitiesExhausted);
            }
            let ghost vv = v;
            match tree.add_sibling(&id, v, &pos) {
                Ok(n) => {
                    assert(tree.sibling_inserted(*old(tree), id, vv, pos, n));
                    proof {
                        assert forall|x: u32| #[trigger] tree.contains(x) implies unique_keys(
                            tree.value_of(x).ocr_properties@,
                        ) by {
                            if x != n {
                                assert(tree.ids().contains(x));
                                assert(old(tree).ids().contains(x));
                            }
                        }
                    }
                    Ok(Some(n))
                },
                Err(e) => Err(e),
            }
        },
        EditRequest::NewChild(id) => {
            let child = match tree.get_node(&id) {
                Some(p) => new_child_element(p),
                None => {
                    return Err(TreeError::NotFound(id));
                },
            };
            if !tree.has_room() {
                return Err(TreeError::IdentitiesExhausted);
            }
            match tree.push_child(&id, child) {
                Ok(n) => {
                    proof {
                        assert forall|x: u32| #[trigger] tree.contains(x) implies unique_keys(
                            tree.value_of(x).ocr_properties@,
                        ) by {
                            if x != n {
                                assert(tree.ids().contains(x));
                                assert(old(tree).ids().contains(x));
                            }
                        }
                    }
                    Ok(Some(n))
                },
                Err(e) => Err(e),
            }
        },
        EditRequest::Delete(id) => {
            let next = tree.next_sibling(&id);
            tree.delete_node(&id);
            proof {
                assert forall|x: u32| #[trigger] tree.contains(x) implies unique_keys(tree.value_of(x).ocr_properties@) by {
                    if old(tree).contains(id) {
                        assert(tree.ids().contains(x));
                    }
                }
            }
            Ok(next)
        },
    }
}

/// Applies the edits `reqs` one after another, as `apply_edit` says, and
/// returns what each gave: the forest passes through one state per edit,
/// each state and result what `edit_applied` says of that edit.
pub fn apply_edits(tree: &mut Tree<OCRElement>, reqs: &Vec<EditRequest>) -> (r: Vec<Result<Option<u32>, TreeError>>)
    requires
        old(tree).wf(),
        keys_unique(*old(tree)),
    ensures
        final(tree).wf(),
        keys_unique(*final(tree)),
        r@.len() == reqs@.len(),
        exists|ts: Seq<Tree<OCRElement>>|
            {
                &&& ts.len() == reqs@.len() + 1
                &&& ts[0] == *old(tree)
                &&& ts[reqs@.len() as int] == *final(tree)
                &&& forall|i: int| 0 <= i < reqs@.len() ==> #[trigger] edit_applied(ts[i], ts[i + 1], reqs@[i], r@[i])
            },
{
    let mut out: Vec<Result<Option<u32>, TreeError>> = Vec::new();
    let ghost mut ts: Seq<Tree<OCRElement>> = seq![*tree];
    let mut i: usize = 0;
    while i < reqs.len()
        invariant
            i <= reqs@.len(),
            out@.len() == i,
            tree.wf(),
            keys_unique(*tree),
            ts.len() == i + 1,
            ts[0] == *old(tree),
            ts[i as int] == *tree,
            forall|j: int| 0 <= j < i ==> #[trigger] edit_applied(ts[j], ts[j + 1], reqs@[j], out@[j]),
        decreases reqs@.len() - i,
    {
        let res = apply_edit(tree, &reqs[i]);
        out.push(res);
        proof {
            let ts2 = ts.push(*tree);
            assert forall|j: int| 0 <= j < i + 1 implies #[trigger] edit_applied(ts2[j], ts2[j + 1], reqs@[j], out@[j]) by {
                if j < i {
                    assert(ts2[j] == ts[j] && ts2[j + 1] == ts[j + 1]);
                }
            }
            ts = ts2;
        }
        i = i + 1;
    }
    out
}

} // verus!
