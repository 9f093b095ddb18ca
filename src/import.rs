//! Reading a markup document into a forest of OCR elements.

use vstd::prelude::*;
use crate::element::{ElementModel, ImportError, OCRElement, element_model};
use crate::markup::{Markup, MarkupNode, attr, carries_class, has_class};
use crate::property::properties_of;
use crate::ocr_class::{OCRClass, class_name};
use crate::tree::Tree;

verus! {

/// A conversion that failed, with the place of the element in the document.
#[derive(Debug, Clone, Copy, PartialEq, Eq, Structural)]
pub struct ImportDiagnostic {
    pub element: usize,
    pub error: ImportError,
}

/// Node `j` is an element that carries the class name of some OCR class.
pub open spec fn is_ocr_element(doc: Markup, j: int) -> bool {
    doc.is_element(j) && exists|c: OCRClass| has_class(doc.element(j), #[trigger] class_name(c))
}

/// Node `j` is an element that carries the page class name.
pub open spec fn is_page_element(doc: Markup, j: int) -> bool {
    doc.is_element(j) && has_class(doc.element(j), "ocr_page"@)
}

/// The nodes among `cs` that the forest takes in under their parent: OCR
/// elements that convert, in order.
pub open spec fn adopted(doc: Markup, cs: Seq<usize>) -> Seq<usize>
    decreases cs.len(),
{
    if cs.len() == 0 {
        Seq::empty()
    } else {
        let rest = adopted(doc, cs.drop_last());
        let j = cs.last() as int;
        if is_ocr_element(doc, j) && element_model(doc, j) is Ok {
            rest.push(cs.last())
        } else {
            rest
        }
    }
}

/// The page elements among the first `n` nodes that convert, in document
/// order: the roots of the forest.
pub open spec fn pages(doc: Markup, n: int) -> Seq<usize>
    decreases n,
{
    if n <= 0 {
        Seq::empty()
    } else {
        let rest = pages(doc, n - 1);
        if is_page_element(doc, n - 1) && element_model(doc, n - 1) is Ok {
            rest.push((n - 1) as usize)
        } else {
            rest
        }
    }
}

/// Node `x` came from element `origin[x]`, which converts to its value.
pub open spec fn sound_node(tree: Tree<OCRElement>, doc: Markup, origin: Map<u32, usize>, x: u32) -> bool {
    &&& origin.contains_key(x)
    &&& doc.is_element(origin[x] as int)
    &&& element_model(doc, origin[x] as int) == Ok::<ElementModel, ImportError>(tree.value_of(x)@)
}

/// Every node of `tree` came from an element of `doc` that converts to its
/// value.
pub open spec fn sound(tree: Tree<OCRElement>, doc: Markup, origin: Map<u32, usize>) -> bool {
    forall|x: u32| #[trigger] tree.contains(x) ==> sound_node(tree, doc, origin, x)
}

/// The children of `x` came, in order, from the adopted children of its
/// element.
pub open spec fn complete_node(tree: Tree<OCRElement>, doc: Markup, origin: Map<u32, usize>, x: u32) -> bool {
    tree.children_of(x).map_values(|c: u32| origin[c]) == adopted(doc, doc.element(origin[x] as int).children@)
}

/// `tree` is what `doc` reads as: its roots came from the converting page
/// elements in document order, and every node's children from the adopted
/// children of its element.
pub open spec fn imported(tree: Tree<OCRElement>, doc: Markup, origin: Map<u32, usize>) -> bool {
    &&& sound(tree, doc, origin)
    &&& tree.root_ids().map_values(|r: u32| origin[r]) == pages(doc, doc.nodes@.len() as int)
    &&& forall|x: u32| #[trigger] tree.contains(x) ==> complete_node(tree, doc, origin, x)
}

/// A diagnostic reports a real failure of the element it names.
pub open spec fn diagnostic_ok(doc: Markup, d: ImportDiagnostic) -> bool {
    &&& doc.is_element(d.element as int)
    &&& (d.error == ImportError::IdentitiesExhausted || element_model(doc, d.element as int) == Err::<
        ElementModel,
        ImportError,
    >(d.error))
}

/// Some diagnostic says that identities ran out.
pub open spec fn exhausted(diags: Seq<ImportDiagnostic>) -> bool {
    exists|k: int| 0 <= k < diags.len() && #[trigger] diags[k].error == ImportError::IdentitiesExhausted
}

/// Whether node `j` is an element that carries an OCR class name.
fn ocr_element_at(doc: &Markup, j: usize) -> (r: bool)
    ensures
        r == is_ocr_element(*doc, j as int),
{
    if j >= doc.nodes.len() {
        return false;
    }
    match &doc.nodes[j] {
        MarkupNode::Element(e) => {
            let all = OCRClass::variants();
            let mut k: usize = 0;
            while k < all.len()
                invariant
                    k <= all@.len(),
                    (j as int) < doc.nodes@.len(),
                    doc.nodes@[j as int] is Element,
                    *e == doc.element(j as int),
                    all@ == seq![
                        OCRClass::Page,
                        OCRClass::CArea,
                        OCRClass::Par,
                        OCRClass::Line,
                        OCRClass::Word,
                        OCRClass::Separator,
                        OCRClass::Photo,
                        OCRClass::Caption,
                    ],
                    forall|m: int| 0 <= m < k ==> !has_class(*e, class_name(all@[m])),
                decreases all@.len() - k,
            {
                if carries_class(e, all[k].to_string().as_str()) {
                    assert(has_class(doc.element(j as int), class_name(all@[k as int])));
                    return true;
                }
                k = k + 1;
            }
            proof {
                assert forall|c: OCRClass| !has_class(doc.element(j as int), #[trigger] class_name(c)) by {
                    match c {
                        OCRClass::Page => assert(!has_class(*e, class_name(all@[0]))),
                        OCRClass::CArea => assert(!has_class(*e, class_name(all@[1]))),
                        OCRClass::Par => assert(!has_class(*e, class_name(all@[2]))),
                        OCRClass::Line => assert(!has_class(*e, class_name(all@[3]))),
                        OCRClass::Word => assert(!has_class(*e, class_name(all@[4]))),
                        OCRClass::Separator => assert(!has_class(*e, class_name(all@[5]))),
                        OCRClass::Photo => assert(!has_class(*e, class_name(all@[6]))),
                        OCRClass::Caption => assert(!has_class(*e, class_name(all@[7]))),
                    }
                }
            }
            false
        },
        MarkupNode::Text(_) => false,
    }
}

/// Adds under `par` the OCR children of element `i` that convert, in order,
/// each with its own children. Reports `false` where identities ran out on
/// the way.
#[verifier::rlimit(80)]
fn add_children(
    doc: &Markup,
    i: usize,
    par: u32,
    tree: &mut Tree<OCRElement>,
    diags: &mut Vec<ImportDiagnostic>,
    Ghost(o0): Ghost<Map<u32, usize>>,
) -> (r: (bool, Ghost<Map<u32, usize>>))
    requires
        doc.wf(),
        doc.is_element(i as int),
        old(tree).wf(),
        old(tree).contains(par),
        sound(*old(tree), *doc, o0),
        forall|k: int| 0 <= k < old(diags)@.len() ==> diagnostic_ok(*doc, #[trigger] old(diags)@[k]),
        exhausted(old(diags)@) ==> old(tree).next_id() >= u32::MAX,
    ensures
        final(tree).wf(),
        final(tree).next_id() >= old(tree).next_id(),
        final(tree).root_ids() == old(tree).root_ids(),
        forall|x: u32| #[trigger] old(tree).contains(x) ==> final(tree).contains(x),
        forall|x: u32| #[trigger] final(tree).contains(x) && !old(tree).contains(x) ==> x >= old(tree).next_id(),
        forall|x: u32| #[trigger] old(tree).contains(x) && x != par ==> final(tree).same_node(*old(tree), x),
        final(tree).value_of(par) == old(tree).value_of(par),
        final(tree).parent_of(par) == old(tree).parent_of(par),
        final(tree).children_of(par).len() >= old(tree).children_of(par).len(),
        final(tree).children_of(par).take(old(tree).children_of(par).len() as int) == old(tree).children_of(par),
        sound(*final(tree), *doc, r.1@),
        forall|x: u32| #[trigger] old(tree).contains(x) ==> r.1@[x] == o0[x],
        r.0 ==> final(tree).children_of(par).skip(old(tree).children_of(par).len() as int).map_values(
            |c: u32| r.1@[c],
        ) == adopted(*doc, doc.element(i as int).children@),
        r.0 ==> forall|x: u32|
            #[trigger] final(tree).contains(x) && x >= old(tree).next_id() ==> complete_node(
                *final(tree),
                *doc,
                r.1@,
                x,
            ),
        !r.0 ==> exhausted(final(diags)@),
        exhausted(final(diags)@) ==> final(tree).next_id() >= u32::MAX,
        final(diags)@.len() >= old(diags)@.len(),
        final(diags)@.take(old(diags)@.len() as int) == old(diags)@,
        forall|k: int| 0 <= k < final(diags)@.len() ==> diagnostic_ok(*doc, #[trigger] final(diags)@[k]),
    decreases doc.nodes@.len() - i,
{
    let e = match &doc.nodes[i] {
        MarkupNode::Element(e) => e,
        MarkupNode::Text(_) => {
            return (true, Ghost(o0));
        },
    };
    let ghost t0 = *tree;
    let ghost d0 = diags@;
    let ghost base = tree.children_of(par);
    let mut o: Ghost<Map<u32, usize>> = Ghost(o0);
    let mut complete = true;
    let mut k: usize = 0;
    proof {
        assert forall|x: u32| #[trigger] tree.contains(x) implies x < t0.next_id() by {
            Tree::lemma_fresh_id(*tree, x, tree.next_id());
        }
        assert(tree.children_of(par).skip(base.len() as int).map_values(|c: u32| o@[c]) =~= Seq::<usize>::empty());
        assert(e.children@.take(0) =~= Seq::<usize>::empty());
        assert(tree.children_of(par).take(base.len() as int) =~= base);
        assert(diags@.take(d0.len() as int) =~= d0);
    }
    while k < e.children.len()
        invariant
            doc.wf(),
            doc.is_element(i as int),
            *e == doc.element(i as int),
            k <= e.children@.len(),
            t0 == *old(tree),
            d0 == old(diags)@,
            base == t0.children_of(par),
            t0.wf(),
            t0.contains(par),
            tree.wf(),
            tree.contains(par),
            tree.next_id() >= t0.next_id(),
            tree.root_ids() == t0.root_ids(),
            forall|x: u32| #[trigger] t0.contains(x) ==> tree.contains(x),
            forall|x: u32| #[trigger] tree.contains(x) && !t0.contains(x) ==> x >= t0.next_id(),
            forall|x: u32| #[trigger] t0.contains(x) && x != par ==> tree.same_node(t0, x),
            tree.value_of(par) == t0.value_of(par),
            tree.parent_of(par) == t0.parent_of(par),
            tree.children_of(par).len() >= base.len(),
            tree.children_of(par).take(base.len() as int) == base,
            sound(*tree, *doc, o@),
            sound(t0, *doc, o0),
            forall|x: u32| #[trigger] t0.contains(x) ==> o@[x] == o0[x],
            complete ==> tree.children_of(par).skip(base.len() as int).map_values(|c: u32| o@[c]) == adopted(
                *doc,
                e.children@.take(k as int),
            ),
            complete ==> forall|x: u32|
                #[trigger] tree.contains(x) && x >= t0.next_id() ==> complete_node(*tree, *doc, o@, x),
            !complete ==> exhausted(diags@),
            exhausted(diags@) ==> tree.next_id() >= u32::MAX,
            diags@.len() >= d0.len(),
            diags@.take(d0.len() as int) == d0,
            forall|m: int| 0 <= m < diags@.len() ==> diagnostic_ok(*doc, #[trigger] diags@[m]),
        decreases e.children@.len() - k,
    {
        let j = e.children[k];
        proof {
            assert(e.children@.take(k + 1).drop_last() =~= e.children@.take(k as int));
            assert(e.children@.take(k + 1).last() == j);
            assert(i < j);
        }
        if ocr_element_at(doc, j) {
            match OCRElement::html_elt_to_ocr_elt(doc, j) {
                Ok(elt) => {
                    if tree.has_room() {
                        let ghost t1 = *tree;
                        let ghost kids1 = t1.children_of(par).skip(base.len() as int);
                        let ghost v = elt@;
                        let pushed = tree.push_child(&par, elt);
                        let c = match pushed {
                            Ok(c) => c,
                            Err(_) => {
                                return (complete, o);
                            },
                        };
                        let ghost t2 = *tree;
                        proof {
                            assert(sound_node(t2, *doc, o@.insert(c, j), c));
                            assert forall|x: u32| #[trigger] t2.contains(x) implies sound_node(t2, *doc, o@.insert(c, j), x) by {
                                if x != c {
                                    assert(t2.ids().contains(x));
                                    assert(t1.ids().contains(x));
                                    assert(sound_node(t1, *doc, o@, x));
                                }
                            }
                        }
                        let ghost o1 = o@;
                        o = Ghost(o@.insert(c, j));
                        let (sub, o2) = add_children(doc, j, c, tree, diags, o);
                        proof {
                            let t3 = *tree;
                            assert(t2.children_of(par) == t1.children_of(par).push(c));
                            assert(t3.children_of(par) == t2.children_of(par)) by {
                                assert(t2.contains(par) && par != c);
                                assert(t3.same_node(t2, par));
                            }
                            assert(t3.children_of(par).len() >= base.len());
                            assert(t3.children_of(par).take(base.len() as int) =~= base) by {
                                assert(t1.children_of(par).take(base.len() as int) == base);
                            }
                            assert(t3.children_of(par).skip(base.len() as int) =~= kids1.push(c));
                            assert forall|x: u32| #[trigger] t0.contains(x) implies o2@[x] == o0[x] by {
                                assert(t1.contains(x));
                                Tree::lemma_fresh_id(t1, x, t1.next_id());
                                assert(t2.contains(x));
                            }
                            assert forall|x: u32| #[trigger] t0.contains(x) && x != par implies t3.same_node(t0, x) by {
                                assert(t1.same_node(t0, x));
                                assert(t1.contains(x));
                                assert(t2.same_node(t1, x));
                                assert(t2.contains(x));
                                assert(x != c);
                                assert(t3.same_node(t2, x));
                            }
                            assert(t3.value_of(par) == t0.value_of(par)) by {
                                assert(t3.same_node(t2, par));
                            }
                            assert(t3.parent_of(par) == t0.parent_of(par)) by {
                                assert(t3.same_node(t2, par));
                            }
                            assert forall|x: u32| #[trigger] t0.contains(x) implies t3.contains(x) by {
                                assert(t1.contains(x));
                                assert(t2.contains(x));
                            }
                            assert forall|x: u32| #[trigger] t3.contains(x) && !t0.contains(x) implies x >= t0.next_id() by {
                                if t2.contains(x) {
                                    if x != c {
                                        assert(t2.ids().contains(x));
                                        assert(t1.ids().contains(x));
                                    }
                                }
                            }
                            if complete && sub {
                                let kids3 = t3.children_of(par).skip(base.len() as int);
                                t1.lemma_children_present(par);
                                assert forall|m: int| 0 <= m < kids1.len() implies #[trigger] o2@[kids1[m]] == o1[kids1[m]] by {
                                    assert(t1.children_of(par)[base.len() + m] == kids1[m]);
                                    assert(t1.contains(kids1[m]));
                                    Tree::lemma_fresh_id(t1, kids1[m], t1.next_id());
                                    assert(t2.contains(kids1[m]));
                                }
                                assert(o2@[c] == j);
                                assert(kids3.map_values(|x: u32| o2@[x]) =~= kids1.map_values(|x: u32| o1[x]).push(j));
                                assert forall|x: u32| #[trigger] t3.contains(x) && x >= t0.next_id() implies complete_node(
                                    t3,
                                    *doc,
                                    o2@,
                                    x,
                                ) by {
                                    if x == c {
                                        assert(t2.children_of(c) =~= Seq::<u32>::empty());
                                        assert(t3.children_of(c).skip(0) =~= t3.children_of(c));
                                    } else if t2.contains(x) {
                                        assert(t2.ids().contains(x));
                                        assert(t1.ids().contains(x));
                                        Tree::lemma_fresh_id(t0, par, t0.next_id());
                                        assert(x != par);
                                        assert(t1.contains(x) && x >= t0.next_id());
                                        assert(complete_node(t1, *doc, o1, x));
                                        assert(t2.same_node(t1, x));
                                        assert(t3.same_node(t2, x));
                                        t1.lemma_children_present(x);
                                        assert forall|m: int| 0 <= m < t1.children_of(x).len() implies #[trigger] o2@[t1.children_of(x)[m]] == o1[t1.children_of(x)[m]] by {
                                            assert(t1.contains(t1.children_of(x)[m]));
                                            Tree::lemma_fresh_id(t1, t1.children_of(x)[m], t1.next_id());
                                            assert(t2.contains(t1.children_of(x)[m]));
                                        }
                                        assert(t3.children_of(x).map_values(|y: u32| o2@[y]) =~= t1.children_of(x).map_values(|y: u32| o1[y]));
                                    }
                                }
                            }
                        }
                        o = o2;
                        if !sub {
                            complete = false;
                        }
                    } else {
                        diags.push(ImportDiagnostic { element: j, error: ImportError::IdentitiesExhausted });
                        complete = false;
                        proof {
                            assert(diags@[diags@.len() - 1].error == ImportError::IdentitiesExhausted);
                            assert(diags@.take(d0.len() as int) =~= d0);
                        }
                    }
                },
                Err(err) => {
                    let ghost before = diags@;
                    diags.push(ImportDiagnostic { element: j, error: err });
                    proof {
                        assert(err != ImportError::IdentitiesExhausted);
                        if exhausted(diags@) {
                            let m = choose|m: int| 0 <= m < diags@.len() && #[trigger] diags@[m].error == ImportError::IdentitiesExhausted;
                            assert(m < before.len());
                            assert(before[m] == diags@[m]);
                        }
                        assert(diags@.take(d0.len() as int) =~= d0) by {
                            assert(before.take(d0.len() as int) == d0);
                        }
                        if !complete {
                            let m = choose|m: int| 0 <= m < before.len() && #[trigger] before[m].error == ImportError::IdentitiesExhausted;
                            assert(diags@[m] == before[m]);
                        }
                    }
                },
            }
        }
        k = k + 1;
    }
    proof {
        assert(e.children@.take(e.children@.len() as int) =~= e.children@);
    }
    (complete, o)
}

/// The elements of a forest read from a document never repeat a property
/// name.
pub proof fn lemma_sound_keys_unique(tree: Tree<OCRElement>, doc: Markup, o: Map<u32, usize>)
    requires
        sound(tree, doc, o),
    ensures
        crate::edit::keys_unique(tree),
{
    assert forall|x: u32| #[trigger] tree.contains(x) implies crate::property::unique_keys(
        tree.value_of(x).ocr_properties@,
    ) by {
        assert(sound_node(tree, doc, o, x));
        let e = doc.element(o[x] as int);
        let t = attr(e, "title"@)->Some_0;
        crate::property::lemma_collect_unique(crate::text::clauses(t));
    }
}

impl OCRElement {
    /// Reads `doc` into a forest: each page element that converts becomes a
    /// root, in document order, and under each node stand the OCR elements
    /// among its element's children that convert, in order. An element that
    /// does not convert is left out with everything below it, and reported.
    #[verifier::rlimit(80)]
    pub fn html_to_ocr_tree(doc: &Markup) -> (r: (Tree<OCRElement>, Vec<ImportDiagnostic>))
        requires
            doc.wf(),
        ensures
            r.0.wf(),
            forall|k: int| 0 <= k < r.1@.len() ==> diagnostic_ok(*doc, #[trigger] r.1@[k]),
            exists|o: Map<u32, usize>|
                #[trigger] sound(r.0, *doc, o) && (!exhausted(r.1@) ==> imported(r.0, *doc, o)),
            exhausted(r.1@) ==> r.0.next_id() >= u32::MAX,
    {
        let mut tree: Tree<OCRElement> = Tree::new();
        let mut diags: Vec<ImportDiagnostic> = Vec::new();
        let mut o: Ghost<Map<u32, usize>> = Ghost(Map::empty());
        let mut complete = true;
        let mut p: usize = 0;
        proof {
            assert(tree.root_ids().map_values(|r: u32| o@[r]) =~= Seq::<usize>::empty());
            assert forall|x: u32| !tree.contains(x) by {
                assert(!tree.ids().contains(x));
            }
        }
        while p < doc.nodes.len()
            invariant
                doc.wf(),
                p <= doc.nodes@.len(),
                tree.wf(),
                sound(tree, *doc, o@),
                complete ==> tree.root_ids().map_values(|r: u32| o@[r]) == pages(*doc, p as int),
                complete ==> forall|x: u32| #[trigger] tree.contains(x) ==> complete_node(tree, *doc, o@, x),
                !complete ==> exhausted(diags@),
            exhausted(diags@) ==> tree.next_id() >= u32::MAX,
                forall|m: int| 0 <= m < diags@.len() ==> diagnostic_ok(*doc, #[trigger] diags@[m]),
            decreases doc.nodes@.len() - p,
        {
            let is_page = match &doc.nodes[p] {
                MarkupNode::Element(e) => carries_class(e, "ocr_page"),
                MarkupNode::Text(_) => false,
            };
            if is_page {
                match OCRElement::html_elt_to_ocr_elt(doc, p) {
                    Ok(elt) => {
                        if tree.has_room() {
                            let ghost t1 = tree;
                            let ghost o1 = o@;
                            let id = tree.add_root(elt);
                            let ghost t2 = tree;
                            proof {
                                assert(t2.ids().contains(id));
                                assert forall|x: u32| #[trigger] t2.contains(x) implies sound_node(t2, *doc, o1.insert(id, p), x) by {
                                    if x != id {
                                        assert(t2.ids().contains(x));
                                        assert(t1.ids().contains(x));
                                        assert(sound_node(t1, *doc, o1, x));
                                    }
                                }
                            }
                            o = Ghost(o@.insert(id, p));
                            let (sub, o2) = add_children(doc, p, id, &mut tree, &mut diags, o);
                            proof {
                                let t3 = tree;
                                if complete && sub {
                                    assert forall|m: int| 0 <= m < t1.root_ids().len() implies #[trigger] o2@[t1.root_ids()[m]] == o1[t1.root_ids()[m]] by {
                                        let r = t1.root_ids()[m];
                                        assert(t1.root_ids().contains(r));
                                        t1.lemma_roots_present();
                                        Tree::lemma_fresh_id(t1, r, t1.next_id());
                                        assert(t2.contains(r));
                                    }
                                    assert(t2.contains(id));
                                    assert(o2@[id] == p);
                                    assert(t3.root_ids() == t1.root_ids().push(id));
                                    assert(t3.root_ids().map_values(|r: u32| o2@[r]) =~= t1.root_ids().map_values(|r: u32| o1[r]).push(p));
                                    assert forall|x: u32| #[trigger] t3.contains(x) implies complete_node(t3, *doc, o2@, x) by {
                                        if x == id {
                                            assert(t2.children_of(id) =~= Seq::<u32>::empty());
                                            assert(t3.children_of(id).skip(0) =~= t3.children_of(id));
                                        } else if t2.contains(x) {
                                            assert(t2.ids().contains(x));
                                            assert(t1.ids().contains(x));
                                            assert(complete_node(t1, *doc, o1, x));
                                            assert(t3.same_node(t2, x));
                                            t1.lemma_children_present(x);
                                            assert forall|m: int| 0 <= m < t1.children_of(x).len() implies #[trigger] o2@[t1.children_of(x)[m]] == o1[t1.children_of(x)[m]] by {
                                                assert(t1.contains(t1.children_of(x)[m]));
                                                Tree::lemma_fresh_id(t1, t1.children_of(x)[m], t1.next_id());
                                                assert(t2.contains(t1.children_of(x)[m]));
                                            }
                                            assert(t3.children_of(x).map_values(|y: u32| o2@[y]) =~= t1.children_of(x).map_values(|y: u32| o1[y]));
                                        }
                                    }
                                }
                            }
                            o = o2;
                            if !sub {
                                complete = false;
                            }
                        } else {
                            diags.push(ImportDiagnostic { element: p, error: ImportError::IdentitiesExhausted });
                            complete = false;
                            proof {
                                assert(diags@[diags@.len() - 1].error == ImportError::IdentitiesExhausted);
                            }
                        }
                    },
                    Err(err) => {
                        let ghost before = diags@;
                        diags.push(ImportDiagnostic { element: p, error: err });
                        proof {
                            assert(err != ImportError::IdentitiesExhausted);
                            if exhausted(diags@) {
                                let m = choose|m: int| 0 <= m < diags@.len() && #[trigger] diags@[m].error == ImportError::IdentitiesExhausted;
                                assert(m < before.len());
                                assert(before[m] == diags@[m]);
                            }
                            if !complete {
                                let m = choose|m: int| 0 <= m < before.len() && #[trigger] before[m].error == ImportError::IdentitiesExhausted;
                                assert(diags@[m] == before[m]);
                            }
                        }
                    },
                }
            }
            p = p + 1;
        }
        proof {
            assert(sound(tree, *doc, o@) && (!exhausted(diags@) ==> imported(tree, *doc, o@)));
        }
        (tree, diags)
    }
}

/// An element whose `title` is missing or gives no bounding box is the
/// origin of no node: such an element never enters the forest.
pub proof fn lemma_no_bbox_absent(tree: Tree<OCRElement>, doc: Markup, o: Map<u32, usize>, i: usize)
    requires
        sound(tree, doc, o),
        doc.is_element(i as int),
        match attr(doc.element(i as int), "title"@) {
            Some(t) => properties_of(t) is None,
            None => true,
        },
    ensures
        forall|x: u32| #[trigger] tree.contains(x) ==> o[x] != i,
{
    assert forall|x: u32| #[trigger] tree.contains(x) implies o[x] != i by {
        assert(sound_node(tree, doc, o, x));
    }
}

} // verus!
