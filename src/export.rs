//! Writing a forest of OCR elements back out as markup, with identifiers
//! generated afresh.

use vstd::prelude::*;
use crate::element::{ElementModel, ImportError, OCRElement, element_model, first_ocr_token, starts_with_ocr, text_piece, word_text};
use crate::markup::{Markup, MarkupElement, MarkupNode, attr, class_tokens};
use crate::number::{digits_chars, digits_text};
use crate::ocr_class::{OCRClass, class_name, id_family, lemma_class_name_round_trip};
use crate::property::{entry_round_trips, has_key, lemma_title_round_trip, title_text, unique_keys};
use crate::text::{chars_of, string_of, trim};
use crate::tree::Tree;

verus! {

/// The running counters of the identifier families, each starting at 1.
#[derive(Debug, Clone, Copy, PartialEq, Eq, Structural)]
pub struct IdCounters {
    pub page: u32,
    pub block: u32,
    pub par: u32,
    pub line: u32,
    pub word: u32,
}

impl IdCounters {
    /// Every counter at 1.
    pub fn new() -> (r: IdCounters)
        ensures
            r == initial_counters(),
    {
        IdCounters { page: 1, block: 1, par: 1, line: 1, word: 1 }
    }
}

/// Every counter at 1.
pub open spec fn initial_counters() -> IdCounters {
    IdCounters { page: 1, block: 1, par: 1, line: 1, word: 1 }
}

/// The counter of the family of class `c`.
pub open spec fn family_count(n: IdCounters, c: OCRClass) -> u32 {
    match c {
        OCRClass::Page => n.page,
        OCRClass::CArea | OCRClass::Separator | OCRClass::Photo => n.block,
        OCRClass::Par => n.par,
        OCRClass::Line | OCRClass::Caption => n.line,
        OCRClass::Word => n.word,
    }
}

/// A counter moved on by one, staying at its largest value once there.
pub open spec fn step(v: u32) -> u32 {
    if v < u32::MAX {
        (v + 1) as u32
    } else {
        v
    }
}

/// The counters once an element of class `c` has drawn its identifier.
pub open spec fn bumped(n: IdCounters, c: OCRClass) -> IdCounters {
    match c {
        OCRClass::Page => IdCounters { page: step(n.page), ..n },
        OCRClass::CArea | OCRClass::Separator | OCRClass::Photo => IdCounters { block: step(n.block), ..n },
        OCRClass::Par => IdCounters { par: step(n.par), ..n },
        OCRClass::Line | OCRClass::Caption => IdCounters { line: step(n.line), ..n },
        OCRClass::Word => IdCounters { word: step(n.word), ..n },
    }
}

/// The identifier an element of class `c` draws from counters `n`:
/// `page_N` for a page, `family_P_N` otherwise, where `P` is the number of
/// the latest page.
pub open spec fn id_text(n: IdCounters, c: OCRClass) -> Seq<char> {
    if c == OCRClass::Page {
        "page"@ + seq!['_'] + digits_text(n.page as nat)
    } else {
        id_family(c) + seq!['_'] + digits_text((n.page - 1) as nat) + seq!['_'] + digits_text(
            family_count(n, c) as nat,
        )
    }
}

/// Draws the identifier of an element of class `class` and moves its
/// family's counter on.
pub fn next_element_id(ids: &mut IdCounters, class: OCRClass) -> (r: String)
    requires
        old(ids).page >= 1,
    ensures
        r@ == id_text(*old(ids), class),
        *final(ids) == bumped(*old(ids), class),
        final(ids).page >= 1,
{
    let n = match class {
        OCRClass::Page => ids.page,
        OCRClass::CArea | OCRClass::Separator | OCRClass::Photo => ids.block,
        OCRClass::Par => ids.par,
        OCRClass::Line | OCRClass::Caption => ids.line,
        OCRClass::Word => ids.word,
    };
    let mut v = chars_of(class.to_id_str().as_str());
    v.push('_');
    if class != OCRClass::Page {
        let p = digits_chars((ids.page - 1) as u64);
        let mut i: usize = 0;
        let ghost pre = v@;
        while i < p.len()
            invariant
                i <= p@.len(),
                v@ == pre + p@.take(i as int),
            decreases p@.len() - i,
        {
            v.push(p[i]);
            i = i + 1;
            assert(v@ =~= pre + p@.take(i as int));
        }
        assert(p@.take(p@.len() as int) =~= p@);
        v.push('_');
    }
    let d = digits_chars(n as u64);
    let mut i: usize = 0;
    let ghost pre = v@;
    while i < d.len()
        invariant
            i <= d@.len(),
            v@ == pre + d@.take(i as int),
        decreases d@.len() - i,
    {
        v.push(d[i]);
        i = i + 1;
        assert(v@ =~= pre + d@.take(i as int));
    }
    assert(d@.take(d@.len() as int) =~= d@);
    let next = if n < 4294967295u32 { n + 1 } else { n };
    match class {
        OCRClass::Page => ids.page = next,
        OCRClass::CArea | OCRClass::Separator | OCRClass::Photo => ids.block = next,
        OCRClass::Par => ids.par = next,
        OCRClass::Line | OCRClass::Caption => ids.line = next,
        OCRClass::Word => ids.word = next,
    }
    proof {
        if class == OCRClass::Page {
            assert(v@ =~= id_text(*old(ids), class));
        } else {
            assert(v@ =~= id_text(*old(ids), class));
        }
    }
    string_of(&v)
}

/// The counters in force when node `k` of `out` is written: each element
/// after the body and before `k` has drawn one identifier.
pub open spec fn counters_before(out: Markup, tree: Tree<OCRElement>, origin: Map<usize, u32>, k: int) -> IdCounters
    decreases k,
{
    if k <= 1 {
        initial_counters()
    } else {
        let prev = counters_before(out, tree, origin, k - 1);
        if out.is_element(k - 1) {
            bumped(prev, tree.value_of(origin[(k - 1) as usize]).ocr_element_type)
        } else {
            prev
        }
    }
}

/// The attributes of `e`, as characters.
pub open spec fn attr_views(e: MarkupElement) -> Seq<(Seq<char>, Seq<char>)> {
    Seq::new(e.attrs@.len(), |i: int| (e.attrs@[i].0@, e.attrs@[i].1@))
}

/// The attributes an exported element carries: its properties written out,
/// its identifier, its class name, and its language where it has one.
pub open spec fn exported_attrs(v: OCRElement, id: Seq<char>) -> Seq<(Seq<char>, Seq<char>)> {
    seq![("title"@, title_text(v.ocr_properties@)), ("id"@, id), ("class"@, class_name(v.ocr_element_type))]
        + match v.ocr_lang {
        Some(l) => seq![("lang"@, l@)],
        None => Seq::empty(),
    }
}

/// Element `k` of `out` was written for node `origin[k]` of `tree`: same tag
/// name, its class as the only class token, the attributes above with the
/// identifier drawn from the counters in force, then a text child where the
/// node has text, then one element for each child of the node, in order.
pub open spec fn exported_node(out: Markup, tree: Tree<OCRElement>, origin: Map<usize, u32>, k: int) -> bool {
    let x = origin[k as usize];
    let e = out.element(k);
    let v = tree.value_of(x);
    let off: int = if v.ocr_text@.len() > 0 {
        1
    } else {
        0
    };
    &&& origin.contains_key(k as usize)
    &&& tree.contains(x)
    &&& e.name@ == v.html_element_type@
    &&& class_tokens(e) == seq![class_name(v.ocr_element_type)]
    &&& attr_views(e) == exported_attrs(v, id_text(counters_before(out, tree, origin, k), v.ocr_element_type))
    &&& e.children@.len() == off + tree.children_of(x).len()
    &&& off == 1 ==> {
        &&& 0 <= e.children@[0] < out.nodes@.len()
        &&& out.nodes@[e.children@[0] as int] is Text
        &&& out.nodes@[e.children@[0] as int]->Text_0@ == v.ocr_text@
    }
    &&& forall|i: int|
        off <= i < e.children@.len() ==> child_written(out, origin, #[trigger] e.children@[i], tree.children_of(x)[i - off])
}

/// Node `c` of `out` is an element written for node `x`.
pub open spec fn child_written(out: Markup, origin: Map<usize, u32>, c: usize, x: u32) -> bool {
    &&& out.is_element(c as int)
    &&& origin.contains_key(c)
    &&& origin[c] == x
}

/// Two documents agree on which of their first `k` nodes are elements, and
/// two maps agree on where those elements came from.
pub open spec fn same_prefix(a: Markup, b: Markup, oa: Map<usize, u32>, ob: Map<usize, u32>, k: int) -> bool {
    &&& k <= a.nodes@.len()
    &&& k <= b.nodes@.len()
    &&& forall|j: int| 0 <= j < k ==> (#[trigger] a.is_element(j) <==> b.is_element(j))
    &&& forall|j: int| 1 <= j < k && #[trigger] a.is_element(j) ==> oa.contains_key(j as usize) && ob.contains_key(j as usize)
        && oa[j as usize] == ob[j as usize]
}

proof fn lemma_counters_prefix(
    a: Markup,
    b: Markup,
    tree: Tree<OCRElement>,
    oa: Map<usize, u32>,
    ob: Map<usize, u32>,
    k: int,
)
    requires
        same_prefix(a, b, oa, ob, k),
    ensures
        counters_before(a, tree, oa, k) == counters_before(b, tree, ob, k),
    decreases k,
{
    if k > 1 {
        lemma_counters_prefix(a, b, tree, oa, ob, k - 1);
        assert(a.is_element(k - 1) <==> b.is_element(k - 1));
    }
}

fn text(s: &str) -> (r: String)
    ensures
        r@ == s@,
{
    s.to_owned()
}

/// Growing the document at its end and appending children to element `p`
/// leaves an element other than `p` as it was written.
#[verifier::rlimit(80)]
proof fn lemma_exported_stable(
    a: Markup,
    b: Markup,
    tree: Tree<OCRElement>,
    oa: Map<usize, u32>,
    ob: Map<usize, u32>,
    p: int,
    j: int,
)
    requires
        a.wf(),
        1 <= j < a.nodes@.len(),
        j != p,
        a.is_element(j),
        a.is_element(p),
        b.is_element(p),
        a.nodes@.len() <= b.nodes@.len(),
        forall|i: int| 0 <= i < a.nodes@.len() && i != p ==> #[trigger] b.nodes@[i] == a.nodes@[i],
        forall|i: usize| #[trigger] oa.contains_key(i) && (i as int) < a.nodes@.len() ==> ob.contains_key(i) && ob[i] == oa[i],
        forall|i: int| 1 <= i < a.nodes@.len() && #[trigger] a.is_element(i) ==> oa.contains_key(i as usize),
        exported_node(a, tree, oa, j),
    ensures
        exported_node(b, tree, ob, j),
{
    assert(b.nodes@[j] == a.nodes@[j]);
    assert forall|i: int| 0 <= i < j implies (#[trigger] a.is_element(i) <==> b.is_element(i)) by {
        if i != p {
            assert(b.nodes@[i] == a.nodes@[i]);
        }
    }
    lemma_counters_prefix(a, b, tree, oa, ob, j);
    let x = oa[j as usize];
    let e = a.element(j);
    let off: int = if tree.value_of(x).ocr_text@.len() > 0 { 1 } else { 0 };
    if off == 1 {
        let t = e.children@[0] as int;
        assert(j < t < a.nodes@.len());
        assert(b.nodes@[t] == a.nodes@[t]);
    }
    assert forall|i: int| off <= i < e.children@.len() implies child_written(
        b,
        ob,
        #[trigger] e.children@[i],
        tree.children_of(x)[i - off],
    ) by {
        let m = i - off;
        let c = e.children@[off + m] as int;
        assert(child_written(a, oa, e.children@[off + m], tree.children_of(x)[off + m - off]));
        assert(a.is_element(c));
        assert(j < c < a.nodes@.len());
        if c != p {
            assert(b.nodes@[c] == a.nodes@[c]);
        }
    }
}

/// Every element after the body came from some node.
pub open spec fn all_mapped(out: Markup, origin: Map<usize, u32>) -> bool {
    forall|i: int| 1 <= i < out.nodes@.len() && #[trigger] out.is_element(i) ==> origin.contains_key(i as usize)
}

/// Every element after the first is a child of an element before it.
pub open spec fn parented(out: Markup) -> bool {
    forall|k: int|
        1 <= k < out.nodes@.len() && #[trigger] out.is_element(k) ==> exists|j: int|
            0 <= j < k && out.is_element(j) && #[trigger] out.element(j).children@.contains(k as usize)
}

/// The children of the body stand in document order.
pub open spec fn increasing(s: Seq<usize>) -> bool {
    forall|a: int, b: int| 0 <= a < b < s.len() ==> s[a] < s[b]
}

/// Writes node `x` and everything below it as the last child of element
/// `parent`, drawing identifiers from `ids` in document order.
#[verifier::rlimit(80)]
fn add_ocr_tree(
    tree: &Tree<OCRElement>,
    x: u32,
    ids: &mut IdCounters,
    out: &mut Markup,
    parent: usize,
    Ghost(origin): Ghost<Map<usize, u32>>,
) -> (r: Ghost<Map<usize, u32>>)
    requires
        tree.wf(),
        tree.contains(x),
        old(out).wf(),
        old(out).is_element(parent as int),
        1 <= old(out).nodes@.len(),
        old(ids).page >= 1,
        *old(ids) == counters_before(*old(out), *tree, origin, old(out).nodes@.len() as int),
        all_mapped(*old(out), origin),
        parented(*old(out)),
    ensures
        final(out).wf(),
        final(ids).page >= 1,
        final(out).nodes@.len() > old(out).nodes@.len(),
        forall|i: int|
            0 <= i < old(out).nodes@.len() && i != parent ==> #[trigger] final(out).nodes@[i] == old(out).nodes@[i],
        final(out).is_element(parent as int),
        final(out).element(parent as int).name == old(out).element(parent as int).name,
        final(out).element(parent as int).classes == old(out).element(parent as int).classes,
        final(out).element(parent as int).attrs == old(out).element(parent as int).attrs,
        final(out).element(parent as int).children@ == old(out).element(parent as int).children@.push(
            old(out).nodes@.len() as usize,
        ),
        final(out).is_element(old(out).nodes@.len() as int),
        forall|i: usize|
            #[trigger] origin.contains_key(i) && (i as int) < old(out).nodes@.len() ==> r@.contains_key(i) && r@[i]
                == origin[i],
        r@.contains_key(old(out).nodes@.len() as usize),
        r@[old(out).nodes@.len() as usize] == x,
        all_mapped(*final(out), r@),
        parented(*final(out)),
        forall|k: int|
            old(out).nodes@.len() <= k < final(out).nodes@.len() && #[trigger] final(out).is_element(k)
                ==> exported_node(*final(out), *tree, r@, k),
        *final(ids) == counters_before(*final(out), *tree, r@, final(out).nodes@.len() as int),
    decreases tree.rank(x),
{
    let v = match tree.get_node(&x) {
        Some(v) => v,
        None => {
            return Ghost(origin);
        },
    };
    let ghost out0 = *out;
    let ghost ids0 = *ids;
    let k = out.nodes.len();
    let class = v.ocr_element_type;
    let id = next_element_id(ids, class);
    let mut attrs: Vec<(String, String)> = Vec::new();
    attrs.push((text("title"), v.ocr_properties.title()));
    attrs.push((text("id"), id));
    attrs.push((text("class"), class.to_string()));
    match &v.ocr_lang {
        Some(l) => attrs.push((text("lang"), l.clone())),
        None => {},
    }
    let mut classes: Vec<String> = Vec::new();
    classes.push(class.to_string());
    out.nodes.push(
        MarkupNode::Element(MarkupElement { name: v.html_element_type.clone(), classes, attrs, children: Vec::new() }),
    );
    match &mut out.nodes[parent] {
        MarkupNode::Element(pe) => {
            pe.children.push(k);
        },
        MarkupNode::Text(_) => {},
    }
    let has_text = v.ocr_text.as_str().unicode_len() > 0;
    let ghost mid = *out;
    proof {
        assert(mid.is_element(k as int));
        assert(counters_before(mid, *tree, origin.insert(k, x), k + 1) == bumped(
            counters_before(mid, *tree, origin.insert(k, x), k as int),
            class,
        ));
    }
    if has_text {
        let t_idx = out.nodes.len();
        out.nodes.push(MarkupNode::Text(v.ocr_text.clone()));
        match &mut out.nodes[k] {
            MarkupNode::Element(e) => {
                e.children.push(t_idx);
            },
            MarkupNode::Text(_) => {},
        }
        proof {
            assert(!out.is_element(k + 1));
            assert(counters_before(*out, *tree, origin.insert(k, x), k + 2) == counters_before(
                *out,
                *tree,
                origin.insert(k, x),
                k + 1,
            ));
            assert(counters_before(*out, *tree, origin.insert(k, x), k + 1) == bumped(
                counters_before(*out, *tree, origin.insert(k, x), k as int),
                class,
            ));
        }
    }
    let ghost o1 = origin.insert(k, x);
    let mut o: Ghost<Map<usize, u32>> = Ghost(o1);
    proof {
        assert forall|j: int| 1 <= j < out.nodes@.len() && #[trigger] out.is_element(j) implies o1.contains_key(j as usize) by {
            if j < k {
                if j != parent {
                    assert(out.nodes@[j] == out0.nodes@[j]);
                }
                assert(out0.is_element(j));
            }
        }
        assert forall|i: int| 0 <= i < k implies (#[trigger] out0.is_element(i) <==> out.is_element(i)) by {
            if i != parent {
                assert(out.nodes@[i] == out0.nodes@[i]);
            }
        }
        lemma_counters_prefix(out0, *out, *tree, origin, o1, k as int);
        assert(*ids == counters_before(*out, *tree, o1, out.nodes@.len() as int));
        assert(out.element(parent as int).children@.contains(k)) by {
            let pc = out0.element(parent as int).children@;
            assert(pc.push(k)[pc.len() as int] == k);
        }
        assert forall|k2: int| 1 <= k2 < out.nodes@.len() && #[trigger] out.is_element(k2) implies exists|j: int|
            0 <= j < k2 && out.is_element(j) && #[trigger] out.element(j).children@.contains(k2 as usize) by {
            if k2 < k {
                if k2 != parent {
                    assert(out.nodes@[k2] == out0.nodes@[k2]);
                }
                assert(out0.is_element(k2));
                let j = choose|j: int| 0 <= j < k2 && out0.is_element(j) && #[trigger] out0.element(j).children@.contains(k2 as usize);
                if j != parent {
                    assert(out.nodes@[j] == out0.nodes@[j]);
                } else {
                    let pc = out0.element(parent as int).children@;
                    let idx = pc.index_of(k2 as usize);
                    assert(out.element(j).children@[idx] == k2 as usize);
                }
                assert(out.element(j).children@.contains(k2 as usize));
            } else if k2 == k {
                assert(out.element(parent as int).children@.contains(k2 as usize));
            }
        }
        assert(attr_views(out.element(k as int)) =~= exported_attrs(*v, id_text(ids0, class)));
        assert(class_tokens(out.element(k as int)) =~= seq![class_name(class)]);
    }
    let kids = tree.children(&x);
    let off: usize = if has_text { 1 } else { 0 };
    let mut m: usize = 0;
    while m < kids.len()
        invariant
            tree.wf(),
            tree.contains(x),
            *v == tree.value_of(x),
            kids@ == tree.children_of(x),
            out0 == *old(out),
            k == out0.nodes@.len(),
            parent < k,
            off == (if tree.value_of(x).ocr_text@.len() > 0 { 1usize } else { 0usize }),
            m <= kids@.len(),
            out.wf(),
            ids.page >= 1,
            out.nodes@.len() >= k + 1 + off,
            forall|i: int| 0 <= i < k && i != parent ==> #[trigger] out.nodes@[i] == out0.nodes@[i],
            out.is_element(parent as int),
            out.element(parent as int).name == out0.element(parent as int).name,
            out.element(parent as int).classes == out0.element(parent as int).classes,
            out.element(parent as int).attrs == out0.element(parent as int).attrs,
            out.element(parent as int).children@ == out0.element(parent as int).children@.push(k),
            out.is_element(k as int),
            out.element(k as int).name@ == v.html_element_type@,
            class_tokens(out.element(k as int)) == seq![class_name(class)],
            attr_views(out.element(k as int)) == exported_attrs(*v, id_text(counters_before(*out, *tree, o@, k as int), class)),
            out.element(k as int).children@.len() == off + m,
            off == 1 ==> {
                &&& out.element(k as int).children@[0] == k + 1
                &&& out.nodes@[k + 1] is Text
                &&& out.nodes@[k + 1]->Text_0@ == v.ocr_text@
            },
            forall|i: int|
                off <= i < off + m ==> child_written(
                    *out,
                    o@,
                    #[trigger] out.element(k as int).children@[i],
                    tree.children_of(x)[i - off],
                ),
            forall|i: usize| #[trigger] origin.contains_key(i) && (i as int) < k ==> o@.contains_key(i) && o@[i] == origin[i],
            o@.contains_key(k),
            o@[k] == x,
            all_mapped(*out, o@),
            parented(*out),
            forall|j: int|
                k < j < out.nodes@.len() && #[trigger] out.is_element(j) ==> exported_node(*out, *tree, o@, j),
            *ids == counters_before(*out, *tree, o@, out.nodes@.len() as int),
            class == v.ocr_element_type,
        decreases kids@.len() - m,
    {
        let c = kids[m];
        proof {
            tree.lemma_children_present(x);
            assert(tree.children_of(x).contains(c));
            tree.lemma_child_rank(x, c);
        }
        let n_len = out.nodes.len();
        let ghost before = *out;
        let ghost ob = o@;
        let o2 = add_ocr_tree(tree, c, ids, out, k, o);
        proof {
            let after = *out;
            let n = n_len;
            assert forall|i: int| 0 <= i < n && i != k implies #[trigger] after.nodes@[i] == before.nodes@[i] by {}
            // the earlier elements of this subtree stay as written
            assert forall|j: int| k < j < after.nodes@.len() && #[trigger] after.is_element(j) implies exported_node(
                after,
                *tree,
                o2@,
                j,
            ) by {
                if j < n {
                    assert(after.nodes@[j] == before.nodes@[j]);
                    assert(before.is_element(j));
                    lemma_exported_stable(before, after, *tree, ob, o2@, k as int, j);
                }
            }
            assert forall|i: int| 0 <= i < k as int implies (#[trigger] before.is_element(i) <==> after.is_element(i)) by {
                assert(after.nodes@[i] == before.nodes@[i]);
            }
            lemma_counters_prefix(before, after, *tree, ob, o2@, k as int);
            assert(after.element(k as int).children@ == before.element(k as int).children@.push(n));
            assert(before.element(k as int).children@.len() == off + m);
            assert(after.element(k as int).children@[off + m] == n);
            assert(o2@[n] == c);
            assert(child_written(after, o2@, n, tree.children_of(x)[m as int]));
            assert forall|i: int| off <= i < off + m + 1 implies child_written(
                after,
                o2@,
                #[trigger] after.element(k as int).children@[i],
                tree.children_of(x)[i - off],
            ) by {
                if i < off + m {
                    assert(after.element(k as int).children@[i] == before.element(k as int).children@[i]);
                    assert(child_written(before, ob, before.element(k as int).children@[i], tree.children_of(x)[i - off]));
                    let ci = before.element(k as int).children@[i] as int;
                    assert(k < ci < n);
                    assert(after.nodes@[ci] == before.nodes@[ci]);
                    assert(ob.contains_key(ci as usize));
                } else {
                    assert(i == off + m);
                }
            }
            if off == 1 {
                assert(after.nodes@[k + 1] == before.nodes@[k + 1]);
            }
            assert forall|i: int| 0 <= i < k && i != parent implies #[trigger] after.nodes@[i] == out0.nodes@[i] by {
                assert(after.nodes@[i] == before.nodes@[i]);
            }
            assert(after.nodes@[parent as int] == before.nodes@[parent as int]);
        }
        o = o2;
        m = m + 1;
    }
    proof {
        assert(exported_node(*out, *tree, o@, k as int));
    }
    o
}

/// `out` is `tree` written out: first a `body` element without classes,
/// whose children, in document order, were written for the roots in order;
/// then the other nodes, each element written for a node of `tree` as
/// `exported_node` says and a child of an element before it.
pub open spec fn body_written(tree: Tree<OCRElement>, out: Markup, o: Map<usize, u32>) -> bool {
    &&& out.wf()
    &&& out.is_element(0)
    &&& out.element(0).name@ == "body"@
    &&& out.element(0).classes@.len() == 0
    &&& all_mapped(out, o)
    &&& parented(out)
    &&& increasing(out.element(0).children@)
    &&& out.element(0).children@.len() == tree.root_ids().len()
    &&& forall|i: int|
        0 <= i < tree.root_ids().len() ==> child_written(out, o, #[trigger] out.element(0).children@[i], tree.root_ids()[i])
    &&& forall|k: int| 1 <= k < out.nodes@.len() && #[trigger] out.is_element(k) ==> exported_node(out, tree, o, k)
}

/// The markup of `tree`: a `body` element, the document's first node, with
/// the roots written under it in order, each with everything below it.
#[verifier::rlimit(80)]
pub fn add_as_body(tree: &Tree<OCRElement>) -> (r: Markup)
    requires
        tree.wf(),
    ensures
        exists|o: Map<usize, u32>| #[trigger] body_written(*tree, r, o),
{
    let mut out = Markup { nodes: Vec::new() };
    out.nodes.push(
        MarkupNode::Element(MarkupElement { name: text("body"), classes: Vec::new(), attrs: Vec::new(), children: Vec::new() }),
    );
    let mut ids = IdCounters::new();
    let roots = tree.roots();
    let mut o: Ghost<Map<usize, u32>> = Ghost(Map::empty());
    let mut m: usize = 0;
    while m < roots.len()
        invariant
            tree.wf(),
            roots@ == tree.root_ids(),
            m <= roots@.len(),
            out.wf(),
            out.nodes@.len() >= 1,
            out.is_element(0),
            out.element(0).name@ == "body"@,
            out.element(0).classes@.len() == 0,
            out.element(0).children@.len() == m,
            ids.page >= 1,
            ids == counters_before(out, *tree, o@, out.nodes@.len() as int),
            all_mapped(out, o@),
            parented(out),
            increasing(out.element(0).children@),
            forall|i: int| 0 <= i < out.element(0).children@.len() ==> #[trigger] out.element(0).children@[i] < out.nodes@.len(),
            forall|i: int| 0 <= i < m ==> child_written(out, o@, #[trigger] out.element(0).children@[i], tree.root_ids()[i]),
            forall|k: int| 1 <= k < out.nodes@.len() && #[trigger] out.is_element(k) ==> exported_node(out, *tree, o@, k),
        decreases roots@.len() - m,
    {
        let x = roots[m];
        proof {
            tree.lemma_roots_present();
        }
        let n_len = out.nodes.len();
        let ghost before = out;
        let ghost ob = o@;
        let o2 = add_ocr_tree(tree, x, &mut ids, &mut out, 0, o);
        proof {
            let after = out;
            let n = n_len;
            assert forall|k: int| 1 <= k < after.nodes@.len() && #[trigger] after.is_element(k) implies exported_node(
                after,
                *tree,
                o2@,
                k,
            ) by {
                if k < n {
                    assert(after.nodes@[k] == before.nodes@[k]);
                    assert(before.is_element(k));
                    lemma_exported_stable(before, after, *tree, ob, o2@, 0, k);
                }
            }
            assert(after.element(0).children@[m as int] == n);
            assert(child_written(after, o2@, n, tree.root_ids()[m as int]));
            assert forall|i: int| 0 <= i < m + 1 implies child_written(
                after,
                o2@,
                #[trigger] after.element(0).children@[i],
                tree.root_ids()[i],
            ) by {
                if i < m {
                    assert(after.element(0).children@[i] == before.element(0).children@[i]);
                    assert(child_written(before, ob, before.element(0).children@[i], tree.root_ids()[i]));
                    let ci = before.element(0).children@[i] as int;
                    assert(0 < ci < n);
                    assert(after.nodes@[ci] == before.nodes@[ci]);
                    assert(ob.contains_key(ci as usize));
                }
            }
        }
        o = o2;
        m = m + 1;
    }
    proof {
        assert(body_written(*tree, out, o@));
    }
    out
}

/// An element whose exported form reads back as itself: its properties round
/// trip and include a bounding box, and its text is empty or, for a word, not
/// all white space.
pub open spec fn element_round_trips(v: OCRElement) -> bool {
    let m = v.ocr_properties@;
    &&& unique_keys(m)
    &&& forall|i: int| 0 <= i < m.len() ==> entry_round_trips(#[trigger] m[i])
    &&& has_key(m, "bbox"@)
    &&& (v.ocr_text@.len() == 0 || (v.ocr_element_type == OCRClass::Word && trim(v.ocr_text@).len() > 0))
}

proof fn lemma_word_text_elements(doc: Markup, pre: Seq<usize>, kids: Seq<usize>)
    requires
        forall|i: int| 0 <= i < kids.len() ==> doc.is_element(#[trigger] kids[i] as int),
    ensures
        word_text(doc, pre + kids) == word_text(doc, pre),
    decreases kids.len(),
{
    if kids.len() == 0 {
        assert(pre + kids =~= pre);
    } else {
        let k2 = kids.drop_last();
        assert forall|i: int| 0 <= i < k2.len() implies doc.is_element(#[trigger] k2[i] as int) by {
            assert(k2[i] == kids[i]);
        }
        lemma_word_text_elements(doc, pre, k2);
        assert((pre + kids).drop_last() =~= pre + k2);
        assert(doc.is_element(kids.last() as int));
        assert(word_text(doc, pre + k2) + Seq::<char>::empty() =~= word_text(doc, pre + k2));
    }
}

/// An exported element whose node round-trips reads back as the node's
/// value.
#[verifier::rlimit(80)]
pub proof fn lemma_element_round_trip(out: Markup, tree: Tree<OCRElement>, origin: Map<usize, u32>, k: int)
    requires
        out.is_element(k),
        exported_node(out, tree, origin, k),
        element_round_trips(tree.value_of(origin[k as usize])),
    ensures
        element_model(out, k) == Ok::<ElementModel, ImportError>(tree.value_of(origin[k as usize])@),
{
    let x = origin[k as usize];
    let v = tree.value_of(x);
    let e = out.element(k);
    let c = v.ocr_element_type;
    reveal_strlit("ocr_page");
    reveal_strlit("ocr_carea");
    reveal_strlit("ocr_line");
    reveal_strlit("ocr_par");
    reveal_strlit("ocrx_word");
    reveal_strlit("ocr_photo");
    reveal_strlit("ocr_separator");
    reveal_strlit("ocr_caption");
    reveal_strlit("title");
    reveal_strlit("id");
    reveal_strlit("class");
    reveal_strlit("lang");
    assert(class_tokens(e)[0] == class_name(c));
    assert(starts_with_ocr(class_name(c)));
    assert(first_ocr_token(class_tokens(e)) == Some(class_name(c)));
    lemma_class_name_round_trip(c);
    let views = attr_views(e);
    assert(views == exported_attrs(v, id_text(counters_before(out, tree, origin, k), c)));
    assert(views.len() >= 3);
    assert(views.len() == e.attrs@.len());
    assert(views[0] == (e.attrs@[0].0@, e.attrs@[0].1@));
    assert(e.attrs@[0].0@ == "title"@);
    assert(attr(e, "title"@) == Some(title_text(v.ocr_properties@)));
    lemma_title_round_trip(v.ocr_properties@);
    let a = e.attrs@;
    assert(views[1] == (a[1].0@, a[1].1@));
    assert(views[2] == (a[2].0@, a[2].1@));
    assert(a[0].0@ == "title"@);
    assert(a[1].0@ == "id"@);
    assert(a[2].0@ == "class"@);
    assert("title"@.len() != "lang"@.len());
    assert("id"@.len() != "lang"@.len());
    assert("class"@.len() != "lang"@.len());
    let a1 = a.drop_first();
    let a2 = a1.drop_first();
    let a3 = a2.drop_first();
    assert(a3 =~= a.skip(3));
    assert(a1[0] == a[1]);
    assert(a2[0] == a[2]);
    assert(crate::markup::attr_in(a, "lang"@) == crate::markup::attr_in(a1, "lang"@));
    assert(crate::markup::attr_in(a1, "lang"@) == crate::markup::attr_in(a2, "lang"@));
    assert(crate::markup::attr_in(a2, "lang"@) == crate::markup::attr_in(a3, "lang"@));
    match v.ocr_lang {
        Some(l) => {
            assert(views[3] == (a[3].0@, a[3].1@));
            assert(a3[0] == a[3]);
            assert(a3[0].0@ == "lang"@);
        },
        None => {
            assert(a.len() == 3);
            assert(a3.len() == 0);
        },
    }
    assert(attr(e, "lang"@) == v@.lang);
    if c == OCRClass::Word {
        let off: int = if v.ocr_text@.len() > 0 { 1 } else { 0 };
        let ch = e.children@;
        let pre = ch.take(off);
        let kids = ch.skip(off);
        assert forall|i: int| 0 <= i < kids.len() implies out.is_element(#[trigger] kids[i] as int) by {
            assert(kids[i] == ch[off + i]);
            assert(child_written(out, origin, ch[off + i], tree.children_of(x)[off + i - off]));
        }
        lemma_word_text_elements(out, pre, kids);
        assert(pre + kids =~= ch);
        if off == 1 {
            assert(pre =~= seq![ch[0]]);
            assert(seq![ch[0]].drop_last() =~= Seq::<usize>::empty());
            assert(text_piece(out, ch[0] as int) == v.ocr_text@);
            assert(pre.last() == ch[0]);
            assert(word_text(out, pre) == word_text(out, pre.drop_last()) + text_piece(out, pre.last() as int));
            assert(word_text(out, Seq::<usize>::empty()) == Seq::<char>::empty());
            assert(word_text(out, pre) =~= v.ocr_text@);
        } else {
            assert(pre =~= Seq::<usize>::empty());
            assert(v.ocr_text@ =~= Seq::<char>::empty());
        }
    } else {
        assert(v.ocr_text@ =~= Seq::<char>::empty());
    }
}

} // verus!
