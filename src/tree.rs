//! An ordered multiway forest whose nodes are addressed by identities that are
//! handed out in increasing order and never reused.

use vstd::prelude::*;

verus! {

/// The identity of a node inside one [`Tree`].
pub type InternalID = u32;

/// One node of a [`Tree`]: its value, the identity of its parent (none for a
/// root) and the identities of its children in reading order.
pub struct Node<D> {
    pub value: D,
    pub parent: Option<u32>,
    pub children: Vec<u32>,
    pub id: u32,
}

/// Where a new or merged sibling stands relative to a node.
#[derive(Debug, Clone, Copy, PartialEq, Eq, Structural)]
pub enum Position {
    Before,
    After,
}

/// A forest of nodes. Slot `i` of `nodes` holds the node with identity `i`, or
/// nothing once that node has been deleted; the next identity handed out is the
/// number of slots. `depth` records each node's distance from its root, which
/// is what rules out cycles.
pub struct Tree<D> {
    nodes: Vec<Option<Node<D>>>,
    roots: Vec<u32>,
    depth: Ghost<Map<u32, nat>>,
}

impl<D> Tree<D> {
    /// The node with identity `id` is present.
    pub closed spec fn contains(&self, id: u32) -> bool {
        &&& (id as int) < self.nodes@.len()
        &&& self.nodes@[id as int] is Some
    }

    /// The node in slot `id`.
    pub closed spec fn node(&self, id: u32) -> Node<D> {
        self.nodes@[id as int]->Some_0
    }

    /// The value stored at `id`.
    pub open spec fn value_of(&self, id: u32) -> D {
        self.node(id).value
    }

    /// The parent of `id` (none for a root or an absent identity).
    pub open spec fn parent_of(&self, id: u32) -> Option<u32> {
        if self.contains(id) {
            self.node(id).parent
        } else {
            None
        }
    }

    /// The children of `id` in reading order (empty for an absent identity).
    pub open spec fn children_of(&self, id: u32) -> Seq<u32> {
        if self.contains(id) {
            self.node(id).children@
        } else {
            Seq::empty()
        }
    }

    /// The roots in reading order.
    pub closed spec fn root_ids(&self) -> Seq<u32> {
        self.roots@
    }

    /// The identity that the next insertion will hand out.
    pub closed spec fn next_id(&self) -> nat {
        self.nodes@.len()
    }

    /// The identities of all present nodes.
    pub open spec fn ids(&self) -> Set<u32> {
        Set::new(|i: u32| self.contains(i))
    }

    /// The list that `id` stands in: its parent's children, or the roots.
    pub open spec fn sibling_list(&self, id: u32) -> Seq<u32> {
        match self.parent_of(id) {
            Some(p) => self.children_of(p),
            None => self.root_ids(),
        }
    }

    closed spec fn node_wf(&self, i: u32) -> bool {
        let n = self.node(i);
        &&& n.id == i
        &&& self.depth@.contains_key(i)
        &&& self.depth@[i] < self.nodes@.len()
        &&& n.children@.no_duplicates()
        &&& forall|k: int|
            0 <= k < n.children@.len() ==> {
                &&& self.contains(#[trigger] n.children@[k])
                &&& self.parent_of(n.children@[k]) == Some(i)
            }
        &&& match n.parent {
            None => self.roots@.contains(i) && self.depth@[i] == 0,
            Some(p) => {
                &&& self.contains(p)
                &&& self.node(p).children@.contains(i)
                &&& self.depth@.contains_key(p)
                &&& self.depth@[i] == self.depth@[p] + 1
            },
        }
    }

    /// The structure's invariant: identities fit in `u32`, every node sits in
    /// exactly one list (the roots or its parent's children), parent and child
    /// links agree, and following parents from any node reaches a root.
    pub closed spec fn wf(&self) -> bool {
        &&& self.nodes@.len() <= u32::MAX
        &&& self.roots@.no_duplicates()
        &&& forall|k: int|
            0 <= k < self.roots@.len() ==> {
                &&& self.contains(#[trigger] self.roots@[k])
                &&& self.parent_of(self.roots@[k]) is None
            }
        &&& forall|i: u32| self.contains(i) ==> #[trigger] self.node_wf(i)
    }

    /// An empty forest.
    pub fn new() -> (t: Self)
        ensures
            t.wf(),
            t.ids() == Set::<u32>::empty(),
            t.root_ids() == Seq::<u32>::empty(),
            t.next_id() == 0,
    {
        let t = Tree { nodes: Vec::new(), roots: Vec::new(), depth: Ghost(Map::empty()) };
        assert(t.ids() =~= Set::<u32>::empty());
        t
    }

    /// Appends `root` as the last root.
    pub fn add_root(&mut self, root: D) -> (id: u32)
        requires
            old(self).wf(),
            old(self).next_id() < u32::MAX,
        ensures
            final(self).wf(),
            id == old(self).next_id(),
            final(self).next_id() == old(self).next_id() + 1,
            !old(self).contains(id),
            final(self).ids() == old(self).ids().insert(id),
            final(self).value_of(id) == root,
            final(self).parent_of(id) is None,
            final(self).children_of(id) == Seq::<u32>::empty(),
            final(self).root_ids() == old(self).root_ids().push(id),
            forall|x: u32| #[trigger] old(self).contains(x) ==> final(self).same_node(*old(self), x),
    {
        let id = self.nodes.len() as u32;
        self.nodes.push(Some(Node { value: root, parent: None, children: Vec::new(), id }));
        self.roots.push(id);
        self.depth = Ghost(self.depth@.insert(id, 0));
        proof {
            let o = *old(self);
            assert forall|x: u32| #[trigger] self.contains(x) implies self.node_wf(x) by {
                if x != id {
                    assert(self.nodes@[x as int] == o.nodes@[x as int]);
                    assert(o.contains(x));
                    assert(o.node_wf(x));
                    let n = o.node(x);
                    assert forall|k: int| 0 <= k < n.children@.len() implies
                        self.contains(#[trigger] n.children@[k]) && self.parent_of(n.children@[k]) == Some(x) by {
                        assert(o.contains(n.children@[k]));
                    }
                    if n.parent is None {
                        assert(self.roots@[o.roots@.index_of(x)] == x);
                    }
                } else {
                    assert(self.roots@[self.roots@.len() - 1] == id);
                }
            }
            assert forall|k: int| 0 <= k < self.roots@.len() implies
                self.contains(#[trigger] self.roots@[k]) && self.parent_of(self.roots@[k]) is None by {
                if k < o.roots@.len() {
                    assert(o.roots@[k] == self.roots@[k]);
                }
            }
            assert forall|k: int| 0 <= k < o.roots@.len() implies o.roots@[k] != id by {
                assert(o.contains(o.roots@[k]));
            }
            assert(self.ids() =~= o.ids().insert(id));
        }
        id
    }

    /// `x` has the same value, parent and children in `self` as in `other`.
    pub open spec fn same_node(&self, other: Self, x: u32) -> bool {
        &&& self.contains(x)
        &&& self.value_of(x) == other.value_of(x)
        &&& self.parent_of(x) == other.parent_of(x)
        &&& self.children_of(x) == other.children_of(x)
    }

    /// Appends `child` as the last child of `id`.
    pub fn push_child(&mut self, id: &u32, child: D) -> (r: Result<u32, TreeError>)
        requires
            old(self).wf(),
            old(self).next_id() < u32::MAX,
        ensures
            final(self).wf(),
            match r {
                Ok(n) => {
                    &&& old(self).contains(*id)
                    &&& n == old(self).next_id()
                    &&& final(self).next_id() == old(self).next_id() + 1
                    &&& !old(self).contains(n)
                    &&& final(self).ids() == old(self).ids().insert(n)
                    &&& final(self).value_of(n) == child
                    &&& final(self).parent_of(n) == Some(*id)
                    &&& final(self).children_of(n) == Seq::<u32>::empty()
                    &&& final(self).children_of(*id) == old(self).children_of(*id).push(n)
                    &&& final(self).root_ids() == old(self).root_ids()
                    &&& forall|x: u32|
                        #[trigger] old(self).contains(x) && x != *id ==> final(self).same_node(*old(self), x)
                    &&& final(self).value_of(*id) == old(self).value_of(*id)
                    &&& final(self).parent_of(*id) == old(self).parent_of(*id)
                },
                Err(e) => !old(self).contains(*id) && e == TreeError::NotFound(*id) && *final(self) == *old(self),
            },
    {
        let p = *id;
        let i = p as usize;
        if i >= self.nodes.len() || self.nodes[i].is_none() {
            return Err(TreeError::NotFound(p));
        }
        let n = self.nodes.len() as u32;
        proof {
            let o = *old(self);
            assert(o.node_wf(p));
            assert forall|k: int| 0 <= k < o.node(p).children@.len() implies o.node(p).children@[k] != n by {
                assert(o.contains(o.node(p).children@[k]));
            }
        }
        match &mut self.nodes[i] {
            Some(pn) => {
                pn.children.push(n);
            },
            None => {},
        }
        self.nodes.push(Some(Node { value: child, parent: Some(p), children: Vec::new(), id: n }));
        self.depth = Ghost(self.depth@.insert(n, self.depth@[p] + 1));
        proof {
            let o = *old(self);
            assert(self.nodes@[p as int] is Some);
            assert(o.node(p).children@.push(n) =~= o.node(p).children@.insert(o.node(p).children@.len() as int, n));
            Self::lemma_child_inserted(o, *self, p, o.node(p).children@.len() as int, n);
        }
        Ok(n)
    }

    /// `self` is `old` with a node `n` holding `value` inserted next to
    /// `anchor`: in its parent's children, before or after it as `pos` says,
    /// or, where `anchor` is a root, as the last root whatever `pos` says.
    pub open spec fn sibling_inserted(&self, old: Self, anchor: u32, value: D, pos: Position, n: u32) -> bool {
        &&& old.contains(anchor)
        &&& n == old.next_id()
        &&& self.next_id() == old.next_id() + 1
        &&& !old.contains(n)
        &&& self.ids() == old.ids().insert(n)
        &&& self.value_of(n) == value
        &&& self.children_of(n) == Seq::<u32>::empty()
        &&& self.parent_of(n) == old.parent_of(anchor)
        &&& match old.parent_of(anchor) {
            None => {
                &&& self.root_ids() == old.root_ids().push(n)
                &&& forall|x: u32| #[trigger] old.contains(x) ==> self.same_node(old, x)
            },
            Some(p) => {
                let sibs = old.children_of(p);
                &&& self.children_of(p) == sibs.insert(sibs.index_of(anchor) + offset(pos), n)
                &&& self.root_ids() == old.root_ids()
                &&& forall|x: u32| #[trigger] old.contains(x) && x != p ==> self.same_node(old, x)
                &&& self.value_of(p) == old.value_of(p)
                &&& self.parent_of(p) == old.parent_of(p)
            },
        }
    }

    proof fn lemma_in_sibling_list(&self, id: u32)
        requires
            self.wf(),
            self.contains(id),
        ensures
            self.sibling_list(id).contains(id),
            self.sibling_list(id).no_duplicates(),
            self.sibling_list(id)[self.sibling_list(id).index_of(id)] == id,
            0 <= self.sibling_list(id).index_of(id) < self.sibling_list(id).len(),
    {
        assert(self.node_wf(id));
        match self.parent_of(id) {
            Some(p) => {
                assert(self.node_wf(p));
            },
            None => {},
        }
        let s = self.sibling_list(id);
        let j = choose|j: int| 0 <= j < s.len() && s[j] == id;
        assert(s[s.index_of(id)] == id);
    }

    /// Inserting a fresh node `n` at position `at` of `p`'s children keeps the
    /// invariant.
    #[verifier::rlimit(80)]
    proof fn lemma_child_inserted(o: Self, t: Self, p: u32, at: int, n: u32)
        requires
            o.wf(),
            o.contains(p),
            0 <= at <= o.node(p).children@.len(),
            n as int == o.nodes@.len(),
            o.nodes@.len() < u32::MAX,
            t.nodes@.len() == o.nodes@.len() + 1,
            t.roots@ == o.roots@,
            t.depth@ == o.depth@.insert(n, o.depth@[p] + 1),
            forall|x: int| 0 <= x < o.nodes@.len() && x != p ==> t.nodes@[x] == o.nodes@[x],
            t.nodes@[p as int] is Some,
            t.node(p).value == o.node(p).value,
            t.node(p).parent == o.node(p).parent,
            t.node(p).id == o.node(p).id,
            t.node(p).children@ == o.node(p).children@.insert(at, n),
            t.nodes@[n as int] is Some,
            t.node(n).id == n,
            t.node(n).parent == Some(p),
            t.node(n).children@.len() == 0,
        ensures
            t.wf(),
            t.ids() == o.ids().insert(n),
            !o.contains(n),
            forall|x: u32| #[trigger] o.contains(x) && x != p ==> t.same_node(o, x),
    {
        let oc = o.node(p).children@;
        assert(o.node_wf(p));
        assert forall|k: int| 0 <= k < oc.len() implies oc[k] != n by {
            assert(o.contains(oc[k]));
        }
        assert(!oc.contains(n));
        let c2 = t.node(p).children@;
        lemma_insert_fresh(oc, at, n);
        assert(c2[at] == n);
        assert forall|x: u32| #[trigger] t.contains(x) implies t.node_wf(x) by {
            if x != n {
                assert(o.contains(x));
                assert(o.node_wf(x));
                let c = t.node(x).children@;
                assert forall|k: int| 0 <= k < c.len() implies
                    t.contains(#[trigger] c[k]) && t.parent_of(c[k]) == Some(x) by {
                    if x == p {
                        if c[k] != n {
                            let j = if k < at { k } else { k - 1 };
                            assert(c[k] == oc[j]);
                            assert(o.contains(oc[j]));
                        }
                    } else {
                        assert(o.node(x).children@[k] == c[k]);
                        assert(o.contains(c[k]));
                    }
                }
                match o.node(x).parent {
                    Some(q) => {
                        assert(o.node_wf(q));
                        if q == p {
                            let j = oc.index_of(x);
                            assert(oc[j] == x);
                            if j < at {
                                assert(c2[j] == x);
                            } else {
                                assert(c2[j + 1] == x);
                            }
                        }
                    },
                    None => {},
                }
            } else {
                assert(o.node_wf(p));
            }
        }
        assert forall|k: int| 0 <= k < t.roots@.len() implies
            t.contains(#[trigger] t.roots@[k]) && t.parent_of(t.roots@[k]) is None by {
            assert(o.contains(o.roots@[k]));
        }
        assert(t.ids() =~= o.ids().insert(n));
        assert forall|x: u32| #[trigger] o.contains(x) && x != p implies t.same_node(o, x) by {
            assert(t.nodes@[x as int] == o.nodes@[x as int]);
        }
    }

    /// Inserts `sibling` next to `id`: before or after it among its parent's
    /// children, or as the last root where `id` is a root (then `pos` plays no
    /// part).
    #[verifier::rlimit(80)]
    pub fn add_sibling(&mut self, id: &u32, sibling: D, pos: &Position) -> (r: Result<u32, TreeError>)
        requires
            old(self).wf(),
            old(self).next_id() < u32::MAX,
        ensures
            final(self).wf(),
            match r {
                Ok(n) => final(self).sibling_inserted(*old(self), *id, sibling, *pos, n),
                Err(e) => !old(self).contains(*id) && e == TreeError::NotFound(*id) && *final(self) == *old(self),
            },
    {
        let a = *id;
        let i = a as usize;
        if i >= self.nodes.len() || self.nodes[i].is_none() {
            return Err(TreeError::NotFound(a));
        }
        let par = match &self.nodes[i] {
            Some(node) => node.parent,
            None => None,
        };
        match par {
            None => {
                let n = self.add_root(sibling);
                Ok(n)
            },
            Some(p) => {
                let n = self.nodes.len() as u32;
                proof {
                    let o = *old(self);
                    assert(o.contains(a));
                    assert(o.node_wf(a));
                    assert(o.node_wf(p));
                    o.lemma_in_sibling_list(a);
                    assert forall|k: int| 0 <= k < o.node(p).children@.len() implies o.node(p).children@[k] != n by {
                        assert(o.contains(o.node(p).children@[k]));
                    }
                }
                let pi = p as usize;
                match &mut self.nodes[pi] {
                    Some(pn) => {
                        let len = pn.children.len();
                        match position_of(&pn.children, a) {
                            Some(k) => {
                                let at = match pos {
                                    Position::Before => k,
                                    Position::After => k + 1,
                                };
                                pn.children.insert(at, n);
                            },
                            None => {},
                        }
                    },
                    None => {},
                }
                self.nodes.push(Some(Node { value: sibling, parent: Some(p), children: Vec::new(), id: n }));
                self.depth = Ghost(self.depth@.insert(n, self.depth@[p] + 1));
                proof {
                    let o = *old(self);
                    let oc = o.node(p).children@;
                    assert(self.nodes@[p as int] is Some);
                    Self::lemma_child_inserted(o, *self, p, oc.index_of(a) + offset(*pos), n);
                }
                Ok(n)
            },
        }
    }

    /// The sibling right after `id` in the list it stands in.
    pub open spec fn next_sibling_of(&self, id: u32) -> Option<u32> {
        let s = self.sibling_list(id);
        let k = s.index_of(id);
        if self.contains(id) && k + 1 < s.len() {
            Some(s[k + 1])
        } else {
            None
        }
    }

    /// The sibling right before `id` in the list it stands in.
    pub open spec fn prev_sibling_of(&self, id: u32) -> Option<u32> {
        let s = self.sibling_list(id);
        let k = s.index_of(id);
        if self.contains(id) && k > 0 {
            Some(s[k - 1])
        } else {
            None
        }
    }

    /// All siblings after `id`, in order.
    pub open spec fn next_siblings_of(&self, id: u32) -> Seq<u32> {
        let s = self.sibling_list(id);
        if self.contains(id) {
            s.subrange(s.index_of(id) + 1, s.len() as int)
        } else {
            Seq::empty()
        }
    }

    /// All siblings before `id`, in order.
    pub open spec fn prev_siblings_of(&self, id: u32) -> Seq<u32> {
        let s = self.sibling_list(id);
        if self.contains(id) {
            s.subrange(0, s.index_of(id))
        } else {
            Seq::empty()
        }
    }

    fn node_ref(&self, id: u32) -> (r: Option<&Node<D>>)
        ensures
            match r {
                Some(n) => self.contains(id) && *n == self.node(id),
                None => !self.contains(id),
            },
    {
        let i = id as usize;
        if i < self.nodes.len() {
            match &self.nodes[i] {
                Some(n) => Some(n),
                None => None,
            }
        } else {
            None
        }
    }

    /// The children of `id` in order; empty where `id` is absent.
    pub fn children(&self, id: &u32) -> (r: Vec<u32>)
        ensures
            r@ == self.children_of(*id),
    {
        match self.node_ref(*id) {
            Some(n) => copy_ids(&n.children),
            None => Vec::new(),
        }
    }

    /// The parent of `id`; `None` for a root or an absent identity.
    pub fn parent(&self, id: &u32) -> (r: Option<u32>)
        ensures
            r == self.parent_of(*id),
    {
        match self.node_ref(*id) {
            Some(n) => n.parent,
            None => None,
        }
    }

    /// The list that `id` stands in, or `None` where `id` is absent.
    fn siblings(&self, id: &u32) -> (r: Option<&Vec<u32>>)
        requires
            self.wf(),
        ensures
            match r {
                Some(v) => self.contains(*id) && v@ == self.sibling_list(*id),
                None => !self.contains(*id),
            },
    {
        match self.node_ref(*id) {
            Some(n) => match n.parent {
                Some(p) => {
                    proof {
                        assert(self.node_wf(*id));
                    }
                    match self.node_ref(p) {
                        Some(pn) => Some(&pn.children),
                        None => None,
                    }
                },
                None => Some(&self.roots),
            },
            None => None,
        }
    }

    /// The position of `id` in its own list, with that list.
    fn locate(&self, id: &u32) -> (r: Option<(&Vec<u32>, usize)>)
        requires
            self.wf(),
        ensures
            match r {
                Some((v, k)) => {
                    &&& self.contains(*id)
                    &&& v@ == self.sibling_list(*id)
                    &&& k == self.sibling_list(*id).index_of(*id)
                    &&& k < v@.len()
                },
                None => !self.contains(*id),
            },
    {
        match self.siblings(id) {
            Some(v) => {
                proof {
                    self.lemma_in_sibling_list(*id);
                }
                match position_of(v, *id) {
                    Some(k) => Some((v, k)),
                    None => None,
                }
            },
            None => None,
        }
    }

    /// The siblings before `id`, in order; empty where `id` is absent.
    pub fn prev_siblings(&self, id: &u32) -> (r: Vec<u32>)
        requires
            self.wf(),
        ensures
            r@ == self.prev_siblings_of(*id),
    {
        match self.locate(id) {
            Some((v, k)) => copy_range(v, 0, k),
            None => Vec::new(),
        }
    }

    /// The siblings after `id`, in order; empty where `id` is absent.
    pub fn next_siblings(&self, id: &u32) -> (r: Vec<u32>)
        requires
            self.wf(),
        ensures
            r@ == self.next_siblings_of(*id),
    {
        match self.locate(id) {
            Some((v, k)) => {
                let len = v.len();
                copy_range(v, k + 1, len)
            },
            None => Vec::new(),
        }
    }

    /// The sibling right after `id`, if any.
    pub fn next_sibling(&self, id: &u32) -> (r: Option<u32>)
        requires
            self.wf(),
        ensures
            r == self.next_sibling_of(*id),
    {
        match self.locate(id) {
            Some((v, k)) => {
                let len = v.len();
                if k + 1 < len {
                    Some(v[k + 1])
                } else {
                    None
                }
            },
            None => None,
        }
    }

    /// The sibling right before `id`, if any.
    pub fn prev_sibling(&self, id: &u32) -> (r: Option<u32>)
        requires
            self.wf(),
        ensures
            r == self.prev_sibling_of(*id),
    {
        match self.locate(id) {
            Some((v, k)) => if k > 0 {
                Some(v[k - 1])
            } else {
                None
            },
            None => None,
        }
    }

    /// Whether `id` is present and has at least one child.
    pub fn has_children(&self, id: &u32) -> (r: bool)
        ensures
            r == (self.children_of(*id).len() > 0),
    {
        match self.node_ref(*id) {
            Some(n) => n.children.len() > 0,
            None => false,
        }
    }

    /// The roots in order.
    pub fn roots(&self) -> (r: Vec<u32>)
        ensures
            r@ == self.root_ids(),
    {
        copy_ids(&self.roots)
    }

    /// `self` is `old` with the value at `id` replaced by `v`.
    pub open spec fn value_replaced(&self, old: Self, id: u32, v: D) -> bool {
        &&& self.ids() == old.ids()
        &&& self.next_id() == old.next_id()
        &&& self.root_ids() == old.root_ids()
        &&& self.value_of(id) == v
        &&& self.parent_of(id) == old.parent_of(id)
        &&& self.children_of(id) == old.children_of(id)
        &&& forall|x: u32| #[trigger] old.contains(x) && x != id ==> self.same_node(old, x)
    }

    /// `self` is `old` with the value at `id` overwritten by `v` and nothing
    /// else touched.
    pub closed spec fn written(&self, old: Self, id: u32, v: D) -> bool {
        &&& self.nodes@ == old.nodes@.update(
            id as int,
            Some(
                Node {
                    value: v,
                    parent: old.node(id).parent,
                    children: old.node(id).children,
                    id: old.node(id).id,
                },
            ),
        )
        &&& self.roots == old.roots
        &&& self.depth == old.depth
    }

    /// Write access to the value at `id`, or `None` where `id` is absent.
    pub fn get_mut_node(&mut self, id: &u32) -> (r: Option<&mut D>)
        requires
            old(self).wf(),
        ensures
            match r {
                Some(v) => {
                    &&& old(self).contains(*id)
                    &&& *v == old(self).value_of(*id)
                    &&& final(self).written(*old(self), *id, *final(v))
                },
                None => !old(self).contains(*id) && *final(self) == *old(self),
            },
    {
        let i = *id as usize;
        if i < self.nodes.len() && self.nodes[i].is_some() {
            match self.nodes[i].as_mut() {
                Some(n) => Some(value_mut(n)),
                None => None,
            }
        } else {
            None
        }
    }

    /// Writing a value in place keeps the invariant and every link.
    pub proof fn lemma_value_written(old: Self, new: Self, id: u32, v: D)
        requires
            old.wf(),
            old.contains(id),
            new.written(old, id, v),
        ensures
            new.wf(),
            new.value_replaced(old, id, v),
    {
        assert forall|x: u32| new.contains(x) implies #[trigger] new.node_wf(x) by {
            assert(old.node_wf(x));
            let c = new.node(x).children@;
            assert forall|k: int| 0 <= k < c.len() implies
                new.contains(#[trigger] c[k]) && new.parent_of(c[k]) == Some(x) by {
                assert(old.contains(c[k]));
            }
            match old.node(x).parent {
                Some(q) => {
                    assert(old.node_wf(q));
                },
                None => {},
            }
        }
        assert forall|k: int| 0 <= k < new.roots@.len() implies
            new.contains(#[trigger] new.roots@[k]) && new.parent_of(new.roots@[k]) is None by {
            assert(old.contains(old.roots@[k]));
        }
        assert(new.ids() =~= old.ids());
    }

    /// The node reached from `x` by following `k` parent links, if there is one.
    pub open spec fn ancestor(&self, x: u32, k: nat) -> Option<u32>
        decreases k,
    {
        if k == 0 {
            if self.contains(x) {
                Some(x)
            } else {
                None
            }
        } else {
            match self.parent_of(x) {
                Some(p) => self.ancestor(p, (k - 1) as nat),
                None => None,
            }
        }
    }

    /// `x` is `a` or lies below it.
    pub open spec fn in_subtree(&self, a: u32, x: u32) -> bool {
        exists|k: nat| #[trigger] self.ancestor(x, k) == Some(a)
    }

    /// `a` and every node below it.
    pub open spec fn subtree(&self, a: u32) -> Set<u32> {
        Set::new(|x: u32| self.in_subtree(a, x))
    }

    /// Every node below `a`.
    pub open spec fn descendants(&self, a: u32) -> Set<u32> {
        self.subtree(a).remove(a)
    }

    proof fn lemma_ancestor_depth(&self, x: u32, k: nat, a: u32)
        requires
            self.wf(),
            self.ancestor(x, k) == Some(a),
        ensures
            self.contains(x),
            self.contains(a),
            self.depth@[x] == self.depth@[a] + k,
        decreases k,
    {
        if k > 0 {
            let p = self.parent_of(x)->Some_0;
            assert(self.contains(x));
            assert(self.node_wf(x));
            self.lemma_ancestor_depth(p, (k - 1) as nat, a);
        }
    }

    /// One more parent link from the `k`-th ancestor.
    proof fn lemma_ancestor_next(&self, x: u32, k: nat, y: u32)
        requires
            self.wf(),
            self.ancestor(x, k) == Some(y),
        ensures
            self.ancestor(x, k + 1) == self.parent_of(y),
        decreases k,
    {
        if k == 0 {
            assert(self.node_wf(x));
            match self.parent_of(x) {
                Some(p) => {
                    assert(self.contains(p));
                    assert(self.ancestor(p, 0) == Some(p));
                },
                None => {},
            }
        } else {
            let p = self.parent_of(x)->Some_0;
            self.lemma_ancestor_next(p, (k - 1) as nat, y);
            assert(self.ancestor(x, k + 1) == self.ancestor(p, k));
        }
    }

    /// The ancestors of a node are unique at each distance.
    proof fn lemma_subtree_same_depth(&self, c1: u32, c2: u32, x: u32)
        requires
            self.wf(),
            self.in_subtree(c1, x),
            self.in_subtree(c2, x),
            self.depth@[c1] == self.depth@[c2],
        ensures
            c1 == c2,
    {
        let k1 = choose|k: nat| #[trigger] self.ancestor(x, k) == Some(c1);
        let k2 = choose|k: nat| #[trigger] self.ancestor(x, k) == Some(c2);
        self.lemma_ancestor_depth(x, k1, c1);
        self.lemma_ancestor_depth(x, k2, c2);
    }

    /// A node below `a` other than `a` lies below one of `a`'s children.
    proof fn lemma_subtree_through_child(&self, a: u32, x: u32) -> (c: u32)
        requires
            self.wf(),
            self.in_subtree(a, x),
            x != a,
        ensures
            self.children_of(a).contains(c),
            self.in_subtree(c, x),
    {
        let k = choose|k: nat| #[trigger] self.ancestor(x, k) == Some(a);
        self.lemma_ancestor_depth(x, k, a);
        assert(k > 0);
        let j = (k - 1) as nat;
        self.lemma_ancestor_prefix(x, j);
        let y = self.ancestor_at(x, j);
        self.lemma_ancestor_next(x, j, y);
        assert(self.contains(y)) by {
            self.lemma_ancestor_depth(x, j, y);
        }
        assert(self.node_wf(y));
        assert(self.ancestor(x, j) == Some(y));
        y
    }

    proof fn lemma_ancestor_prefix(&self, x: u32, k: nat)
        requires
            self.ancestor(x, k + 1) is Some,
        ensures
            self.ancestor(x, k) is Some,
        decreases k,
    {
        if k > 0 {
            let p = self.parent_of(x)->Some_0;
            assert(self.ancestor(x, k + 1) == self.ancestor(p, k));
            self.lemma_ancestor_prefix(p, (k - 1) as nat);
        }
    }

    spec fn ancestor_at(&self, x: u32, k: nat) -> u32 {
        self.ancestor(x, k)->Some_0
    }

    /// Below a child is below its parent.
    proof fn lemma_subtree_parent(&self, a: u32, c: u32, x: u32)
        requires
            self.wf(),
            self.in_subtree(c, x),
            self.parent_of(c) == Some(a),
        ensures
            self.in_subtree(a, x),
    {
        let k = choose|k: nat| #[trigger] self.ancestor(x, k) == Some(c);
        self.lemma_ancestor_next(x, k, c);
        assert(self.ancestor(x, k + 1) == Some(a));
    }

    proof fn lemma_subtree_self(&self, a: u32)
        requires
            self.contains(a),
        ensures
            self.in_subtree(a, a),
    {
        assert(self.ancestor(a, 0) == Some(a));
    }

    /// Whatever lies below `a` is at least as deep as `a`.
    proof fn lemma_subtree_deeper(&self, a: u32, x: u32)
        requires
            self.wf(),
            self.in_subtree(a, x),
        ensures
            self.contains(a),
            self.contains(x),
            self.depth@[x] >= self.depth@[a],
            self.depth@[x] == self.depth@[a] ==> x == a,
    {
        let k = choose|k: nat| #[trigger] self.ancestor(x, k) == Some(a);
        self.lemma_ancestor_depth(x, k, a);
        if k == 0 {
        }
    }

    /// Some child among the first `j` of `cs` has `x` in its subtree.
    spec fn covered(&self, cs: Seq<u32>, j: int, x: u32) -> bool {
        exists|k: int| 0 <= k < j && #[trigger] self.in_subtree(cs[k], x)
    }

    /// Empties the slots of `id` and of every node below it in `t`, the
    /// well-formed forest that `self` still agrees with on that subtree. Links
    /// elsewhere are left as they are.
    #[verifier::rlimit(80)]
    fn remove_subtree(&mut self, id: u32, Ghost(t): Ghost<Self>)
        requires
            t.wf(),
            t.contains(id),
            old(self).nodes@.len() == t.nodes@.len(),
            forall|x: u32| #[trigger] t.in_subtree(id, x) ==> old(self).nodes@[x as int] == t.nodes@[x as int],
        ensures
            final(self).nodes@.len() == old(self).nodes@.len(),
            forall|i: int|
                0 <= i < old(self).nodes@.len() ==> #[trigger] final(self).nodes@[i] == if t.in_subtree(
                    id,
                    i as u32,
                ) {
                    None
                } else {
                    old(self).nodes@[i]
                },
            final(self).roots == old(self).roots,
            final(self).depth == old(self).depth,
        decreases t.nodes@.len() - t.depth@[id],
    {
        proof {
            t.lemma_subtree_self(id);
            assert(t.node_wf(id));
        }
        let taken = self.nodes[id as usize].take();
        match taken {
            Some(n) => {
                let ghost cs = n.children@;
                assert(cs == t.children_of(id));
                let mut j: usize = 0;
                while j < n.children.len()
                    invariant
                        t.wf(),
                        t.contains(id),
                        t.node_wf(id),
                        cs == n.children@,
                        cs == t.children_of(id),
                        0 <= j <= cs.len(),
                        self.nodes@.len() == old(self).nodes@.len(),
                        self.roots == old(self).roots,
                        self.depth == old(self).depth,
                        old(self).nodes@.len() == t.nodes@.len(),
                        forall|x: u32| #[trigger] t.in_subtree(id, x) ==> old(self).nodes@[x as int] == t.nodes@[x as int],
                        forall|i: int|
                            0 <= i < old(self).nodes@.len() ==> #[trigger] self.nodes@[i] == if i == id
                                || t.covered(cs, j as int, i as u32) {
                                None
                            } else {
                                old(self).nodes@[i]
                            },
                    decreases cs.len() - j,
                {
                    let c = n.children[j];
                    proof {
                        assert(t.contains(c) && t.parent_of(c) == Some(id));
                        assert(t.node_wf(c));
                        assert forall|x: u32| #[trigger] t.in_subtree(c, x) implies self.nodes@[x as int]
                            == t.nodes@[x as int] by {
                            t.lemma_subtree_parent(id, c, x);
                            t.lemma_subtree_deeper(c, x);
                            if t.covered(cs, j as int, x) {
                                let k = choose|k: int| 0 <= k < j && #[trigger] t.in_subtree(cs[k], x);
                                assert(t.contains(cs[k]) && t.parent_of(cs[k]) == Some(id));
                                assert(t.node_wf(cs[k]));
                                t.lemma_subtree_same_depth(cs[k], c, x);
                            }
                        }
                    }
                    let ghost before = self.nodes@;
                    self.remove_subtree(c, Ghost(t));
                    proof {
                        assert forall|i: int| 0 <= i < old(self).nodes@.len() implies #[trigger] self.nodes@[i]
                            == if i == id || t.covered(cs, j + 1, i as u32) {
                            None
                        } else {
                            old(self).nodes@[i]
                        } by {
                            if t.in_subtree(c, i as u32) {
                                assert(cs[j as int] == c);
                            } else if t.covered(cs, j + 1, i as u32) {
                                let k = choose|k: int| 0 <= k < j + 1 && #[trigger] t.in_subtree(cs[k], i as u32);
                                assert(k != j);
                            }
                        }
                    }
                    j = j + 1;
                }
                proof {
                    assert forall|i: int| 0 <= i < old(self).nodes@.len() implies #[trigger] self.nodes@[i]
                        == if t.in_subtree(id, i as u32) {
                        None
                    } else {
                        old(self).nodes@[i]
                    } by {
                        let x = i as u32;
                        if t.in_subtree(id, x) && x != id {
                            let c = t.lemma_subtree_through_child(id, x);
                            let k = cs.index_of(c);
                            assert(cs[k] == c);
                            assert(t.covered(cs, cs.len() as int, x));
                        }
                        if t.covered(cs, cs.len() as int, x) {
                            let k = choose|k: int| 0 <= k < cs.len() && #[trigger] t.in_subtree(cs[k], x);
                            assert(t.contains(cs[k]) && t.parent_of(cs[k]) == Some(id));
                            t.lemma_subtree_parent(id, cs[k], x);
                        }
                    }
                }
            },
            None => {},
        }
    }

    /// `self` is `old` without the subtree of `id`, which `old` held:
    /// `id` is taken out of the list it stood in, the order of the rest of that
    /// list is kept, and every remaining node keeps its value and links.
    pub open spec fn subtree_deleted(&self, old: Self, id: u32) -> bool {
        let s = old.sibling_list(id);
        &&& old.contains(id)
        &&& self.ids() == old.ids().difference(old.subtree(id))
        &&& self.next_id() == old.next_id()
        &&& forall|x: u32|
            #[trigger] self.contains(x) ==> {
                &&& self.value_of(x) == old.value_of(x)
                &&& self.parent_of(x) == old.parent_of(x)
            }
        &&& match old.parent_of(id) {
            Some(p) => {
                &&& self.children_of(p) == s.remove(s.index_of(id))
                &&& self.root_ids() == old.root_ids()
                &&& forall|x: u32| #[trigger] self.contains(x) && x != p ==> self.children_of(x) == old.children_of(x)
            },
            None => {
                &&& self.root_ids() == s.remove(s.index_of(id))
                &&& forall|x: u32| #[trigger] self.contains(x) ==> self.children_of(x) == old.children_of(x)
            },
        }
    }

    /// Removes `id` and everything below it, and takes `id` out of its
    /// parent's children or out of the roots. Nothing happens where `id` is
    /// absent.
    #[verifier::rlimit(80)]
    pub fn delete_node(&mut self, id: &u32)
        requires
            old(self).wf(),
        ensures
            final(self).wf(),
            old(self).contains(*id) ==> final(self).subtree_deleted(*old(self), *id),
            !old(self).contains(*id) ==> *final(self) == *old(self),
    {
        let a = *id;
        let par = match self.node_ref(a) {
            Some(n) => n.parent,
            None => {
                return;
            },
        };
        proof {
            self.lemma_in_sibling_list(a);
        }
        let ghost o = *self;
        self.remove_subtree(a, Ghost(o));
        let ghost mid = *self;
        match par {
            None => {
                match position_of(&self.roots, a) {
                    Some(k) => {
                        self.roots.remove(k);
                    },
                    None => {},
                }
            },
            Some(p) => {
                proof {
                    assert(o.node_wf(a));
                    assert(!o.in_subtree(a, p)) by {
                        if o.in_subtree(a, p) {
                            o.lemma_subtree_deeper(a, p);
                        }
                    }
                    assert(mid.nodes@[p as int] == o.nodes@[p as int]);
                }
                match self.nodes[p as usize].as_mut() {
                    Some(pn) => {
                        match position_of(&pn.children, a) {
                            Some(k) => {
                                pn.children.remove(k);
                            },
                            None => {},
                        }
                    },
                    None => {},
                }
            },
        }
        proof {
            Self::lemma_detached(o, mid, *self, a);
        }
    }

    /// A child other than `a` of a node outside the subtree of `a` is outside
    /// it too.
    proof fn lemma_child_outside(o: Self, a: u32, x: u32, c: u32)
        requires
            o.wf(),
            o.contains(c),
            !o.in_subtree(a, x),
            o.parent_of(c) == Some(x),
            c != a,
        ensures
            !o.in_subtree(a, c),
    {
        if o.in_subtree(a, c) {
            let kk = choose|kk: nat| #[trigger] o.ancestor(c, kk) == Some(a);
            o.lemma_ancestor_depth(c, kk, a);
            assert(kk > 0);
            assert(o.ancestor(c, kk) == o.ancestor(x, (kk - 1) as nat));
        }
    }

    /// After the subtree of `a` is emptied and `a` leaves its list, the
    /// forest is well formed again.
    #[verifier::rlimit(80)]
    proof fn lemma_detached(o: Self, mid: Self, t: Self, a: u32)
        requires
            o.wf(),
            o.contains(a),
            mid.nodes@.len() == o.nodes@.len(),
            forall|i: int|
                0 <= i < o.nodes@.len() ==> #[trigger] mid.nodes@[i] == if o.in_subtree(a, i as u32) {
                    None
                } else {
                    o.nodes@[i]
                },
            mid.roots == o.roots,
            mid.depth == o.depth,
            t.depth == o.depth,
            t.nodes@.len() == o.nodes@.len(),
            match o.parent_of(a) {
                None => {
                    &&& t.roots@ == o.roots@.remove(o.roots@.index_of(a))
                    &&& t.nodes@ == mid.nodes@
                },
                Some(p) => {
                    let s = o.node(p).children@;
                    &&& t.roots@ == o.roots@
                    &&& t.nodes@[p as int] is Some
                    &&& t.node(p).children@ == s.remove(s.index_of(a))
                    &&& t.node(p).value == o.node(p).value
                    &&& t.node(p).parent == o.node(p).parent
                    &&& t.node(p).id == o.node(p).id
                    &&& forall|i: int| 0 <= i < o.nodes@.len() && i != p ==> t.nodes@[i] == mid.nodes@[i]
                },
            },
        ensures
            t.wf(),
            t.subtree_deleted(o, a),
    {
        o.lemma_in_sibling_list(a);
        o.lemma_subtree_self(a);
        let s = o.sibling_list(a);
        let ka = s.index_of(a);
        let rest = s.remove(ka);
        assert forall|k: int| 0 <= k < rest.len() implies #[trigger] rest[k] != a && s.contains(rest[k]) by {
            if k < ka {
                assert(rest[k] == s[k]);
            } else {
                assert(rest[k] == s[k + 1]);
            }
        }
        assert(rest.no_duplicates()) by {
            assert forall|k1: int, k2: int| 0 <= k1 < k2 < rest.len() implies rest[k1] != rest[k2] by {
                let j1 = if k1 < ka { k1 } else { k1 + 1 };
                let j2 = if k2 < ka { k2 } else { k2 + 1 };
                assert(rest[k1] == s[j1]);
                assert(rest[k2] == s[j2]);
            }
        }
        // a node outside the subtree of `a` that `o` holds is kept by `t`
        assert forall|x: u32| o.contains(x) && !o.in_subtree(a, x) implies #[trigger] t.contains(x) && t.node(x).value
            == o.node(x).value && t.node(x).parent == o.node(x).parent && t.node(x).id == x by {
            assert(mid.nodes@[x as int] == o.nodes@[x as int]);
            assert(o.node_wf(x));
        }
        assert forall|x: u32| t.contains(x) implies o.contains(x) && !#[trigger] o.in_subtree(a, x) by {
            assert(mid.nodes@[x as int] == if o.in_subtree(a, x) { None } else { o.nodes@[x as int] });
            match o.parent_of(a) {
                Some(p) => {
                    if x == p {
                        assert(o.node_wf(a));
                        if o.in_subtree(a, p) {
                            o.lemma_subtree_deeper(a, p);
                        }
                    }
                },
                None => {},
            }
        }
        assert forall|x: u32| t.contains(x) implies #[trigger] t.node_wf(x) by {
            assert(o.contains(x) && !o.in_subtree(a, x));
            assert(o.node_wf(x));
            let c = t.node(x).children@;
            let oc = o.node(x).children@;
            if o.parent_of(a) == Some(x) {
                assert(c == rest);
            } else {
                assert(c == oc);
            }
            assert forall|k: int| 0 <= k < c.len() implies t.contains(#[trigger] c[k]) && t.parent_of(c[k]) == Some(x) by {
                if o.parent_of(a) == Some(x) {
                    assert(rest[k] != a && s.contains(rest[k]));
                    let j = s.index_of(c[k]);
                    assert(o.contains(s[j]));
                } else {
                    assert(o.contains(oc[k]));
                    if c[k] == a {
                        assert(o.node_wf(a));
                    }
                }
                assert(o.contains(c[k]) && o.parent_of(c[k]) == Some(x));
                Self::lemma_child_outside(o, a, x, c[k]);
            }
            match o.node(x).parent {
                Some(q) => {
                    assert(o.node_wf(q));
                    if o.in_subtree(a, q) {
                        o.lemma_subtree_self(x);
                        o.lemma_subtree_parent(q, x, x);
                        // `x` lies below `q`, which lies below `a`
                        let k1 = choose|k: nat| #[trigger] o.ancestor(q, k) == Some(a);
                        assert(o.ancestor(x, k1 + 1) == o.ancestor(q, k1));
                        assert(o.in_subtree(a, x));
                    }
                    if o.parent_of(a) == Some(q) {
                        let j = s.index_of(x);
                        assert(s[j] == x);
                        if j < ka {
                            assert(rest[j] == x);
                        } else {
                            assert(j != ka);
                            assert(rest[j - 1] == x);
                        }
                    }
                },
                None => {
                    if o.parent_of(a) is None {
                        let j = s.index_of(x);
                        assert(s[j] == x);
                        if j < ka {
                            assert(rest[j] == x);
                        } else {
                            assert(j != ka);
                            assert(rest[j - 1] == x);
                        }
                    } else {
                        assert(t.roots@ == o.roots@);
                    }
                },
            }
        }
        assert forall|k: int| 0 <= k < t.roots@.len() implies t.contains(#[trigger] t.roots@[k]) && t.parent_of(
            t.roots@[k],
        ) is None by {
            let r = t.roots@[k];
            if o.parent_of(a) is None {
                assert(rest[k] != a && s.contains(rest[k]));
            }
            let j = o.roots@.index_of(r);
            assert(o.roots@.contains(r));
            assert(o.contains(o.roots@[j]));
            if o.in_subtree(a, r) {
                o.lemma_subtree_deeper(a, r);
                assert(o.node_wf(r));
            }
        }
        assert(t.ids() =~= o.ids().difference(o.subtree(a)));
    }

    /// Points the parent link of the node `c` at `a`, touching nothing else.
    fn set_parent(&mut self, c: u32, a: u32)
        requires
            old(self).contains(c),
        ensures
            final(self).nodes@.len() == old(self).nodes@.len(),
            final(self).roots == old(self).roots,
            final(self).depth == old(self).depth,
            forall|i: int| 0 <= i < old(self).nodes@.len() && i != c ==> final(self).nodes@[i] == old(self).nodes@[i],
            final(self).nodes@[c as int] is Some,
            final(self).node(c).value == old(self).node(c).value,
            final(self).node(c).children == old(self).node(c).children,
            final(self).node(c).id == old(self).node(c).id,
            final(self).node(c).parent == Some(a),
    {
        let i = c as usize;
        let slot = self.nodes[i].take();
        match slot {
            Some(n) => {
                let Node { value, parent: _, children, id } = n;
                self.nodes.set(i, Some(Node { value, parent: Some(a), children, id }));
            },
            None => {},
        }
    }

    /// The sibling that `merge_sibling(id, pos)` folds into `id`.
    pub open spec fn merge_partner(&self, id: u32, pos: Position) -> Option<u32> {
        match pos {
            Position::After => self.next_sibling_of(id),
            Position::Before => self.prev_sibling_of(id),
        }
    }

    /// The children of `id` once the children `cs` of its sibling have joined
    /// them on the side that `pos` names.
    pub open spec fn joined(ci: Seq<u32>, cs: Seq<u32>, pos: Position) -> Seq<u32> {
        match pos {
            Position::After => ci + cs,
            Position::Before => cs + ci,
        }
    }

    /// `self` is `old` after the sibling `sib` of `id` was folded into `id`:
    /// its children moved to `id` on the side that `pos` names, keeping their
    /// order, and `sib` left the forest and its list.
    pub open spec fn sibling_merged(&self, old: Self, id: u32, sib: u32, pos: Position) -> bool {
        let s = old.sibling_list(id);
        let cs = old.children_of(sib);
        &&& old.contains(id)
        &&& old.contains(sib)
        &&& self.ids() == old.ids().remove(sib)
        &&& self.next_id() == old.next_id()
        &&& self.children_of(id) == Self::joined(old.children_of(id), cs, pos)
        &&& forall|x: u32| #[trigger] self.contains(x) ==> self.value_of(x) == old.value_of(x)
        &&& forall|x: u32|
            #[trigger] self.contains(x) ==> self.parent_of(x) == if cs.contains(x) {
                Some(id)
            } else {
                old.parent_of(x)
            }
        &&& match old.parent_of(id) {
            Some(p) => {
                &&& self.children_of(p) == s.remove(s.index_of(sib))
                &&& self.root_ids() == old.root_ids()
                &&& forall|x: u32|
                    #[trigger] self.contains(x) && x != p && x != id ==> self.children_of(x) == old.children_of(x)
            },
            None => {
                &&& self.root_ids() == s.remove(s.index_of(sib))
                &&& forall|x: u32| #[trigger] self.contains(x) && x != id ==> self.children_of(x) == old.children_of(x)
            },
        }
    }

    proof fn lemma_partner(&self, id: u32, pos: Position)
        requires
            self.wf(),
            self.merge_partner(id, pos) is Some,
        ensures
            ({
                let sib = self.merge_partner(id, pos)->Some_0;
                let s = self.sibling_list(id);
                &&& self.contains(id)
                &&& self.contains(sib)
                &&& sib != id
                &&& s.contains(sib)
                &&& self.parent_of(sib) == self.parent_of(id)
                &&& self.depth@[sib] == self.depth@[id]
                &&& 0 <= s.index_of(sib) < s.len()
                &&& s[s.index_of(sib)] == sib
            }),
    {
        let sib = self.merge_partner(id, pos)->Some_0;
        self.lemma_in_sibling_list(id);
        let s = self.sibling_list(id);
        let k = s.index_of(id);
        let ks = match pos {
            Position::After => k + 1,
            Position::Before => k - 1,
        };
        assert(s[ks] == sib);
        assert(s.index_of(sib) == ks);
        assert(self.node_wf(id));
        match self.parent_of(id) {
            Some(p) => {
                assert(self.node_wf(p));
                assert(self.contains(s[ks]));
                assert(self.node_wf(sib));
            },
            None => {
                assert(self.contains(self.roots@[ks]));
                assert(self.node_wf(sib));
            },
        }
    }

    /// The state that `merge_sibling` leaves is well formed and is the merge
    /// that its contract describes.
    #[verifier::rlimit(80)]
    proof fn lemma_merged(o: Self, t: Self, a: u32, sib: u32, pos: Position)
        requires
            o.wf(),
            o.merge_partner(a, pos) == Some(sib),
            t.nodes@.len() == o.nodes@.len(),
            t.depth == o.depth,
            t.nodes@[sib as int] is None,
            t.nodes@[a as int] is Some,
            t.node(a).value == o.node(a).value,
            t.node(a).parent == o.node(a).parent,
            t.node(a).id == o.node(a).id,
            t.node(a).children@ == Self::joined(o.children_of(a), o.children_of(sib), pos),
            forall|k: int|
                0 <= k < o.children_of(sib).len() ==> {
                    let c = #[trigger] o.children_of(sib)[k];
                    &&& t.nodes@[c as int] is Some
                    &&& t.node(c).value == o.node(c).value
                    &&& t.node(c).children == o.node(c).children
                    &&& t.node(c).id == o.node(c).id
                    &&& t.node(c).parent == Some(a)
                },
            match o.parent_of(a) {
                None => t.roots@ == o.roots@.remove(o.roots@.index_of(sib)),
                Some(p) => {
                    let s = o.children_of(p);
                    &&& t.roots@ == o.roots@
                    &&& t.nodes@[p as int] is Some
                    &&& t.node(p).value == o.node(p).value
                    &&& t.node(p).parent == o.node(p).parent
                    &&& t.node(p).id == o.node(p).id
                    &&& t.node(p).children@ == s.remove(s.index_of(sib))
                },
            },
            forall|i: int|
                0 <= i < o.nodes@.len() && i != sib && i != a && Some(i as u32) != o.parent_of(a)
                    && !o.children_of(sib).contains(i as u32) ==> #[trigger] t.nodes@[i] == o.nodes@[i],
        ensures
            t.wf(),
            t.sibling_merged(o, a, sib, pos),
    {
        o.lemma_partner(a, pos);
        o.lemma_in_sibling_list(a);
        let s = o.sibling_list(a);
        let ks = s.index_of(sib);
        let rest = s.remove(ks);
        let cs = o.children_of(sib);
        let ci = o.children_of(a);
        let nc = Self::joined(ci, cs, pos);
        let par = o.parent_of(a);
        assert(o.node_wf(a));
        assert(o.node_wf(sib));
        assert forall|k: int| 0 <= k < rest.len() implies #[trigger] rest[k] != sib && s.contains(rest[k]) by {
            if k < ks {
                assert(rest[k] == s[k]);
            } else {
                assert(rest[k] == s[k + 1]);
            }
        }
        assert(rest.no_duplicates()) by {
            assert forall|k1: int, k2: int| 0 <= k1 < k2 < rest.len() implies rest[k1] != rest[k2] by {
                let j1 = if k1 < ks { k1 } else { k1 + 1 };
                let j2 = if k2 < ks { k2 } else { k2 + 1 };
                assert(rest[k1] == s[j1]);
                assert(rest[k2] == s[j2]);
            }
        }
        // facts on the moved children
        assert forall|c: u32| cs.contains(c) implies #[trigger] o.contains(c) && o.parent_of(c) == Some(sib) && c != a
            && c != sib && Some(c) != par && o.depth@[c] == o.depth@[a] + 1 by {
            let k = cs.index_of(c);
            assert(o.contains(cs[k]));
            assert(o.node_wf(c));
            match par {
                Some(p) => {
                    assert(o.node_wf(p));
                },
                None => {},
            }
        }
        assert forall|c: u32| ci.contains(c) implies #[trigger] o.contains(c) && o.parent_of(c) == Some(a) && !cs.contains(c) by {
            let k = ci.index_of(c);
            assert(o.contains(ci[k]));
        }
        assert(nc.no_duplicates()) by {
            assert forall|k1: int, k2: int| 0 <= k1 < k2 < nc.len() implies nc[k1] != nc[k2] by {
                match pos {
                    Position::After => {
                        if k2 >= ci.len() && k1 < ci.len() {
                            assert(cs.contains(nc[k2]));
                            assert(ci.contains(nc[k1]));
                        }
                    },
                    Position::Before => {
                        if k2 >= cs.len() && k1 < cs.len() {
                            assert(cs.contains(nc[k1]));
                            assert(ci.contains(nc[k2]));
                        }
                    },
                }
            }
        }
        assert forall|c: u32| nc.contains(c) implies ci.contains(c) || cs.contains(c) by {
            let k = nc.index_of(c);
            match pos {
                Position::After => {
                    if k < ci.len() {
                        assert(ci[k] == c);
                    } else {
                        assert(cs[k - ci.len()] == c);
                    }
                },
                Position::Before => {
                    if k < cs.len() {
                        assert(cs[k] == c);
                    } else {
                        assert(ci[k - cs.len()] == c);
                    }
                },
            }
        }
        assert forall|c: u32| ci.contains(c) || cs.contains(c) implies nc.contains(c) by {
            match pos {
                Position::After => {
                    if ci.contains(c) {
                        assert(nc[ci.index_of(c)] == c);
                    } else {
                        assert(nc[ci.len() + cs.index_of(c)] == c);
                    }
                },
                Position::Before => {
                    if cs.contains(c) {
                        assert(nc[cs.index_of(c)] == c);
                    } else {
                        assert(nc[cs.len() + ci.index_of(c)] == c);
                    }
                },
            }
        }
        // which slots `t` holds, and what they hold
        assert forall|x: u32| #[trigger] t.contains(x) <==> o.contains(x) && x != sib by {
            if (x as int) < o.nodes@.len() && x != sib && x != a && Some(x) != par && !cs.contains(x) {
                assert(t.nodes@[x as int] == o.nodes@[x as int]);
            }
            if cs.contains(x) {
                let k = cs.index_of(x);
                assert(cs[k] == x);
            }
            match par {
                Some(p) => {
                    assert(o.node_wf(p));
                },
                None => {},
            }
        }
        assert forall|x: u32| #[trigger] t.contains(x) implies t.value_of(x) == o.value_of(x) && t.parent_of(x) == (if cs.contains(x) {
            Some(a)
        } else {
            o.parent_of(x)
        }) && t.node(x).id == x && (x != a && Some(x) != par ==> t.children_of(x) == o.children_of(x)) by {
            assert(o.node_wf(x));
            if cs.contains(x) {
                let k = cs.index_of(x);
                assert(cs[k] == x);
            } else if x != a && Some(x) != par {
                assert(t.nodes@[x as int] == o.nodes@[x as int]);
            }
        }
        assert forall|x: u32| t.contains(x) implies #[trigger] t.node_wf(x) by {
            assert(o.node_wf(x));
            assert(o.depth@.contains_key(x));
            let c = t.children_of(x);
            assert forall|k: int| 0 <= k < c.len() implies t.contains(#[trigger] c[k]) && t.parent_of(c[k]) == Some(x) by {
                let y = c[k];
                assert(c.contains(y));
                if x == a {
                    assert(nc.contains(y));
                } else if Some(x) == par {
                    assert(rest[k] != sib && s.contains(rest[k]));
                    let j = s.index_of(y);
                    assert(o.contains(s[j]));
                    assert(o.node_wf(y));
                    if cs.contains(y) {
                        assert(o.parent_of(y) == Some(sib));
                    }
                } else {
                    assert(o.children_of(x)[k] == y);
                    assert(o.contains(y));
                    assert(o.node_wf(y));
                    if y == sib {
                        assert(o.parent_of(sib) == par);
                    }
                    if cs.contains(y) {
                        assert(x == sib);
                    }
                }
            }
            if x == a {
                assert(c == nc);
            }
            if Some(x) == par {
                assert(c == rest);
            }
            match t.parent_of(x) {
                Some(q) => {
                    if cs.contains(x) {
                        assert(q == a);
                        assert(nc.contains(x));
                    } else {
                        assert(o.parent_of(x) == Some(q));
                        assert(o.node_wf(q));
                        assert(q != sib);
                        if q == a {
                            assert(ci.contains(x));
                            assert(nc.contains(x));
                        } else if Some(q) == par {
                            let j = s.index_of(x);
                            assert(s[j] == x);
                            if x == a {
                            } else {
                                assert(x != sib);
                            }
                            if j < ks {
                                assert(rest[j] == x);
                            } else {
                                assert(j != ks);
                                assert(rest[j - 1] == x);
                            }
                        } else {
                            assert(t.children_of(q) == o.children_of(q));
                        }
                    }
                },
                None => {
                    assert(!cs.contains(x));
                    assert(o.parent_of(x) is None);
                    if par is None {
                        let j = s.index_of(x);
                        assert(s[j] == x);
                        if j < ks {
                            assert(rest[j] == x);
                        } else {
                            assert(j != ks);
                            assert(rest[j - 1] == x);
                        }
                    }
                },
            }
        }
        assert forall|k: int| 0 <= k < t.roots@.len() implies t.contains(#[trigger] t.roots@[k]) && t.parent_of(
            t.roots@[k],
        ) is None by {
            let r = t.roots@[k];
            if par is None {
                assert(rest[k] != sib && s.contains(rest[k]));
            }
            assert(o.roots@.contains(r));
            let j = o.roots@.index_of(r);
            assert(o.contains(o.roots@[j]));
            if cs.contains(r) {
                assert(o.parent_of(r) == Some(sib));
            }
        }
        assert(t.ids() =~= o.ids().remove(sib));
    }

    /// Folds the sibling of `id` on the side that `pos` names into `id`: its
    /// children are appended to `id`'s (`After`) or put before them (`Before`),
    /// and the sibling, left without children, is removed. Nothing happens
    /// where there is no such sibling.
    #[verifier::rlimit(80)]
    pub fn merge_sibling(&mut self, id: &u32, pos: &Position)
        requires
            old(self).wf(),
        ensures
            final(self).wf(),
            match old(self).merge_partner(*id, *pos) {
                None => *final(self) == *old(self),
                Some(sib) => final(self).sibling_merged(*old(self), *id, sib, *pos),
            },
    {
        let a = *id;
        let partner = match pos {
            Position::After => self.next_sibling(id),
            Position::Before => self.prev_sibling(id),
        };
        let sib = match partner {
            Some(s) => s,
            None => {
                return;
            },
        };
        let ghost o = *self;
        proof {
            o.lemma_partner(a, *pos);
            assert(o.node_wf(sib));
            assert(o.node_wf(a));
        }
        let par = match self.node_ref(a) {
            Some(n) => n.parent,
            None => None,
        };
        let taken = self.nodes[sib as usize].take();
        let mut moved = match taken {
            Some(n) => n.children,
            None => Vec::new(),
        };
        let ghost cs = moved@;
        assert(cs == o.children_of(sib));
        assert(cs.no_duplicates());
        proof {
            assert forall|k: int| 0 <= k < cs.len() implies #[trigger] cs[k] != a && cs[k] != sib && o.contains(cs[k])
                && o.parent_of(cs[k]) == Some(sib) && Some(cs[k]) != par by {
                assert(o.contains(cs[k]));
                assert(o.node_wf(cs[k]));
                match par {
                    Some(p) => {
                        assert(o.node_wf(p));
                    },
                    None => {},
                }
            }
        }
        let mut j: usize = 0;
        while j < moved.len()
            invariant
                o.wf(),
                cs == moved@,
                cs.no_duplicates(),
                o.contains(sib),
                o.contains(a),
                0 <= j <= cs.len(),
                self.nodes@.len() == o.nodes@.len(),
                self.roots == o.roots,
                self.depth == o.depth,
                forall|k: int| 0 <= k < cs.len() ==> #[trigger] cs[k] != a && cs[k] != sib && o.contains(cs[k])
                    && o.parent_of(cs[k]) == Some(sib) && Some(cs[k]) != par,
                forall|i: int|
                    0 <= i < o.nodes@.len() && i != sib && !cs.subrange(0, j as int).contains(i as u32)
                        ==> #[trigger] self.nodes@[i] == o.nodes@[i],
                self.nodes@[sib as int] is None,
                forall|k: int|
                    0 <= k < j ==> {
                        &&& self.nodes@[#[trigger] cs[k] as int] is Some
                        &&& self.node(cs[k]).value == o.node(cs[k]).value
                        &&& self.node(cs[k]).children == o.node(cs[k]).children
                        &&& self.node(cs[k]).id == o.node(cs[k]).id
                        &&& self.node(cs[k]).parent == Some(a)
                    },
            decreases cs.len() - j,
        {
            let c = moved[j];
            proof {
                assert(cs[j as int] != sib && cs[j as int] != a);
                assert(!cs.subrange(0, j as int).contains(c)) by {
                    if cs.subrange(0, j as int).contains(c) {
                        let k = cs.subrange(0, j as int).index_of(c);
                        assert(cs[k] == cs[j as int]);
                    }
                }
                assert(self.nodes@[c as int] == o.nodes@[c as int]);
            }
            self.set_parent(c, a);
            proof {
                assert forall|i: int|
                    0 <= i < o.nodes@.len() && i != sib && !cs.subrange(0, j + 1).contains(i as u32)
                        implies #[trigger] self.nodes@[i] == o.nodes@[i] by {
                    if i != c {
                        if cs.subrange(0, j as int).contains(i as u32) {
                            let k = cs.subrange(0, j as int).index_of(i as u32);
                            assert(cs.subrange(0, j + 1)[k] == i as u32);
                        }
                    } else {
                        assert(cs.subrange(0, j + 1)[j as int] == c);
                    }
                }
                assert forall|k: int| 0 <= k < j + 1 implies {
                    &&& self.nodes@[#[trigger] cs[k] as int] is Some
                    &&& self.node(cs[k]).value == o.node(cs[k]).value
                    &&& self.node(cs[k]).children == o.node(cs[k]).children
                    &&& self.node(cs[k]).id == o.node(cs[k]).id
                    &&& self.node(cs[k]).parent == Some(a)
                } by {
                    if k < j {
                        assert(cs[k] != c);
                    }
                }
            }
            j = j + 1;
        }
        proof {
            assert(cs.subrange(0, cs.len() as int) == cs);
            assert(self.nodes@[a as int] == o.nodes@[a as int]);
        }
        match self.nodes[a as usize].as_mut() {
            Some(n) => {
                match pos {
                    Position::After => {
                        n.children.append(&mut moved);
                    },
                    Position::Before => {
                        let mut own = Vec::new();
                        own.append(&mut n.children);
                        moved.append(&mut own);
                        n.children = moved;
                    },
                }
            },
            None => {},
        }
        match par {
            None => {
                match position_of(&self.roots, sib) {
                    Some(k) => {
                        self.roots.remove(k);
                    },
                    None => {},
                }
            },
            Some(p) => {
                proof {
                    assert(o.node_wf(p));
                    assert(p != sib && p != a);
                    assert(!cs.contains(p)) by {
                        if cs.contains(p) {
                            let k = cs.index_of(p);
                            assert(Some(cs[k]) != par);
                        }
                    }
                    assert(self.nodes@[p as int] == o.nodes@[p as int]);
                }
                match self.nodes[p as usize].as_mut() {
                    Some(pn) => {
                        match position_of(&pn.children, sib) {
                            Some(k) => {
                                pn.children.remove(k);
                            },
                            None => {},
                        }
                    },
                    None => {},
                }
            },
        }
        proof {
            Self::lemma_merged(o, *self, a, sib, *pos);
        }
    }

    proof fn lemma_below_finite(n: nat)
        requires
            n <= u32::MAX + 1,
        ensures
            Set::new(|i: u32| (i as int) < n).finite(),
        decreases n,
    {
        if n == 0 {
            assert(Set::new(|i: u32| (i as int) < n) =~= Set::<u32>::empty());
        } else {
            Self::lemma_below_finite((n - 1) as nat);
            assert(Set::new(|i: u32| (i as int) < n) =~= Set::new(|i: u32| (i as int) < (n - 1) as nat).insert(
                (n - 1) as u32,
            ));
        }
    }

    /// A well-formed forest holds finitely many nodes.
    pub proof fn lemma_ids_finite(&self)
        requires
            self.wf(),
        ensures
            self.ids().finite(),
    {
        Self::lemma_below_finite(self.nodes@.len());
        assert(self.ids().subset_of(Set::new(|i: u32| (i as int) < self.nodes@.len())));
        vstd::set_lib::lemma_set_subset_finite(Set::new(|i: u32| (i as int) < self.nodes@.len()), self.ids());
    }

    /// Deleting a node that has `N` descendants removes exactly `N + 1` nodes.
    pub proof fn lemma_delete_count(old: Self, new: Self, id: u32)
        requires
            old.wf(),
            new.subtree_deleted(old, id),
        ensures
            old.ids().finite(),
            old.descendants(id).finite(),
            new.ids().len() + old.descendants(id).len() + 1 == old.ids().len(),
    {
        old.lemma_ids_finite();
        let sub = old.subtree(id);
        assert forall|x: u32| sub.contains(x) implies old.ids().contains(x) by {
            old.lemma_subtree_deeper(id, x);
        }
        assert(sub.subset_of(old.ids()));
        vstd::set_lib::lemma_set_subset_finite(old.ids(), sub);
        old.lemma_subtree_self(id);
        assert(sub.contains(id));
        assert(old.ids().intersect(sub) =~= sub);
        vstd::set_lib::lemma_set_difference_len(old.ids(), sub);
    }

    /// A node inserted before an anchor that has a parent sits right before
    /// it: the anchor is the new node's next sibling.
    pub proof fn lemma_before_sibling_adjacent(old: Self, new: Self, id: u32, v: D, n: u32)
        requires
            old.wf(),
            new.wf(),
            new.sibling_inserted(old, id, v, Position::Before, n),
            old.parent_of(id) is Some,
        ensures
            new.next_sibling_of(n) == Some(id),
    {
        let p = old.parent_of(id)->Some_0;
        old.lemma_in_sibling_list(id);
        let s = old.children_of(p);
        let k = s.index_of(id);
        let s2 = s.insert(k, n);
        assert(new.ids().contains(n));
        assert(new.contains(n));
        new.lemma_in_sibling_list(n);
        assert(new.sibling_list(n) == s2);
        assert(s2[k] == n);
        assert(s2.index_of(n) == k);
        assert(s2[k + 1] == s[k]);
    }

    proof fn lemma_counter_rises(ts: Seq<Self>, a: int, b: int)
        requires
            0 <= a <= b < ts.len(),
            forall|i: int| 0 <= i < ts.len() - 1 ==> #[trigger] ts[i + 1].next_id() >= ts[i].next_id(),
        ensures
            ts[a].next_id() <= ts[b].next_id(),
        decreases b - a,
    {
        if a < b {
            Self::lemma_counter_rises(ts, a, b - 1);
            assert(ts[(b - 1) + 1].next_id() >= ts[b - 1].next_id());
        }
    }

    /// Along a run of forests, each from the one before by an operation of
    /// this module (none lowers the counter; an insertion hands out the
    /// counter and moves it on by one), every identity handed out is greater
    /// than each one handed out before it, whether that node still exists or
    /// not.
    pub proof fn lemma_identities_increase(ts: Seq<Self>, given: Seq<Option<u32>>)
        requires
            ts.len() == given.len() + 1,
            forall|i: int| 0 <= i < given.len() ==> #[trigger] ts[i + 1].next_id() >= ts[i].next_id(),
            forall|i: int|
                0 <= i < given.len() && #[trigger] given[i] is Some ==> given[i]->Some_0 == ts[i].next_id()
                    && ts[i + 1].next_id() == ts[i].next_id() + 1,
        ensures
            forall|i: int, j: int|
                0 <= i < j < given.len() && #[trigger] given[i] is Some && #[trigger] given[j] is Some
                    ==> given[i]->Some_0 < given[j]->Some_0,
    {
        assert forall|i: int, j: int|
            0 <= i < j < given.len() && #[trigger] given[i] is Some && #[trigger] given[j] is Some implies given[i]->Some_0
                < given[j]->Some_0 by {
            assert forall|k: int| 0 <= k < ts.len() - 1 implies #[trigger] ts[k + 1].next_id() >= ts[k].next_id() by {
                assert(k < given.len());
            }
            Self::lemma_counter_rises(ts, i + 1, j);
        }
    }

    /// Every identity a forest holds is below the next identity it hands out,
    /// so one handed out later (the counter never goes down) differs from all
    /// of them, deleted ones included.
    pub proof fn lemma_fresh_id(t: Self, x: u32, n: nat)
        requires
            t.contains(x),
            n >= t.next_id(),
        ensures
            (x as nat) < n,
    {
    }

    /// The children of a present node are present, and it is their parent.
    pub proof fn lemma_children_present(&self, x: u32)
        requires
            self.wf(),
        ensures
            forall|m: int|
                0 <= m < self.children_of(x).len() ==> self.contains(#[trigger] self.children_of(x)[m])
                    && self.parent_of(self.children_of(x)[m]) == Some(x),
    {
        if self.contains(x) {
            assert(self.node_wf(x));
        }
    }

    /// No list holds an identity twice, and every present node stands in the
    /// list of its parent, or among the roots where it has none.
    pub proof fn lemma_lists(&self)
        requires
            self.wf(),
        ensures
            self.root_ids().no_duplicates(),
            forall|x: u32| #[trigger] self.children_of(x).no_duplicates(),
            forall|x: u32|
                #[trigger] self.contains(x) ==> match self.parent_of(x) {
                    Some(p) => self.contains(p) && self.children_of(p).contains(x),
                    None => self.root_ids().contains(x),
                },
    {
        assert forall|x: u32| #[trigger] self.children_of(x).no_duplicates() by {
            if self.contains(x) {
                assert(self.node_wf(x));
            }
        }
        assert forall|x: u32| #[trigger] self.contains(x) implies match self.parent_of(x) {
            Some(p) => self.contains(p) && self.children_of(p).contains(x),
            None => self.root_ids().contains(x),
        } by {
            assert(self.node_wf(x));
        }
    }

    /// The roots are present and have no parent.
    pub proof fn lemma_roots_present(&self)
        requires
            self.wf(),
        ensures
            forall|m: int|
                0 <= m < self.root_ids().len() ==> self.contains(#[trigger] self.root_ids()[m]) && self.parent_of(
                    self.root_ids()[m],
                ) is None,
    {
    }

    /// A measure that falls from a node to each of its children.
    pub closed spec fn rank(&self, x: u32) -> nat {
        (self.nodes@.len() - self.depth@[x]) as nat
    }

    /// A child ranks below its parent.
    pub proof fn lemma_child_rank(&self, x: u32, c: u32)
        requires
            self.wf(),
            self.contains(x),
            self.children_of(x).contains(c),
        ensures
            self.rank(c) < self.rank(x),
    {
        assert(self.node_wf(x));
        let k = self.children_of(x).index_of(c);
        assert(self.contains(self.children_of(x)[k]));
        assert(self.node_wf(c));
    }

    /// Whether the forest can hand out another identity.
    pub fn has_room(&self) -> (r: bool)
        ensures
            r == (self.next_id() < u32::MAX),
    {
        self.nodes.len() < 4294967295usize
    }

    /// The value at `id`, or `None` where no node has that identity.
    pub fn get_node(&self, id: &u32) -> (r: Option<&D>)
        ensures
            match r {
                Some(v) => self.contains(*id) && *v == self.value_of(*id),
                None => !self.contains(*id),
            },
    {
        let i = *id as usize;
        if i < self.nodes.len() {
            match &self.nodes[i] {
                Some(n) => Some(&n.value),
                None => None,
            }
        } else {
            None
        }
    }
}

/// How far past the anchor a new sibling lands: 0 before it, 1 after it.
pub open spec fn offset(pos: Position) -> int {
    match pos {
        Position::Before => 0,
        Position::After => 1,
    }
}

/// Why a forest operation was refused.
#[derive(Debug, Clone, Copy, PartialEq, Eq, Structural)]
pub enum TreeError {
    /// No node has the given identity.
    NotFound(u32),
    /// Every identity the forest can hand out has been handed out.
    IdentitiesExhausted,
}

/// The position of `x` in `v`, if it occurs there.
fn position_of(v: &Vec<u32>, x: u32) -> (r: Option<usize>)
    ensures
        match r {
            Some(k) => k < v@.len() && v@[k as int] == x && (v@.no_duplicates() ==> v@.index_of(x) == k),
            None => !v@.contains(x),
        },
{
    let mut k: usize = 0;
    while k < v.len()
        invariant
            k <= v@.len(),
            forall|j: int| 0 <= j < k ==> v@[j] != x,
        decreases v@.len() - k,
    {
        if v[k] == x {
            proof {
                if v@.no_duplicates() {
                    let j = v@.index_of(x);
                    assert(v@[j] == x);
                }
            }
            return Some(k);
        }
        k = k + 1;
    }
    None
}

/// Inserting a value that does not occur keeps a sequence free of duplicates.
proof fn lemma_insert_fresh(s: Seq<u32>, at: int, n: u32)
    requires
        0 <= at <= s.len(),
        s.no_duplicates(),
        !s.contains(n),
    ensures
        s.insert(at, n).no_duplicates(),
        s.insert(at, n)[at] == n,
        forall|k: int| 0 <= k < at ==> s.insert(at, n)[k] == s[k],
        forall|k: int| at < k <= s.len() ==> s.insert(at, n)[k] == s[k - 1],
{
    let c2 = s.insert(at, n);
    assert forall|k1: int, k2: int| 0 <= k1 < k2 < c2.len() implies c2[k1] != c2[k2] by {
        if k1 != at && k2 != at {
            let j1 = if k1 < at { k1 } else { k1 - 1 };
            let j2 = if k2 < at { k2 } else { k2 - 1 };
            assert(c2[k1] == s[j1]);
            assert(c2[k2] == s[j2]);
        } else if k1 == at {
            let j2 = if k2 < at { k2 } else { k2 - 1 };
            assert(c2[k2] == s[j2]);
        } else {
            let j1 = if k1 < at { k1 } else { k1 - 1 };
            assert(c2[k1] == s[j1]);
        }
    }
}

/// Write access to the value of `n`, leaving its links alone.
fn value_mut<D>(n: &mut Node<D>) -> (r: &mut D)
    ensures
        *r == old(n).value,
        *final(n) == (Node { value: *final(r), parent: old(n).parent, children: old(n).children, id: old(n).id }),
{
    &mut n.value
}

/// A copy of `v[from..to]`.
fn copy_range(v: &Vec<u32>, from: usize, to: usize) -> (r: Vec<u32>)
    requires
        from <= to <= v@.len(),
    ensures
        r@ == v@.subrange(from as int, to as int),
{
    let mut r: Vec<u32> = Vec::new();
    let mut k: usize = from;
    while k < to
        invariant
            from <= k <= to <= v@.len(),
            r@ == v@.subrange(from as int, k as int),
        decreases to - k,
    {
        r.push(v[k]);
        k = k + 1;
        assert(r@ =~= v@.subrange(from as int, k as int));
    }
    r
}

/// A copy of `v`.
fn copy_ids(v: &Vec<u32>) -> (r: Vec<u32>)
    ensures
        r@ == v@,
{
    let mut r: Vec<u32> = Vec::new();
    let mut k: usize = 0;
    while k < v.len()
        invariant
            k <= v@.len(),
            r@ == v@.subrange(0, k as int),
        decreases v@.len() - k,
    {
        r.push(v[k]);
        k = k + 1;
        assert(r@ =~= v@.subrange(0, k as int));
    }
    assert(r@ =~= v@);
    r
}

} // verus!
