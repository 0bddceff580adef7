//! User-interface nodes: their identifiers and layout options, and the
//! tree a user interface keeps them in.
//!
//! What a node draws (its kind, with its sizes and colours) is the caller's
//! type `K`; the tree keeps the structure, the names and the visibility.
use vstd::prelude::*;
use crate::text::str_eq;

verus! {

/// Names a node of a user interface.
#[derive(Copy, Clone, Eq, PartialEq, Structural, Hash, Debug)]
pub struct UiNodeId(pub u32);

/// How a container places its children.
#[derive(Copy, Clone, Eq, PartialEq, Structural, Debug)]
pub enum ContainerKind {
    Free,
    HorizontalBox,
    VerticalBox,
}

/// Where a node sits inside its parent.
#[derive(Copy, Clone, Eq, PartialEq, Structural, Debug)]
pub enum Anchor {
    TopLeft,
    TopCenter,
    TopRight,
    Left,
    Center,
    Right,
    BottomLeft,
    BottomCenter,
    BottomRight,
    Stretch,
}

/// How a text line is aligned.
#[derive(Copy, Clone, Eq, PartialEq, Structural, Debug)]
pub enum TextAlign {
    Left,
    Center,
}

/// Names a font.
#[derive(Copy, Clone, Eq, PartialEq, Structural, Debug)]
pub struct FontId {}

/// The space a user interface is laid out in.
#[derive(Copy, Clone, Eq, PartialEq, Structural, Debug)]
pub enum CanvasSpace {
    Screen,
    Camera,
    World,
}

/// One node of a user interface (what it draws is kept beside it).
#[derive(Debug)]
pub struct UiNode {
    id: UiNodeId,
    parent: Option<UiNodeId>,
    children: Vec<UiNodeId>,
    name: String,
    visible: bool,
}

/// A node's place in the tree, its name and whether it is shown.
pub struct UiNodeView {
    pub id: u32,
    pub parent: Option<u32>,
    pub children: Seq<u32>,
    pub name: Seq<char>,
    pub visible: bool,
}

impl UiNode {
    pub closed spec fn view_node(&self) -> UiNodeView {
        UiNodeView {
            id: self.id.0,
            parent: match self.parent {
                Some(p) => Some(p.0),
                None => None,
            },
            children: self.children@.map_values(|c: UiNodeId| c.0),
            name: self.name@,
            visible: self.visible,
        }
    }

    pub fn name(&self) -> (r: &str)
        ensures
            r@ == self.view_node().name,
    {
        self.name.as_str()
    }

    pub fn visible(&self) -> (r: bool)
        ensures
            r == self.view_node().visible,
    {
        self.visible
    }

    pub fn id(&self) -> (r: UiNodeId)
        ensures
            r.0 == self.view_node().id,
    {
        self.id
    }

    pub fn parent(&self) -> (r: Option<UiNodeId>)
        ensures
            match r {
                Some(p) => self.view_node().parent == Some(p.0),
                None => self.view_node().parent is None,
            },
    {
        self.parent
    }

    pub fn children(&self) -> (r: &Vec<UiNodeId>)
        ensures
            r@.map_values(|c: UiNodeId| c.0) == self.view_node().children,
    {
        &self.children
    }
}

/// The nodes' views, in id order.
pub open spec fn node_views(nodes: Seq<UiNode>) -> Seq<UiNodeView> {
    nodes.map_values(|n: UiNode| n.view_node())
}

/// The ids below and including `x`, depth first, each node before its
/// children and the children in order.
pub open spec fn preorder(nodes: Seq<UiNodeView>, x: int) -> Seq<u32>
    decreases nodes.len() - x, 1int, 0int,
{
    if 0 <= x < nodes.len() {
        seq![x as u32] + preorder_children(nodes, x, 0)
    } else {
        Seq::empty()
    }
}

/// The preorders of the children of `p` from the `k`-th on, one after another.
pub open spec fn preorder_children(nodes: Seq<UiNodeView>, p: int, k: int) -> Seq<u32>
    decreases nodes.len() - p, 0int, nodes[p].children.len() - k,
{
    if 0 <= p < nodes.len() && 0 <= k < nodes[p].children.len() {
        let c = nodes[p].children[k] as int;
        if p < c < nodes.len() {
            preorder(nodes, c) + preorder_children(nodes, p, k + 1)
        } else {
            preorder_children(nodes, p, k + 1)
        }
    } else {
        Seq::empty()
    }
}

/// The ids of the shown nodes, in order.
pub open spec fn visible_ids(nodes: Seq<UiNodeView>) -> Seq<u32>
    decreases nodes.len(),
{
    if nodes.len() == 0 {
        Seq::empty()
    } else {
        let r = visible_ids(nodes.drop_last());
        if nodes.last().visible {
            r.push(nodes.last().id)
        } else {
            r
        }
    }
}

/// The first of `ids` whose node is named `name`.
pub open spec fn first_named(nodes: Seq<UiNodeView>, ids: Seq<u32>, name: Seq<char>) -> Option<u32>
    decreases ids.len(),
{
    if ids.len() == 0 {
        None
    } else if nodes[ids[0] as int].name == name {
        Some(ids[0])
    } else {
        first_named(nodes, ids.drop_first(), name)
    }
}

/// Every one of `ids` whose node is named `name`, in order.
pub open spec fn all_named(nodes: Seq<UiNodeView>, ids: Seq<u32>, name: Seq<char>) -> Seq<u32>
    decreases ids.len(),
{
    if ids.len() == 0 {
        Seq::empty()
    } else {
        let rest = all_named(nodes, ids.drop_first(), name);
        if nodes[ids[0] as int].name == name {
            seq![ids[0]] + rest
        } else {
            rest
        }
    }
}

pub proof fn lemma_first_named_concat(nodes: Seq<UiNodeView>, a: Seq<u32>, b: Seq<u32>, name: Seq<char>)
    ensures
        first_named(nodes, a + b, name) == (match first_named(nodes, a, name) {
            Some(x) => Some(x),
            None => first_named(nodes, b, name),
        }),
    decreases a.len(),
{
    if a.len() > 0 {
        assert((a + b).drop_first() =~= a.drop_first() + b);
        assert((a + b)[0] == a[0]);
        lemma_first_named_concat(nodes, a.drop_first(), b, name);
    } else {
        assert(a + b =~= b);
    }
}

pub proof fn lemma_all_named_concat(nodes: Seq<UiNodeView>, a: Seq<u32>, b: Seq<u32>, name: Seq<char>)
    ensures
        all_named(nodes, a + b, name) == all_named(nodes, a, name) + all_named(nodes, b, name),
    decreases a.len(),
{
    if a.len() > 0 {
        assert((a + b).drop_first() =~= a.drop_first() + b);
        assert((a + b)[0] == a[0]);
        lemma_all_named_concat(nodes, a.drop_first(), b, name);
        let r = all_named(nodes, a.drop_first(), name) + all_named(nodes, b, name);
        assert(seq![a[0]] + r =~= (seq![a[0]] + all_named(nodes, a.drop_first(), name)) + all_named(nodes, b, name));
    } else {
        assert(a + b =~= b);
        assert(all_named(nodes, a, name) + all_named(nodes, b, name) =~= all_named(nodes, b, name));
    }
}

/// Node `i` has id `i`; the root has no parent; every other node's parent
/// comes before it and lists it; children come after their parent.
pub open spec fn well_formed_tree(t: Seq<UiNodeView>) -> bool {
    &&& t.len() >= 1
    &&& t.len() <= u32::MAX
    &&& t[0].parent is None
    &&& forall|i: int| 0 <= i < t.len() ==> #[trigger] t[i].id == i
    &&& forall|i: int| 0 < i < t.len() ==> (#[trigger] t[i].parent matches Some(p) && p < i && t[p as int].children.contains(i as u32))
    &&& forall|i: int, k: int| 0 <= i < t.len() && 0 <= k < t[i].children.len() ==> i < #[trigger] t[i].children[k] < t.len()
}

/// A tree of user-interface nodes; node 0 is the root.
#[derive(Debug)]
pub struct UiRenderer<K> {
    root_node_path: Option<String>,
    ui_asset_path: Option<String>,
    space: CanvasSpace,
    nodes: Vec<UiNode>,
    kinds: Vec<K>,
    root: UiNodeId,
    dirty_layout: bool,
}

impl<K> UiRenderer<K> {
    pub closed spec fn space_of(&self) -> CanvasSpace {
        self.space
    }

    /// Whether the layout has to be computed again.
    pub closed spec fn is_dirty(&self) -> bool {
        self.dirty_layout
    }

    pub fn space(&self) -> (r: CanvasSpace)
        ensures
            r == self.space_of(),
    {
        self.space
    }

    pub fn dirty_layout(&self) -> (r: bool)
        ensures
            r == self.is_dirty(),
    {
        self.dirty_layout
    }

    /// Marks the layout as computed (or not).
    pub fn set_dirty_layout(&mut self, dirty: bool)
        ensures
            final(self).is_dirty() == dirty,
            final(self).tree() == old(self).tree(),
            final(self).kinds() == old(self).kinds(),
            final(self).space_of() == old(self).space_of(),
            old(self).wf() ==> final(self).wf(),
    {
        self.dirty_layout = dirty;
    }

    /// The nodes, in id order.
    pub closed spec fn tree(&self) -> Seq<UiNodeView> {
        node_views(self.nodes@)
    }

    /// The nodes' kinds, in id order.
    pub closed spec fn kinds(&self) -> Seq<K> {
        self.kinds@
    }

    /// Node `i` has id `i`; the root has no parent; every other node's parent
    /// comes before it and lists it; children come after their parent.
    pub closed spec fn wf(&self) -> bool {
        well_formed_tree(self.tree()) && self.root.0 == 0 && self.kinds@.len() == self.nodes@.len()
    }

    /// A lone root node.
    pub open spec fn root_view() -> UiNodeView {
        UiNodeView { id: 0, parent: None, children: Seq::empty(), name: "root"@, visible: true }
    }

    /// A user interface in `space` holding only its root, named `root`,
    /// of kind `root_kind`.
    pub fn new(space: CanvasSpace, root_kind: K) -> (r: Self)
        ensures
            r.wf(),
            r.tree() == seq![Self::root_view()],
            r.kinds() == seq![root_kind],
            r.space_of() == space,
            r.is_dirty(),
    {
        let root = UiNode { id: UiNodeId(0), parent: None, children: Vec::new(), name: "root".to_string(), visible: true };
        let mut nodes: Vec<UiNode> = Vec::new();
        nodes.push(root);
        let mut kinds: Vec<K> = Vec::new();
        kinds.push(root_kind);
        let r = UiRenderer { root_node_path: None, ui_asset_path: None, space, nodes, kinds, root: UiNodeId(0), dirty_layout: true };
        assert(r.tree()[0].children =~= Seq::<u32>::empty());
        assert(r.tree() =~= seq![Self::root_view()]);
        assert(r.kinds() =~= seq![root_kind]);
        r
    }

    /// Drops every node but a fresh root of kind `root_kind`.
    pub fn clear(&mut self, root_kind: K)
        ensures
            final(self).wf(),
            final(self).tree() == seq![Self::root_view()],
            final(self).kinds() == seq![root_kind],
            final(self).space_of() == old(self).space_of(),
            final(self).is_dirty(),
    {
        let root = UiNode { id: UiNodeId(0), parent: None, children: Vec::new(), name: "root".to_string(), visible: true };
        self.nodes.clear();
        self.nodes.push(root);
        self.kinds.clear();
        self.kinds.push(root_kind);
        self.root = UiNodeId(0);
        self.dirty_layout = true;
        assert(self.tree()[0].children =~= Seq::<u32>::empty());
        assert(self.tree() =~= seq![Self::root_view()]);
        assert(self.kinds() =~= seq![root_kind]);
    }

    pub fn root(&self) -> (r: UiNodeId)
        requires
            self.wf(),
        ensures
            r.0 == 0,
    {
        self.root
    }

    /// The number of nodes.
    pub fn len(&self) -> (r: usize)
        ensures
            r == self.tree().len(),
    {
        self.nodes.len()
    }

    /// Adds a node of kind `kind` under `parent`, unnamed and shown, and
    /// returns its id (the number of nodes before it).
    pub fn add_node(&mut self, parent: UiNodeId, kind: K) -> (r: UiNodeId)
        requires
            old(self).wf(),
            parent.0 < old(self).tree().len(),
            old(self).tree().len() < u32::MAX,
        ensures
            final(self).wf(),
            r.0 == old(self).tree().len(),
            final(self).tree() == old(self).tree().update(
                parent.0 as int,
                UiNodeView { children: old(self).tree()[parent.0 as int].children.push(r.0), ..old(self).tree()[parent.0 as int] },
            ).push(UiNodeView { id: r.0, parent: Some(parent.0), children: Seq::empty(), name: Seq::empty(), visible: true }),
            final(self).kinds() == old(self).kinds().push(kind),
            final(self).is_dirty(),
            final(self).space_of() == old(self).space_of(),
    {
        let ghost t = self.tree();
        let ghost ks = self.kinds();
        let n = self.nodes.len();
        let id = UiNodeId(n as u32);
        let node = UiNode { id, parent: Some(parent), children: Vec::new(), name: String::new(), visible: true };
        self.nodes.push(node);
        self.kinds.push(kind);
        let pi = parent.0 as usize;
        let ghost before = self.nodes@;
        let mut pnode_children = Vec::new();
        std::mem::swap(&mut pnode_children, &mut self.nodes[pi].children);
        pnode_children.push(id);
        std::mem::swap(&mut pnode_children, &mut self.nodes[pi].children);
        self.dirty_layout = true;
        proof {
            let t2 = self.tree();
            let expected = t.update(
                parent.0 as int,
                UiNodeView { children: t[parent.0 as int].children.push(id.0), ..t[parent.0 as int] },
            ).push(UiNodeView { id: id.0, parent: Some(parent.0), children: Seq::empty(), name: Seq::empty(), visible: true });
            assert forall|i: int| 0 <= i < t2.len() implies #[trigger] t2[i] == expected[i] by {
                if i == pi {
                    assert(self.nodes@[i].children@ == before[i].children@.push(id));
                    assert(self.nodes@[i].children@.map_values(|c: UiNodeId| c.0) =~= before[i].children@.map_values(|c: UiNodeId| c.0).push(id.0));
                } else if i == n {
                    assert(self.nodes@[i].children@.map_values(|c: UiNodeId| c.0) =~= Seq::<u32>::empty());
                } else {
                    assert(self.nodes@[i] == before[i]);
                }
            }
            assert(t2 =~= expected);
            assert forall|i: int| 0 < i < t2.len() implies (#[trigger] t2[i].parent matches Some(p) && p < i && t2[p as int].children.contains(i as u32)) by {
                if i < n {
                    let p = t[i].parent->0;
                    if p == pi {
                        let k = choose|k: int| 0 <= k < t[p as int].children.len() && t[p as int].children[k] == i as u32;
                        assert(t2[p as int].children[k] == i as u32);
                    } else {
                        assert(t2[p as int] == t[p as int]);
                    }
                } else {
                    assert(t2[pi as int].children[t[pi as int].children.len() as int] == i as u32);
                }
            }
            assert forall|i: int, k: int| 0 <= i < t2.len() && 0 <= k < t2[i].children.len() implies i < #[trigger] t2[i].children[k] < t2.len() by {
                if i == pi && k == t[i].children.len() {
                } else if i < n {
                    assert(t2[i].children[k] == t[i].children[k]);
                }
            }
        }
        id
    }

    fn find_from(&self, id: u32, name: &str) -> (r: Option<UiNodeId>)
        requires
            self.wf(),
            id < self.tree().len(),
        ensures
            match r {
                Some(x) => first_named(self.tree(), preorder(self.tree(), id as int), name@) == Some(x.0),
                None => first_named(self.tree(), preorder(self.tree(), id as int), name@) is None,
            },
        decreases self.tree().len() - id,
    {
        let ghost t = self.tree();
        let node = &self.nodes[id as usize];
        proof {
            assert(preorder(t, id as int) == seq![id] + preorder_children(t, id as int, 0));
            lemma_first_named_concat(t, seq![id], preorder_children(t, id as int, 0), name@);
            assert(seq![id][0] == id);
            assert(seq![id].drop_first() =~= Seq::<u32>::empty());
            assert(first_named(t, Seq::<u32>::empty(), name@) is None);
            assert(first_named(t, seq![id], name@) == (if t[id as int].name == name@ { Some(id) } else { None }));
            assert(t[id as int].name == node.name@);
        }
        if str_eq(node.name.as_str(), name) {
            return Some(UiNodeId(id));
        }
        let mut k: usize = 0;
        while k < node.children.len()
            invariant
                self.wf(),
                t == self.tree(),
                id < t.len(),
                node.view_node() == t[id as int],
                k <= node.children@.len(),
                first_named(t, preorder(t, id as int), name@) == first_named(t, preorder_children(t, id as int, k as int), name@),
            decreases node.children@.len() - k,
        {
            let c = node.children[k];
            proof {
                assert(t[id as int].children[k as int] == c.0);
                assert(id < t[id as int].children[k as int] < t.len());
                assert(preorder_children(t, id as int, k as int)
                    == preorder(t, c.0 as int) + preorder_children(t, id as int, k + 1));
                lemma_first_named_concat(t, preorder(t, c.0 as int), preorder_children(t, id as int, k + 1), name@);
            }
            match self.find_from(c.0, name) {
                Some(x) => {
                    return Some(x);
                },
                None => {},
            }
            k = k + 1;
        }
        proof {
            assert(preorder_children(t, id as int, k as int) == Seq::<u32>::empty());
        }
        None
    }

    /// The first node named `name`, searching depth first from the root.
    pub fn find_by_name(&self, name: &str) -> (r: Option<UiNodeId>)
        requires
            self.wf(),
        ensures
            match r {
                Some(x) => first_named(self.tree(), preorder(self.tree(), 0), name@) == Some(x.0),
                None => first_named(self.tree(), preorder(self.tree(), 0), name@) is None,
            },
    {
        self.find_from(0, name)
    }

    fn collect_from(&self, id: u32, name: &str, out: &mut Vec<UiNodeId>)
        requires
            self.wf(),
            id < self.tree().len(),
        ensures
            final(out)@.map_values(|x: UiNodeId| x.0) == old(out)@.map_values(|x: UiNodeId| x.0)
                + all_named(self.tree(), preorder(self.tree(), id as int), name@),
        decreases self.tree().len() - id,
    {
        let ghost t = self.tree();
        let ghost start = out@.map_values(|x: UiNodeId| x.0);
        let node = &self.nodes[id as usize];
        proof {
            assert(preorder(t, id as int) == seq![id] + preorder_children(t, id as int, 0));
            lemma_all_named_concat(t, seq![id], preorder_children(t, id as int, 0), name@);
            assert(seq![id][0] == id);
            assert(seq![id].drop_first() =~= Seq::<u32>::empty());
            assert(all_named(t, Seq::<u32>::empty(), name@) == Seq::<u32>::empty());
            assert(all_named(t, seq![id], name@) =~= (if t[id as int].name == name@ { seq![id] } else { Seq::<u32>::empty() }));
            assert(t[id as int].name == node.name@);
        }
        if str_eq(node.name.as_str(), name) {
            out.push(UiNodeId(id));
            assert(out@.map_values(|x: UiNodeId| x.0) =~= start + all_named(t, seq![id], name@));
        } else {
            assert(all_named(t, seq![id], name@) =~= Seq::<u32>::empty());
            assert(out@.map_values(|x: UiNodeId| x.0) =~= start + all_named(t, seq![id], name@));
        }
        let mut k: usize = 0;
        while k < node.children.len()
            invariant
                self.wf(),
                t == self.tree(),
                id < t.len(),
                node.view_node() == t[id as int],
                k <= node.children@.len(),
                out@.map_values(|x: UiNodeId| x.0) + all_named(t, preorder_children(t, id as int, k as int), name@)
                    == start + all_named(t, preorder(t, id as int), name@),
            decreases node.children@.len() - k,
        {
            let c = node.children[k];
            let ghost before = out@.map_values(|x: UiNodeId| x.0);
            proof {
                assert(t[id as int].children[k as int] == c.0);
                assert(id < t[id as int].children[k as int] < t.len());
                assert(preorder_children(t, id as int, k as int)
                    == preorder(t, c.0 as int) + preorder_children(t, id as int, k + 1));
                lemma_all_named_concat(t, preorder(t, c.0 as int), preorder_children(t, id as int, k + 1), name@);
            }
            self.collect_from(c.0, name, out);
            proof {
                let a = all_named(t, preorder(t, c.0 as int), name@);
                let b = all_named(t, preorder_children(t, id as int, k + 1), name@);
                assert(before + (a + b) =~= (before + a) + b);
            }
            k = k + 1;
        }
        proof {
            assert(preorder_children(t, id as int, k as int) == Seq::<u32>::empty());
            assert(all_named(t, Seq::<u32>::empty(), name@) == Seq::<u32>::empty());
            assert(out@.map_values(|x: UiNodeId| x.0) + Seq::<u32>::empty() =~= out@.map_values(|x: UiNodeId| x.0));
        }
    }

    /// Every node named `name`, depth first from the root.
    pub fn find_all_by_name(&self, name: &str) -> (r: Vec<UiNodeId>)
        requires
            self.wf(),
        ensures
            r@.map_values(|x: UiNodeId| x.0) == all_named(self.tree(), preorder(self.tree(), 0), name@),
    {
        let mut out: Vec<UiNodeId> = Vec::new();
        self.collect_from(0, name, &mut out);
        assert(Seq::<UiNodeId>::empty().map_values(|x: UiNodeId| x.0) + all_named(self.tree(), preorder(self.tree(), 0), name@)
            =~= all_named(self.tree(), preorder(self.tree(), 0), name@));
        out
    }

    /// The ids of the shown nodes, in id order: the nodes that are drawn.
    pub fn visible_nodes(&self) -> (r: Vec<UiNodeId>)
        requires
            self.wf(),
        ensures
            r@.map_values(|x: UiNodeId| x.0) == visible_ids(self.tree()),
    {
        let mut r: Vec<UiNodeId> = Vec::new();
        let mut i: usize = 0;
        while i < self.nodes.len()
            invariant
                self.wf(),
                i <= self.nodes@.len(),
                r@.map_values(|x: UiNodeId| x.0) == visible_ids(self.tree().subrange(0, i as int)),
            decreases self.nodes@.len() - i,
        {
            proof {
                let t = self.tree();
                assert(t.subrange(0, i + 1).drop_last() =~= t.subrange(0, i as int));
                assert(t.subrange(0, i + 1).last() == t[i as int]);
                assert(t[i as int] == self.nodes@[i as int].view_node());
                assert(t[i as int].id == i);
            }
            let ghost pre = r@;
            if self.nodes[i].visible {
                r.push(UiNodeId(i as u32));
                assert(r@.map_values(|x: UiNodeId| x.0) =~= pre.map_values(|x: UiNodeId| x.0).push(i as u32));
            }
            i = i + 1;
        }
        assert(self.tree().subrange(0, i as int) =~= self.tree());
        r
    }

    /// The node with id `id`.
    pub fn node(&self, id: UiNodeId) -> (r: Option<&UiNode>)
        ensures
            match r {
                Some(n) => id.0 < self.tree().len() && n.view_node() == self.tree()[id.0 as int],
                None => id.0 >= self.tree().len(),
            },
    {
        let i = id.0 as usize;
        if i < self.nodes.len() {
            Some(&self.nodes[i])
        } else {
            None
        }
    }

    /// What the node `id` draws.
    pub fn kind(&self, id: UiNodeId) -> (r: Option<&K>)
        ensures
            match r {
                Some(k) => id.0 < self.kinds().len() && *k == self.kinds()[id.0 as int],
                None => id.0 >= self.kinds().len(),
            },
    {
        let i = id.0 as usize;
        if i < self.kinds.len() {
            Some(&self.kinds[i])
        } else {
            None
        }
    }

    /// The kind of the node `id`, for changing it in place.
    pub fn node_mut(&mut self, id: UiNodeId) -> (r: Option<&mut K>)
        requires
            old(self).wf(),
        ensures
            final(self).tree() == old(self).tree(),
            final(self).wf(),
            final(self).space_of() == old(self).space_of(),
            final(self).is_dirty() == old(self).is_dirty(),
            match r {
                Some(k) => id.0 < old(self).tree().len() && *k == old(self).kinds()[id.0 as int]
                    && final(self).kinds() == old(self).kinds().update(id.0 as int, *final(k)),
                None => id.0 >= old(self).tree().len() && final(self).kinds() == old(self).kinds(),
            },
    {
        let i = id.0 as usize;
        if i < self.kinds.len() {
            Some(&mut self.kinds[i])
        } else {
            None
        }
    }

    /// Renames the node `id`; `false` when there is no such node.
    pub fn set_name(&mut self, id: UiNodeId, name: String) -> (r: bool)
        requires
            old(self).wf(),
        ensures
            final(self).wf(),
            r == (id.0 < old(self).tree().len()),
            r ==> final(self).tree() == old(self).tree().update(id.0 as int, UiNodeView { name: name@, ..old(self).tree()[id.0 as int] }),
            !r ==> final(self).tree() == old(self).tree(),
            final(self).kinds() == old(self).kinds(),
    {
        let i = id.0 as usize;
        if i >= self.nodes.len() {
            return false;
        }
        let ghost before = self.nodes@;
        let mut n = name;
        std::mem::swap(&mut n, &mut self.nodes[i].name);
        proof {
            let expected = node_views(before).update(id.0 as int, UiNodeView { name: self.nodes@[i as int].name@, ..node_views(before)[id.0 as int] });
            assert forall|k: int| 0 <= k < before.len() implies #[trigger] self.tree()[k] == expected[k] by {
                if k != i {
                    assert(self.nodes@[k] == before[k]);
                }
            }
            assert(self.tree() =~= expected);
        }
        true
    }

    /// Shows or hides the node `id`; `false` when there is no such node.
    pub fn set_visible(&mut self, id: UiNodeId, visible: bool) -> (r: bool)
        requires
            old(self).wf(),
        ensures
            final(self).wf(),
            r == (id.0 < old(self).tree().len()),
            r ==> final(self).tree() == old(self).tree().update(id.0 as int, UiNodeView { visible, ..old(self).tree()[id.0 as int] }),
            !r ==> final(self).tree() == old(self).tree(),
            final(self).kinds() == old(self).kinds(),
    {
        let i = id.0 as usize;
        if i >= self.nodes.len() {
            return false;
        }
        let ghost before = self.nodes@;
        let mut v = visible;
        std::mem::swap(&mut v, &mut self.nodes[i].visible);
        proof {
            let expected = node_views(before).update(id.0 as int, UiNodeView { visible, ..node_views(before)[id.0 as int] });
            assert forall|k: int| 0 <= k < before.len() implies #[trigger] self.tree()[k] == expected[k] by {
                if k != i {
                    assert(self.nodes@[k] == before[k]);
                }
            }
            assert(self.tree() =~= expected);
        }
        true
    }
}

} // verus!
