//! The mathematical model of the object hierarchy: each object's id, its
//! parent and its children, with the properties the world keeps (links that
//! mirror each other, no cycles) and the facts the world's operations rely on.
use vstd::prelude::*;

verus! {

pub type ObjectId = u64;

/// One object's place in the hierarchy.
pub struct Node {
    pub id: ObjectId,
    pub parent: Option<ObjectId>,
    pub children: Seq<ObjectId>,
}

/// Whether an object with `id` is present.
pub open spec fn contains_id(h: Seq<Node>, id: ObjectId) -> bool {
    exists|i: int| 0 <= i < h.len() && #[trigger] h[i].id == id
}

/// The position of the object with `id` (meaningful when it is present).
pub open spec fn pos(h: Seq<Node>, id: ObjectId) -> int {
    choose|i: int| 0 <= i < h.len() && #[trigger] h[i].id == id
}

/// The parent of `id`, or `None` when it has none or is not present.
pub open spec fn parent_of(h: Seq<Node>, id: ObjectId) -> Option<ObjectId> {
    if contains_id(h, id) {
        h[pos(h, id)].parent
    } else {
        None
    }
}

/// The children of `id`, or none when it is not present.
pub open spec fn children_of(h: Seq<Node>, id: ObjectId) -> Seq<ObjectId> {
    if contains_id(h, id) {
        h[pos(h, id)].children
    } else {
        Seq::empty()
    }
}

pub open spec fn unique_ids(h: Seq<Node>) -> bool {
    forall|i: int, j: int| 0 <= i < h.len() && 0 <= j < h.len() && i != j ==> #[trigger] h[i].id != #[trigger] h[j].id
}

/// `x`'s ancestor `n` steps up (`x` itself for `n == 0`); `None` once the
/// chain leaves the hierarchy.
pub open spec fn nth_parent(h: Seq<Node>, x: ObjectId, n: nat) -> Option<ObjectId>
    decreases n,
{
    if n == 0 {
        Some(x)
    } else {
        match nth_parent(h, x, (n - 1) as nat) {
            Some(y) => parent_of(h, y),
            None => None,
        }
    }
}

/// Whether `a` is a proper ancestor of `x`.
pub open spec fn is_ancestor(h: Seq<Node>, a: ObjectId, x: ObjectId) -> bool {
    exists|k: nat| k >= 1 && #[trigger] nth_parent(h, x, k) == Some(a)
}

/// Parent and child links mirror each other, ids are distinct, nobody is
/// their own parent and no child is listed twice.
pub open spec fn consistent(h: Seq<Node>) -> bool {
    &&& unique_ids(h)
    &&& forall|i: int| 0 <= i < h.len() ==> (#[trigger] h[i].parent matches Some(p) ==> p != h[i].id && contains_id(h, p) && children_of(h, p).contains(h[i].id))
    &&& forall|i: int, c: ObjectId| 0 <= i < h.len() && #[trigger] h[i].children.contains(c) ==> contains_id(h, c) && parent_of(h, c) == Some(h[i].id)
    &&& forall|i: int| 0 <= i < h.len() ==> (#[trigger] h[i].children).no_duplicates()
}

/// Every chain of parents ends: there are no cycles.
pub open spec fn acyclic(h: Seq<Node>) -> bool {
    forall|x: ObjectId| #[trigger] contains_id(h, x) ==> exists|n: nat| #[trigger] nth_parent(h, x, n) is None
}

/// A well-formed hierarchy.
pub open spec fn tree(h: Seq<Node>) -> bool {
    consistent(h) && acyclic(h)
}

/// The ids in order.
pub open spec fn ids(h: Seq<Node>) -> Seq<ObjectId> {
    h.map_values(|n: Node| n.id)
}

/// The ids of the objects without a parent, in order.
pub open spec fn root_ids(h: Seq<Node>) -> Seq<ObjectId>
    decreases h.len(),
{
    if h.len() == 0 {
        Seq::empty()
    } else {
        let r = root_ids(h.drop_last());
        if h.last().parent is None {
            r.push(h.last().id)
        } else {
            r
        }
    }
}

pub proof fn lemma_pos(h: Seq<Node>, i: int)
    requires
        unique_ids(h),
        0 <= i < h.len(),
    ensures
        contains_id(h, h[i].id),
        pos(h, h[i].id) == i,
{
    assert(h[i].id == h[i].id);
    let j = pos(h, h[i].id);
}

pub proof fn lemma_pos_of(h: Seq<Node>, id: ObjectId)
    requires
        contains_id(h, id),
    ensures
        0 <= pos(h, id) < h.len(),
        h[pos(h, id)].id == id,
{
}

/// Once a chain leaves the hierarchy it stays out.
pub proof fn lemma_nth_none_stays(h: Seq<Node>, x: ObjectId, a: nat, b: nat)
    requires
        a <= b,
        nth_parent(h, x, a) is None,
    ensures
        nth_parent(h, x, b) is None,
    decreases b - a,
{
    if a < b {
        lemma_nth_none_stays(h, x, a, (b - 1) as nat);
    }
}

/// Walking `a` steps and then `b` steps is walking `a + b` steps.
pub proof fn lemma_nth_add(h: Seq<Node>, x: ObjectId, a: nat, b: nat)
    requires
        nth_parent(h, x, a) is Some,
    ensures
        nth_parent(h, x, a + b) == nth_parent(h, nth_parent(h, x, a)->0, b),
    decreases b,
{
    if b > 0 {
        lemma_nth_add(h, x, a, (b - 1) as nat);
    }
}

/// A parent function that only ever drops links keeps chains ending.
pub proof fn lemma_acyclic_when_links_dropped(h: Seq<Node>, h2: Seq<Node>)
    requires
        acyclic(h),
        forall|y: ObjectId| #[trigger] parent_of(h2, y) is None || parent_of(h2, y) == parent_of(h, y),
    ensures
        acyclic(h2),
{
    assert forall|x: ObjectId| #[trigger] contains_id(h2, x) implies exists|n: nat| #[trigger] nth_parent(h2, x, n) is None by {
        if contains_id(h, x) {
            let n = choose|n: nat| #[trigger] nth_parent(h, x, n) is None;
            lemma_chain_shrinks(h, h2, x, n);
        } else {
            assert(nth_parent(h, x, 0) == Some(x));
            assert(nth_parent(h, x, 1) is None);
            lemma_chain_shrinks(h, h2, x, 1);
        }
    }
}

proof fn lemma_chain_shrinks(h: Seq<Node>, h2: Seq<Node>, x: ObjectId, n: nat)
    requires
        forall|y: ObjectId| #[trigger] parent_of(h2, y) is None || parent_of(h2, y) == parent_of(h, y),
    ensures
        nth_parent(h2, x, n) is None || nth_parent(h2, x, n) == nth_parent(h, x, n),
    decreases n,
{
    if n > 0 {
        lemma_chain_shrinks(h, h2, x, (n - 1) as nat);
        let prev2 = nth_parent(h2, x, (n - 1) as nat);
        if let Some(y) = prev2 {
            assert(parent_of(h2, y) is None || parent_of(h2, y) == parent_of(h, y));
        }
    }
}

/// In a hierarchy whose chains end, the chain from `x` never returns to `x`.
pub proof fn lemma_no_self_ancestor(h: Seq<Node>, x: ObjectId, k: nat)
    requires
        acyclic(h),
        k >= 1,
    ensures
        nth_parent(h, x, k) != Some(x),
{
    if nth_parent(h, x, k) != Some(x) {
    } else if contains_id(h, x) {
        let n = choose|n: nat| #[trigger] nth_parent(h, x, n) is None;
        lemma_periodic(h, x, k, n);
    } else {
        // x is absent, so its first step already leaves the hierarchy.
        assert(nth_parent(h, x, 0) == Some(x));
        assert(nth_parent(h, x, 1) is None);
        lemma_nth_none_stays(h, x, 1, k);
    }
}

proof fn lemma_periodic(h: Seq<Node>, x: ObjectId, k: nat, n: nat)
    requires
        k >= 1,
        nth_parent(h, x, k) == Some(x),
    ensures
        nth_parent(h, x, n) is Some,
    decreases n,
{
    if n >= k {
        lemma_periodic(h, x, k, (n - k) as nat);
        lemma_nth_add(h, x, k, (n - k) as nat);
        assert((k + (n - k)) as nat == n);
    } else {
        if nth_parent(h, x, n) is None {
            lemma_nth_none_stays(h, x, n, k);
        }
    }
}


/// Adding a node with a fresh id and no links keeps every other object's
/// position and links.
pub proof fn lemma_push_node(h: Seq<Node>, n: Node)
    requires
        unique_ids(h),
        !contains_id(h, n.id),
    ensures
        unique_ids(h.push(n)),
        contains_id(h.push(n), n.id),
        pos(h.push(n), n.id) == h.len(),
        parent_of(h.push(n), n.id) == n.parent,
        children_of(h.push(n), n.id) == n.children,
        forall|y: ObjectId| y != n.id ==> (#[trigger] contains_id(h.push(n), y) == contains_id(h, y)),
        forall|y: ObjectId| y != n.id && contains_id(h, y) ==> #[trigger] pos(h.push(n), y) == pos(h, y),
        forall|y: ObjectId| y != n.id ==> #[trigger] parent_of(h.push(n), y) == parent_of(h, y),
        forall|y: ObjectId| y != n.id ==> #[trigger] children_of(h.push(n), y) == children_of(h, y),
{
    let h2 = h.push(n);
    assert forall|i: int, j: int| 0 <= i < h2.len() && 0 <= j < h2.len() && i != j implies #[trigger] h2[i].id != #[trigger] h2[j].id by {
        if i < h.len() && j < h.len() {
            assert(h2[i] == h[i] && h2[j] == h[j]);
        } else if i < h.len() {
            assert(h2[i] == h[i]);
            assert(h[i].id != n.id);
        } else {
            assert(h2[j] == h[j]);
            assert(h[j].id != n.id);
        }
    }
    assert(h2[h.len() as int].id == n.id);
    lemma_pos(h2, h.len() as int);
    assert forall|y: ObjectId| y != n.id implies (#[trigger] contains_id(h2, y) == contains_id(h, y)) by {
        if contains_id(h, y) {
            let i = pos(h, y);
            assert(h2[i].id == y);
        }
        if contains_id(h2, y) {
            let i = pos(h2, y);
            assert(i < h.len());
            assert(h[i].id == y);
        }
    }
    assert forall|y: ObjectId| y != n.id && contains_id(h, y) implies #[trigger] pos(h2, y) == pos(h, y) by {
        let i = pos(h, y);
        assert(h2[i] == h[i]);
        lemma_pos(h2, i);
    }
    assert forall|y: ObjectId| y != n.id implies #[trigger] parent_of(h2, y) == parent_of(h, y) by {
        if contains_id(h, y) {
            assert(pos(h2, y) == pos(h, y));
            assert(h2[pos(h, y)] == h[pos(h, y)]);
        }
    }
    assert forall|y: ObjectId| y != n.id implies #[trigger] children_of(h2, y) == children_of(h, y) by {
        if contains_id(h, y) {
            assert(pos(h2, y) == pos(h, y));
            assert(h2[pos(h, y)] == h[pos(h, y)]);
        }
    }
}

/// Whether the chain from `x` reaches `a` with no object repeated on the
/// way; with no cycles this is `is_ancestor`.
pub proof fn lemma_chain_distinct(h: Seq<Node>, x: ObjectId, i: nat, j: nat)
    requires
        acyclic(h),
        1 <= i < j,
        nth_parent(h, x, i) is Some,
    ensures
        nth_parent(h, x, i) != nth_parent(h, x, j),
{
    let y = nth_parent(h, x, i)->0;
    lemma_nth_add(h, x, i, (j - i) as nat);
    assert((i + (j - i)) as nat == j);
    lemma_no_self_ancestor(h, y, (j - i) as nat);
}


/// `s` without any occurrence of `x`.
pub open spec fn without(s: Seq<ObjectId>, x: ObjectId) -> Seq<ObjectId>
    decreases s.len(),
{
    if s.len() == 0 {
        s
    } else {
        let w = without(s.drop_last(), x);
        if s.last() == x {
            w
        } else {
            w.push(s.last())
        }
    }
}

pub proof fn lemma_without(s: Seq<ObjectId>, x: ObjectId)
    ensures
        !without(s, x).contains(x),
        forall|y: ObjectId| y != x ==> (#[trigger] without(s, x).contains(y) == s.contains(y)),
        s.no_duplicates() ==> without(s, x).no_duplicates(),
    decreases s.len(),
{
    if s.len() > 0 {
        let t = s.drop_last();
        lemma_without(t, x);
        let w = without(t, x);
        assert(s == t.push(s.last()));
        assert forall|y: ObjectId| y != x implies (#[trigger] without(s, x).contains(y) == s.contains(y)) by {
            vstd::seq_lib::lemma_seq_contains_after_push(t, s.last(), y);
            vstd::seq_lib::lemma_seq_contains_after_push(w, s.last(), y);
            assert(w.contains(y) == t.contains(y));
        }
        if s.no_duplicates() {
            assert(t.no_duplicates()) by {
                assert forall|a: int, b: int| 0 <= a < b < t.len() implies t[a] != t[b] by {
                    assert(s[a] == t[a] && s[b] == t[b]);
                }
            }
            if s.last() != x {
                assert(!t.contains(s.last())) by {
                    if t.contains(s.last()) {
                        let k = choose|k: int| 0 <= k < t.len() && t[k] == s.last();
                        assert(s[k] == s[s.len() - 1]);
                    }
                }
                assert(!w.contains(s.last()));
                assert forall|a: int, b: int| 0 <= a < b < w.push(s.last()).len() implies w.push(s.last())[a] != w.push(s.last())[b] by {
                    if b == w.len() {
                        assert(w.push(s.last())[a] == w[a]);
                    } else {
                        assert(w.push(s.last())[a] == w[a]);
                        assert(w.push(s.last())[b] == w[b]);
                    }
                }
            }
        }
        if without(s, x).contains(x) {
            let k = choose|k: int| 0 <= k < without(s, x).len() && without(s, x)[k] == x;
            if k < w.len() {
                assert(w[k] == x);
            }
        }
    }
}

/// The hierarchy with `c` moved under `np` (or made a root): `c`'s old
/// parent forgets it, and the new parent lists it last.
pub open spec fn reparent(h: Seq<Node>, c: ObjectId, np: Option<ObjectId>) -> Seq<Node> {
    let op = parent_of(h, c);
    Seq::new(
        h.len(),
        |i: int|
            if h[i].id == c {
                Node { id: h[i].id, parent: np, children: h[i].children }
            } else if op == Some(h[i].id) {
                Node { id: h[i].id, parent: h[i].parent, children: without(h[i].children, c) }
            } else if np == Some(h[i].id) {
                Node { id: h[i].id, parent: h[i].parent, children: h[i].children.push(c) }
            } else {
                h[i]
            },
    )
}

/// Two hierarchies with the same ids at the same positions find every id
/// at the same position.
pub proof fn lemma_same_ids(h: Seq<Node>, h2: Seq<Node>)
    requires
        unique_ids(h),
        h2.len() == h.len(),
        forall|i: int| 0 <= i < h.len() ==> #[trigger] h2[i].id == h[i].id,
    ensures
        unique_ids(h2),
        forall|y: ObjectId| #[trigger] contains_id(h2, y) == contains_id(h, y),
        forall|y: ObjectId| contains_id(h, y) ==> #[trigger] pos(h2, y) == pos(h, y),
{
    assert forall|i: int, j: int| 0 <= i < h2.len() && 0 <= j < h2.len() && i != j implies #[trigger] h2[i].id != #[trigger] h2[j].id by {
        assert(h2[i].id == h[i].id && h2[j].id == h[j].id);
    }
    assert forall|y: ObjectId| #[trigger] contains_id(h2, y) == contains_id(h, y) by {
        if contains_id(h, y) {
            let i = pos(h, y);
            assert(h2[i].id == y);
        }
        if contains_id(h2, y) {
            let i = pos(h2, y);
            assert(h[i].id == y);
        }
    }
    assert forall|y: ObjectId| contains_id(h, y) implies #[trigger] pos(h2, y) == pos(h, y) by {
        let i = pos(h, y);
        assert(h2[i].id == y);
        lemma_pos(h2, i);
    }
}

/// Chains that do not pass through `c` are the same before and after `c` is moved.
proof fn lemma_chain_avoiding(h: Seq<Node>, h2: Seq<Node>, c: ObjectId, x: ObjectId, n: nat)
    requires
        forall|y: ObjectId| y != c ==> #[trigger] parent_of(h2, y) == parent_of(h, y),
        forall|k: nat| k < n ==> #[trigger] nth_parent(h, x, k) != Some(c),
    ensures
        nth_parent(h2, x, n) == nth_parent(h, x, n),
    decreases n,
{
    if n > 0 {
        lemma_chain_avoiding(h, h2, c, x, (n - 1) as nat);
        assert(nth_parent(h, x, (n - 1) as nat) != Some(c));
    }
}

/// The first step at which the chain from `x` reaches `c`, if it does before `n`.
proof fn lemma_first_hit(h: Seq<Node>, c: ObjectId, x: ObjectId, n: nat) -> (k: Option<nat>)
    ensures
        match k {
            Some(k0) => k0 < n && nth_parent(h, x, k0) == Some(c) && forall|j: nat| j < k0 ==> #[trigger] nth_parent(h, x, j) != Some(c),
            None => forall|j: nat| j < n ==> #[trigger] nth_parent(h, x, j) != Some(c),
        },
    decreases n,
{
    if n == 0 {
        None
    } else {
        let r = lemma_first_hit(h, c, x, (n - 1) as nat);
        match r {
            Some(k0) => Some(k0),
            None => if nth_parent(h, x, (n - 1) as nat) == Some(c) {
                Some((n - 1) as nat)
            } else {
                assert forall|j: nat| j < n implies #[trigger] nth_parent(h, x, j) != Some(c) by {
                    if j < n - 1 {
                    }
                }
                None
            },
        }
    }
}

/// Moving `c` under `np` keeps a tree a tree, when `np` is present, is not
/// `c` and does not have `c` as an ancestor.
pub proof fn lemma_reparent_keeps_tree(h: Seq<Node>, c: ObjectId, np: Option<ObjectId>)
    requires
        tree(h),
        contains_id(h, c),
        np != Some(c),
        np matches Some(p) ==> contains_id(h, p) && !is_ancestor(h, c, p),
        parent_of(h, c) != np,
    ensures
        tree(reparent(h, c, np)),
        forall|y: ObjectId| #[trigger] contains_id(reparent(h, c, np), y) == contains_id(h, y),
        forall|y: ObjectId| contains_id(h, y) ==> #[trigger] pos(reparent(h, c, np), y) == pos(h, y),
        parent_of(reparent(h, c, np), c) == np,
        forall|y: ObjectId| y != c ==> #[trigger] parent_of(reparent(h, c, np), y) == parent_of(h, y),
{
    let h2 = reparent(h, c, np);
    let op = parent_of(h, c);
    lemma_same_ids(h, h2);
    let ci = pos(h, c);
    lemma_pos_of(h, c);
    assert forall|y: ObjectId| y != c implies #[trigger] parent_of(h2, y) == parent_of(h, y) by {
        if contains_id(h, y) {
            lemma_pos_of(h, y);
        }
    }
    assert(parent_of(h2, c) == np);
    // Links mirror each other.
    assert forall|i: int| 0 <= i < h2.len() implies (#[trigger] h2[i].parent matches Some(p) ==> p != h2[i].id && contains_id(h2, p) && children_of(h2, p).contains(h2[i].id)) by {
        if let Some(p) = h2[i].parent {
            lemma_pos(h, i);
            if h[i].id == c {
                assert(p == np->0);
                let pi = pos(h, p);
                lemma_pos_of(h, p);
                assert(h2[pi].children == h[pi].children.push(c));
                assert(h2[pi].children[h[pi].children.len() as int] == c);
            } else {
                assert(h2[i].parent == h[i].parent);
                assert(contains_id(h, p) && children_of(h, p).contains(h[i].id));
                let pi = pos(h, p);
                lemma_pos_of(h, p);
                if op == Some(p) {
                    lemma_without(h[pi].children, c);
                    assert(without(h[pi].children, c).contains(h[i].id));
                } else if np == Some(p) {
                    let k = choose|k: int| 0 <= k < h[pi].children.len() && h[pi].children[k] == h[i].id;
                    assert(h2[pi].children[k] == h[i].id);
                }
            }
        }
    }
    assert forall|i: int, x: ObjectId| 0 <= i < h2.len() && #[trigger] h2[i].children.contains(x) implies contains_id(h2, x) && parent_of(h2, x) == Some(h2[i].id) by {
        lemma_pos(h, i);
        if h[i].id == c {
            assert(h[i].children.contains(x));
            assert(parent_of(h, x) == Some(c));
            lemma_pos_of(h, x);
            assert(x != c);
        } else if op == Some(h[i].id) {
            lemma_without(h[i].children, c);
            assert(h[i].children.contains(x));
            assert(x != c);
        } else if np == Some(h[i].id) {
            if x != c {
                let k = choose|k: int| 0 <= k < h2[i].children.len() && h2[i].children[k] == x;
                if k < h[i].children.len() {
                    assert(h[i].children[k] == x);
                }
                assert(h[i].children.contains(x));
            }
        } else {
            assert(h[i].children.contains(x));
            if x == c {
                assert(parent_of(h, c) == Some(h[i].id));
            }
        }
    }
    assert forall|i: int| 0 <= i < h2.len() implies (#[trigger] h2[i].children).no_duplicates() by {
        lemma_pos(h, i);
        assert(h[i].children.no_duplicates());
        if h[i].id == c {
        } else if op == Some(h[i].id) {
            lemma_without(h[i].children, c);
        } else if np == Some(h[i].id) {
            assert(!h[i].children.contains(c)) by {
                if h[i].children.contains(c) {
                    assert(parent_of(h, c) == Some(h[i].id));
                }
            }
            assert forall|a: int, b: int| 0 <= a < b < h2[i].children.len() implies h2[i].children[a] != h2[i].children[b] by {
                if b == h[i].children.len() {
                    assert(h[i].children[a] == h2[i].children[a]);
                }
            }
        }
    }
    // No cycles.
    assert forall|x: ObjectId| #[trigger] contains_id(h2, x) implies exists|n: nat| #[trigger] nth_parent(h2, x, n) is None by {
        let nx = choose|n: nat| #[trigger] nth_parent(h, x, n) is None;
        match lemma_first_hit(h, c, x, nx) {
            None => {
                lemma_chain_avoiding(h, h2, c, x, nx);
            },
            Some(k0) => {
                lemma_chain_avoiding(h, h2, c, x, k0);
                assert(nth_parent(h2, x, k0 + 1) == np);
                match np {
                    None => {},
                    Some(p) => {
                        let np_end = choose|n: nat| #[trigger] nth_parent(h, p, n) is None;
                        assert forall|k: nat| k < np_end implies #[trigger] nth_parent(h, p, k) != Some(c) by {
                            if k == 0 {
                            } else {
                                assert(!is_ancestor(h, c, p));
                            }
                        }
                        lemma_chain_avoiding(h, h2, c, p, np_end);
                        lemma_nth_add(h2, x, k0 + 1, np_end);
                        assert(nth_parent(h2, x, k0 + 1 + np_end) is None);
                    },
                }
            },
        }
    }
}

/// `x` and every object below it, when `x` is present; nothing otherwise.
pub open spec fn subtree(h: Seq<Node>, x: ObjectId) -> Set<ObjectId> {
    Set::new(|y: ObjectId| contains_id(h, x) && (y == x || is_ancestor(h, x, y)))
}

/// `s` without the ids in `set`, in order.
pub open spec fn drop_listed(s: Seq<ObjectId>, set: Set<ObjectId>) -> Seq<ObjectId>
    decreases s.len(),
{
    if s.len() == 0 {
        s
    } else {
        let r = drop_listed(s.drop_last(), set);
        if set.contains(s.last()) {
            r
        } else {
            r.push(s.last())
        }
    }
}

pub proof fn lemma_drop_listed_nothing(s: Seq<ObjectId>, set: Set<ObjectId>)
    requires
        forall|k: int| 0 <= k < s.len() ==> !set.contains(#[trigger] s[k]),
    ensures
        drop_listed(s, set) == s,
    decreases s.len(),
{
    if s.len() > 0 {
        lemma_drop_listed_nothing(s.drop_last(), set);
        assert(s.drop_last().push(s.last()) =~= s);
    }
}

/// One step up from `c` reaches `nth_parent(h, c, 1)`, its parent.
pub proof fn lemma_one_step(h: Seq<Node>, c: ObjectId)
    ensures
        nth_parent(h, c, 0) == Some(c),
        nth_parent(h, c, 1) == parent_of(h, c),
{
    assert(nth_parent(h, c, 0) == Some(c));
}

/// A child of `x`, or of an object below `x`, is below `x`.
pub proof fn lemma_child_below(h: Seq<Node>, x: ObjectId, y: ObjectId, c: ObjectId)
    requires
        parent_of(h, c) == Some(y),
        y == x || is_ancestor(h, x, y),
    ensures
        is_ancestor(h, x, c),
{
    lemma_one_step(h, c);
    if y != x {
        let k = choose|k: nat| k >= 1 && #[trigger] nth_parent(h, y, k) == Some(x);
        lemma_nth_add(h, c, 1, k);
        assert(nth_parent(h, c, 1 + k) == Some(x));
    }
}

/// An object below `x` has a parent, and that parent is `x` or below `x`.
pub proof fn lemma_parent_below(h: Seq<Node>, x: ObjectId, c: ObjectId)
    requires
        is_ancestor(h, x, c),
    ensures
        parent_of(h, c) is Some,
        parent_of(h, c)->0 == x || is_ancestor(h, x, parent_of(h, c)->0),
{
    let k = choose|k: nat| k >= 1 && #[trigger] nth_parent(h, c, k) == Some(x);
    lemma_one_step(h, c);
    if nth_parent(h, c, 1) is None {
        lemma_nth_none_stays(h, c, 1, k);
    }
    if k > 1 {
        lemma_nth_add(h, c, 1, (k - 1) as nat);
        assert((1 + (k - 1)) as nat == k);
        let p = parent_of(h, c)->0;
        assert(nth_parent(h, p, (k - 1) as nat) == Some(x));
    }
}

/// A set of ids that holds the children of `x` and the children of each of
/// its members holds everything below `x`.
pub proof fn lemma_closed_holds_below(h: Seq<Node>, x: ObjectId, r: Seq<ObjectId>, y: ObjectId, k: nat)
    requires
        consistent(h),
        k >= 1,
        nth_parent(h, y, k) == Some(x),
        forall|c: ObjectId| #[trigger] children_of(h, x).contains(c) ==> r.contains(c),
        forall|z: ObjectId, c: ObjectId| r.contains(z) && #[trigger] children_of(h, z).contains(c) ==> r.contains(c),
    ensures
        r.contains(y),
    decreases k,
{
    lemma_one_step(h, y);
    if nth_parent(h, y, 1) is None {
        lemma_nth_none_stays(h, y, 1, k);
    }
    let p = parent_of(h, y)->0;
    lemma_pos_of(h, y);
    assert(h[pos(h, y)].parent == Some(p));
    lemma_pos_of(h, p);
    assert(children_of(h, p).contains(y));
    if k > 1 {
        lemma_nth_add(h, y, 1, (k - 1) as nat);
        assert((1 + (k - 1)) as nat == k);
        lemma_closed_holds_below(h, x, r, p, (k - 1) as nat);
    }
}

/// Removing the object at index `i` (and the item beside it in `o`) leaves
/// every other object with its node and its item.
pub proof fn lemma_remove_at<T>(h: Seq<Node>, o: Seq<T>, i: int)
    requires
        unique_ids(h),
        o.len() == h.len(),
        0 <= i < h.len(),
    ensures
        unique_ids(h.remove(i)),
        o.remove(i).len() == h.remove(i).len(),
        forall|y: ObjectId| #[trigger] contains_id(h.remove(i), y) == (contains_id(h, y) && y != h[i].id),
        forall|y: ObjectId| #[trigger] contains_id(h.remove(i), y) ==>
            h.remove(i)[pos(h.remove(i), y)] == h[pos(h, y)] && o.remove(i)[pos(h.remove(i), y)] == o[pos(h, y)],
{
    let h2 = h.remove(i);
    let o2 = o.remove(i);
    assert forall|k: int| 0 <= k < h2.len() implies #[trigger] h2[k] == h[if k < i { k } else { k + 1 }]
        && o2[k] == o[if k < i { k } else { k + 1 }] by {
    }
    assert forall|a: int, b: int| 0 <= a < h2.len() && 0 <= b < h2.len() && a != b implies #[trigger] h2[a].id != #[trigger] h2[b].id by {
        let a1 = if a < i { a } else { a + 1 };
        let b1 = if b < i { b } else { b + 1 };
        assert(h2[a] == h[a1] && h2[b] == h[b1]);
    }
    assert forall|y: ObjectId| #[trigger] contains_id(h2, y) == (contains_id(h, y) && y != h[i].id) by {
        if contains_id(h2, y) {
            let k = pos(h2, y);
            let k1 = if k < i { k } else { k + 1 };
            assert(h2[k] == h[k1]);
            assert(h[k1].id == y);
        }
        if contains_id(h, y) && y != h[i].id {
            let p = pos(h, y);
            let k = if p < i { p } else { p - 1 };
            assert(h2[k] == h[if k < i { k } else { k + 1 }]);
            assert(h2[k].id == y);
        }
    }
    assert forall|y: ObjectId| #[trigger] contains_id(h2, y) implies
        h2[pos(h2, y)] == h[pos(h, y)] && o2[pos(h2, y)] == o[pos(h, y)] by {
        let k = pos(h2, y);
        let k1 = if k < i { k } else { k + 1 };
        assert(h2[k] == h[k1] && o2[k] == o[k1]);
        lemma_pos(h, k1);
    }
}

/// Removing `x` and everything below it, with `x`'s parent forgetting `x`
/// and every other link kept, leaves a tree.
pub proof fn lemma_restrict_tree(h: Seq<Node>, h2: Seq<Node>, x: ObjectId)
    requires
        tree(h),
        unique_ids(h2),
        forall|y: ObjectId| #[trigger] contains_id(h2, y) == (contains_id(h, y) && !subtree(h, x).contains(y)),
        forall|y: ObjectId| #[trigger] contains_id(h2, y) ==> parent_of(h2, y) == parent_of(h, y),
        forall|y: ObjectId| #[trigger] contains_id(h2, y) ==> children_of(h2, y) == (if parent_of(h, x) == Some(y) {
            without(children_of(h, y), x)
        } else {
            children_of(h, y)
        }),
    ensures
        tree(h2),
{
    let s = subtree(h, x);
    assert forall|i: int| 0 <= i < h2.len() implies (#[trigger] h2[i].parent matches Some(p) ==> p != h2[i].id && contains_id(h2, p) && children_of(h2, p).contains(h2[i].id)) by {
        lemma_pos(h2, i);
        let y = h2[i].id;
        if let Some(p) = h2[i].parent {
            assert(parent_of(h, y) == Some(p));
            lemma_pos_of(h, y);
            assert(h[pos(h, y)].parent == Some(p));
            assert(p != y && contains_id(h, p) && children_of(h, p).contains(y));
            assert(!s.contains(p)) by {
                if s.contains(p) {
                    lemma_child_below(h, x, p, y);
                    assert(s.contains(y));
                }
            }
            if parent_of(h, x) == Some(p) {
                lemma_without(children_of(h, p), x);
                assert(y != x);
            }
        }
    }
    assert forall|i: int, c: ObjectId| 0 <= i < h2.len() && #[trigger] h2[i].children.contains(c) implies contains_id(h2, c) && parent_of(h2, c) == Some(h2[i].id) by {
        lemma_pos(h2, i);
        let y = h2[i].id;
        lemma_pos_of(h, y);
        if parent_of(h, x) == Some(y) {
            lemma_without(children_of(h, y), x);
        }
        assert(children_of(h, y).contains(c));
        assert(h[pos(h, y)].children.contains(c));
        assert(contains_id(h, c) && parent_of(h, c) == Some(y));
        assert(!s.contains(c)) by {
            if s.contains(c) {
                if c == x {
                } else {
                    lemma_parent_below(h, x, c);
                    assert(s.contains(y));
                }
            }
        }
    }
    assert forall|i: int| 0 <= i < h2.len() implies (#[trigger] h2[i].children).no_duplicates() by {
        lemma_pos(h2, i);
        let y = h2[i].id;
        lemma_pos_of(h, y);
        assert(h[pos(h, y)].children.no_duplicates());
        if parent_of(h, x) == Some(y) {
            lemma_without(children_of(h, y), x);
        }
    }
    assert forall|y: ObjectId| #[trigger] parent_of(h2, y) is None || parent_of(h2, y) == parent_of(h, y) by {
    }
    lemma_acyclic_when_links_dropped(h, h2);
}

/// A chain of parents only passes through present objects.
pub proof fn lemma_chain_present(h: Seq<Node>, y: ObjectId, x: ObjectId)
    requires
        consistent(h),
        is_ancestor(h, x, y),
    ensures
        contains_id(h, x),
{
    let k = choose|k: nat| k >= 1 && #[trigger] nth_parent(h, y, k) == Some(x);
    lemma_chain_steps_present(h, y, k);
}

proof fn lemma_chain_steps_present(h: Seq<Node>, y: ObjectId, k: nat)
    requires
        consistent(h),
        k >= 1,
        nth_parent(h, y, k) is Some,
    ensures
        contains_id(h, nth_parent(h, y, k)->0),
    decreases k,
{
    let prev = nth_parent(h, y, (k - 1) as nat);
    if prev is None {
        lemma_nth_none_stays(h, y, (k - 1) as nat, k);
    }
    let z = prev->0;
    assert(nth_parent(h, y, k) == parent_of(h, z));
    lemma_pos_of(h, z);
    let p = parent_of(h, z)->0;
    assert(h[pos(h, z)].parent == Some(p));
}

/// The ids of the objects whose parent is `y`, in object order.
pub open spec fn children_in_order(h: Seq<Node>, y: ObjectId) -> Seq<ObjectId>
    decreases h.len(),
{
    if h.len() == 0 {
        Seq::empty()
    } else {
        let r = children_in_order(h.drop_last(), y);
        if h.last().parent == Some(y) {
            r.push(h.last().id)
        } else {
            r
        }
    }
}

pub proof fn lemma_children_in_order(h: Seq<Node>, y: ObjectId)
    requires
        unique_ids(h),
    ensures
        children_in_order(h, y).no_duplicates(),
        forall|c: ObjectId| #[trigger] children_in_order(h, y).contains(c)
            <==> exists|i: int| 0 <= i < h.len() && h[i].parent == Some(y) && #[trigger] h[i].id == c,
    decreases h.len(),
{
    if h.len() > 0 {
        let t = h.drop_last();
        assert(unique_ids(t)) by {
            assert forall|i: int, j: int| 0 <= i < t.len() && 0 <= j < t.len() && i != j implies #[trigger] t[i].id != #[trigger] t[j].id by {
                assert(t[i] == h[i] && t[j] == h[j]);
            }
        }
        lemma_children_in_order(t, y);
        let r = children_in_order(t, y);
        let last = h.last();
        assert forall|c: ObjectId| #[trigger] children_in_order(h, y).contains(c)
            <==> exists|i: int| 0 <= i < h.len() && h[i].parent == Some(y) && #[trigger] h[i].id == c by {
            if last.parent == Some(y) {
                vstd::seq_lib::lemma_seq_contains_after_push(r, last.id, c);
            }
            if exists|i: int| 0 <= i < h.len() && h[i].parent == Some(y) && #[trigger] h[i].id == c {
                let i = choose|i: int| 0 <= i < h.len() && h[i].parent == Some(y) && #[trigger] h[i].id == c;
                if i < t.len() {
                    assert(t[i] == h[i]);
                    assert(t[i].id == c);
                }
            }
            if r.contains(c) {
                let i = choose|i: int| 0 <= i < t.len() && t[i].parent == Some(y) && #[trigger] t[i].id == c;
                assert(h[i] == t[i]);
                assert(h[i].id == c);
            }
        }
        if last.parent == Some(y) {
            assert(!r.contains(last.id)) by {
                if r.contains(last.id) {
                    let i = choose|i: int| 0 <= i < t.len() && t[i].parent == Some(y) && #[trigger] t[i].id == last.id;
                    assert(h[i] == t[i]);
                    assert(h[h.len() - 1].id == last.id);
                }
            }
            assert forall|a: int, b: int| 0 <= a < b < r.push(last.id).len() implies r.push(last.id)[a] != r.push(last.id)[b] by {
                if b == r.len() {
                    assert(r.push(last.id)[a] == r[a]);
                    assert(r.contains(r[a]));
                } else {
                    assert(r.push(last.id)[a] == r[a] && r.push(last.id)[b] == r[b]);
                }
            }
        }
    }
}

/// The hierarchy with every object's children listed anew from the parent
/// links, in object order.
pub open spec fn relisted(h: Seq<Node>) -> Seq<Node> {
    Seq::new(h.len(), |i: int| Node { id: h[i].id, parent: h[i].parent, children: children_in_order(h, h[i].id) })
}

/// Listing the children anew keeps a tree a tree, with the same parents.
pub proof fn lemma_relisted_tree(h: Seq<Node>)
    requires
        tree(h),
    ensures
        tree(relisted(h)),
        forall|y: ObjectId| #[trigger] parent_of(relisted(h), y) == parent_of(h, y),
        forall|y: ObjectId| contains_id(h, y) ==> #[trigger] children_of(relisted(h), y) == children_in_order(h, y),
        forall|y: ObjectId| #[trigger] children_of(h, y).to_set() == children_in_order(h, y).to_set(),
{
    let h2 = relisted(h);
    lemma_same_ids(h, h2);
    assert forall|y: ObjectId| #[trigger] parent_of(h2, y) == parent_of(h, y) by {
        if contains_id(h, y) {
            lemma_pos_of(h, y);
        }
    }
    assert forall|y: ObjectId| contains_id(h, y) implies #[trigger] children_of(h2, y) == children_in_order(h, y) by {
        lemma_pos_of(h, y);
    }
    assert forall|i: int| 0 <= i < h2.len() implies (#[trigger] h2[i].parent matches Some(p) ==> p != h2[i].id && contains_id(h2, p) && children_of(h2, p).contains(h2[i].id)) by {
        if let Some(p) = h2[i].parent {
            assert(h[i].parent == Some(p));
            assert(contains_id(h, p));
            lemma_children_in_order(h, p);
            assert(children_in_order(h, p).contains(h[i].id));
        }
    }
    assert forall|i: int, c: ObjectId| 0 <= i < h2.len() && #[trigger] h2[i].children.contains(c) implies contains_id(h2, c) && parent_of(h2, c) == Some(h2[i].id) by {
        lemma_children_in_order(h, h[i].id);
        let k = choose|k: int| 0 <= k < h.len() && h[k].parent == Some(h[i].id) && #[trigger] h[k].id == c;
        lemma_pos(h, k);
    }
    assert forall|i: int| 0 <= i < h2.len() implies (#[trigger] h2[i].children).no_duplicates() by {
        lemma_children_in_order(h, h[i].id);
    }
    assert forall|y: ObjectId| #[trigger] parent_of(h2, y) is None || parent_of(h2, y) == parent_of(h, y) by {}
    lemma_acyclic_when_links_dropped(h, h2);
    assert forall|y: ObjectId| #[trigger] children_of(h, y).to_set() == children_in_order(h, y).to_set() by {
        lemma_children_in_order(h, y);
        assert forall|c: ObjectId| children_of(h, y).to_set().contains(c) == children_in_order(h, y).to_set().contains(c) by {
            if contains_id(h, y) {
                lemma_pos_of(h, y);
                if children_of(h, y).contains(c) {
                    assert(h[pos(h, y)].children.contains(c));
                    lemma_pos_of(h, c);
                    assert(h[pos(h, c)].parent == Some(y));
                    assert(h[pos(h, c)].id == c);
                }
                if children_in_order(h, y).contains(c) {
                    let k = choose|k: int| 0 <= k < h.len() && h[k].parent == Some(y) && #[trigger] h[k].id == c;
                    lemma_pos(h, k);
                    assert(children_of(h, y).contains(c));
                }
            } else {
                if children_in_order(h, y).contains(c) {
                    let k = choose|k: int| 0 <= k < h.len() && h[k].parent == Some(y) && #[trigger] h[k].id == c;
                    assert(contains_id(h, y));
                }
            }
        }
        assert(children_of(h, y).to_set() =~= children_in_order(h, y).to_set());
    }
}

/// The ids at and below `x`, depth first: `x`, then the ids below each of
/// its children in turn, going at most `depth` levels down.
pub open spec fn preorder_within(h: Seq<Node>, x: ObjectId, depth: nat) -> Seq<ObjectId>
    decreases depth, 0int, 0int,
{
    if !contains_id(h, x) {
        Seq::empty()
    } else if depth == 0 {
        seq![x]
    } else {
        seq![x] + preorder_list(h, children_of(h, x), (depth - 1) as nat)
    }
}

/// The depth-first ids at and below each of `cs`, one after another.
pub open spec fn preorder_list(h: Seq<Node>, cs: Seq<ObjectId>, depth: nat) -> Seq<ObjectId>
    decreases depth, 1int, cs.len(),
{
    if cs.len() == 0 {
        Seq::empty()
    } else {
        preorder_within(h, cs[0], depth) + preorder_list(h, cs.drop_first(), depth)
    }
}

/// The ids at and below `x`, depth first, each object before its children
/// and the children in the order they were attached. A hierarchy of `n`
/// objects is less than `n` levels deep, so the bound leaves nothing out.
pub open spec fn depth_first(h: Seq<Node>, x: ObjectId) -> Seq<ObjectId> {
    preorder_within(h, x, h.len())
}

proof fn lemma_concat_contains(a: Seq<ObjectId>, b: Seq<ObjectId>, y: ObjectId)
    ensures
        (a + b).contains(y) == (a.contains(y) || b.contains(y)),
{
    if (a + b).contains(y) {
        let i = choose|i: int| 0 <= i < (a + b).len() && (a + b)[i] == y;
        if i < a.len() {
            assert(a[i] == y);
        } else {
            assert(b[i - a.len()] == y);
        }
    }
    if a.contains(y) {
        let i = choose|i: int| 0 <= i < a.len() && a[i] == y;
        assert((a + b)[i] == y);
    }
    if b.contains(y) {
        let i = choose|i: int| 0 <= i < b.len() && b[i] == y;
        assert((a + b)[a.len() + i] == y);
    }
}

/// Everything a depth-first walk from `x` meets is `x` or below it.
proof fn lemma_preorder_within_below(h: Seq<Node>, x: ObjectId, d: nat, y: ObjectId)
    requires
        consistent(h),
        preorder_within(h, x, d).contains(y),
    ensures
        y == x || is_ancestor(h, x, y),
    decreases d, 0int, 0int,
{
    if contains_id(h, x) && d > 0 && y != x {
        let cs = children_of(h, x);
        let rest = preorder_list(h, cs, (d - 1) as nat);
        lemma_concat_contains(seq![x], rest, y);
        assert(seq![x].contains(y) ==> seq![x][0] == y);
        assert forall|c: ObjectId| #[trigger] cs.contains(c) implies parent_of(h, c) == Some(x) by {
            lemma_pos_of(h, x);
            assert(h[pos(h, x)].children.contains(c));
        }
        lemma_preorder_list_below(h, cs, (d - 1) as nat, x, y);
    } else if contains_id(h, x) && y != x {
        assert(seq![x].contains(y) ==> seq![x][0] == y);
    }
}

proof fn lemma_preorder_list_below(h: Seq<Node>, cs: Seq<ObjectId>, d: nat, x: ObjectId, y: ObjectId)
    requires
        consistent(h),
        forall|c: ObjectId| #[trigger] cs.contains(c) ==> parent_of(h, c) == Some(x),
        preorder_list(h, cs, d).contains(y),
    ensures
        is_ancestor(h, x, y),
    decreases d, 1int, cs.len(),
{
    if cs.len() > 0 {
        let a = preorder_within(h, cs[0], d);
        let b = preorder_list(h, cs.drop_first(), d);
        lemma_concat_contains(a, b, y);
        if a.contains(y) {
            assert(cs.contains(cs[0]));
            lemma_preorder_within_below(h, cs[0], d, y);
            if y == cs[0] {
                lemma_one_step(h, y);
            } else {
                let k = choose|k: nat| k >= 1 && #[trigger] nth_parent(h, y, k) == Some(cs[0]);
                lemma_nth_add(h, y, k, 1);
                lemma_one_step(h, cs[0]);
                assert(nth_parent(h, y, k + 1) == Some(x));
            }
        } else {
            assert forall|c: ObjectId| #[trigger] cs.drop_first().contains(c) implies parent_of(h, c) == Some(x) by {
                let i = choose|i: int| 0 <= i < cs.drop_first().len() && cs.drop_first()[i] == c;
                assert(cs[i + 1] == c);
                assert(cs.contains(c));
            }
            lemma_preorder_list_below(h, cs.drop_first(), d, x, y);
        }
    }
}

proof fn lemma_list_reaches(h: Seq<Node>, cs: Seq<ObjectId>, c: ObjectId, d: nat, y: ObjectId)
    requires
        cs.contains(c),
        preorder_within(h, c, d).contains(y),
    ensures
        preorder_list(h, cs, d).contains(y),
    decreases cs.len(),
{
    let a = preorder_within(h, cs[0], d);
    let b = preorder_list(h, cs.drop_first(), d);
    lemma_concat_contains(a, b, y);
    if cs[0] != c {
        let i = choose|i: int| 0 <= i < cs.len() && cs[i] == c;
        assert(cs.drop_first()[i - 1] == c);
        lemma_list_reaches(h, cs.drop_first(), c, d, y);
    }
}

/// An object `k` steps below `x` is met by a depth-first walk from `x`
/// that goes at least `k` levels down.
proof fn lemma_below_in_preorder(h: Seq<Node>, x: ObjectId, y: ObjectId, k: nat, d: nat)
    requires
        consistent(h),
        contains_id(h, x),
        nth_parent(h, y, k) == Some(x),
        k <= d,
    ensures
        preorder_within(h, x, d).contains(y),
    decreases k,
{
    if k == 0 {
        assert(y == x);
        if d == 0 {
            assert(seq![x][0] == y);
        } else {
            lemma_concat_contains(seq![x], preorder_list(h, children_of(h, x), (d - 1) as nat), y);
            assert(seq![x][0] == y);
        }
    } else {
        let prev = nth_parent(h, y, (k - 1) as nat);
        let c = prev->0;
        assert(parent_of(h, c) == Some(x));
        assert(contains_id(h, c));
        lemma_pos_of(h, c);
        assert(h[pos(h, c)].parent == Some(x));
        assert(children_of(h, x).contains(c));
        lemma_below_in_preorder(h, c, y, (k - 1) as nat, (d - 1) as nat);
        lemma_list_reaches(h, children_of(h, x), c, (d - 1) as nat, y);
        lemma_concat_contains(seq![x], preorder_list(h, children_of(h, x), (d - 1) as nat), y);
    }
}

/// In a hierarchy without cycles an object `k` steps below a present
/// object lies fewer than `h.len()` levels down.
proof fn lemma_depth_bound(h: Seq<Node>, x: ObjectId, y: ObjectId, k: nat)
    requires
        tree(h),
        contains_id(h, x),
        nth_parent(h, y, k) == Some(x),
    ensures
        k < h.len(),
{
    let chain = Seq::new(k + 1, |i: int| nth_parent(h, y, i as nat)->0);
    assert forall|i: int| 0 <= i <= k implies #[trigger] nth_parent(h, y, i as nat) is Some by {
        if nth_parent(h, y, i as nat) is None {
            lemma_nth_none_stays(h, y, i as nat, k);
        }
    }
    assert forall|i: int| 0 <= i <= k implies contains_id(h, #[trigger] chain[i]) by {
        assert(nth_parent(h, y, i as nat) is Some);
        if i == k {
        } else {
            assert(nth_parent(h, y, (i + 1) as nat) is Some);
            assert(nth_parent(h, y, (i + 1) as nat) == parent_of(h, chain[i]));
        }
    }
    assert forall|a: int, b: int| 0 <= a < b < chain.len() implies chain[a] != chain[b] by {
        assert(nth_parent(h, y, a as nat) is Some);
        assert(nth_parent(h, y, b as nat) is Some);
        if a == 0 {
            assert(nth_parent(h, y, 0) == Some(y));
            lemma_no_self_ancestor(h, y, b as nat);
        } else {
            lemma_chain_distinct(h, y, a as nat, b as nat);
        }
    }
    assert(chain.no_duplicates());
    assert forall|z: ObjectId| #[trigger] chain.to_set().contains(z) implies ids(h).to_set().contains(z) by {
        assert(chain.contains(z));
        let i = choose|i: int| 0 <= i < chain.len() && chain[i] == z;
        assert(contains_id(h, chain[i]));
        lemma_pos_of(h, z);
        assert(ids(h)[pos(h, z)] == z);
        assert(ids(h).contains(z));
    }
    chain.unique_seq_to_set();
    ids(h).lemma_cardinality_of_set();
    vstd::set_lib::lemma_len_subset(chain.to_set(), ids(h).to_set());
}

/// A depth-first walk from a present object meets exactly that object and
/// everything below it.
pub proof fn lemma_depth_first_is_subtree(h: Seq<Node>, x: ObjectId)
    requires
        tree(h),
        contains_id(h, x),
    ensures
        forall|y: ObjectId| #[trigger] depth_first(h, x).contains(y) == (y == x || is_ancestor(h, x, y)),
{
    assert forall|y: ObjectId| #[trigger] depth_first(h, x).contains(y) == (y == x || is_ancestor(h, x, y)) by {
        if depth_first(h, x).contains(y) {
            lemma_preorder_within_below(h, x, h.len(), y);
        }
        if y == x {
            lemma_pos_of(h, x);
            assert(nth_parent(h, y, 0) == Some(x));
            lemma_below_in_preorder(h, x, y, 0, h.len());
        } else if is_ancestor(h, x, y) {
            let k = choose|k: nat| k >= 1 && #[trigger] nth_parent(h, y, k) == Some(x);
            lemma_depth_bound(h, x, y, k);
            lemma_below_in_preorder(h, x, y, k, h.len());
        }
    }
}

} // verus!
