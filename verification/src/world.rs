//! The object world: objects with components, their parent/child hierarchy,
//! id allocation, and the command queue that defers structural changes
//! requested while scripts run.
//!
//! Components are held as values of a type `C` under a `ComponentKey` that
//! names their type; what a component is and does belongs to the caller.
use std::collections::VecDeque;
use vstd::prelude::*;
use crate::hierarchy::{
    acyclic, children_of, consistent, contains_id, is_ancestor, lemma_acyclic_when_links_dropped,
    lemma_nth_add, lemma_nth_none_stays, lemma_no_self_ancestor, lemma_pos, lemma_pos_of,
    lemma_push_node, lemma_reparent_keeps_tree, lemma_child_below, lemma_parent_below,
    lemma_closed_holds_below, lemma_remove_at, lemma_restrict_tree, lemma_drop_listed_nothing,
    subtree, drop_listed, ids, preorder_within, preorder_list, depth_first, children_in_order, relisted, lemma_relisted_tree, lemma_without, reparent, without,
    nth_parent, parent_of, pos, root_ids, tree, unique_ids, Node, ObjectId,
};

verus! {

/// Names a component type.
pub type ComponentKey = u64;

/// The key under which every object holds its transform.
pub const TRANSFORM_KEY: ComponentKey = 0;

/// A copyable reference to an object by id.
#[derive(Clone, Copy, PartialEq, Eq, Structural, Debug, Hash)]
pub struct ObjectHandle {
    id: ObjectId,
}

impl ObjectHandle {
    pub closed spec fn spec_id(self) -> ObjectId {
        self.id
    }

    pub fn new(id: ObjectId) -> (r: Self)
        ensures
            r.spec_id() == id,
    {
        ObjectHandle { id }
    }

    pub fn id(self) -> (r: ObjectId)
        ensures
            r == self.spec_id(),
    {
        self.id
    }
}

/// An object: a name, components keyed by their type, and children waiting
/// to be added with it.
pub struct Object<C> {
    name: String,
    components: Vec<(ComponentKey, C)>,
    pending_children: Vec<Object<C>>,
}

impl<C> Object<C> {
    pub closed spec fn name_view(&self) -> Seq<char> {
        self.name@
    }

    /// The components in order, each with its key.
    pub closed spec fn components(&self) -> Seq<(ComponentKey, C)> {
        self.components@
    }

    pub closed spec fn pending(&self) -> Seq<Object<C>> {
        self.pending_children@
    }

    /// Whether a component is held under `key`.
    pub open spec fn holds(&self, key: ComponentKey) -> bool {
        exists|i: int| 0 <= i < self.components().len() && #[trigger] self.components()[i].0 == key
    }

    /// Keys are distinct.
    pub open spec fn wf(&self) -> bool {
        forall|i: int, j: int|
            0 <= i < self.components().len() && 0 <= j < self.components().len() && i != j
                ==> #[trigger] self.components()[i].0 != #[trigger] self.components()[j].0
    }

    /// A new object named `name`, holding `transform` under `TRANSFORM_KEY`.
    pub fn new(name: String, transform: C) -> (r: Self)
        ensures
            r.wf(),
            r.name_view() == name@,
            r.components() == seq![(TRANSFORM_KEY, transform)],
            r.pending().len() == 0,
    {
        let mut components: Vec<(ComponentKey, C)> = Vec::new();
        components.push((TRANSFORM_KEY, transform));
        let r = Object { name, components, pending_children: Vec::new() };
        assert(r.components() =~= seq![(TRANSFORM_KEY, transform)]);
        r
    }

    /// A new object with an empty name.
    pub fn empty(transform: C) -> (r: Self)
        ensures
            r.wf(),
            r.name_view() == Seq::<char>::empty(),
            r.components() == seq![(TRANSFORM_KEY, transform)],
            r.pending().len() == 0,
    {
        Self::new(String::new(), transform)
    }

    pub fn name(&self) -> (r: &String)
        ensures
            r@ == self.name_view(),
    {
        &self.name
    }

    pub fn set_name(&mut self, name: String)
        ensures
            final(self).name_view() == name@,
            final(self).components() == old(self).components(),
            final(self).pending() == old(self).pending(),
    {
        self.name = name;
    }

    /// The component keys, in order.
    pub fn component_type_ids(&self) -> (r: Vec<ComponentKey>)
        ensures
            r@ == self.components().map_values(|p: (ComponentKey, C)| p.0),
    {
        let mut r: Vec<ComponentKey> = Vec::new();
        let mut i: usize = 0;
        while i < self.components.len()
            invariant
                i <= self.components@.len(),
                r@ == self.components().subrange(0, i as int).map_values(|p: (ComponentKey, C)| p.0),
            decreases self.components@.len() - i,
        {
            r.push(self.components[i].0);
            assert(r@ =~= self.components().subrange(0, i + 1).map_values(|p: (ComponentKey, C)| p.0));
            i = i + 1;
        }
        assert(self.components().subrange(0, i as int) =~= self.components());
        r
    }

    fn component_index(&self, key: ComponentKey) -> (r: Option<usize>)
        ensures
            match r {
                Some(i) => i < self.components().len() && self.components()[i as int].0 == key
                    && forall|k: int| 0 <= k < i ==> self.components()[k].0 != key,
                None => !self.holds(key),
            },
    {
        let mut i: usize = 0;
        while i < self.components.len()
            invariant
                i <= self.components@.len(),
                forall|k: int| 0 <= k < i ==> self.components()[k].0 != key,
            decreases self.components@.len() - i,
        {
            if self.components[i].0 == key {
                return Some(i);
            }
            i = i + 1;
        }
        None
    }

    /// Replaces the first component under `key` by what `f` makes of it;
    /// `false`, with nothing changed, when none is held there.
    fn update_component<F: Fn(C) -> C>(&mut self, key: ComponentKey, f: &F) -> (r: bool)
        requires
            forall|c: C| #[trigger] f.requires((c,)),
        ensures
            updated_by(*old(self), *final(self), key, *f),
            r == old(self).holds(key),
    {
        match self.component_index(key) {
            Some(j) => {
                let ghost before = self.components@;
                let (k, c) = self.components.remove(j);
                let ghost c0 = c;
                let c2 = f(c);
                self.components.insert(j, (k, c2));
                proof {
                    assert(before[j as int] == (k, c0));
                    assert(self.components@ =~= before.update(j as int, (key, c2)));
                    assert(0 <= j < before.len() && before[j as int].0 == key
                        && (forall|m: int| 0 <= m < j ==> before[m].0 != key)
                        && f.ensures((before[j as int].1,), c2)
                        && self.components@ == #[trigger] before.update(j as int, (key, c2)));
                }
                true
            },
            None => false,
        }
    }

    /// Adds a component under `key`, replacing (in place) one already held there.
    pub fn add_component(&mut self, key: ComponentKey, component: C)
        requires
            old(self).wf(),
        ensures
            final(self).wf(),
            final(self).name_view() == old(self).name_view(),
            final(self).pending() == old(self).pending(),
            final(self).components() == (if old(self).holds(key) {
                old(self).components().update(
                    choose|i: int| 0 <= i < old(self).components().len() && #[trigger] old(self).components()[i].0 == key,
                    (key, component),
                )
            } else {
                old(self).components().push((key, component))
            }),
    {
        match self.component_index(key) {
            Some(i) => {
                let ghost before = self.components@;
                self.components.set(i, (key, component));
                proof {
                    assert forall|a: int, b: int| 0 <= a < self.components().len() && 0 <= b < self.components().len() && a != b implies
                        #[trigger] self.components()[a].0 != #[trigger] self.components()[b].0 by {
                        if a != i && b != i {
                            assert(self.components()[a] == before[a]);
                            assert(self.components()[b] == before[b]);
                        } else if a == i {
                            assert(self.components()[b] == before[b]);
                            assert(before[b].0 != before[i as int].0);
                        } else {
                            assert(self.components()[a] == before[a]);
                            assert(before[a].0 != before[i as int].0);
                        }
                    }
                    let c = choose|j: int| 0 <= j < old(self).components().len() && #[trigger] old(self).components()[j].0 == key;
                    assert(c == i);
                }
            },
            None => {
                let ghost before = self.components@;
                self.components.push((key, component));
                proof {
                    assert forall|a: int, b: int| 0 <= a < self.components().len() && 0 <= b < self.components().len() && a != b implies
                        #[trigger] self.components()[a].0 != #[trigger] self.components()[b].0 by {
                        if a < before.len() && b < before.len() {
                            assert(self.components()[a] == before[a]);
                            assert(self.components()[b] == before[b]);
                            assert(old(self).components()[a].0 != old(self).components()[b].0);
                        } else if a < before.len() {
                            assert(self.components()[a] == before[a]);
                            assert(old(self).components()[a].0 == before[a].0);
                            assert(before[a].0 != key);
                            assert(self.components()[b].0 == key);
                        } else {
                            assert(self.components()[b] == before[b]);
                            assert(old(self).components()[b].0 == before[b].0);
                            assert(before[b].0 != key);
                            assert(self.components()[a].0 == key);
                        }
                    }
                }
            },
        }
    }

    /// This object with a component added under `key`.
    pub fn with(self, key: ComponentKey, component: C) -> (r: Self)
        requires
            self.wf(),
        ensures
            r.wf(),
            r.holds(key),
            forall|k: ComponentKey| self.holds(k) ==> #[trigger] r.holds(k),
            r.name_view() == self.name_view(),
            r.pending() == self.pending(),
    {
        let mut o = self;
        o.add_component(key, component);
        proof {
            assert forall|k: ComponentKey| self.holds(k) implies #[trigger] o.holds(k) by {
                let i = choose|i: int| 0 <= i < self.components().len() && #[trigger] self.components()[i].0 == k;
                if !self.holds(key) {
                    assert(o.components()[i] == self.components()[i]);
                } else {
                    let c = choose|j: int| 0 <= j < self.components().len() && #[trigger] self.components()[j].0 == key;
                    if i != c {
                        assert(o.components()[i] == self.components()[i]);
                    } else {
                        assert(o.components()[c].0 == key);
                    }
                }
            }
            if !self.holds(key) {
                assert(o.components()[o.components().len() - 1].0 == key);
            } else {
                let c = choose|i: int| 0 <= i < self.components().len() && #[trigger] self.components()[i].0 == key;
                assert(o.components()[c].0 == key);
            }
        }
        o
    }

    /// This object with `child` waiting to be added with it.
    pub fn with_child(self, child: Object<C>) -> (r: Self)
        ensures
            r.pending() == self.pending().push(child),
            r.components() == self.components(),
            r.name_view() == self.name_view(),
    {
        let mut o = self;
        o.pending_children.push(child);
        o
    }

    /// Queues `child` to be added with this object.
    pub fn add_child(&mut self, child: Object<C>)
        ensures
            final(self).pending() == old(self).pending().push(child),
            final(self).components() == old(self).components(),
            final(self).name_view() == old(self).name_view(),
    {
        self.pending_children.push(child);
    }

    /// Takes the children waiting to be added.
    pub fn drain_pending_children(&mut self) -> (r: Vec<Object<C>>)
        ensures
            r@ == old(self).pending(),
            final(self).pending().len() == 0,
            final(self).components() == old(self).components(),
            final(self).name_view() == old(self).name_view(),
    {
        let mut out: Vec<Object<C>> = Vec::new();
        std::mem::swap(&mut out, &mut self.pending_children);
        out
    }

    /// The component held under `key`.
    pub fn get_component(&self, key: ComponentKey) -> (r: Option<&C>)
        requires
            self.wf(),
        ensures
            match r {
                Some(c) => exists|i: int| 0 <= i < self.components().len() && #[trigger] self.components()[i] == (key, *c),
                None => !self.holds(key),
            },
    {
        match self.component_index(key) {
            Some(i) => Some(&self.components[i].1),
            None => None,
        }
    }

    /// The component held under `key`, for changing it in place.
    pub fn get_component_mut(&mut self, key: ComponentKey) -> (r: Option<&mut C>)
        requires
            old(self).wf(),
        ensures
            final(self).name_view() == old(self).name_view(),
            final(self).pending() == old(self).pending(),
            match r {
                Some(c) => exists|i: int| 0 <= i < old(self).components().len()
                    && #[trigger] old(self).components()[i] == (key, *c)
                    && final(self).components() == old(self).components().update(i, (key, *final(c))),
                None => !old(self).holds(key) && final(self).components() == old(self).components(),
            },
    {
        match self.component_index(key) {
            Some(i) => Some(&mut self.components[i].1),
            None => None,
        }
    }

    pub fn has_component(&self, key: ComponentKey) -> (r: bool)
        ensures
            r == self.holds(key),
    {
        self.component_index(key).is_some()
    }

    /// Same as `has_component`.
    pub fn has_component_type_id(&self, key: ComponentKey) -> (r: bool)
        ensures
            r == self.holds(key),
    {
        self.component_index(key).is_some()
    }

    /// Removes the component under `key`; the transform cannot be removed.
    /// The last component takes the removed one's place.
    pub fn remove_component_type_id(&mut self, key: ComponentKey) -> (r: bool)
        requires
            old(self).wf(),
        ensures
            final(self).wf(),
            final(self).name_view() == old(self).name_view(),
            final(self).pending() == old(self).pending(),
            r == (key != TRANSFORM_KEY && old(self).holds(key)),
            !r ==> final(self).components() == old(self).components(),
            r ==> ({
                let i = choose|i: int| 0 <= i < old(self).components().len() && #[trigger] old(self).components()[i].0 == key;
                let last = old(self).components().len() - 1;
                final(self).components() == old(self).components().update(i, old(self).components()[last]).drop_last()
            }),
    {
        if key == TRANSFORM_KEY {
            return false;
        }
        match self.component_index(key) {
            Some(i) => {
                let ghost before = self.components@;
                let _ = self.components.swap_remove(i);
                proof {
                    let c = choose|j: int| 0 <= j < before.len() && #[trigger] before[j].0 == key;
                    assert(c == i);
                    assert(self.components@ =~= before.update(i as int, before[before.len() - 1]).drop_last());
                    assert forall|a: int, b: int| 0 <= a < self.components().len() && 0 <= b < self.components().len() && a != b implies
                        #[trigger] self.components()[a].0 != #[trigger] self.components()[b].0 by {
                        let a2 = if a == i { before.len() - 1 } else { a };
                        let b2 = if b == i { before.len() - 1 } else { b };
                        assert(self.components()[a] == before[a2]);
                        assert(self.components()[b] == before[b2]);
                    }
                }
                true
            },
            None => false,
        }
    }

    /// The number of components.
    pub fn component_count(&self) -> (r: usize)
        ensures
            r == self.components().len(),
    {
        self.components.len()
    }

    /// Takes out the component at `index`, moving the last one into its place
    /// (the first step of running a lifecycle callback on it).
    pub fn swap_remove_component(&mut self, index: usize) -> (r: (ComponentKey, C))
        requires
            index < old(self).components().len(),
        ensures
            r == old(self).components()[index as int],
            final(self).components() == old(self).components().update(index as int, old(self).components().last()).drop_last(),
            final(self).name_view() == old(self).name_view(),
            final(self).pending() == old(self).pending(),
    {
        let ghost before = self.components@;
        let r = self.components.swap_remove(index);
        assert(self.components@ =~= before.update(index as int, before.last()).drop_last());
        r
    }

    /// Puts a component back at the end (the last step of running a
    /// lifecycle callback on it).
    pub fn push_component(&mut self, entry: (ComponentKey, C))
        ensures
            final(self).components() == old(self).components().push(entry),
            final(self).name_view() == old(self).name_view(),
            final(self).pending() == old(self).pending(),
    {
        self.components.push(entry);
    }
}


/// A structural change requested while scripts run, applied afterwards.
pub enum WorldCommand<C> {
    Despawn(ObjectId),
    Spawn(Object<C>),
}

/// What applying one queued command did.
#[derive(Debug, Clone, Copy, PartialEq, Eq, Structural)]
pub enum AppliedCommand {
    /// The object with this id was despawned, if it existed.
    Despawned(ObjectId, bool),
    /// An object was spawned under this id.
    Spawned(ObjectId),
}

/// The debug overlay switches.
pub struct DebugRenderer {
    debug_draw_collisions: bool,
    debug_show_cursor_bounds: bool,
}

impl DebugRenderer {
    pub closed spec fn draws_collisions(&self) -> bool {
        self.debug_draw_collisions
    }

    pub closed spec fn shows_cursor_bounds(&self) -> bool {
        self.debug_show_cursor_bounds
    }

    pub fn new() -> (r: Self)
        ensures
            !r.draws_collisions(),
            !r.shows_cursor_bounds(),
    {
        DebugRenderer { debug_draw_collisions: false, debug_show_cursor_bounds: false }
    }

    pub fn set_debug_draw_collisions(&mut self, enabled: bool)
        ensures
            final(self).draws_collisions() == enabled,
            final(self).shows_cursor_bounds() == old(self).shows_cursor_bounds(),
    {
        self.debug_draw_collisions = enabled;
    }

    pub fn is_debug_draw_collisions_enabled(&self) -> (r: bool)
        ensures
            r == self.draws_collisions(),
    {
        self.debug_draw_collisions
    }

    pub fn set_debug_show_cursor_bounds(&mut self, show: bool)
        ensures
            final(self).shows_cursor_bounds() == show,
            final(self).draws_collisions() == old(self).draws_collisions(),
    {
        self.debug_show_cursor_bounds = show;
    }

    pub fn is_debug_show_cursor_bounds_enabled(&self) -> (r: bool)
        ensures
            r == self.shows_cursor_bounds(),
    {
        self.debug_show_cursor_bounds
    }
}

/// One object's id and links.
struct Slot {
    id: ObjectId,
    parent: Option<ObjectId>,
    children: Vec<ObjectId>,
}

spec fn node_of(s: Slot) -> Node {
    Node { id: s.id, parent: s.parent, children: s.children@ }
}

spec fn nodes_of(s: Seq<Slot>) -> Seq<Node> {
    s.map_values(|x: Slot| node_of(x))
}

fn vec_contains(v: &Vec<ObjectId>, x: ObjectId) -> (r: bool)
    ensures
        r == v@.contains(x),
{
    let mut i: usize = 0;
    while i < v.len()
        invariant
            i <= v@.len(),
            forall|k: int| 0 <= k < i ==> v@[k] != x,
        decreases v@.len() - i,
    {
        if v[i] == x {
            assert(v@[i as int] == x);
            return true;
        }
        i = i + 1;
    }
    false
}

/// `v` without any occurrence of `x`, in order.
fn without_id(v: &Vec<ObjectId>, x: ObjectId) -> (r: Vec<ObjectId>)
    ensures
        r@ == without(v@, x),
{
    let mut r: Vec<ObjectId> = Vec::new();
    let mut i: usize = 0;
    while i < v.len()
        invariant
            i <= v@.len(),
            r@ == without(v@.subrange(0, i as int), x),
        decreases v@.len() - i,
    {
        assert(v@.subrange(0, i + 1).drop_last() =~= v@.subrange(0, i as int));
        if v[i] != x {
            r.push(v[i]);
        }
        i = i + 1;
    }
    assert(v@.subrange(0, i as int) =~= v@);
    r
}

/// Whether `child` may be put under `parent` (or made a root): it is present,
/// is not its own parent, and the new parent is present and not below it.
pub open spec fn may_reparent(h: Seq<Node>, child: ObjectId, parent: Option<ObjectId>) -> bool {
    &&& parent != Some(child)
    &&& contains_id(h, child)
    &&& parent matches Some(p) ==> contains_id(h, p) && !is_ancestor(h, child, p)
}

/// How many of `q` are spawns.
pub open spec fn spawn_count<C>(q: Seq<WorldCommand<C>>) -> nat
    decreases q.len(),
{
    if q.len() == 0 {
        0
    } else {
        (if q[0] is Spawn { 1nat } else { 0nat }) + spawn_count(q.drop_first())
    }
}

/// Whether `q` asks for `x` to be despawned.
pub open spec fn queues_despawn<C>(q: Seq<WorldCommand<C>>, x: ObjectId) -> bool {
    exists|k: int| 0 <= k < q.len() && #[trigger] q[k] == WorldCommand::<C>::Despawn(x)
}

pub proof fn lemma_spawn_count_push<C>(q: Seq<WorldCommand<C>>, c: WorldCommand<C>)
    ensures
        spawn_count(q.push(c)) == spawn_count(q) + (if c is Spawn { 1nat } else { 0nat }),
    decreases q.len(),
{
    if q.len() > 0 {
        assert(q.push(c).drop_first() =~= q.drop_first().push(c));
        assert(q.push(c)[0] == q[0]);
        lemma_spawn_count_push(q.drop_first(), c);
    } else {
        assert(q.push(c).drop_first() =~= Seq::<WorldCommand<C>>::empty());
        assert(q.push(c)[0] == c);
        assert(spawn_count(q.push(c).drop_first()) == 0);
    }
}

/// Whether `a` reports applying `c`: the same kind, and for a despawn the same id.
pub open spec fn reports<C>(c: WorldCommand<C>, a: AppliedCommand) -> bool {
    match c {
        WorldCommand::Despawn(x) => a matches AppliedCommand::Despawned(y, _) && y == x,
        WorldCommand::Spawn(_) => a is Spawned,
    }
}

/// Whether the `i`-th world of `ws` leads to the next by applying `q[i]`,
/// reported as `r[i]`.
pub open spec fn replay_step<C>(ws: Seq<World<C>>, q: Seq<WorldCommand<C>>, r: Seq<AppliedCommand>, i: int) -> bool {
    ws[i + 1].applied_from(&ws[i], q[i], r[i])
}

/// The ids of the objects (listed beside them in `h`) that hold a component
/// under `key`, in order.
pub open spec fn ids_holding<C>(objs: Seq<Object<C>>, h: Seq<Node>, key: ComponentKey) -> Seq<ObjectId>
    decreases objs.len(),
{
    if objs.len() == 0 {
        Seq::empty()
    } else {
        let r = ids_holding(objs.drop_last(), h, key);
        if objs.last().holds(key) {
            r.push(h[objs.len() - 1].id)
        } else {
            r
        }
    }
}

/// The first component under `key` in `comps`.
pub open spec fn first_component_of<C>(comps: Seq<(ComponentKey, C)>, key: ComponentKey) -> Option<C>
    decreases comps.len(),
{
    if comps.len() == 0 {
        None
    } else if comps[0].0 == key {
        Some(comps[0].1)
    } else {
        first_component_of(comps.drop_first(), key)
    }
}

proof fn lemma_first_component_of<C>(comps: Seq<(ComponentKey, C)>, key: ComponentKey, i: int)
    requires
        0 <= i <= comps.len(),
        forall|m: int| 0 <= m < i ==> comps[m].0 != key,
    ensures
        i < comps.len() && comps[i].0 == key ==> first_component_of(comps, key) == Some(comps[i].1),
        i == comps.len() ==> first_component_of(comps, key) is None,
    decreases i,
{
    if i > 0 {
        let t = comps.drop_first();
        assert forall|m: int| 0 <= m < i - 1 implies t[m].0 != key by {
            assert(t[m] == comps[m + 1]);
        }
        lemma_first_component_of(t, key, i - 1);
        if i < comps.len() {
            assert(t[i - 1] == comps[i]);
        }
    } else if comps.len() == 0 {
    }
}

/// The first component under `key` of each object that holds one, in
/// object order.
pub open spec fn components_under<C>(objs: Seq<Object<C>>, key: ComponentKey) -> Seq<C>
    decreases objs.len(),
{
    if objs.len() == 0 {
        Seq::empty()
    } else {
        let r = components_under(objs.drop_last(), key);
        match first_component_of(objs.last().components(), key) {
            Some(c) => r.push(c),
            None => r,
        }
    }
}

/// Whether `after` is `before` with its first component under `key`
/// replaced by a result of `f` on it, or unchanged when it holds none.
pub open spec fn updated_by<C, F: Fn(C) -> C>(before: Object<C>, after: Object<C>, key: ComponentKey, f: F) -> bool {
    let comps = before.components();
    &&& after.name_view() == before.name_view()
    &&& after.pending() == before.pending()
    &&& if before.holds(key) {
        exists|j: int, c: C| 0 <= j < comps.len() && comps[j].0 == key
            && (forall|m: int| 0 <= m < j ==> comps[m].0 != key)
            && f.ensures((comps[j].1,), c)
            && after.components() == #[trigger] comps.update(j, (key, c))
    } else {
        after.components() == comps
    }
}

/// A pass over the objects' scripts.
#[derive(Clone, Copy, Debug, PartialEq, Eq, Structural)]
pub enum LifecyclePass {
    Start,
    Update,
    LateUpdate,
}

/// The world: objects, their hierarchy and the deferred command queue.
pub struct World<C> {
    objects: Vec<Object<C>>,
    slots: Vec<Slot>,
    debug_renderer: DebugRenderer,
    next_object_id: ObjectId,
    command_queue: VecDeque<WorldCommand<C>>,
    processing_lifecycle: bool,
    started: bool,
}

impl<C> World<C> {
    /// The hierarchy, one node per object, in object order.
    pub closed spec fn nodes(&self) -> Seq<Node> {
        nodes_of(self.slots@)
    }

    /// The objects, in order.
    pub closed spec fn objects(&self) -> Seq<Object<C>> {
        self.objects@
    }

    /// The id the next spawned object gets.
    pub closed spec fn next_id(&self) -> ObjectId {
        self.next_object_id
    }

    /// The queued commands, oldest first.
    pub closed spec fn queue(&self) -> Seq<WorldCommand<C>> {
        self.command_queue@
    }

    /// Whether a lifecycle pass (start, update) is running.
    pub closed spec fn in_lifecycle(&self) -> bool {
        self.processing_lifecycle
    }

    /// Whether `start` has run.
    pub closed spec fn is_started(&self) -> bool {
        self.started
    }

    pub closed spec fn debug(&self) -> DebugRenderer {
        self.debug_renderer
    }

    /// One node per object, a well-formed hierarchy, and every id below the
    /// next one to be handed out.
    pub closed spec fn wf(&self) -> bool {
        &&& self.slots@.len() == self.objects@.len()
        &&& tree(self.nodes())
        &&& forall|i: int| 0 <= i < self.nodes().len() ==> #[trigger] self.nodes()[i].id < self.next_object_id
    }

    /// An empty world.
    pub fn new() -> (w: Self)
        ensures
            w.wf(),
            w.nodes().len() == 0,
            w.objects().len() == 0,
            w.next_id() == 1,
            w.queue().len() == 0,
            !w.in_lifecycle(),
            !w.is_started(),
            !w.debug().draws_collisions(),
    {
        let w = World {
            objects: Vec::new(),
            slots: Vec::new(),
            debug_renderer: DebugRenderer::new(),
            next_object_id: 1,
            command_queue: VecDeque::new(),
            processing_lifecycle: false,
            started: false,
        };
        assert(w.nodes() =~= Seq::<Node>::empty());
        w
    }

    fn find_index(&self, id: ObjectId) -> (r: Option<usize>)
        requires
            self.wf(),
        ensures
            match r {
                Some(i) => i < self.nodes().len() && contains_id(self.nodes(), id) && pos(self.nodes(), id) == i
                    && self.nodes()[i as int].id == id,
                None => !contains_id(self.nodes(), id),
            },
    {
        let mut i: usize = 0;
        while i < self.slots.len()
            invariant
                self.wf(),
                i <= self.slots@.len(),
                forall|k: int| 0 <= k < i ==> self.nodes()[k].id != id,
            decreases self.slots@.len() - i,
        {
            if self.slots[i].id == id {
                proof {
                    assert(self.nodes()[i as int].id == id);
                    lemma_pos(self.nodes(), i as int);
                }
                return Some(i);
            }
            i = i + 1;
        }
        proof {
            if contains_id(self.nodes(), id) {
                let j = pos(self.nodes(), id);
                lemma_pos_of(self.nodes(), id);
                assert(self.nodes()[j].id == id);
            }
        }
        None
    }

    /// Whether an object with `id` is in the world.
    pub fn contains(&self, id: ObjectId) -> (r: bool)
        requires
            self.wf(),
        ensures
            r == contains_id(self.nodes(), id),
    {
        self.find_index(id).is_some()
    }

    /// The object with `id`.
    pub fn get(&self, id: ObjectId) -> (r: Option<&Object<C>>)
        requires
            self.wf(),
        ensures
            match r {
                Some(o) => contains_id(self.nodes(), id) && *o == self.objects()[pos(self.nodes(), id)],
                None => !contains_id(self.nodes(), id),
            },
    {
        match self.find_index(id) {
            Some(i) => Some(&self.objects[i]),
            None => None,
        }
    }

    /// The object with `id`, for changing it in place; its place in the
    /// hierarchy is not touched.
    pub fn get_mut(&mut self, id: ObjectId) -> (r: Option<&mut Object<C>>)
        requires
            old(self).wf(),
        ensures
            final(self).wf(),
            final(self).nodes() == old(self).nodes(),
            final(self).next_id() == old(self).next_id(),
            final(self).queue() == old(self).queue(),
            final(self).in_lifecycle() == old(self).in_lifecycle(),
            final(self).is_started() == old(self).is_started(),
            final(self).debug() == old(self).debug(),
            match r {
                Some(o) => contains_id(old(self).nodes(), id)
                    && *o == old(self).objects()[pos(old(self).nodes(), id)]
                    && final(self).objects() == old(self).objects().update(pos(old(self).nodes(), id), *final(o)),
                None => !contains_id(old(self).nodes(), id) && final(self).objects() == old(self).objects(),
            },
    {
        match self.find_index(id) {
            Some(i) => Some(&mut self.objects[i]),
            None => None,
        }
    }

    /// The parent of the object with `id`.
    pub fn parent(&self, id: ObjectId) -> (r: Option<ObjectId>)
        requires
            self.wf(),
        ensures
            r == parent_of(self.nodes(), id),
    {
        match self.find_index(id) {
            Some(i) => self.slots[i].parent,
            None => None,
        }
    }

    /// The children of the object with `id`, in the order they were attached.
    pub fn children(&self, id: ObjectId) -> (r: Vec<ObjectId>)
        requires
            self.wf(),
        ensures
            r@ == children_of(self.nodes(), id),
    {
        match self.find_index(id) {
            Some(i) => self.slots[i].children.clone(),
            None => Vec::new(),
        }
    }

    /// Whether objects spawned now start their lifecycle at once: after
    /// `start`, outside a lifecycle pass.
    pub fn starts_objects_on_spawn(&self) -> (r: bool)
        ensures
            r == (self.is_started() && !self.in_lifecycle()),
    {
        self.started && !self.processing_lifecycle
    }

    /// Whether this world is `pre` with `object` added as a new root under
    /// the next id, and nothing else changed.
    pub open spec fn spawned_from(&self, pre: &Self, object: Object<C>) -> bool {
        &&& self.nodes() == pre.nodes().push(Node { id: pre.next_id(), parent: None, children: Seq::empty() })
        &&& self.objects() == pre.objects().push(object)
        &&& self.next_id() == pre.next_id() + 1
        &&& self.queue() == pre.queue()
        &&& self.in_lifecycle() == pre.in_lifecycle()
        &&& self.is_started() == pre.is_started()
        &&& self.debug() == pre.debug()
    }

    /// Adds an object with the next id, as a root with no children, and
    /// returns the id.
    pub fn spawn(&mut self, object: Object<C>) -> (id: ObjectId)
        requires
            old(self).wf(),
            old(self).next_id() < u64::MAX,
        ensures
            final(self).wf(),
            id == old(self).next_id(),
            !contains_id(old(self).nodes(), id),
            final(self).nodes() == old(self).nodes().push(Node { id, parent: None, children: Seq::empty() }),
            final(self).objects() == old(self).objects().push(object),
            final(self).next_id() == old(self).next_id() + 1,
            final(self).queue() == old(self).queue(),
            final(self).in_lifecycle() == old(self).in_lifecycle(),
            final(self).is_started() == old(self).is_started(),
            final(self).debug() == old(self).debug(),
    {
        let id = self.next_object_id;
        let ghost h = self.nodes();
        proof {
            if contains_id(h, id) {
                lemma_pos_of(h, id);
                assert(h[pos(h, id)].id < self.next_object_id);
            }
        }
        self.next_object_id = self.next_object_id + 1;
        self.objects.push(object);
        self.slots.push(Slot { id, parent: None, children: Vec::new() });
        let ghost n = Node { id, parent: None, children: Seq::empty() };
        proof {
            assert(self.nodes() =~= h.push(n));
            lemma_push_node(h, n);
            let h2 = h.push(n);
            assert forall|i: int| 0 <= i < h2.len() implies (#[trigger] h2[i].parent matches Some(p) ==> p != h2[i].id && contains_id(h2, p) && children_of(h2, p).contains(h2[i].id)) by {
                if i < h.len() {
                    assert(h2[i] == h[i]);
                    if let Some(p) = h[i].parent {
                        assert(contains_id(h, p));
                        assert(p != id);
                    }
                }
            }
            assert forall|i: int, c: ObjectId| 0 <= i < h2.len() && #[trigger] h2[i].children.contains(c) implies contains_id(h2, c) && parent_of(h2, c) == Some(h2[i].id) by {
                if i < h.len() {
                    assert(h2[i] == h[i]);
                    assert(contains_id(h, c));
                    if c == id {
                    }
                } else {
                    assert(h2[i].children =~= Seq::<ObjectId>::empty());
                }
            }
            assert forall|i: int| 0 <= i < h2.len() implies (#[trigger] h2[i].children).no_duplicates() by {
                if i < h.len() {
                    assert(h2[i] == h[i]);
                }
            }
            assert forall|y: ObjectId| #[trigger] parent_of(h2, y) is None || parent_of(h2, y) == parent_of(h, y) by {
                if y == id {
                    assert(!contains_id(h, y));
                }
            }
            lemma_acyclic_when_links_dropped(h, h2);
            assert forall|i: int| 0 <= i < h2.len() implies #[trigger] h2[i].id < self.next_object_id by {
                if i < h.len() {
                    assert(h2[i] == h[i]);
                }
            }
        }
        id
    }

    /// Adds an unnamed object holding `transform` and the script `script`
    /// under `key`, and returns its id.
    pub fn spawn_script(&mut self, transform: C, key: ComponentKey, script: C) -> (id: ObjectId)
        requires
            old(self).wf(),
            old(self).next_id() < u64::MAX,
        ensures
            final(self).wf(),
            id == old(self).next_id(),
            final(self).nodes() == old(self).nodes().push(Node { id, parent: None, children: Seq::empty() }),
            final(self).objects().len() == old(self).objects().len() + 1,
            final(self).objects().drop_last() == old(self).objects(),
            final(self).objects().last().holds(key),
            final(self).objects().last().holds(TRANSFORM_KEY),
            final(self).next_id() == old(self).next_id() + 1,
            final(self).queue() == old(self).queue(),
            final(self).in_lifecycle() == old(self).in_lifecycle(),
            final(self).is_started() == old(self).is_started(),
    {
        let object = Object::empty(transform);
        proof {
            assert(object.components()[0].0 == TRANSFORM_KEY);
        }
        let object = object.with(key, script);
        let id = self.spawn(object);
        proof {
            assert(self.objects().drop_last() =~= old(self).objects());
        }
        id
    }

    /// The ids of the objects that have no parent, in object order.
    pub fn root_object_ids(&self) -> (r: Vec<ObjectId>)
        requires
            self.wf(),
        ensures
            r@ == root_ids(self.nodes()),
    {
        let mut r: Vec<ObjectId> = Vec::new();
        let mut i: usize = 0;
        while i < self.slots.len()
            invariant
                i <= self.slots@.len(),
                r@ == root_ids(self.nodes().subrange(0, i as int)),
            decreases self.slots@.len() - i,
        {
            proof {
                let pre = self.nodes().subrange(0, i as int);
                let post = self.nodes().subrange(0, i + 1);
                assert(post.drop_last() =~= pre);
                assert(post.last() == node_of(self.slots@[i as int]));
            }
            if self.slots[i].parent.is_none() {
                r.push(self.slots[i].id);
            }
            i = i + 1;
        }
        assert(self.nodes().subrange(0, i as int) =~= self.nodes());
        r
    }

    /// Whether `ancestor_id` is a proper ancestor of `child_id`.
    pub fn is_descendant_of(&self, child_id: ObjectId, ancestor_id: ObjectId) -> (r: bool)
        requires
            self.wf(),
        ensures
            r == is_ancestor(self.nodes(), ancestor_id, child_id),
    {
        let ghost h = self.nodes();
        let mut current = self.parent(child_id);
        let mut visited: Vec<ObjectId> = Vec::new();
        let ghost mut j: nat = 1;
        proof {
            assert(nth_parent(h, child_id, 0) == Some(child_id));
        }
        let ghost end: nat = if contains_id(h, child_id) {
            choose|n: nat| #[trigger] nth_parent(h, child_id, n) is None
        } else {
            1
        };
        while current.is_some()
            invariant
                self.wf(),
                h == self.nodes(),
                j >= 1,
                current == nth_parent(h, child_id, j),
                nth_parent(h, child_id, end) is None,
                visited@.len() == j - 1,
                forall|k: int| 0 <= k < visited@.len() ==> Some(#[trigger] visited@[k]) == nth_parent(h, child_id, (k + 1) as nat),
                forall|k: nat| 1 <= k < j ==> #[trigger] nth_parent(h, child_id, k) != Some(ancestor_id),
            decreases end - j,
        {
            let parent_id = current.unwrap();
            proof {
                if j >= end {
                    lemma_nth_none_stays(h, child_id, end, j);
                }
            }
            let seen = vec_contains(&visited, parent_id);
            if seen {
                proof {
                    let k = choose|k: int| 0 <= k < visited@.len() && visited@[k] == parent_id;
                    assert(Some(visited@[k]) == nth_parent(h, child_id, (k + 1) as nat));
                    crate::hierarchy::lemma_chain_distinct(h, child_id, (k + 1) as nat, j);
                }
                return false;
            }
            let ghost old_visited = visited@;
            visited.push(parent_id);
            if parent_id == ancestor_id {
                assert(nth_parent(h, child_id, j) == Some(ancestor_id));
                return true;
            }
            current = self.parent(parent_id);
            proof {
                assert(nth_parent(h, child_id, j + 1) == parent_of(h, parent_id));
                assert forall|k: int| 0 <= k < visited@.len() implies Some(#[trigger] visited@[k]) == nth_parent(h, child_id, (k + 1) as nat) by {
                    if k < old_visited.len() {
                        assert(visited@[k] == old_visited[k]);
                    }
                }
                j = j + 1;
            }
        }
        proof {
            assert forall|k: nat| k >= 1 implies #[trigger] nth_parent(h, child_id, k) != Some(ancestor_id) by {
                if k >= j {
                    lemma_nth_none_stays(h, child_id, j, k);
                }
            }
        }
        false
    }


    /// Puts `child_id` under `parent_id`, or makes it a root for `None`.
    /// Refused (`false`, nothing changes) when the child is missing, would be
    /// its own parent, or the new parent is missing or below the child.
    pub fn set_parent(&mut self, child_id: ObjectId, parent_id: Option<ObjectId>) -> (r: bool)
        requires
            old(self).wf(),
        ensures
            final(self).wf(),
            r == may_reparent(old(self).nodes(), child_id, parent_id),
            final(self).nodes() == (if r && parent_of(old(self).nodes(), child_id) != parent_id {
                reparent(old(self).nodes(), child_id, parent_id)
            } else {
                old(self).nodes()
            }),
            final(self).objects() == old(self).objects(),
            final(self).next_id() == old(self).next_id(),
            final(self).queue() == old(self).queue(),
            final(self).in_lifecycle() == old(self).in_lifecycle(),
            final(self).is_started() == old(self).is_started(),
            final(self).debug() == old(self).debug(),
    {
        let ghost h = self.nodes();
        if Some(child_id) == parent_id {
            return false;
        }
        let ci = match self.find_index(child_id) {
            Some(i) => i,
            None => return false,
        };
        let pi: Option<usize> = match parent_id {
            Some(p) => {
                match self.find_index(p) {
                    Some(i) => {
                        if self.is_descendant_of(p, child_id) {
                            return false;
                        }
                        Some(i)
                    },
                    None => return false,
                }
            },
            None => None,
        };
        let old_parent = self.slots[ci].parent;
        if old_parent == parent_id {
            return true;
        }
        let oi: Option<usize> = match old_parent {
            Some(op) => {
                proof {
                    lemma_pos(h, ci as int);
                    assert(contains_id(h, op));
                }
                match self.find_index(op) {
                    Some(i) => Some(i),
                    None => {
                        proof {
                            assert(false);
                        }
                        None
                    },
                }
            },
            None => None,
        };
        proof {
            lemma_pos(h, ci as int);
        }
        if let Some(i) = oi {
            let nc = without_id(&self.slots[i].children, child_id);
            let s = Slot { id: self.slots[i].id, parent: self.slots[i].parent, children: nc };
            self.slots.set(i, s);
        }
        let s = Slot { id: child_id, parent: parent_id, children: self.slots[ci].children.clone() };
        self.slots.set(ci, s);
        if let Some(i) = pi {
            let mut nc = self.slots[i].children.clone();
            nc.push(child_id);
            let s = Slot { id: self.slots[i].id, parent: self.slots[i].parent, children: nc };
            self.slots.set(i, s);
        }
        proof {
            let h2 = reparent(h, child_id, parent_id);
            assert forall|k: int| 0 <= k < h.len() implies #[trigger] self.nodes()[k] == h2[k] by {
                lemma_pos(h, k);
                if k == ci {
                } else if oi == Some(k as usize) {
                    assert(h[k].id != child_id);
                } else if pi == Some(k as usize) {
                    assert(h[k].id != child_id);
                } else {
                    if old_parent == Some(h[k].id) {
                        assert(pos(h, h[k].id) == oi->0);
                    }
                    if parent_id == Some(h[k].id) {
                        assert(pos(h, h[k].id) == pi->0);
                    }
                }
            }
            assert(self.nodes() =~= h2);
            lemma_reparent_keeps_tree(h, child_id, parent_id);
            crate::hierarchy::lemma_same_ids(h, h2);
            assert forall|i: int| 0 <= i < h2.len() implies #[trigger] h2[i].id < self.next_object_id by {
                assert(h2[i].id == h[i].id);
            }
        }
        true
    }


    /// Everything below `id`, each once.
    fn descendant_ids(&self, id: ObjectId) -> (r: Vec<ObjectId>)
        requires
            self.wf(),
        ensures
            r@.no_duplicates(),
            forall|y: ObjectId| #[trigger] r@.contains(y) == is_ancestor(self.nodes(), id, y),
    {
        let ghost h = self.nodes();
        let mut result: Vec<ObjectId> = Vec::new();
        let mut stack: Vec<ObjectId> = self.children(id);
        proof {
            assert forall|c: ObjectId| #[trigger] stack@.contains(c) implies is_ancestor(h, id, c) by {
                lemma_pos_of(h, id);
                assert(h[pos(h, id)].children.contains(c));
                lemma_child_below(h, id, id, c);
            }
        }
        while stack.len() > 0
            invariant
                self.wf(),
                h == self.nodes(),
                result@.no_duplicates(),
                forall|y: ObjectId| #[trigger] result@.contains(y) ==> is_ancestor(h, id, y),
                forall|y: ObjectId| #[trigger] stack@.contains(y) ==> is_ancestor(h, id, y),
                forall|c: ObjectId| #[trigger] children_of(h, id).contains(c) ==> result@.contains(c) || stack@.contains(c),
                forall|z: ObjectId, c: ObjectId| result@.contains(z) && #[trigger] children_of(h, z).contains(c)
                    ==> result@.contains(c) || stack@.contains(c),
            decreases h.len() - result@.len(), stack@.len(),
        {
            let ghost old_stack = stack@;
            let y = match stack.pop() {
                Some(y) => y,
                None => {
                    proof {
                        assert(false);
                    }
                    return result;
                },
            };
            let ghost st = stack@;
            proof {
                assert(old_stack =~= st.push(y));
                assert forall|c: ObjectId| #[trigger] old_stack.contains(c) == (st.contains(c) || c == y) by {
                    vstd::seq_lib::lemma_seq_contains_after_push(st, y, c);
                }
                assert(old_stack.contains(y));
                assert(is_ancestor(h, id, y));
                assert forall|c: ObjectId| #[trigger] st.contains(c) implies is_ancestor(h, id, c) by {
                    assert(old_stack.contains(c));
                }
            }
            if !vec_contains(&result, y) {
                let ghost old_result = result@;
                result.push(y);
                let mut cs = self.children(y);
                let ghost cs0 = cs@;
                stack.append(&mut cs);
                proof {
                    assert forall|c: ObjectId| #[trigger] result@.contains(c) == (old_result.contains(c) || c == y) by {
                        vstd::seq_lib::lemma_seq_contains_after_push(old_result, y, c);
                    }
                    assert forall|a: int, b: int| 0 <= a < b < result@.len() implies result@[a] != result@[b] by {
                        if b == old_result.len() {
                            assert(old_result[a] == result@[a]);
                            assert(old_result.contains(result@[a]));
                        } else {
                            assert(old_result[a] == result@[a] && old_result[b] == result@[b]);
                        }
                    }
                    assert(stack@ == st + cs0);
                    assert forall|c: ObjectId| #[trigger] stack@.contains(c) == (st.contains(c) || cs0.contains(c)) by {
                        if cs0.contains(c) {
                            let k = choose|k: int| 0 <= k < cs0.len() && cs0[k] == c;
                            assert(stack@[st.len() + k] == c);
                        }
                        if st.contains(c) {
                            let k = choose|k: int| 0 <= k < st.len() && st[k] == c;
                            assert(stack@[k] == c);
                        }
                        if stack@.contains(c) {
                            let k = choose|k: int| 0 <= k < stack@.len() && stack@[k] == c;
                            if k >= st.len() {
                                assert(cs0[k - st.len()] == c);
                            } else {
                                assert(st[k] == c);
                            }
                        }
                    }
                    assert(cs0 == children_of(h, y));
                    assert forall|c: ObjectId| #[trigger] cs0.contains(c) implies is_ancestor(h, id, c) by {
                        lemma_pos_of(h, y);
                        assert(h[pos(h, y)].children.contains(c));
                        lemma_child_below(h, id, y, c);
                    }
                    // The result stays within the present objects, so it cannot outgrow them.
                    assert forall|z: ObjectId| #[trigger] result@.to_set().contains(z) implies ids(h).to_set().contains(z) by {
                        assert(result@.contains(z));
                        lemma_parent_below(h, id, z);
                        crate::hierarchy::lemma_one_step(h, z);
                        lemma_pos_of(h, z);
                        assert(ids(h)[pos(h, z)] == z);
                        assert(ids(h).contains(z));
                    }
                    result@.unique_seq_to_set();
                    ids(h).lemma_cardinality_of_set();
                    vstd::set_lib::lemma_len_subset(result@.to_set(), ids(h).to_set());
                }
            } else {
                proof {
                    assert(result@.contains(y));
                }
            }
        }
        proof {
            assert forall|y: ObjectId| #[trigger] result@.contains(y) == is_ancestor(h, id, y) by {
                if is_ancestor(h, id, y) {
                    let k = choose|k: nat| k >= 1 && #[trigger] nth_parent(h, y, k) == Some(id);
                    lemma_closed_holds_below(h, id, result@, y, k);
                }
            }
        }
        result
    }


    /// What despawning `x` from `pre` leaves: `x` and everything below it
    /// are gone, `x`'s parent no longer lists it, and every other object
    /// keeps its order, its links and its value.
    pub open spec fn despawned_from(&self, pre: &Self, x: ObjectId) -> bool {
        let h = pre.nodes();
        let s = subtree(h, x);
        &&& ids(self.nodes()) == drop_listed(ids(h), s)
        &&& self.objects().len() == self.nodes().len()
        &&& forall|y: ObjectId| #[trigger] contains_id(self.nodes(), y) == (contains_id(h, y) && !s.contains(y))
        &&& forall|y: ObjectId| #[trigger] contains_id(self.nodes(), y) ==> {
            &&& parent_of(self.nodes(), y) == parent_of(h, y)
            &&& children_of(self.nodes(), y) == (if parent_of(h, x) == Some(y) {
                without(children_of(h, y), x)
            } else {
                children_of(h, y)
            })
            &&& self.objects()[pos(self.nodes(), y)] == pre.objects()[pos(h, y)]
        }
        &&& self.next_id() == pre.next_id()
        &&& self.debug() == pre.debug()
    }

    /// Removes `id` and everything below it at once, and returns the object
    /// with `id`.
    fn despawn_immediate(&mut self, id: ObjectId) -> (r: Option<Object<C>>)
        requires
            old(self).wf(),
        ensures
            final(self).wf(),
            final(self).despawned_from(old(self), id),
            r == (if contains_id(old(self).nodes(), id) {
                Some(old(self).objects()[pos(old(self).nodes(), id)])
            } else {
                None::<Object<C>>
            }),
            final(self).queue() == old(self).queue(),
            final(self).in_lifecycle() == old(self).in_lifecycle(),
            final(self).is_started() == old(self).is_started(),
    {
        let ghost h = self.nodes();
        let ghost o = self.objects();
        let ghost s = subtree(h, id);
        let xi = match self.find_index(id) {
            Some(i) => i,
            None => {
                proof {
                    assert(s =~= Set::<ObjectId>::empty());
                    lemma_drop_listed_nothing(ids(h), s);
                    assert forall|y: ObjectId| #[trigger] contains_id(h, y) implies parent_of(h, id) != Some(y) by {}
                }
                return None;
            },
        };
        let below = self.descendant_ids(id);
        proof {
            lemma_pos(h, xi as int);
        }
        let ghost mut pi: int = -1;
        if let Some(p) = self.slots[xi].parent {
            proof {
                assert(contains_id(h, p));
            }
            match self.find_index(p) {
                Some(k) => {
                    let nc = without_id(&self.slots[k].children, id);
                    let slot = Slot { id: self.slots[k].id, parent: self.slots[k].parent, children: nc };
                    self.slots.set(k, slot);
                    proof {
                        pi = k as int;
                    }
                },
                None => {
                    proof {
                        assert(false);
                    }
                },
            }
        }
        let ghost h1 = self.nodes();
        proof {
            assert forall|k: int| 0 <= k < h.len() implies #[trigger] h1[k] == (if k == pi {
                Node { id: h[k].id, parent: h[k].parent, children: without(h[k].children, id) }
            } else {
                h[k]
            }) by {}
            assert(pi != -1 ==> parent_of(h, id) == Some(h[pi].id));
            assert(pi == -1 ==> parent_of(h, id) is None);
            assert(nodes_of(self.slots@).len() == h.len());
            assert(ids(h).subrange(0, 0) =~= Seq::<ObjectId>::empty());
            assert(ids(h).subrange(0, h.len() as int) =~= ids(h));
            assert(ids(self.nodes()) =~= ids(h));
            crate::hierarchy::lemma_same_ids(h, h1);
        }
        let mut result: Option<Object<C>> = None;
        let mut i: usize = 0;
        let ghost mut j: int = 0;
        while i < self.slots.len()
            invariant
                self.slots@.len() == self.objects@.len(),
                h.len() == o.len(),
                unique_ids(h),
                contains_id(h, id),
                xi < h.len(),
                h[xi as int].id == id,
                pos(h, id) == xi,
                s == subtree(h, id),
                forall|y: ObjectId| #[trigger] below@.contains(y) == is_ancestor(h, id, y),
                0 <= j <= h.len(),
                i <= self.slots@.len(),
                h1.len() == h.len(),
                forall|k: int| 0 <= k < h.len() ==> #[trigger] h1[k].id == h[k].id,
                ids(self.nodes()) == drop_listed(ids(h).subrange(0, j), s) + ids(h).subrange(j, h.len() as int),
                i == drop_listed(ids(h).subrange(0, j), s).len(),
                unique_ids(self.nodes()),
                forall|y: ObjectId| #[trigger] contains_id(self.nodes(), y) == (contains_id(h, y) && !(s.contains(y) && pos(h, y) < j)),
                forall|y: ObjectId| #[trigger] contains_id(self.nodes(), y) ==>
                    self.nodes()[pos(self.nodes(), y)] == h1[pos(h, y)] && self.objects()[pos(self.nodes(), y)] == o[pos(h, y)],
                result == (if xi < j { Some(o[xi as int]) } else { None::<Object<C>> }),
                self.next_object_id == old(self).next_object_id,
                self.debug_renderer == old(self).debug_renderer,
                self.command_queue@ == old(self).command_queue@,
                self.processing_lifecycle == old(self).processing_lifecycle,
                self.started == old(self).started,
                forall|k: int| 0 <= k < h.len() ==> #[trigger] h[k].id < self.next_object_id,
            decreases self.slots@.len() - i,
        {
            let ghost cur = self.nodes();
            let ghost objs = self.objects();
            let ghost d = drop_listed(ids(h).subrange(0, j), s);
            proof {
                assert(ids(cur).len() == cur.len());
                assert(j < h.len());
                assert(ids(cur)[i as int] == ids(h)[j]);
                assert(cur[i as int].id == h[j].id);
                lemma_pos(h, j);
                lemma_pos(cur, i as int);
                assert(ids(h).subrange(0, j + 1).drop_last() =~= ids(h).subrange(0, j));
                assert(ids(h).subrange(0, j + 1).last() == h[j].id);
            }
            let yid = self.slots[i].id;
            if yid == id || vec_contains(&below, yid) {
                let _slot = self.slots.remove(i);
                let obj = self.objects.remove(i);
                proof {
                    assert(s.contains(yid));
                    assert(nodes_of(self.slots@) =~= cur.remove(i as int));
                    lemma_remove_at(cur, objs, i as int);
                    assert(ids(self.nodes()) =~= ids(cur).remove(i as int));
                    assert(drop_listed(ids(h).subrange(0, j + 1), s) == d);
                    assert(ids(self.nodes()) =~= d + ids(h).subrange(j + 1, h.len() as int));
                    assert forall|y: ObjectId| #[trigger] contains_id(self.nodes(), y) == (contains_id(h, y) && !(s.contains(y) && pos(h, y) < j + 1)) by {
                        if contains_id(h, y) {
                            lemma_pos_of(h, y);
                            if pos(h, y) == j {
                                assert(y == yid);
                            }
                        }
                    }
                    assert(contains_id(cur, yid));
                    assert(pos(cur, yid) == i);
                    if yid == id {
                        assert(obj == o[xi as int]);
                    } else {
                        assert(xi != j);
                    }
                }
                if yid == id {
                    result = Some(obj);
                }
                proof {
                    j = j + 1;
                }
            } else {
                proof {
                    assert(!s.contains(yid));
                    assert(drop_listed(ids(h).subrange(0, j + 1), s) == d.push(yid));
                    assert(ids(self.nodes()) =~= d.push(yid) + ids(h).subrange(j + 1, h.len() as int));
                    assert forall|y: ObjectId| #[trigger] contains_id(self.nodes(), y) == (contains_id(h, y) && !(s.contains(y) && pos(h, y) < j + 1)) by {
                        if contains_id(h, y) {
                            lemma_pos_of(h, y);
                            if pos(h, y) == j {
                                assert(y == yid);
                            }
                        }
                    }
                    j = j + 1;
                }
                i = i + 1;
            }
        }
        proof {
            let h2 = self.nodes();
            assert(j == h.len());
            assert(ids(h).subrange(0, j) =~= ids(h));
            assert(ids(h).subrange(j, h.len() as int) =~= Seq::<ObjectId>::empty());
            assert(ids(h2) =~= drop_listed(ids(h), s));
            assert forall|y: ObjectId| #[trigger] contains_id(h2, y) == (contains_id(h, y) && !s.contains(y)) by {
                if contains_id(h, y) {
                    lemma_pos_of(h, y);
                }
            }
            assert forall|y: ObjectId| #[trigger] contains_id(h2, y) implies parent_of(h2, y) == parent_of(h, y)
                && children_of(h2, y) == (if parent_of(h, id) == Some(y) {
                    without(children_of(h, y), id)
                } else {
                    children_of(h, y)
                }) by {
                lemma_pos_of(h, y);
                lemma_pos_of(h2, y);
                if pi != -1 {
                    lemma_pos(h, pi);
                    if parent_of(h, id) == Some(y) {
                        assert(pos(h, y) == pi);
                    } else {
                        assert(pos(h, y) != pi);
                    }
                }
            }
            lemma_restrict_tree(h, h2, id);
            assert forall|k: int| 0 <= k < h2.len() implies #[trigger] h2[k].id < self.next_object_id by {
                lemma_pos(h2, k);
                let y = h2[k].id;
                lemma_pos_of(h, y);
                assert(h[pos(h, y)].id < self.next_object_id);
            }
        }
        result
    }


    /// Removes `id` and everything below it; `true` when `id` was present.
    /// During a lifecycle pass the removal is queued instead (and `true` is
    /// returned), to be done by `apply_commands`.
    pub fn despawn(&mut self, id: ObjectId) -> (r: bool)
        requires
            old(self).wf(),
        ensures
            final(self).wf(),
            final(self).in_lifecycle() == old(self).in_lifecycle(),
            final(self).is_started() == old(self).is_started(),
            old(self).in_lifecycle() ==> {
                &&& r
                &&& final(self).queue() == old(self).queue().push(WorldCommand::Despawn(id))
                &&& final(self).nodes() == old(self).nodes()
                &&& final(self).objects() == old(self).objects()
                &&& final(self).next_id() == old(self).next_id()
                &&& final(self).debug() == old(self).debug()
            },
            !old(self).in_lifecycle() ==> {
                &&& r == contains_id(old(self).nodes(), id)
                &&& final(self).despawned_from(old(self), id)
                &&& final(self).queue() == old(self).queue()
            },
    {
        if self.processing_lifecycle {
            self.queue_command(WorldCommand::Despawn(id));
            return true;
        }
        self.despawn_immediate(id).is_some()
    }

    /// Queues a structural change for `apply_commands`.
    pub fn queue_command(&mut self, command: WorldCommand<C>)
        requires
            old(self).wf(),
        ensures
            final(self).wf(),
            final(self).queue() == old(self).queue().push(command),
            final(self).nodes() == old(self).nodes(),
            final(self).objects() == old(self).objects(),
            final(self).next_id() == old(self).next_id(),
            final(self).in_lifecycle() == old(self).in_lifecycle(),
            final(self).is_started() == old(self).is_started(),
            final(self).debug() == old(self).debug(),
    {
        self.command_queue.push_back(command);
    }

    /// Takes the object with `id` out of the world (everything below it is
    /// despawned). Nothing happens during a lifecycle pass.
    pub fn take_object(&mut self, id: ObjectId) -> (r: Option<Object<C>>)
        requires
            old(self).wf(),
        ensures
            final(self).wf(),
            final(self).queue() == old(self).queue(),
            final(self).in_lifecycle() == old(self).in_lifecycle(),
            final(self).is_started() == old(self).is_started(),
            old(self).in_lifecycle() ==> r is None && final(self).nodes() == old(self).nodes()
                && final(self).objects() == old(self).objects() && final(self).next_id() == old(self).next_id()
                && final(self).debug() == old(self).debug(),
            !old(self).in_lifecycle() ==> final(self).despawned_from(old(self), id) && r == (if contains_id(old(self).nodes(), id) {
                Some(old(self).objects()[pos(old(self).nodes(), id)])
            } else {
                None::<Object<C>>
            }),
    {
        if self.processing_lifecycle {
            return None;
        }
        self.despawn_immediate(id)
    }

    /// Whether this world is what applying `c` to `pre` leaves, with `a`
    /// reporting it.
    pub open spec fn applied_from(&self, pre: &Self, c: WorldCommand<C>, a: AppliedCommand) -> bool {
        match c {
            WorldCommand::Despawn(x) => a == AppliedCommand::Despawned(x, contains_id(pre.nodes(), x))
                && self.despawned_from(pre, x),
            WorldCommand::Spawn(object) => a == AppliedCommand::Spawned(pre.next_id())
                && self.nodes() == pre.nodes().push(Node { id: pre.next_id(), parent: None, children: Seq::empty() })
                && self.objects() == pre.objects().push(object)
                && self.next_id() == pre.next_id() + 1,
        }
    }

    /// Whether `ws` runs from `pre` to this world applying the commands `q`
    /// one at a time, each reported by the matching entry of `r`.
    pub open spec fn replays(&self, pre: &Self, q: Seq<WorldCommand<C>>, r: Seq<AppliedCommand>, ws: Seq<World<C>>) -> bool {
        &&& ws.len() == q.len() + 1
        &&& r.len() == q.len()
        &&& ws[0] == *pre
        &&& ws[q.len() as int] == *self
        &&& forall|i: int| 0 <= i < q.len() ==> #[trigger] replay_step(ws, q, r, i)
    }

    /// Applies the oldest queued command and says what it did; `None` when
    /// the queue is empty.
    pub fn apply_next_command(&mut self) -> (r: Option<AppliedCommand>)
        requires
            old(self).wf(),
            old(self).queue().len() > 0 && old(self).queue()[0] is Spawn ==> old(self).next_id() < u64::MAX,
        ensures
            final(self).wf(),
            final(self).in_lifecycle() == old(self).in_lifecycle(),
            final(self).is_started() == old(self).is_started(),
            final(self).debug() == old(self).debug(),
            old(self).queue().len() == 0 ==> r is None && final(self).queue() == old(self).queue()
                && final(self).nodes() == old(self).nodes() && final(self).objects() == old(self).objects()
                && final(self).next_id() == old(self).next_id(),
            old(self).queue().len() > 0 ==> final(self).queue() == old(self).queue().drop_first() && match old(self).queue()[0] {
                WorldCommand::Despawn(x) => r == Some(AppliedCommand::Despawned(x, contains_id(old(self).nodes(), x)))
                    && final(self).despawned_from(old(self), x),
                WorldCommand::Spawn(object) => r == Some(AppliedCommand::Spawned(old(self).next_id()))
                    && final(self).nodes() == old(self).nodes().push(Node { id: old(self).next_id(), parent: None, children: Seq::empty() })
                    && final(self).objects() == old(self).objects().push(object)
                    && final(self).next_id() == old(self).next_id() + 1,
            },
    {
        match self.command_queue.pop_front() {
            None => None,
            Some(WorldCommand::Despawn(x)) => {
                let found = self.despawn_immediate(x);
                Some(AppliedCommand::Despawned(x, found.is_some()))
            },
            Some(WorldCommand::Spawn(object)) => {
                let id = self.spawn(object);
                Some(AppliedCommand::Spawned(id))
            },
        }
    }


    /// Whether every queued spawn can still get an id: what
    /// `apply_commands` asks of the world.
    pub fn can_apply_commands(&self) -> (r: bool)
        ensures
            r == (self.next_id() + spawn_count(self.queue()) <= u64::MAX),
    {
        let ghost q = self.queue();
        let mut count: usize = 0;
        let mut i: usize = 0;
        proof {
            assert(q.subrange(0, 0) =~= Seq::<WorldCommand<C>>::empty());
        }
        while i < self.command_queue.len()
            invariant
                q == self.queue(),
                i <= q.len(),
                count <= i,
                count == spawn_count(q.subrange(0, i as int)),
            decreases q.len() - i,
        {
            proof {
                assert(q.subrange(0, i + 1) =~= q.subrange(0, i as int).push(q[i as int]));
                lemma_spawn_count_push(q.subrange(0, i as int), q[i as int]);
            }
            match &self.command_queue[i] {
                WorldCommand::Spawn(_) => {
                    count = count + 1;
                },
                WorldCommand::Despawn(_) => {},
            }
            i = i + 1;
        }
        proof {
            assert(q.subrange(0, i as int) =~= q);
        }
        (count as u64) <= u64::MAX - self.next_object_id
    }

    /// Applies every queued command, oldest first, and says what each did.
    /// Every object whose despawn was queued is gone afterwards, and no
    /// object appears but the spawned ones.
    pub fn apply_commands(&mut self) -> (r: Vec<AppliedCommand>)
        requires
            old(self).wf(),
            old(self).next_id() + spawn_count(old(self).queue()) <= u64::MAX,
        ensures
            final(self).wf(),
            final(self).queue().len() == 0,
            final(self).in_lifecycle() == old(self).in_lifecycle(),
            final(self).is_started() == old(self).is_started(),
            final(self).debug() == old(self).debug(),
            final(self).next_id() == old(self).next_id() + spawn_count(old(self).queue()),
            r@.len() == old(self).queue().len(),
            forall|k: int| 0 <= k < r@.len() ==> reports(old(self).queue()[k], #[trigger] r@[k]),
            forall|x: ObjectId| queues_despawn(old(self).queue(), x) && x < old(self).next_id()
                ==> !#[trigger] contains_id(final(self).nodes(), x),
            forall|y: ObjectId| #[trigger] contains_id(final(self).nodes(), y)
                ==> contains_id(old(self).nodes(), y) || old(self).next_id() <= y,
            exists|ws: Seq<World<C>>| #[trigger] final(self).replays(old(self), old(self).queue(), r@, ws),
    {
        let ghost q = self.queue();
        let ghost mut ws: Seq<World<C>> = seq![*self];
        let ghost n0 = self.next_id();
        let ghost h0 = self.nodes();
        let mut r: Vec<AppliedCommand> = Vec::new();
        let ghost mut k: int = 0;
        proof {
            assert(q.subrange(0, 0) =~= Seq::<WorldCommand<C>>::empty());
            assert(q.subrange(0, q.len() as int) =~= q);
        }
        while self.command_queue.len() > 0
            invariant
                self.wf(),
                0 <= k <= q.len(),
                self.queue() == q.subrange(k, q.len() as int),
                self.next_id() == n0 + spawn_count(q.subrange(0, k)),
                spawn_count(q.subrange(0, k)) + spawn_count(self.queue()) == spawn_count(q),
                n0 + spawn_count(q) <= u64::MAX,
                self.in_lifecycle() == old(self).in_lifecycle(),
                self.is_started() == old(self).is_started(),
                self.debug() == old(self).debug(),
                r@.len() == k,
                forall|i: int| 0 <= i < k ==> reports(q[i], #[trigger] r@[i]),
                forall|x: ObjectId| queues_despawn(q.subrange(0, k), x) && x < n0 ==> !#[trigger] contains_id(self.nodes(), x),
                forall|y: ObjectId| #[trigger] contains_id(self.nodes(), y) ==> contains_id(h0, y) || n0 <= y,
                ws.len() == k + 1,
                ws[0] == *old(self),
                ws[k] == *self,
                forall|i: int| 0 <= i < k ==> #[trigger] replay_step(ws, q, r@, i),
            decreases q.len() - k,
        {
            let ghost pre = *self;
            let ghost front = q[k];
            proof {
                assert(self.queue()[0] == front);
                assert(self.queue().drop_first() =~= q.subrange(k + 1, q.len() as int));
                assert(q.subrange(0, k + 1) =~= q.subrange(0, k).push(front));
                lemma_spawn_count_push(q.subrange(0, k), front);
            }
            let ghost old_r = r@;
            let applied = self.apply_next_command();
            match applied {
                Some(a) => {
                    r.push(a);
                },
                None => {
                    proof {
                        assert(false);
                    }
                },
            }
            proof {
                let done = q.subrange(0, k + 1);
                assert forall|x: ObjectId| queues_despawn(done, x) && x < n0 implies !#[trigger] contains_id(self.nodes(), x) by {
                    let i = choose|i: int| 0 <= i < done.len() && #[trigger] done[i] == WorldCommand::<C>::Despawn(x);
                    if i < k {
                        assert(q.subrange(0, k)[i] == done[i]);
                        assert(queues_despawn(q.subrange(0, k), x));
                        assert(!contains_id(pre.nodes(), x));
                    }
                    match front {
                        WorldCommand::Despawn(x0) => {
                            if contains_id(pre.nodes(), x) {
                                assert(i == k);
                                assert(x0 == x);
                                assert(subtree(pre.nodes(), x).contains(x));
                            }
                        },
                        WorldCommand::Spawn(_) => {
                            assert(i < k);
                            crate::hierarchy::lemma_push_node(pre.nodes(), Node { id: pre.next_id(), parent: None, children: Seq::empty() });
                        },
                    }
                }
                assert forall|y: ObjectId| #[trigger] contains_id(self.nodes(), y) implies contains_id(h0, y) || n0 <= y by {
                    match front {
                        WorldCommand::Despawn(x0) => {
                            assert(contains_id(pre.nodes(), y));
                        },
                        WorldCommand::Spawn(_) => {
                            crate::hierarchy::lemma_push_node(pre.nodes(), Node { id: pre.next_id(), parent: None, children: Seq::empty() });
                            if y != pre.next_id() {
                                assert(contains_id(pre.nodes(), y));
                            }
                        },
                    }
                }
                assert forall|i: int| 0 <= i < k + 1 implies reports(q[i], #[trigger] r@[i]) by {
                    if i < k {
                        assert(r@[i] == old_r[i]);
                    }
                }
                let ws2 = ws.push(*self);
                assert(self.applied_from(&pre, front, r@[k]));
                assert forall|i: int| 0 <= i < k + 1 implies #[trigger] replay_step(ws2, q, r@, i) by {
                    if i < k {
                        assert(replay_step(ws, q, old_r, i));
                        assert(ws2[i] == ws[i] && ws2[i + 1] == ws[i + 1] && r@[i] == old_r[i]);
                    } else {
                        assert(ws2[i] == pre && ws2[i + 1] == *self);
                    }
                }
                ws = ws2;
                k = k + 1;
            }
        }
        proof {
            assert(self.queue().len() == 0);
            assert(k == q.len());
            assert(q.subrange(0, k) =~= q);
            assert(self.replays(old(self), q, r@, ws));
        }
        r
    }


    /// The ids of the objects holding a component under `key`, in object order.
    pub fn find_all_with(&self, key: ComponentKey) -> (r: Vec<ObjectId>)
        requires
            self.wf(),
        ensures
            r@ == ids_holding(self.objects(), self.nodes(), key),
    {
        let mut r: Vec<ObjectId> = Vec::new();
        let mut i: usize = 0;
        while i < self.objects.len()
            invariant
                self.wf(),
                i <= self.objects@.len(),
                r@ == ids_holding(self.objects().subrange(0, i as int), self.nodes(), key),
            decreases self.objects@.len() - i,
        {
            proof {
                let pre = self.objects().subrange(0, i as int);
                let post = self.objects().subrange(0, i + 1);
                assert(post.drop_last() =~= pre);
                assert(post.last() == self.objects()[i as int]);
            }
            if self.objects[i].has_component(key) {
                r.push(self.slots[i].id);
            }
            i = i + 1;
        }
        assert(self.objects().subrange(0, i as int) =~= self.objects());
        r
    }

    /// The first object, in object order, holding a component under `key`.
    pub fn find_first_with(&self, key: ComponentKey) -> (r: Option<ObjectId>)
        requires
            self.wf(),
        ensures
            r == (if ids_holding(self.objects(), self.nodes(), key).len() > 0 {
                Some(ids_holding(self.objects(), self.nodes(), key)[0])
            } else {
                None::<ObjectId>
            }),
    {
        let all = self.find_all_with(key);
        if all.len() > 0 {
            Some(all[0])
        } else {
            None
        }
    }

    /// Same as `find_all_with`.
    pub fn query(&self, key: ComponentKey) -> (r: Vec<ObjectId>)
        requires
            self.wf(),
        ensures
            r@ == ids_holding(self.objects(), self.nodes(), key),
    {
        self.find_all_with(key)
    }

    /// Whether the object `y` is present and holds a component under `key`.
    pub open spec fn holds_at(&self, y: ObjectId, key: ComponentKey) -> bool {
        contains_id(self.nodes(), y) && self.objects()[pos(self.nodes(), y)].holds(key)
    }

    /// The first of `ys` whose object holds a component under `key`.
    pub open spec fn first_holding(&self, ys: Seq<ObjectId>, key: ComponentKey) -> Option<ObjectId>
        decreases ys.len(),
    {
        if ys.len() == 0 {
            None
        } else if self.holds_at(ys[0], key) {
            Some(ys[0])
        } else {
            self.first_holding(ys.drop_first(), key)
        }
    }

    /// `c` is the first component that the object `y` holds under `key`.
    pub open spec fn is_first_component(&self, y: ObjectId, key: ComponentKey, c: C) -> bool {
        let comps = self.objects()[pos(self.nodes(), y)].components();
        exists|i: int| 0 <= i < comps.len() && #[trigger] comps[i] == (key, c)
            && forall|k: int| 0 <= k < i ==> comps[k].0 != key
    }

    /// Whether `x`'s ancestor `k` steps up (`x` itself for `k == 0`) is the
    /// first on the way up that holds a component under `key`.
    pub open spec fn first_holder_up(&self, x: ObjectId, key: ComponentKey, k: nat) -> bool {
        &&& nth_parent(self.nodes(), x, k) matches Some(y) && self.holds_at(y, key)
        &&& forall|j: nat| j < k ==> match #[trigger] nth_parent(self.nodes(), x, j) {
            Some(z) => !self.holds_at(z, key),
            None => true,
        }
    }

    proof fn lemma_first_holding_concat(&self, a: Seq<ObjectId>, b: Seq<ObjectId>, key: ComponentKey)
        ensures
            self.first_holding(a + b, key) == (match self.first_holding(a, key) {
                Some(y) => Some(y),
                None => self.first_holding(b, key),
            }),
        decreases a.len(),
    {
        if a.len() > 0 {
            assert((a + b).drop_first() =~= a.drop_first() + b);
            assert((a + b)[0] == a[0]);
            self.lemma_first_holding_concat(a.drop_first(), b, key);
        } else {
            assert(a + b =~= b);
        }
    }

    proof fn lemma_first_holding_holds(&self, ys: Seq<ObjectId>, key: ComponentKey)
        ensures
            self.first_holding(ys, key) matches Some(y) ==> self.holds_at(y, key),
        decreases ys.len(),
    {
        if ys.len() > 0 && !self.holds_at(ys[0], key) {
            self.lemma_first_holding_holds(ys.drop_first(), key);
        }
    }

    proof fn lemma_first_holding_some(&self, ys: Seq<ObjectId>, key: ComponentKey)
        ensures
            self.first_holding(ys, key) is Some <==> exists|y: ObjectId| ys.contains(y) && #[trigger] self.holds_at(y, key),
        decreases ys.len(),
    {
        if ys.len() > 0 {
            self.lemma_first_holding_some(ys.drop_first(), key);
            if self.holds_at(ys[0], key) {
                assert(ys.contains(ys[0]));
            } else {
                if exists|y: ObjectId| ys.contains(y) && #[trigger] self.holds_at(y, key) {
                    let y = choose|y: ObjectId| ys.contains(y) && #[trigger] self.holds_at(y, key);
                    let i = choose|i: int| 0 <= i < ys.len() && ys[i] == y;
                    assert(i != 0);
                    assert(ys.drop_first()[i - 1] == y);
                    assert(ys.drop_first().contains(y));
                }
                if exists|y: ObjectId| ys.drop_first().contains(y) && #[trigger] self.holds_at(y, key) {
                    let y = choose|y: ObjectId| ys.drop_first().contains(y) && #[trigger] self.holds_at(y, key);
                    let i = choose|i: int| 0 <= i < ys.drop_first().len() && ys.drop_first()[i] == y;
                    assert(ys[i + 1] == y);
                    assert(ys.contains(y));
                }
            }
        }
    }

    /// A component is found at or below `id` exactly when the object `id`
    /// or one below it holds one under `key`.
    pub proof fn lemma_component_in_children_found(&self, id: ObjectId, key: ComponentKey)
        requires
            self.wf(),
            contains_id(self.nodes(), id),
        ensures
            self.first_holding(depth_first(self.nodes(), id), key) is Some
                <==> exists|y: ObjectId| (y == id || is_ancestor(self.nodes(), id, y)) && #[trigger] self.holds_at(y, key),
    {
        let h = self.nodes();
        crate::hierarchy::lemma_depth_first_is_subtree(h, id);
        self.lemma_first_holding_some(depth_first(h, id), key);
        if exists|y: ObjectId| (y == id || is_ancestor(h, id, y)) && #[trigger] self.holds_at(y, key) {
            let y = choose|y: ObjectId| (y == id || is_ancestor(h, id, y)) && #[trigger] self.holds_at(y, key);
            assert(depth_first(h, id).contains(y));
        }
        if exists|y: ObjectId| depth_first(h, id).contains(y) && #[trigger] self.holds_at(y, key) {
            let y = choose|y: ObjectId| depth_first(h, id).contains(y) && #[trigger] self.holds_at(y, key);
            assert(y == id || is_ancestor(h, id, y));
        }
    }

    /// The first object, depth first from `id` and at most `depth` levels
    /// down, that holds a component under `key`.
    fn first_holder_below(&self, id: ObjectId, key: ComponentKey, depth: usize) -> (r: Option<ObjectId>)
        requires
            self.wf(),
        ensures
            r == self.first_holding(preorder_within(self.nodes(), id, depth as nat), key),
        decreases depth,
    {
        let ghost h = self.nodes();
        let o = match self.get(id) {
            Some(o) => o,
            None => {
                return None;
            },
        };
        let ghost rest = if depth == 0 {
            Seq::<ObjectId>::empty()
        } else {
            preorder_list(h, children_of(h, id), (depth - 1) as nat)
        };
        proof {
            assert(preorder_within(h, id, depth as nat) =~= seq![id] + rest);
            self.lemma_first_holding_concat(seq![id], rest, key);
            assert(seq![id][0] == id);
            assert(seq![id].drop_first() =~= Seq::<ObjectId>::empty());
        }
        if o.has_component(key) {
            return Some(id);
        }
        if depth == 0 {
            return None;
        }
        let cs = self.children(id);
        let mut k: usize = 0;
        proof {
            assert(!self.holds_at(id, key));
            assert(self.first_holding(Seq::<ObjectId>::empty(), key) is None);
            assert(self.first_holding(seq![id], key) is None);
            assert(cs@.skip(0) =~= cs@);
        }
        while k < cs.len()
            invariant
                self.wf(),
                h == self.nodes(),
                depth > 0,
                cs@ == children_of(h, id),
                k <= cs@.len(),
                self.first_holding(preorder_within(h, id, depth as nat), key)
                    == self.first_holding(preorder_list(h, cs@.skip(k as int), (depth - 1) as nat), key),
            decreases cs@.len() - k,
        {
            proof {
                let sk = cs@.skip(k as int);
                assert(sk[0] == cs@[k as int]);
                assert(sk.drop_first() =~= cs@.skip(k + 1));
                self.lemma_first_holding_concat(
                    preorder_within(h, cs@[k as int], (depth - 1) as nat),
                    preorder_list(h, cs@.skip(k + 1), (depth - 1) as nat),
                    key,
                );
            }
            match self.first_holder_below(cs[k], key, depth - 1) {
                Some(y) => {
                    return Some(y);
                },
                None => {},
            }
            k = k + 1;
        }
        proof {
            assert(cs@.skip(k as int) =~= Seq::<ObjectId>::empty());
        }
        None
    }

    /// The first component under `key` of the object `id` or, failing that,
    /// of the first object below it that holds one: depth first, each object
    /// before its children and the children in the order they were attached.
    pub fn get_component_in_children(&self, id: ObjectId, key: ComponentKey) -> (r: Option<&C>)
        requires
            self.wf(),
        ensures
            match self.first_holding(depth_first(self.nodes(), id), key) {
                Some(y) => r matches Some(c) && self.is_first_component(y, key, *c),
                None => r is None,
            },
    {
        let ghost h = self.nodes();
        let found = self.first_holder_below(id, key, self.slots.len());
        let y = match found {
            Some(y) => y,
            None => {
                return None;
            },
        };
        proof {
            assert(self.slots@.len() == h.len());
            self.lemma_first_holding_holds(depth_first(h, id), key);
        }
        let o = match self.get(y) {
            Some(o) => o,
            None => {
                return None;
            },
        };
        match o.component_index(key) {
            Some(i) => Some(&o.components[i].1),
            None => None,
        }
    }

    /// The first component under `key` of the object `id` or, failing that,
    /// of the nearest ancestor that holds one.
    pub fn get_component_in_parent(&self, id: ObjectId, key: ComponentKey) -> (r: Option<&C>)
        requires
            self.wf(),
        ensures
            match r {
                Some(c) => exists|k: nat| #[trigger] self.first_holder_up(id, key, k)
                    && self.is_first_component(nth_parent(self.nodes(), id, k)->0, key, *c),
                None => forall|k: nat| match #[trigger] nth_parent(self.nodes(), id, k) {
                    Some(z) => !self.holds_at(z, key),
                    None => true,
                },
            },
    {
        let ghost h = self.nodes();
        let mut current: Option<ObjectId> = Some(id);
        let ghost mut j: nat = 0;
        let ghost end: nat = if contains_id(h, id) {
            choose|n: nat| #[trigger] nth_parent(h, id, n) is None
        } else {
            1
        };
        proof {
            assert(nth_parent(h, id, 0) == Some(id));
            if !contains_id(h, id) {
                assert(nth_parent(h, id, 1) == parent_of(h, id));
            }
        }
        while current.is_some()
            invariant
                self.wf(),
                h == self.nodes(),
                current == nth_parent(h, id, j),
                nth_parent(h, id, end) is None,
                forall|i: nat| i < j ==> match #[trigger] nth_parent(h, id, i) {
                    Some(z) => !self.holds_at(z, key),
                    None => true,
                },
            decreases end - j,
        {
            let cur = current.unwrap();
            proof {
                if j >= end {
                    lemma_nth_none_stays(h, id, end, j);
                }
            }
            match self.get(cur) {
                Some(o) => {
                    match o.component_index(key) {
                        Some(i) => {
                            proof {
                                assert(self.holds_at(cur, key));
                                assert(self.first_holder_up(id, key, j));
                                assert(self.objects()[pos(h, cur)].components()[i as int] == (key, o.components@[i as int].1));
                            }
                            return Some(&o.components[i].1);
                        },
                        None => {},
                    }
                },
                None => {},
            }
            proof {
                assert(!self.holds_at(cur, key));
            }
            current = self.parent(cur);
            proof {
                assert(nth_parent(h, id, j + 1) == parent_of(h, cur));
                assert forall|i: nat| i < j + 1 implies match #[trigger] nth_parent(h, id, i) {
                    Some(z) => !self.holds_at(z, key),
                    None => true,
                } by {
                    if i < j {
                    } else {
                        assert(i == j);
                    }
                }
                j = j + 1;
            }
        }
        proof {
            assert forall|k: nat| match #[trigger] nth_parent(h, id, k) {
                Some(z) => !self.holds_at(z, key),
                None => true,
            } by {
                if k >= j {
                    lemma_nth_none_stays(h, id, j, k);
                }
            }
        }
        None
    }

    /// Spawns an object with an empty name that holds exactly the
    /// components of `bundle`, in order, and returns its id.
    pub fn spawn_bundle(&mut self, bundle: Vec<(ComponentKey, C)>) -> (id: ObjectId)
        requires
            old(self).wf(),
            old(self).next_id() < u64::MAX,
        ensures
            final(self).wf(),
            id == old(self).next_id(),
            final(self).spawned_from(old(self), final(self).objects().last()),
            final(self).objects().last().components() == bundle@,
            final(self).objects().last().name_view() == Seq::<char>::empty(),
            final(self).objects().last().pending().len() == 0,
    {
        let object = Object { name: String::new(), components: bundle, pending_children: Vec::new() };
        self.spawn(object)
    }

    /// The first component under `key` of each object that holds one, in
    /// object order.
    pub fn query_components(&self, key: ComponentKey) -> (r: Vec<&C>)
        requires
            self.wf(),
        ensures
            r@.map_values(|c: &C| *c) == components_under(self.objects(), key),
    {
        let mut r: Vec<&C> = Vec::new();
        let mut i: usize = 0;
        while i < self.objects.len()
            invariant
                i <= self.objects@.len(),
                r@.map_values(|c: &C| *c) == components_under(self.objects().subrange(0, i as int), key),
            decreases self.objects@.len() - i,
        {
            let o = &self.objects[i];
            let ghost pre = self.objects().subrange(0, i as int);
            let ghost post = self.objects().subrange(0, i + 1);
            proof {
                assert(post.drop_last() =~= pre);
                assert(post.last() == self.objects()[i as int]);
            }
            let ghost old_r = r@;
            match o.component_index(key) {
                Some(j) => {
                    proof {
                        lemma_first_component_of(o.components(), key, j as int);
                    }
                    r.push(&o.components[j].1);
                    assert(r@.map_values(|c: &C| *c) =~= old_r.map_values(|c: &C| *c).push(o.components()[j as int].1));
                },
                None => {
                    proof {
                        assert forall|m: int| 0 <= m < o.components().len() implies o.components()[m].0 != key by {
                            if o.components()[m].0 == key {
                                assert(o.holds(key));
                            }
                        }
                        lemma_first_component_of(o.components(), key, o.components().len() as int);
                    }
                },
            }
            i = i + 1;
        }
        assert(self.objects().subrange(0, i as int) =~= self.objects());
        r
    }

    /// Replaces, in every object that holds one, the first component under
    /// `key` by what `f` makes of it, and returns the ids of those objects
    /// in object order.
    pub fn query_components_mut<F: Fn(C) -> C>(&mut self, key: ComponentKey, f: F) -> (r: Vec<ObjectId>)
        requires
            old(self).wf(),
            forall|c: C| #[trigger] f.requires((c,)),
        ensures
            final(self).wf(),
            final(self).nodes() == old(self).nodes(),
            final(self).next_id() == old(self).next_id(),
            final(self).queue() == old(self).queue(),
            final(self).in_lifecycle() == old(self).in_lifecycle(),
            final(self).is_started() == old(self).is_started(),
            final(self).debug() == old(self).debug(),
            final(self).objects().len() == old(self).objects().len(),
            forall|i: int| 0 <= i < old(self).objects().len()
                ==> updated_by(old(self).objects()[i], #[trigger] final(self).objects()[i], key, f),
            r@ == ids_holding(old(self).objects(), old(self).nodes(), key),
    {
        let ghost objs0 = self.objects();
        let mut r: Vec<ObjectId> = Vec::new();
        let mut i: usize = 0;
        while i < self.objects.len()
            invariant
                self.wf(),
                forall|c: C| #[trigger] f.requires((c,)),
                i <= self.objects@.len(),
                self.objects@.len() == objs0.len(),
                objs0 == old(self).objects(),
                self.nodes() == old(self).nodes(),
                self.next_id() == old(self).next_id(),
                self.queue() == old(self).queue(),
                self.in_lifecycle() == old(self).in_lifecycle(),
                self.is_started() == old(self).is_started(),
                self.debug() == old(self).debug(),
                forall|k: int| 0 <= k < i ==> updated_by(objs0[k], #[trigger] self.objects()[k], key, f),
                forall|k: int| i <= k < objs0.len() ==> #[trigger] self.objects()[k] == objs0[k],
                r@ == ids_holding(objs0.subrange(0, i as int), self.nodes(), key),
            decreases objs0.len() - i,
        {
            proof {
                let pre = objs0.subrange(0, i as int);
                let post = objs0.subrange(0, i + 1);
                assert(post.drop_last() =~= pre);
                assert(post.last() == objs0[i as int]);
            }
            let ghost before = self.objects();
            let mut o = self.objects.remove(i);
            let touched = o.update_component(key, &f);
            self.objects.insert(i, o);
            proof {
                assert(self.objects() =~= before.update(i as int, o));
            }
            if touched {
                r.push(self.slots[i].id);
            }
            i = i + 1;
        }
        assert(objs0.subrange(0, i as int) =~= objs0);
        r
    }

    /// The ids of all objects, in object order.
    pub fn object_ids(&self) -> (r: Vec<ObjectId>)
        requires
            self.wf(),
        ensures
            r@ == ids(self.nodes()),
    {
        let mut r: Vec<ObjectId> = Vec::new();
        let mut i: usize = 0;
        while i < self.slots.len()
            invariant
                i <= self.slots@.len(),
                r@ == ids(self.nodes()).subrange(0, i as int),
            decreases self.slots@.len() - i,
        {
            r.push(self.slots[i].id);
            assert(r@ =~= ids(self.nodes()).subrange(0, i + 1));
            i = i + 1;
        }
        assert(ids(self.nodes()).subrange(0, i as int) =~= ids(self.nodes()));
        r
    }

    /// Whether the start pass has run.
    pub fn has_started(&self) -> (r: bool)
        ensures
            r == self.is_started(),
    {
        self.started
    }

    /// The script passes of the next tick, in order: the start pass before
    /// the world has started, and afterwards the update pass followed by the
    /// late-update pass.
    pub fn frame_passes(&self) -> (r: Vec<LifecyclePass>)
        ensures
            r@ == (if self.is_started() {
                seq![LifecyclePass::Update, LifecyclePass::LateUpdate]
            } else {
                seq![LifecyclePass::Start]
            }),
    {
        let mut r: Vec<LifecyclePass> = Vec::new();
        if self.started {
            r.push(LifecyclePass::Update);
            r.push(LifecyclePass::LateUpdate);
        } else {
            r.push(LifecyclePass::Start);
        }
        r
    }

    /// Marks the start of a lifecycle pass: structural changes are queued
    /// until it ends.
    pub fn begin_lifecycle(&mut self)
        requires
            old(self).wf(),
        ensures
            final(self).wf(),
            final(self).in_lifecycle(),
            final(self).is_started() == old(self).is_started(),
            final(self).nodes() == old(self).nodes(),
            final(self).objects() == old(self).objects(),
            final(self).next_id() == old(self).next_id(),
            final(self).queue() == old(self).queue(),
            final(self).debug() == old(self).debug(),
    {
        self.processing_lifecycle = true;
    }

    /// Marks the end of a lifecycle pass.
    pub fn end_lifecycle(&mut self)
        requires
            old(self).wf(),
        ensures
            final(self).wf(),
            !final(self).in_lifecycle(),
            final(self).is_started() == old(self).is_started(),
            final(self).nodes() == old(self).nodes(),
            final(self).objects() == old(self).objects(),
            final(self).next_id() == old(self).next_id(),
            final(self).queue() == old(self).queue(),
            final(self).debug() == old(self).debug(),
    {
        self.processing_lifecycle = false;
    }

    /// Ends the start pass: from now on spawned objects start at once.
    pub fn finish_start(&mut self)
        requires
            old(self).wf(),
        ensures
            final(self).wf(),
            !final(self).in_lifecycle(),
            final(self).is_started(),
            final(self).nodes() == old(self).nodes(),
            final(self).objects() == old(self).objects(),
            final(self).next_id() == old(self).next_id(),
            final(self).queue() == old(self).queue(),
            final(self).debug() == old(self).debug(),
    {
        self.processing_lifecycle = false;
        self.started = true;
    }

    /// Ids are never reused: every object's id is below the id the next
    /// spawned object gets.
    pub proof fn lemma_ids_below_next(&self)
        requires
            self.wf(),
        ensures
            forall|y: ObjectId| #[trigger] contains_id(self.nodes(), y) ==> y < self.next_id(),
            tree(self.nodes()),
    {
        assert forall|y: ObjectId| #[trigger] contains_id(self.nodes(), y) implies y < self.next_id() by {
            lemma_pos_of(self.nodes(), y);
        }
    }

    /// Despawning removes the object and everything below it, and nothing
    /// else: every other object stays, with its parent and its value.
    pub proof fn lemma_despawn_removes_subtree(&self, pre: &Self, x: ObjectId)
        requires
            pre.wf(),
            self.despawned_from(pre, x),
        ensures
            !contains_id(self.nodes(), x),
            forall|y: ObjectId| is_ancestor(pre.nodes(), x, y) ==> !#[trigger] contains_id(self.nodes(), y),
            forall|y: ObjectId| contains_id(pre.nodes(), y) && y != x && !is_ancestor(pre.nodes(), x, y)
                ==> #[trigger] contains_id(self.nodes(), y) && parent_of(self.nodes(), y) == parent_of(pre.nodes(), y)
                    && self.objects()[pos(self.nodes(), y)] == pre.objects()[pos(pre.nodes(), y)],
    {
        if contains_id(pre.nodes(), x) {
            assert(subtree(pre.nodes(), x).contains(x));
        }
        assert forall|y: ObjectId| is_ancestor(pre.nodes(), x, y) implies !#[trigger] contains_id(self.nodes(), y) by {
            if contains_id(pre.nodes(), y) && !contains_id(pre.nodes(), x) {
                // Below `x` means `x` is somebody's parent, so `x` is present.
                lemma_parent_below(pre.nodes(), x, y);
                crate::hierarchy::lemma_chain_present(pre.nodes(), y, x);
            }
        }
    }

    fn children_listed(&self, y: ObjectId) -> (r: Vec<ObjectId>)
        ensures
            r@ == children_in_order(self.nodes(), y),
    {
        let mut r: Vec<ObjectId> = Vec::new();
        let mut i: usize = 0;
        while i < self.slots.len()
            invariant
                i <= self.slots@.len(),
                r@ == children_in_order(self.nodes().subrange(0, i as int), y),
            decreases self.slots@.len() - i,
        {
            proof {
                assert(self.nodes().subrange(0, i + 1).drop_last() =~= self.nodes().subrange(0, i as int));
                assert(self.nodes().subrange(0, i + 1).last() == node_of(self.slots@[i as int]));
            }
            if self.slots[i].parent == Some(y) {
                r.push(self.slots[i].id);
            }
            i = i + 1;
        }
        assert(self.nodes().subrange(0, i as int) =~= self.nodes());
        r
    }

    /// Lists every object's children anew from the parent links, in object
    /// order; parents and objects are unchanged, and each object keeps the
    /// same children.
    pub fn repair_hierarchy(&mut self)
        requires
            old(self).wf(),
        ensures
            final(self).wf(),
            final(self).nodes() == relisted(old(self).nodes()),
            forall|y: ObjectId| #[trigger] parent_of(final(self).nodes(), y) == parent_of(old(self).nodes(), y),
            forall|y: ObjectId| #[trigger] children_of(final(self).nodes(), y).to_set() == children_of(old(self).nodes(), y).to_set(),
            final(self).objects() == old(self).objects(),
            final(self).next_id() == old(self).next_id(),
            final(self).queue() == old(self).queue(),
            final(self).in_lifecycle() == old(self).in_lifecycle(),
            final(self).is_started() == old(self).is_started(),
            final(self).debug() == old(self).debug(),
    {
        let ghost h = self.nodes();
        let mut lists: Vec<Vec<ObjectId>> = Vec::new();
        let mut i: usize = 0;
        while i < self.slots.len()
            invariant
                h == self.nodes(),
                i <= self.slots@.len(),
                lists@.len() == i,
                forall|k: int| 0 <= k < i ==> (#[trigger] lists@[k])@ == children_in_order(h, h[k].id),
            decreases self.slots@.len() - i,
        {
            let l = self.children_listed(self.slots[i].id);
            lists.push(l);
            i = i + 1;
        }
        let mut j: usize = 0;
        while j < self.slots.len()
            invariant
                self.slots@.len() == h.len(),
                lists@.len() == h.len(),
                j <= h.len(),
                forall|k: int| 0 <= k < h.len() ==> (#[trigger] lists@[k])@ == children_in_order(h, h[k].id),
                forall|k: int| 0 <= k < h.len() ==> #[trigger] self.nodes()[k] == (if k < j { relisted(h)[k] } else { h[k] }),
                self.objects@ == old(self).objects@,
                self.next_object_id == old(self).next_object_id,
                self.debug_renderer == old(self).debug_renderer,
                self.command_queue@ == old(self).command_queue@,
                self.processing_lifecycle == old(self).processing_lifecycle,
                self.started == old(self).started,
            decreases h.len() - j,
        {
            let list = lists[j].clone();
            proof {
                assert(list@ =~= lists@[j as int]@);
                assert(self.nodes()[j as int] == h[j as int]);
            }
            let ghost before = self.nodes();
            let slot = Slot { id: self.slots[j].id, parent: self.slots[j].parent, children: list };
            self.slots.set(j, slot);
            proof {
                assert forall|k: int| 0 <= k < h.len() implies #[trigger] self.nodes()[k] == (if k < j + 1 { relisted(h)[k] } else { h[k] }) by {
                    if k != j {
                        assert(self.nodes()[k] == before[k]);
                    }
                }
            }
            j = j + 1;
        }
        proof {
            assert(self.nodes() =~= relisted(h));
            lemma_relisted_tree(h);
            assert forall|y: ObjectId| #[trigger] children_of(self.nodes(), y).to_set() == children_of(h, y).to_set() by {
                if !contains_id(h, y) {
                    crate::hierarchy::lemma_same_ids(h, relisted(h));
                    assert(children_of(h, y).to_set() =~= children_in_order(h, y).to_set());
                    assert(children_of(self.nodes(), y) == Seq::<ObjectId>::empty());
                }
            }
            assert forall|k: int| 0 <= k < self.nodes().len() implies #[trigger] self.nodes()[k].id < self.next_object_id by {
                assert(self.nodes()[k].id == h[k].id);
            }
        }
    }

    /// The number of objects.
    pub fn len(&self) -> (r: usize)
        requires
            self.wf(),
        ensures
            r == self.nodes().len(),
    {
        self.slots.len()
    }

    /// The id the next spawned object gets.
    pub fn next_object_id(&self) -> (r: ObjectId)
        ensures
            r == self.next_id(),
    {
        self.next_object_id
    }

    pub fn set_debug_draw_collisions(&mut self, enabled: bool)
        requires
            old(self).wf(),
        ensures
            final(self).wf(),
            final(self).debug().draws_collisions() == enabled,
            final(self).nodes() == old(self).nodes(),
            final(self).objects() == old(self).objects(),
            final(self).next_id() == old(self).next_id(),
            final(self).queue() == old(self).queue(),
    {
        self.debug_renderer.set_debug_draw_collisions(enabled);
    }

    pub fn is_debug_draw_collisions_enabled(&self) -> (r: bool)
        ensures
            r == self.debug().draws_collisions(),
    {
        self.debug_renderer.is_debug_draw_collisions_enabled()
    }

    /// The debug overlay switches.
    pub fn debug_renderer(&self) -> (r: &DebugRenderer)
        ensures
            *r == self.debug(),
    {
        &self.debug_renderer
    }
}

impl<C> Default for World<C> {
    /// Same as `World::new`.
    fn default() -> (w: Self)
        ensures
            w.wf(),
            w.nodes().len() == 0,
            w.objects().len() == 0,
            w.next_id() == 1,
            w.queue().len() == 0,
            !w.in_lifecycle(),
            !w.is_started(),
    {
        World::new()
    }
}

/// Moving `c` under `p` makes `p` its parent and lists `c` among `p`'s
/// children, and `c`'s old parent lists it no more; the result is a tree.
pub proof fn lemma_set_parent_links(h: Seq<Node>, c: ObjectId, p: ObjectId)
    requires
        tree(h),
        may_reparent(h, c, Some(p)),
        parent_of(h, c) != Some(p),
    ensures
        tree(reparent(h, c, Some(p))),
        parent_of(reparent(h, c, Some(p)), c) == Some(p),
        children_of(reparent(h, c, Some(p)), p).contains(c),
        parent_of(h, c) matches Some(op) ==> !children_of(reparent(h, c, Some(p)), op).contains(c),
        is_ancestor(reparent(h, c, Some(p)), p, c),
{
    let h2 = reparent(h, c, Some(p));
    lemma_reparent_keeps_tree(h, c, Some(p));
    lemma_pos_of(h, p);
    lemma_pos_of(h, c);
    assert(h2[pos(h, p)].children == h[pos(h, p)].children.push(c));
    assert(h2[pos(h, p)].children[h[pos(h, p)].children.len() as int] == c);
    if let Some(op) = parent_of(h, c) {
        lemma_pos(h, pos(h, c));
        lemma_pos_of(h, op);
        lemma_without(h[pos(h, op)].children, c);
    }
    crate::hierarchy::lemma_one_step(h2, c);
}

/// A despawn of a present object queued now is among the queued commands,
/// and its id is below the next one: `apply_commands` carries it out.
pub proof fn lemma_queued_despawn_applies<C>(w: World<C>, x: ObjectId)
    requires
        w.wf(),
        contains_id(w.nodes(), x),
    ensures
        queues_despawn(w.queue().push(WorldCommand::Despawn(x)), x),
        x < w.next_id(),
{
    w.lemma_ids_below_next();
    assert(w.queue().push(WorldCommand::Despawn(x))[w.queue().len() as int] == WorldCommand::<C>::Despawn(x));
}

} // verus!
