//! Registries of the component and script types and of the archetypes
//! (named object recipes) known at run time.
//!
//! A type is known by its key (a `TypeKey`, which the caller derives from the
//! Rust type) and a name. Registering a key again replaces its entry; a name
//! keeps pointing at the key it was last registered for. What builds an object
//! or a component is the caller's code; the registries keep which keys and
//! names have such a builder.
use vstd::prelude::*;
use crate::text::str_eq;
use crate::hierarchy::ObjectId;
use crate::world::{ComponentKey, Object, World, TRANSFORM_KEY};

verus! {

/// Identifies a registered type.
pub type TypeKey = ComponentKey;

#[derive(Clone, Copy, PartialEq, Eq, Structural, Debug)]
pub enum RegisteredTypeKind {
    Component,
    Script,
}

#[derive(Clone, Copy, PartialEq, Eq, Structural, Debug)]
pub enum RegistrationSource {
    BuiltIn,
    User,
}

/// What is known of a registered type.
pub struct TypeInfo {
    pub type_id: TypeKey,
    pub name: Seq<char>,
    pub kind: RegisteredTypeKind,
    pub source: RegistrationSource,
}

#[derive(Debug)]
pub struct TypeMetadata {
    type_id: TypeKey,
    name: String,
    kind: RegisteredTypeKind,
    source: RegistrationSource,
}

impl View for TypeMetadata {
    type V = TypeInfo;

    closed spec fn view(&self) -> TypeInfo {
        TypeInfo { type_id: self.type_id, name: self.name@, kind: self.kind, source: self.source }
    }
}

impl TypeMetadata {
    pub fn type_id(&self) -> (r: TypeKey)
        ensures
            r == self@.type_id,
    {
        self.type_id
    }

    pub fn name(&self) -> (r: &str)
        ensures
            r@ == self@.name,
    {
        self.name.as_str()
    }

    pub fn kind(&self) -> (r: RegisteredTypeKind)
        ensures
            r == self@.kind,
    {
        self.kind
    }

    pub fn source(&self) -> (r: RegistrationSource)
        ensures
            r == self@.source,
    {
        self.source
    }

    /// A copy of this metadata.
    pub fn duplicate(&self) -> (r: TypeMetadata)
        ensures
            r@ == self@,
    {
        TypeMetadata { type_id: self.type_id, name: self.name.clone(), kind: self.kind, source: self.source }
    }
}

#[derive(Debug)]
struct TypeRegistration {
    metadata: TypeMetadata,
    has_factory: bool,
}

/// The registered types: their entries in the order they were first
/// registered, which of them have a builder, and the name table.
pub struct TypeRegistryView {
    pub entries: Seq<TypeInfo>,
    pub factories: Set<TypeKey>,
    pub names: Map<Seq<char>, TypeKey>,
}

/// The index of the entry for `id`, if there is one.
pub open spec fn entry_index(entries: Seq<TypeInfo>, id: TypeKey) -> Option<int> {
    if exists|i: int| 0 <= i < entries.len() && #[trigger] entries[i].type_id == id {
        Some(choose|i: int| 0 <= i < entries.len() && #[trigger] entries[i].type_id == id)
    } else {
        None
    }
}

/// The entry for `id`.
pub open spec fn type_info(v: TypeRegistryView, id: TypeKey) -> Option<TypeInfo> {
    match entry_index(v.entries, id) {
        Some(i) => Some(v.entries[i]),
        None => None,
    }
}

/// The entry the name `name` points at.
pub open spec fn type_info_by_name(v: TypeRegistryView, name: Seq<char>) -> Option<TypeInfo> {
    if v.names.contains_key(name) {
        type_info(v, v.names[name])
    } else {
        None
    }
}

/// The registry after registering `info` with no builder.
pub open spec fn registered(v: TypeRegistryView, info: TypeInfo) -> TypeRegistryView {
    TypeRegistryView {
        entries: match entry_index(v.entries, info.type_id) {
            Some(i) => v.entries.update(i, info),
            None => v.entries.push(info),
        },
        factories: v.factories.remove(info.type_id),
        names: v.names.insert(info.name, info.type_id),
    }
}

/// The entries from `source`, in order.
pub open spec fn entries_from(entries: Seq<TypeInfo>, source: RegistrationSource) -> Seq<TypeInfo>
    decreases entries.len(),
{
    if entries.len() == 0 {
        entries
    } else {
        let r = entries_from(entries.drop_last(), source);
        if entries.last().source == source {
            r.push(entries.last())
        } else {
            r
        }
    }
}

/// Whether `e` was registered from `source`, whatever its kind.
pub open spec fn registered_by(source: RegistrationSource) -> spec_fn(TypeInfo) -> bool {
    |e: TypeInfo| e.source == source
}

/// The listing of one source is the registered entries filtered by their
/// source alone, in registration order: an entry is listed if and only if it
/// was registered from that source (component and script alike), and each
/// one as often as it is registered.
pub proof fn lemma_entries_from_is_source_filter(entries: Seq<TypeInfo>, source: RegistrationSource)
    ensures
        entries_from(entries, source) == entries.filter(registered_by(source)),
        forall|x: TypeInfo| #[trigger] entries_from(entries, source).contains(x)
            <==> (entries.contains(x) && x.source == source),
        entries_from(entries, source).to_multiset() == entries.to_multiset().filter(registered_by(source)),
    decreases entries.len(),
{
    broadcast use vstd::seq_lib::group_seq_properties;
    broadcast use vstd::multiset::group_multiset_properties;
    reveal(Seq::filter);
    if entries.len() > 0 {
        lemma_entries_from_is_source_filter(entries.drop_last(), source);
        let rest = entries.drop_last();
        assert(entries =~= rest.push(entries.last()));
        rest.to_multiset_ensures();
        entries.to_multiset_ensures();
        let r = entries_from(rest, source);
        r.to_multiset_ensures();
        assert(entries.to_multiset() =~= rest.to_multiset().insert(entries.last()));
        if entries.last().source == source {
            assert(entries_from(entries, source).to_multiset() =~= r.to_multiset().insert(entries.last()));
            assert(entries.to_multiset().filter(registered_by(source))
                =~= rest.to_multiset().filter(registered_by(source)).insert(entries.last()));
        } else {
            assert(entries.to_multiset().filter(registered_by(source))
                =~= rest.to_multiset().filter(registered_by(source)));
        }
    }
}

/// Every entry is listed under exactly one source: the built-in and the
/// user listings together are as long as the registry.
pub proof fn lemma_sources_partition(entries: Seq<TypeInfo>)
    ensures
        entries_from(entries, RegistrationSource::BuiltIn).len()
            + entries_from(entries, RegistrationSource::User).len() == entries.len(),
    decreases entries.len(),
{
    if entries.len() > 0 {
        lemma_sources_partition(entries.drop_last());
    }
}

/// The views of `v`, in order.
pub open spec fn infos(v: Seq<TypeMetadata>) -> Seq<TypeInfo> {
    v.map_values(|m: TypeMetadata| m@)
}

#[derive(Debug)]
pub struct TypeRegistry {
    types: Vec<TypeRegistration>,
    names: Vec<(String, TypeKey)>,
}

spec fn info_of(r: TypeRegistration) -> TypeInfo {
    r.metadata@
}

spec fn names_map(names: Seq<(String, TypeKey)>) -> Map<Seq<char>, TypeKey> {
    Map::new(
        |n: Seq<char>| exists|i: int| 0 <= i < names.len() && #[trigger] names[i].0@ == n,
        |n: Seq<char>| names[choose|i: int| 0 <= i < names.len() && #[trigger] names[i].0@ == n].1,
    )
}

impl View for TypeRegistry {
    type V = TypeRegistryView;

    closed spec fn view(&self) -> TypeRegistryView {
        TypeRegistryView {
            entries: self.types@.map_values(|r: TypeRegistration| info_of(r)),
            factories: Set::new(|k: TypeKey| exists|i: int| 0 <= i < self.types@.len() && #[trigger] self.types@[i].metadata@.type_id == k && self.types@[i].has_factory),
            names: names_map(self.names@),
        }
    }
}

impl TypeRegistry {
    /// Keys are distinct, and so are names.
    pub closed spec fn wf(&self) -> bool {
        &&& forall|i: int, j: int| 0 <= i < self.types@.len() && 0 <= j < self.types@.len() && i != j
            ==> #[trigger] self.types@[i].metadata@.type_id != #[trigger] self.types@[j].metadata@.type_id
        &&& forall|i: int, j: int| 0 <= i < self.names@.len() && 0 <= j < self.names@.len() && i != j
            ==> #[trigger] self.names@[i].0@ != #[trigger] self.names@[j].0@
    }

    pub fn new() -> (r: Self)
        ensures
            r.wf(),
            r@.entries.len() == 0,
            r@.factories.is_empty(),
            r@.names.is_empty(),
    {
        let r = TypeRegistry { types: Vec::new(), names: Vec::new() };
        assert(r@.entries =~= Seq::<TypeInfo>::empty());
        assert(r@.factories =~= Set::<TypeKey>::empty());
        assert(r@.names =~= Map::<Seq<char>, TypeKey>::empty());
        r
    }

    fn index_of(&self, id: TypeKey) -> (r: Option<usize>)
        requires
            self.wf(),
        ensures
            match r {
                Some(i) => entry_index(self@.entries, id) == Some(i as int) && i < self.types@.len(),
                None => entry_index(self@.entries, id) is None,
            },
    {
        let mut i: usize = 0;
        while i < self.types.len()
            invariant
                self.wf(),
                i <= self.types@.len(),
                forall|k: int| 0 <= k < i ==> #[trigger] self@.entries[k].type_id != id,
            decreases self.types@.len() - i,
        {
            if self.types[i].metadata.type_id == id {
                proof {
                    assert(self@.entries[i as int].type_id == id);
                    let c = choose|c: int| 0 <= c < self@.entries.len() && #[trigger] self@.entries[c].type_id == id;
                    if c != i {
                        assert(self.types@[c].metadata@.type_id == self@.entries[c].type_id);
                    }
                }
                return Some(i);
            }
            i = i + 1;
        }
        None
    }

    fn name_index(&self, name: &str) -> (r: Option<usize>)
        requires
            self.wf(),
        ensures
            match r {
                Some(i) => i < self.names@.len() && self.names@[i as int].0@ == name@,
                None => !self@.names.contains_key(name@),
            },
    {
        let mut i: usize = 0;
        while i < self.names.len()
            invariant
                i <= self.names@.len(),
                forall|k: int| 0 <= k < i ==> #[trigger] self.names@[k].0@ != name@,
            decreases self.names@.len() - i,
        {
            if str_eq(self.names[i].0.as_str(), name) {
                return Some(i);
            }
            i = i + 1;
        }
        None
    }

    /// Registers a user component type.
    pub fn register_component(&mut self, type_id: TypeKey, name: &str) -> (r: TypeMetadata)
        requires
            old(self).wf(),
        ensures
            final(self).wf(),
            r@ == (TypeInfo { type_id, name: name@, kind: RegisteredTypeKind::Component, source: RegistrationSource::User }),
            final(self)@ == registered(old(self)@, r@),
    {
        self.register_named(type_id, name, RegisteredTypeKind::Component, RegistrationSource::User)
    }

    /// Registers a user component type under a name of the caller's choice.
    pub fn register_component_named(&mut self, type_id: TypeKey, name: &str) -> (r: TypeMetadata)
        requires
            old(self).wf(),
        ensures
            final(self).wf(),
            r@ == (TypeInfo { type_id, name: name@, kind: RegisteredTypeKind::Component, source: RegistrationSource::User }),
            final(self)@ == registered(old(self)@, r@),
    {
        self.register_named(type_id, name, RegisteredTypeKind::Component, RegistrationSource::User)
    }

    /// Registers a built-in component type.
    pub fn register_builtin_component(&mut self, type_id: TypeKey, name: &str) -> (r: TypeMetadata)
        requires
            old(self).wf(),
        ensures
            final(self).wf(),
            r@ == (TypeInfo { type_id, name: name@, kind: RegisteredTypeKind::Component, source: RegistrationSource::BuiltIn }),
            final(self)@ == registered(old(self)@, r@),
    {
        self.register_named(type_id, name, RegisteredTypeKind::Component, RegistrationSource::BuiltIn)
    }

    /// Registers a built-in component type under a name of the caller's choice.
    pub fn register_builtin_component_named(&mut self, type_id: TypeKey, name: &str) -> (r: TypeMetadata)
        requires
            old(self).wf(),
        ensures
            final(self).wf(),
            r@ == (TypeInfo { type_id, name: name@, kind: RegisteredTypeKind::Component, source: RegistrationSource::BuiltIn }),
            final(self)@ == registered(old(self)@, r@),
    {
        self.register_named(type_id, name, RegisteredTypeKind::Component, RegistrationSource::BuiltIn)
    }

    /// Registers a user script type.
    pub fn register_script(&mut self, type_id: TypeKey, name: &str) -> (r: TypeMetadata)
        requires
            old(self).wf(),
        ensures
            final(self).wf(),
            r@ == (TypeInfo { type_id, name: name@, kind: RegisteredTypeKind::Script, source: RegistrationSource::User }),
            final(self)@ == registered(old(self)@, r@),
    {
        self.register_named(type_id, name, RegisteredTypeKind::Script, RegistrationSource::User)
    }

    /// Registers a user script type under a name of the caller's choice.
    pub fn register_script_named(&mut self, type_id: TypeKey, name: &str) -> (r: TypeMetadata)
        requires
            old(self).wf(),
        ensures
            final(self).wf(),
            r@ == (TypeInfo { type_id, name: name@, kind: RegisteredTypeKind::Script, source: RegistrationSource::User }),
            final(self)@ == registered(old(self)@, r@),
    {
        self.register_named(type_id, name, RegisteredTypeKind::Script, RegistrationSource::User)
    }

    /// Registers a built-in script type.
    pub fn register_builtin_script(&mut self, type_id: TypeKey, name: &str) -> (r: TypeMetadata)
        requires
            old(self).wf(),
        ensures
            final(self).wf(),
            r@ == (TypeInfo { type_id, name: name@, kind: RegisteredTypeKind::Script, source: RegistrationSource::BuiltIn }),
            final(self)@ == registered(old(self)@, r@),
    {
        self.register_named(type_id, name, RegisteredTypeKind::Script, RegistrationSource::BuiltIn)
    }

    /// Registers a built-in script type under a name of the caller's choice.
    pub fn register_builtin_script_named(&mut self, type_id: TypeKey, name: &str) -> (r: TypeMetadata)
        requires
            old(self).wf(),
        ensures
            final(self).wf(),
            r@ == (TypeInfo { type_id, name: name@, kind: RegisteredTypeKind::Script, source: RegistrationSource::BuiltIn }),
            final(self)@ == registered(old(self)@, r@),
    {
        self.register_named(type_id, name, RegisteredTypeKind::Script, RegistrationSource::BuiltIn)
    }

    /// Registers a type together with a builder (kept by the caller) that
    /// makes a fresh value of it.
    pub fn register_factory(
        &mut self,
        type_id: TypeKey,
        name: &str,
        kind: RegisteredTypeKind,
        source: RegistrationSource,
    ) -> (r: TypeMetadata)
        requires
            old(self).wf(),
        ensures
            final(self).wf(),
            r@ == (TypeInfo { type_id, name: name@, kind, source }),
            final(self)@.entries == registered(old(self)@, r@).entries,
            final(self)@.names == registered(old(self)@, r@).names,
            final(self)@.factories == old(self)@.factories.insert(type_id),
    {
        let ghost before = self@;
        let r = self.register_named(type_id, name, kind, source);
        let ghost mid = self@;
        let ghost mid_types = self.types@;
        match self.index_of(type_id) {
            Some(i) => {
                let m = self.types[i].metadata.duplicate();
                self.types.set(i, TypeRegistration { metadata: m, has_factory: true });
                proof {
                    assert forall|k: int| 0 <= k < self.types@.len() implies #[trigger] self@.entries[k] == mid.entries[k] by {}
                    assert(self@.entries =~= mid.entries);
                    assert forall|a: int, b: int| 0 <= a < self.types@.len() && 0 <= b < self.types@.len() && a != b
                        implies #[trigger] self.types@[a].metadata@.type_id != #[trigger] self.types@[b].metadata@.type_id by {
                        assert(self.types@[a].metadata@ == mid_types[a].metadata@);
                        assert(self.types@[b].metadata@ == mid_types[b].metadata@);
                    }
                    assert forall|k: TypeKey| #[trigger] self@.factories.contains(k) == old(self)@.factories.insert(type_id).contains(k) by {
                        if k != type_id {
                            if self@.factories.contains(k) {
                                let a = choose|a: int| 0 <= a < self.types@.len() && #[trigger] self.types@[a].metadata@.type_id == k && self.types@[a].has_factory;
                                assert(a != i);
                                assert(mid_types[a] == self.types@[a]);
                                assert(mid.factories.contains(k));
                            }
                            if old(self)@.factories.contains(k) {
                                assert(mid.factories.contains(k));
                                let a = choose|a: int| 0 <= a < mid_types.len() && #[trigger] mid_types[a].metadata@.type_id == k && mid_types[a].has_factory;
                                assert(a != i);
                                assert(mid_types[a] == self.types@[a]);
                            }
                        } else {
                            assert(self.types@[i as int].metadata@.type_id == type_id);
                        }
                    }
                    assert(self@.factories =~= old(self)@.factories.insert(type_id));
                }
            },
            None => {
                proof {
                    match entry_index(before.entries, type_id) {
                        Some(i0) => {
                            assert(mid.entries[i0].type_id == type_id);
                        },
                        None => {
                            assert(mid.entries[mid.entries.len() - 1].type_id == type_id);
                        },
                    }
                    assert(false);
                }
            },
        }
        r
    }

    /// The entry for `type_id`.
    pub fn get_by_id(&self, type_id: TypeKey) -> (r: Option<&TypeMetadata>)
        requires
            self.wf(),
        ensures
            match r {
                Some(m) => type_info(self@, type_id) == Some(m@),
                None => type_info(self@, type_id) is None,
            },
    {
        match self.index_of(type_id) {
            Some(i) => Some(&self.types[i].metadata),
            None => None,
        }
    }

    /// The entry the name `name` points at.
    pub fn get_by_name(&self, name: &str) -> (r: Option<&TypeMetadata>)
        requires
            self.wf(),
        ensures
            match r {
                Some(m) => type_info_by_name(self@, name@) == Some(m@),
                None => type_info_by_name(self@, name@) is None,
            },
    {
        match self.name_index(name) {
            Some(i) => {
                proof {
                    assert(self@.names.contains_key(name@));
                    let c = choose|c: int| 0 <= c < self.names@.len() && #[trigger] self.names@[c].0@ == name@;
                    if c != i {
                        assert(self.names@[c].0@ == self.names@[i as int].0@);
                    }
                }
                self.get_by_id(self.names[i].1)
            },
            None => None,
        }
    }

    /// The entry for `type_id`, when it is a component type.
    pub fn get_component(&self, type_id: TypeKey) -> (r: Option<&TypeMetadata>)
        requires
            self.wf(),
        ensures
            match r {
                Some(m) => type_info(self@, type_id) == Some(m@) && m@.kind == RegisteredTypeKind::Component,
                None => !(type_info(self@, type_id) matches Some(t) && t.kind == RegisteredTypeKind::Component),
            },
    {
        match self.get_by_id(type_id) {
            Some(m) => if m.kind == RegisteredTypeKind::Component {
                Some(m)
            } else {
                None
            },
            None => None,
        }
    }

    /// The entry for `type_id`, when it is a script type.
    pub fn get_script(&self, type_id: TypeKey) -> (r: Option<&TypeMetadata>)
        requires
            self.wf(),
        ensures
            match r {
                Some(m) => type_info(self@, type_id) == Some(m@) && m@.kind == RegisteredTypeKind::Script,
                None => !(type_info(self@, type_id) matches Some(t) && t.kind == RegisteredTypeKind::Script),
            },
    {
        match self.get_by_id(type_id) {
            Some(m) => if m.kind == RegisteredTypeKind::Script {
                Some(m)
            } else {
                None
            },
            None => None,
        }
    }

    /// Every entry, in the order the keys were first registered.
    pub fn registered_types(&self) -> (r: Vec<TypeMetadata>)
        ensures
            infos(r@) == self@.entries,
    {
        let mut r: Vec<TypeMetadata> = Vec::new();
        let mut i: usize = 0;
        while i < self.types.len()
            invariant
                i <= self.types@.len(),
                infos(r@) == self@.entries.subrange(0, i as int),
            decreases self.types@.len() - i,
        {
            let ghost old_r = r@;
            let m = self.types[i].metadata.duplicate();
            r.push(m);
            assert(self@.entries[i as int] == self.types@[i as int].metadata@);
            assert(infos(r@) =~= infos(old_r).push(m@));
            assert(infos(r@) =~= self@.entries.subrange(0, i + 1));
            i = i + 1;
        }
        assert(self@.entries.subrange(0, i as int) =~= self@.entries);
        r
    }

    fn registered_from(&self, source: RegistrationSource) -> (r: Vec<TypeMetadata>)
        ensures
            infos(r@) == entries_from(self@.entries, source),
    {
        let mut r: Vec<TypeMetadata> = Vec::new();
        let mut i: usize = 0;
        while i < self.types.len()
            invariant
                i <= self.types@.len(),
                infos(r@) == entries_from(self@.entries.subrange(0, i as int), source),
            decreases self.types@.len() - i,
        {
            proof {
                assert(self@.entries.subrange(0, i + 1).drop_last() =~= self@.entries.subrange(0, i as int));
            }
            let ghost old_r = r@;
            if self.types[i].metadata.source == source {
                let m = self.types[i].metadata.duplicate();
                r.push(m);
                assert(infos(r@) =~= infos(old_r).push(m@));
            }
            assert(self@.entries[i as int] == self.types@[i as int].metadata@);
            assert(infos(r@) =~= entries_from(self@.entries.subrange(0, i + 1), source));
            i = i + 1;
        }
        assert(self@.entries.subrange(0, i as int) =~= self@.entries);
        r
    }

    /// The built-in entries, in order.
    pub fn registered_builtin_types(&self) -> (r: Vec<TypeMetadata>)
        ensures
            infos(r@) == entries_from(self@.entries, RegistrationSource::BuiltIn),
    {
        self.registered_from(RegistrationSource::BuiltIn)
    }

    /// The user entries, in order.
    pub fn registered_user_types(&self) -> (r: Vec<TypeMetadata>)
        ensures
            infos(r@) == entries_from(self@.entries, RegistrationSource::User),
    {
        self.registered_from(RegistrationSource::User)
    }

    /// Whether `type_id` has a builder.
    pub fn has_object_factory(&self, type_id: TypeKey) -> (r: bool)
        requires
            self.wf(),
        ensures
            r == self@.factories.contains(type_id),
    {
        match self.index_of(type_id) {
            Some(i) => {
                proof {
                    if self@.factories.contains(type_id) {
                        let a = choose|a: int| 0 <= a < self.types@.len() && #[trigger] self.types@[a].metadata@.type_id == type_id && self.types@[a].has_factory;
                        assert(self@.entries[a].type_id == type_id);
                        if a != i {
                            assert(self.types@[i as int].metadata@.type_id == type_id);
                        }
                    }
                }
                self.types[i].has_factory
            },
            None => {
                proof {
                    if self@.factories.contains(type_id) {
                        let a = choose|a: int| 0 <= a < self.types@.len() && #[trigger] self.types@[a].metadata@.type_id == type_id && self.types@[a].has_factory;
                        assert(self@.entries[a].type_id == type_id);
                    }
                }
                false
            },
        }
    }

    /// Adds `component`, made by the builder of `type_id`, to `object`;
    /// refused when `type_id` has no builder or `object` already holds it.
    pub fn add_to_object<C>(&self, object: &mut Object<C>, type_id: TypeKey, component: C) -> (r: bool)
        requires
            self.wf(),
            old(object).wf(),
        ensures
            final(object).wf(),
            r == (self@.factories.contains(type_id) && !old(object).holds(type_id)),
            r ==> final(object).components() == old(object).components().push((type_id, component)),
            !r ==> final(object).components() == old(object).components(),
            final(object).name_view() == old(object).name_view(),
            final(object).pending() == old(object).pending(),
    {
        if !self.has_object_factory(type_id) {
            return false;
        }
        if object.has_component(type_id) {
            return false;
        }
        object.add_component(type_id, component);
        true
    }

    /// Registers a user component type under a name of the caller's choice, with a builder kept by the caller.
    pub fn register_component_named_factory(&mut self, type_id: TypeKey, name: &str) -> (r: TypeMetadata)
        requires
            old(self).wf(),
        ensures
            final(self).wf(),
            r@ == (TypeInfo { type_id, name: name@, kind: RegisteredTypeKind::Component, source: RegistrationSource::User }),
            final(self)@.entries == registered(old(self)@, r@).entries,
            final(self)@.names == registered(old(self)@, r@).names,
            final(self)@.factories == old(self)@.factories.insert(type_id),
    {
        self.register_factory(type_id, name, RegisteredTypeKind::Component, RegistrationSource::User)
    }

    /// Registers a user script type under a name of the caller's choice, with a builder kept by the caller.
    pub fn register_script_named_factory(&mut self, type_id: TypeKey, name: &str) -> (r: TypeMetadata)
        requires
            old(self).wf(),
        ensures
            final(self).wf(),
            r@ == (TypeInfo { type_id, name: name@, kind: RegisteredTypeKind::Script, source: RegistrationSource::User }),
            final(self)@.entries == registered(old(self)@, r@).entries,
            final(self)@.names == registered(old(self)@, r@).names,
            final(self)@.factories == old(self)@.factories.insert(type_id),
    {
        self.register_factory(type_id, name, RegisteredTypeKind::Script, RegistrationSource::User)
    }

    /// Registers the type `type_id` under `name`, without a builder;
    /// an earlier entry for the same key is replaced.
    pub fn register_named(
        &mut self,
        type_id: TypeKey,
        name: &str,
        kind: RegisteredTypeKind,
        source: RegistrationSource,
    ) -> (r: TypeMetadata)
        requires
            old(self).wf(),
        ensures
            final(self).wf(),
            r@ == (TypeInfo { type_id, name: name@, kind, source }),
            final(self)@ == registered(old(self)@, r@),
    {
        let ghost before = self@;
        let ghost old_types = self.types@;
        let ghost old_names = self.names@;
        let metadata = TypeMetadata { type_id, name: name.to_string(), kind, source };
        assert(metadata.name@ == name@);
        match self.name_index(name) {
            Some(i) => {
                let n = self.names[i].0.clone();
                self.names.set(i, (n, type_id));
            },
            None => {
                self.names.push((name.to_string(), type_id));
            },
        }
        let entry = TypeRegistration { metadata: metadata.duplicate(), has_factory: false };
        match self.index_of(type_id) {
            Some(i) => {
                self.types.set(i, entry);
            },
            None => {
                self.types.push(entry);
            },
        }
        proof {
            let after = registered(before, metadata@);
            // Names.
            assert forall|a: int, b: int| 0 <= a < self.names@.len() && 0 <= b < self.names@.len() && a != b
                implies #[trigger] self.names@[a].0@ != #[trigger] self.names@[b].0@ by {
                if a < old_names.len() && b < old_names.len() {
                    assert(self.names@[a].0@ == old_names[a].0@ && self.names@[b].0@ == old_names[b].0@);
                } else if a < old_names.len() {
                    assert(self.names@[a].0@ == old_names[a].0@);
                } else {
                    assert(self.names@[b].0@ == old_names[b].0@);
                }
            }
            assert forall|n: Seq<char>| #[trigger] self@.names.contains_key(n) == after.names.contains_key(n) by {
                if after.names.contains_key(n) && n != name@ {
                    let k = choose|k: int| 0 <= k < old_names.len() && #[trigger] old_names[k].0@ == n;
                    assert(self.names@[k].0@ == n);
                }
                if n == name@ {
                    let k = if self.names@.len() > old_names.len() { old_names.len() as int } else {
                        choose|k: int| 0 <= k < old_names.len() && #[trigger] old_names[k].0@ == n
                    };
                    assert(self.names@[k].0@ == n);
                }
                if self@.names.contains_key(n) {
                    let k = choose|k: int| 0 <= k < self.names@.len() && #[trigger] self.names@[k].0@ == n;
                    if k < old_names.len() && self.names@[k].0@ != name@ {
                        assert(old_names[k].0@ == n);
                    }
                }
            }
            assert forall|n: Seq<char>| #[trigger] self@.names.contains_key(n) implies self@.names[n] == after.names[n] by {
                let k = choose|k: int| 0 <= k < self.names@.len() && #[trigger] self.names@[k].0@ == n;
                if n != name@ {
                    assert(k < old_names.len());
                    assert(old_names[k] == self.names@[k]);
                    let k0 = choose|k0: int| 0 <= k0 < old_names.len() && #[trigger] old_names[k0].0@ == n;
                    assert(self.names@[k0].0@ == n);
                }
            }
            assert(self@.names =~= after.names);
            // Entries.
            assert(self@.entries =~= after.entries) by {
                match entry_index(before.entries, type_id) {
                    Some(i) => {
                        assert forall|k: int| 0 <= k < self.types@.len() implies #[trigger] self@.entries[k] == after.entries[k] by {}
                    },
                    None => {
                        assert forall|k: int| 0 <= k < self.types@.len() implies #[trigger] self@.entries[k] == after.entries[k] by {}
                    },
                }
            }
            assert forall|a: int, b: int| 0 <= a < self.types@.len() && 0 <= b < self.types@.len() && a != b
                implies #[trigger] self.types@[a].metadata@.type_id != #[trigger] self.types@[b].metadata@.type_id by {
                assert(self.types@[a].metadata@.type_id == self@.entries[a].type_id);
                assert(self.types@[b].metadata@.type_id == self@.entries[b].type_id);
                if self.types@.len() > old_types.len() {
                    if a < old_types.len() && b < old_types.len() {
                        assert(old_types[a] == self.types@[a] && old_types[b] == self.types@[b]);
                    } else if a < old_types.len() {
                        assert(before.entries[a].type_id != type_id);
                        assert(old_types[a] == self.types@[a]);
                    } else {
                        assert(before.entries[b].type_id != type_id);
                        assert(old_types[b] == self.types@[b]);
                    }
                } else {
                    let i = entry_index(before.entries, type_id)->0;
                    if a != i && b != i {
                        assert(old_types[a] == self.types@[a] && old_types[b] == self.types@[b]);
                    } else if a == i {
                        assert(old_types[b] == self.types@[b]);
                        assert(old_types[i].metadata@.type_id == type_id);
                    } else {
                        assert(old_types[a] == self.types@[a]);
                        assert(old_types[i].metadata@.type_id == type_id);
                    }
                }
            }
            assert forall|k: TypeKey| #[trigger] self@.factories.contains(k) == after.factories.contains(k) by {
                let ni = if self.types@.len() > old_types.len() { old_types.len() as int } else { entry_index(before.entries, type_id)->0 };
                assert(self.types@[ni].metadata@.type_id == type_id && !self.types@[ni].has_factory);
                if self@.factories.contains(k) {
                    let a = choose|a: int| 0 <= a < self.types@.len() && #[trigger] self.types@[a].metadata@.type_id == k && self.types@[a].has_factory;
                    assert(a != ni);
                    assert(k != type_id);
                    assert(old_types[a] == self.types@[a]);
                }
                if after.factories.contains(k) {
                    let a = choose|a: int| 0 <= a < old_types.len() && #[trigger] old_types[a].metadata@.type_id == k && old_types[a].has_factory;
                    assert(old_types[a] == self.types@[a]) by {
                        if self.types@.len() == old_types.len() {
                            let i = entry_index(before.entries, type_id)->0;
                            assert(old_types[i].metadata@.type_id == type_id);
                        }
                    }
                }
            }
            assert(self@.factories =~= after.factories);
        }
        metadata
    }
}

/// No two entries share a key.
pub open spec fn unique_type_ids(entries: Seq<TypeInfo>) -> bool {
    forall|i: int, j: int| 0 <= i < entries.len() && 0 <= j < entries.len() && i != j
        ==> #[trigger] entries[i].type_id != #[trigger] entries[j].type_id
}

/// What is registered last wins: after registering `info`, its key and its
/// name both find it, and every other key finds what it found before.
pub proof fn lemma_registered_lookup(v: TypeRegistryView, info: TypeInfo)
    requires
        unique_type_ids(v.entries),
    ensures
        unique_type_ids(registered(v, info).entries),
        type_info(registered(v, info), info.type_id) == Some(info),
        type_info_by_name(registered(v, info), info.name) == Some(info),
        forall|id: TypeKey| id != info.type_id ==> #[trigger] type_info(registered(v, info), id) == type_info(v, id),
{
    let v2 = registered(v, info);
    let e = v.entries;
    let e2 = v2.entries;
    match entry_index(e, info.type_id) {
        Some(i) => {
            assert(e2 == e.update(i, info));
        },
        None => {
            assert(e2 == e.push(info));
        },
    }
    assert forall|a: int, b: int| 0 <= a < e2.len() && 0 <= b < e2.len() && a != b
        implies #[trigger] e2[a].type_id != #[trigger] e2[b].type_id by {
        match entry_index(e, info.type_id) {
            Some(i) => {
                if a != i && b != i {
                    assert(e2[a] == e[a] && e2[b] == e[b]);
                } else if a == i {
                    assert(e2[b] == e[b]);
                    assert(e[i].type_id == info.type_id);
                } else {
                    assert(e2[a] == e[a]);
                    assert(e[i].type_id == info.type_id);
                }
            },
            None => {
                if a < e.len() && b < e.len() {
                    assert(e2[a] == e[a] && e2[b] == e[b]);
                } else if a < e.len() {
                    assert(e2[a] == e[a]);
                } else {
                    assert(e2[b] == e[b]);
                }
            },
        }
    }
    let k = match entry_index(e, info.type_id) {
        Some(i) => i,
        None => e.len() as int,
    };
    assert(e2[k] == info);
    assert(entry_index(e2, info.type_id) == Some(k));
    assert forall|id: TypeKey| id != info.type_id implies #[trigger] type_info(v2, id) == type_info(v, id) by {
        if exists|j: int| 0 <= j < e.len() && #[trigger] e[j].type_id == id {
            let j = choose|j: int| 0 <= j < e.len() && #[trigger] e[j].type_id == id;
            assert(j != k);
            assert(e2[j] == e[j]);
            assert(entry_index(e2, id) == Some(j));
        }
        if exists|j: int| 0 <= j < e2.len() && #[trigger] e2[j].type_id == id {
            let j = choose|j: int| 0 <= j < e2.len() && #[trigger] e2[j].type_id == id;
            assert(j != k);
            assert(e2[j] == e[j]);
        }
    }
}

impl TypeRegistry {
    /// The entries of a registry have distinct keys.
    pub proof fn lemma_unique_ids(&self)
        requires
            self.wf(),
        ensures
            unique_type_ids(self@.entries),
    {
        assert forall|i: int, j: int| 0 <= i < self@.entries.len() && 0 <= j < self@.entries.len() && i != j
            implies #[trigger] self@.entries[i].type_id != #[trigger] self@.entries[j].type_id by {
            assert(self@.entries[i].type_id == self.types@[i].metadata@.type_id);
            assert(self@.entries[j].type_id == self.types@[j].metadata@.type_id);
        }
    }
}

/// The name of an archetype: the key it is registered and spawned under.
#[derive(Debug, Hash)]
pub struct ArchetypeKey(String);

impl View for ArchetypeKey {
    type V = Seq<char>;

    closed spec fn view(&self) -> Seq<char> {
        self.0@
    }
}

impl ArchetypeKey {
    pub fn new(value: String) -> (r: Self)
        ensures
            r@ == value@,
    {
        ArchetypeKey(value)
    }

    pub fn as_str(&self) -> (r: &str)
        ensures
            r@ == self@,
    {
        self.0.as_str()
    }

    /// A copy of this key.
    pub fn duplicate(&self) -> (r: Self)
        ensures
            r@ == self@,
    {
        ArchetypeKey(self.0.clone())
    }
}

/// A type with a fixed archetype key.
pub trait ObjectDefName {
    fn key() -> ArchetypeKey;
}

/// What is known of a registered archetype.
pub struct ArchetypeInfo {
    pub key: Seq<char>,
    pub name: Seq<char>,
    pub source: RegistrationSource,
}

#[derive(Debug)]
pub struct ArchetypeMetadata {
    key: ArchetypeKey,
    name: String,
    source: RegistrationSource,
}

impl View for ArchetypeMetadata {
    type V = ArchetypeInfo;

    closed spec fn view(&self) -> ArchetypeInfo {
        ArchetypeInfo { key: self.key@, name: self.name@, source: self.source }
    }
}

impl ArchetypeMetadata {
    pub fn key(&self) -> (r: &ArchetypeKey)
        ensures
            r@ == self@.key,
    {
        &self.key
    }

    pub fn name(&self) -> (r: &str)
        ensures
            r@ == self@.name,
    {
        self.name.as_str()
    }

    pub fn source(&self) -> (r: RegistrationSource)
        ensures
            r == self@.source,
    {
        self.source
    }

    /// A copy of this metadata.
    pub fn duplicate(&self) -> (r: Self)
        ensures
            r@ == self@,
    {
        ArchetypeMetadata { key: self.key.duplicate(), name: self.name.clone(), source: self.source }
    }
}

/// The registered archetypes in the order their keys were first registered,
/// and the table from names to keys.
pub struct ArchetypeRegistryView {
    pub entries: Seq<ArchetypeInfo>,
    pub names: Map<Seq<char>, Seq<char>>,
}

pub open spec fn archetype_index(entries: Seq<ArchetypeInfo>, key: Seq<char>) -> Option<int> {
    if exists|i: int| 0 <= i < entries.len() && #[trigger] entries[i].key == key {
        Some(choose|i: int| 0 <= i < entries.len() && #[trigger] entries[i].key == key)
    } else {
        None
    }
}

pub open spec fn archetype_info(v: ArchetypeRegistryView, key: Seq<char>) -> Option<ArchetypeInfo> {
    match archetype_index(v.entries, key) {
        Some(i) => Some(v.entries[i]),
        None => None,
    }
}

pub open spec fn archetype_info_by_name(v: ArchetypeRegistryView, name: Seq<char>) -> Option<ArchetypeInfo> {
    if v.names.contains_key(name) {
        archetype_info(v, v.names[name])
    } else {
        None
    }
}

/// The builders after registering `builder` for `key` in a registry with
/// `entries`: it replaces the builder of the same key, or is appended.
pub open spec fn builders_registered<B>(entries: Seq<ArchetypeInfo>, builders: Seq<B>, key: Seq<char>, builder: B) -> Seq<B> {
    match archetype_index(entries, key) {
        Some(i) => builders.update(i, builder),
        None => builders.push(builder),
    }
}

/// The registry after registering `info`.
pub open spec fn archetype_registered(v: ArchetypeRegistryView, info: ArchetypeInfo) -> ArchetypeRegistryView {
    ArchetypeRegistryView {
        entries: match archetype_index(v.entries, info.key) {
            Some(i) => v.entries.update(i, info),
            None => v.entries.push(info),
        },
        names: v.names.insert(info.name, info.key),
    }
}

pub open spec fn archetypes_from(entries: Seq<ArchetypeInfo>, source: RegistrationSource) -> Seq<ArchetypeInfo>
    decreases entries.len(),
{
    if entries.len() == 0 {
        entries
    } else {
        let r = archetypes_from(entries.drop_last(), source);
        if entries.last().source == source {
            r.push(entries.last())
        } else {
            r
        }
    }
}

pub open spec fn archetype_infos(v: Seq<ArchetypeMetadata>) -> Seq<ArchetypeInfo> {
    v.map_values(|m: ArchetypeMetadata| m@)
}

/// Builds the object an archetype spawns. `spec_build` names, for the
/// proofs, what `build` returns; an implementation outside verified code
/// defines it as `build`.
pub trait ArchetypeBuilder<C> {
    spec fn spec_build(&self) -> Object<C>;

    /// The component that marks an object as made from the definition
    /// named `name`.
    spec fn spec_marker(&self, name: String) -> (ComponentKey, C);

    fn build(&self) -> (r: Object<C>)
        ensures
            r == self.spec_build(),
    ;

    fn definition_marker(&self, name: String) -> (r: (ComponentKey, C))
        ensures
            r == self.spec_marker(name),
    ;
}

/// Whether `o` is what spawning the archetype `name` with builder `b`
/// makes: the built object, with the definition marker added when the
/// archetype was registered by name (`marked`) and the object lacks it.
pub open spec fn spawned_archetype<C, B: ArchetypeBuilder<C>>(o: Object<C>, b: B, marked: bool, name: Seq<char>) -> bool {
    let built = b.spec_build();
    if marked {
        exists|n: String| n@ == name && #[trigger] marked_build(o, built, b.spec_marker(n))
    } else {
        o == built
    }
}

/// Whether `o` is `built` with `marker` added, unless it holds one already.
pub open spec fn marked_build<C>(o: Object<C>, built: Object<C>, marker: (ComponentKey, C)) -> bool {
    if !built.holds(marker.0) {
        &&& o.components() == built.components().push(marker)
        &&& o.name_view() == built.name_view()
        &&& o.pending() == built.pending()
    } else {
        o == built
    }
}

/// The archetypes, each with the builder of its object (of type `B`).
#[derive(Debug)]
pub struct ArchetypeRegistry<B> {
    archetypes: Vec<ArchetypeMetadata>,
    builders: Vec<B>,
    marked: Vec<bool>,
    names: Vec<(String, String)>,
}

spec fn key_map(names: Seq<(String, String)>) -> Map<Seq<char>, Seq<char>> {
    Map::new(
        |n: Seq<char>| exists|i: int| 0 <= i < names.len() && #[trigger] names[i].0@ == n,
        |n: Seq<char>| names[choose|i: int| 0 <= i < names.len() && #[trigger] names[i].0@ == n].1@,
    )
}

impl<B> View for ArchetypeRegistry<B> {
    type V = ArchetypeRegistryView;

    closed spec fn view(&self) -> ArchetypeRegistryView {
        ArchetypeRegistryView { entries: archetype_infos(self.archetypes@), names: key_map(self.names@) }
    }
}

impl<B> ArchetypeRegistry<B> {
    /// The builders, beside the entries.
    pub closed spec fn builders(&self) -> Seq<B> {
        self.builders@
    }

    /// Beside each entry, whether it was registered by name, so that what it
    /// spawns carries the definition marker.
    pub closed spec fn marks(&self) -> Seq<bool> {
        self.marked@
    }

    /// Keys are distinct, and so are names; one builder per entry.
    pub closed spec fn wf(&self) -> bool {
        &&& self.builders@.len() == self.archetypes@.len()
        &&& self.marked@.len() == self.archetypes@.len()
        &&& forall|i: int, j: int| 0 <= i < self.archetypes@.len() && 0 <= j < self.archetypes@.len() && i != j
            ==> #[trigger] self.archetypes@[i]@.key != #[trigger] self.archetypes@[j]@.key
        &&& forall|i: int, j: int| 0 <= i < self.names@.len() && 0 <= j < self.names@.len() && i != j
            ==> #[trigger] self.names@[i].0@ != #[trigger] self.names@[j].0@
    }

    pub fn new() -> (r: Self)
        ensures
            r.wf(),
            r@.entries.len() == 0,
            r@.names.is_empty(),
            r.builders().len() == 0,
            r.marks().len() == 0,
    {
        let r = ArchetypeRegistry { archetypes: Vec::new(), builders: Vec::new(), marked: Vec::new(), names: Vec::new() };
        assert(r@.entries =~= Seq::<ArchetypeInfo>::empty());
        assert(r@.names =~= Map::<Seq<char>, Seq<char>>::empty());
        r
    }

    fn index_of(&self, key: &str) -> (r: Option<usize>)
        requires
            self.wf(),
        ensures
            match r {
                Some(i) => archetype_index(self@.entries, key@) == Some(i as int) && i < self.archetypes@.len(),
                None => archetype_index(self@.entries, key@) is None,
            },
    {
        let mut i: usize = 0;
        while i < self.archetypes.len()
            invariant
                self.wf(),
                i <= self.archetypes@.len(),
                forall|k: int| 0 <= k < i ==> #[trigger] self@.entries[k].key != key@,
            decreases self.archetypes@.len() - i,
        {
            if str_eq(self.archetypes[i].key.as_str(), key) {
                proof {
                    assert(self@.entries[i as int].key == key@);
                    let c = choose|c: int| 0 <= c < self@.entries.len() && #[trigger] self@.entries[c].key == key@;
                    if c != i {
                        assert(self.archetypes@[c]@.key == self@.entries[c].key);
                    }
                }
                return Some(i);
            }
            i = i + 1;
        }
        None
    }

    fn name_index(&self, name: &str) -> (r: Option<usize>)
        requires
            self.wf(),
        ensures
            match r {
                Some(i) => i < self.names@.len() && self.names@[i as int].0@ == name@ && self@.names.contains_key(name@)
                    && self@.names[name@] == self.names@[i as int].1@,
                None => !self@.names.contains_key(name@),
            },
    {
        let mut i: usize = 0;
        while i < self.names.len()
            invariant
                self.wf(),
                i <= self.names@.len(),
                forall|k: int| 0 <= k < i ==> #[trigger] self.names@[k].0@ != name@,
            decreases self.names@.len() - i,
        {
            if str_eq(self.names[i].0.as_str(), name) {
                proof {
                    let c = choose|c: int| 0 <= c < self.names@.len() && #[trigger] self.names@[c].0@ == name@;
                    if c != i {
                        assert(self.names@[c].0@ == self.names@[i as int].0@);
                    }
                }
                return Some(i);
            }
            i = i + 1;
        }
        None
    }

    /// Registers the archetype `key` under `name` with `builder`; an
    /// earlier entry for the same key is replaced, builder and all.
    pub fn register_factory(&mut self, key: &str, name: &str, source: RegistrationSource, builder: B) -> (r: ArchetypeMetadata)
        requires
            old(self).wf(),
        ensures
            final(self).wf(),
            r@ == (ArchetypeInfo { key: key@, name: name@, source }),
            final(self)@ == archetype_registered(old(self)@, r@),
            final(self).builders() == builders_registered(old(self)@.entries, old(self).builders(), key@, builder),
            final(self).marks() == builders_registered(old(self)@.entries, old(self).marks(), key@, false),
    {
        self.register_entry(key, name, source, builder, false)
    }

    fn register_entry(&mut self, key: &str, name: &str, source: RegistrationSource, builder: B, marked: bool) -> (r: ArchetypeMetadata)
        requires
            old(self).wf(),
        ensures
            final(self).wf(),
            r@ == (ArchetypeInfo { key: key@, name: name@, source }),
            final(self)@ == archetype_registered(old(self)@, r@),
            final(self).builders() == builders_registered(old(self)@.entries, old(self).builders(), key@, builder),
            final(self).marks() == builders_registered(old(self)@.entries, old(self).marks(), key@, marked),
    {
        let ghost before = self@;
        let ghost old_arch = self.archetypes@;
        let ghost old_names = self.names@;
        let metadata = ArchetypeMetadata { key: ArchetypeKey(key.to_string()), name: name.to_string(), source };
        match self.name_index(name) {
            Some(i) => {
                let n = self.names[i].0.clone();
                self.names.set(i, (n, key.to_string()));
            },
            None => {
                self.names.push((name.to_string(), key.to_string()));
            },
        }
        match self.index_of(key) {
            Some(i) => {
                self.archetypes.set(i, metadata.duplicate());
                self.builders.set(i, builder);
                self.marked.set(i, marked);
            },
            None => {
                self.archetypes.push(metadata.duplicate());
                self.builders.push(builder);
                self.marked.push(marked);
            },
        }
        proof {
            let after = archetype_registered(before, metadata@);
            assert forall|a: int, b: int| 0 <= a < self.names@.len() && 0 <= b < self.names@.len() && a != b
                implies #[trigger] self.names@[a].0@ != #[trigger] self.names@[b].0@ by {
                if a < old_names.len() && b < old_names.len() {
                    assert(self.names@[a].0@ == old_names[a].0@ && self.names@[b].0@ == old_names[b].0@);
                } else if a < old_names.len() {
                    assert(self.names@[a].0@ == old_names[a].0@);
                } else {
                    assert(self.names@[b].0@ == old_names[b].0@);
                }
            }
            assert forall|n: Seq<char>| #[trigger] self@.names.contains_key(n) == after.names.contains_key(n) by {
                if after.names.contains_key(n) && n != name@ {
                    let k = choose|k: int| 0 <= k < old_names.len() && #[trigger] old_names[k].0@ == n;
                    assert(self.names@[k].0@ == n);
                }
                if n == name@ {
                    let k = if self.names@.len() > old_names.len() { old_names.len() as int } else {
                        choose|k: int| 0 <= k < old_names.len() && #[trigger] old_names[k].0@ == n
                    };
                    assert(self.names@[k].0@ == n);
                }
                if self@.names.contains_key(n) {
                    let k = choose|k: int| 0 <= k < self.names@.len() && #[trigger] self.names@[k].0@ == n;
                    if k < old_names.len() && self.names@[k].0@ != name@ {
                        assert(old_names[k].0@ == n);
                    }
                }
            }
            assert forall|n: Seq<char>| #[trigger] self@.names.contains_key(n) implies self@.names[n] == after.names[n] by {
                let k = choose|k: int| 0 <= k < self.names@.len() && #[trigger] self.names@[k].0@ == n;
                if n != name@ {
                    assert(k < old_names.len());
                    assert(old_names[k] == self.names@[k]);
                    let k0 = choose|k0: int| 0 <= k0 < old_names.len() && #[trigger] old_names[k0].0@ == n;
                    assert(self.names@[k0].0@ == n);
                }
            }
            assert(self@.names =~= after.names);
            assert(self@.entries =~= after.entries) by {
                assert forall|k: int| 0 <= k < self.archetypes@.len() implies #[trigger] self@.entries[k] == after.entries[k] by {}
            }
            assert forall|a: int, b: int| 0 <= a < self.archetypes@.len() && 0 <= b < self.archetypes@.len() && a != b
                implies #[trigger] self.archetypes@[a]@.key != #[trigger] self.archetypes@[b]@.key by {
                assert(self.archetypes@[a]@.key == self@.entries[a].key);
                assert(self.archetypes@[b]@.key == self@.entries[b].key);
                if self.archetypes@.len() > old_arch.len() {
                    if a < old_arch.len() && b < old_arch.len() {
                        assert(old_arch[a] == self.archetypes@[a] && old_arch[b] == self.archetypes@[b]);
                    } else if a < old_arch.len() {
                        assert(before.entries[a].key != key@);
                        assert(old_arch[a] == self.archetypes@[a]);
                    } else {
                        assert(before.entries[b].key != key@);
                        assert(old_arch[b] == self.archetypes@[b]);
                    }
                } else {
                    let i = archetype_index(before.entries, key@)->0;
                    if a != i && b != i {
                        assert(old_arch[a] == self.archetypes@[a] && old_arch[b] == self.archetypes@[b]);
                    } else if a == i {
                        assert(old_arch[b] == self.archetypes@[b]);
                        assert(old_arch[i]@.key == key@);
                    } else {
                        assert(old_arch[a] == self.archetypes@[a]);
                        assert(old_arch[i]@.key == key@);
                    }
                }
            }
        }
        metadata
    }

    /// Registers a user archetype under its key, named after the key.
    pub fn register(&mut self, key: &ArchetypeKey, builder: B) -> (r: ArchetypeMetadata)
        requires
            old(self).wf(),
        ensures
            final(self).wf(),
            r@ == (ArchetypeInfo { key: key@, name: key@, source: RegistrationSource::User }),
            final(self)@ == archetype_registered(old(self)@, r@),
            final(self).builders() == builders_registered(old(self)@.entries, old(self).builders(), key@, builder),
            final(self).marks() == builders_registered(old(self)@.entries, old(self).marks(), key@, false),
    {
        self.register_factory(key.as_str(), key.as_str(), RegistrationSource::User, builder)
    }

    /// Registers an object definition: a user archetype under its key.
    pub fn register_def(&mut self, key: &ArchetypeKey, builder: B) -> (r: ArchetypeMetadata)
        requires
            old(self).wf(),
        ensures
            final(self).wf(),
            r@ == (ArchetypeInfo { key: key@, name: key@, source: RegistrationSource::User }),
            final(self)@ == archetype_registered(old(self)@, r@),
            final(self).builders() == builders_registered(old(self)@.entries, old(self).builders(), key@, builder),
            final(self).marks() == builders_registered(old(self)@.entries, old(self).marks(), key@, false),
    {
        self.register_factory(key.as_str(), key.as_str(), RegistrationSource::User, builder)
    }

    /// Registers a user archetype whose key is its name.
    pub fn register_named(&mut self, name: &str, builder: B) -> (r: ArchetypeMetadata)
        requires
            old(self).wf(),
        ensures
            final(self).wf(),
            r@ == (ArchetypeInfo { key: name@, name: name@, source: RegistrationSource::User }),
            final(self)@ == archetype_registered(old(self)@, r@),
            final(self).builders() == builders_registered(old(self)@.entries, old(self).builders(), name@, builder),
            final(self).marks() == builders_registered(old(self)@.entries, old(self).marks(), name@, true),
    {
        self.register_entry(name, name, RegistrationSource::User, builder, true)
    }

    pub fn contains_key(&self, key: &ArchetypeKey) -> (r: bool)
        requires
            self.wf(),
        ensures
            r == archetype_info(self@, key@) is Some,
    {
        self.index_of(key.as_str()).is_some()
    }

    pub fn contains_name(&self, name: &str) -> (r: bool)
        requires
            self.wf(),
        ensures
            r == self@.names.contains_key(name@),
    {
        self.name_index(name).is_some()
    }

    pub fn metadata_by_key(&self, key: &ArchetypeKey) -> (r: Option<&ArchetypeMetadata>)
        requires
            self.wf(),
        ensures
            match r {
                Some(m) => archetype_info(self@, key@) == Some(m@),
                None => archetype_info(self@, key@) is None,
            },
    {
        match self.index_of(key.as_str()) {
            Some(i) => Some(&self.archetypes[i]),
            None => None,
        }
    }

    pub fn metadata_by_name(&self, name: &str) -> (r: Option<&ArchetypeMetadata>)
        requires
            self.wf(),
        ensures
            match r {
                Some(m) => archetype_info_by_name(self@, name@) == Some(m@),
                None => archetype_info_by_name(self@, name@) is None,
            },
    {
        match self.name_index(name) {
            Some(i) => match self.index_of(self.names[i].1.as_str()) {
                Some(k) => Some(&self.archetypes[k]),
                None => None,
            },
            None => None,
        }
    }

    /// Builds the object of the archetype `key` and spawns it into `world`;
    /// `None`, with the world untouched, when no archetype has that key.
    pub fn spawn_by_key<C>(&self, world: &mut World<C>, key: &ArchetypeKey) -> (r: Option<ObjectId>)
        where
            B: ArchetypeBuilder<C>,
        requires
            self.wf(),
            old(world).wf(),
            old(world).next_id() < u64::MAX,
        ensures
            final(world).wf(),
            match archetype_index(self@.entries, key@) {
                Some(i) => r == Some(old(world).next_id())
                    && final(world).spawned_from(old(world), final(world).objects().last())
                    && spawned_archetype(final(world).objects().last(), self.builders()[i], self.marks()[i], key@),
                None => r is None && *final(world) == *old(world),
            },
    {
        match self.index_of(key.as_str()) {
            Some(i) => {
                let mut object = self.builders[i].build();
                if self.marked[i] {
                    let name = self.archetypes[i].key.0.clone();
                    let ghost n = name;
                    let ghost built = object;
                    let marker = self.builders[i].definition_marker(name);
                    if !object.has_component(marker.0) {
                        object.push_component(marker);
                    }
                    proof {
                        assert(n@ == key@);
                        assert(marked_build(object, built, self.builders()[i as int].spec_marker(n)));
                    }
                }
                Some(world.spawn(object))
            },
            None => None,
        }
    }

    /// Spawns the archetype that `name` points at, as `spawn_by_key` does;
    /// `None`, with the world untouched, when the name points at none.
    pub fn spawn_by_name<C>(&self, world: &mut World<C>, name: &str) -> (r: Option<ObjectId>)
        where
            B: ArchetypeBuilder<C>,
        requires
            self.wf(),
            old(world).wf(),
            old(world).next_id() < u64::MAX,
        ensures
            final(world).wf(),
            archetype_info_by_name(self@, name@) is None ==> r is None && *final(world) == *old(world),
            archetype_info_by_name(self@, name@) is Some ==> ({
                let i = archetype_index(self@.entries, self@.names[name@])->0;
                r == Some(old(world).next_id())
                    && final(world).spawned_from(old(world), final(world).objects().last())
                    && spawned_archetype(final(world).objects().last(), self.builders()[i], self.marks()[i], self@.names[name@])
            }),
    {
        match self.name_index(name) {
            Some(i) => {
                let key = ArchetypeKey(self.names[i].1.clone());
                proof {
                    assert(key@ == self@.names[name@]);
                }
                self.spawn_by_key(world, &key)
            },
            None => None,
        }
    }

    /// Every entry, in the order the keys were first registered.
    pub fn metadata(&self) -> (r: Vec<ArchetypeMetadata>)
        ensures
            archetype_infos(r@) == self@.entries,
    {
        let mut r: Vec<ArchetypeMetadata> = Vec::new();
        let mut i: usize = 0;
        while i < self.archetypes.len()
            invariant
                i <= self.archetypes@.len(),
                archetype_infos(r@) == self@.entries.subrange(0, i as int),
            decreases self.archetypes@.len() - i,
        {
            let ghost old_r = r@;
            let m = self.archetypes[i].duplicate();
            r.push(m);
            assert(archetype_infos(r@) =~= archetype_infos(old_r).push(m@));
            assert(archetype_infos(r@) =~= self@.entries.subrange(0, i + 1));
            i = i + 1;
        }
        assert(self@.entries.subrange(0, i as int) =~= self@.entries);
        r
    }

    fn registered_from(&self, source: RegistrationSource) -> (r: Vec<ArchetypeMetadata>)
        ensures
            archetype_infos(r@) == archetypes_from(self@.entries, source),
    {
        let mut r: Vec<ArchetypeMetadata> = Vec::new();
        let mut i: usize = 0;
        while i < self.archetypes.len()
            invariant
                i <= self.archetypes@.len(),
                archetype_infos(r@) == archetypes_from(self@.entries.subrange(0, i as int), source),
            decreases self.archetypes@.len() - i,
        {
            proof {
                assert(self@.entries.subrange(0, i + 1).drop_last() =~= self@.entries.subrange(0, i as int));
            }
            let ghost old_r = r@;
            if self.archetypes[i].source == source {
                let m = self.archetypes[i].duplicate();
                r.push(m);
                assert(archetype_infos(r@) =~= archetype_infos(old_r).push(m@));
            }
            assert(self@.entries[i as int] == self.archetypes@[i as int]@);
            assert(archetype_infos(r@) =~= archetypes_from(self@.entries.subrange(0, i + 1), source));
            i = i + 1;
        }
        assert(self@.entries.subrange(0, i as int) =~= self@.entries);
        r
    }

    pub fn registered_user_archetypes(&self) -> (r: Vec<ArchetypeMetadata>)
        ensures
            archetype_infos(r@) == archetypes_from(self@.entries, RegistrationSource::User),
    {
        self.registered_from(RegistrationSource::User)
    }

    pub fn registered_builtin_archetypes(&self) -> (r: Vec<ArchetypeMetadata>)
        ensures
            archetype_infos(r@) == archetypes_from(self@.entries, RegistrationSource::BuiltIn),
    {
        self.registered_from(RegistrationSource::BuiltIn)
    }
}

/// The type registry and the archetype registry together.
#[derive(Debug)]
pub struct RuntimeRegistry<B> {
    types: TypeRegistry,
    archetypes: ArchetypeRegistry<B>,
}

impl<B> RuntimeRegistry<B> {
    pub closed spec fn types_part(&self) -> TypeRegistry {
        self.types
    }

    pub closed spec fn archetypes_part(&self) -> ArchetypeRegistry<B> {
        self.archetypes
    }

    pub open spec fn wf(&self) -> bool {
        self.types_part().wf() && self.archetypes_part().wf()
    }

    pub fn new() -> (r: Self)
        ensures
            r.wf(),
            r.types_part()@.entries.len() == 0,
            r.types_part()@.factories.is_empty(),
            r.types_part()@.names.is_empty(),
            r.archetypes_part()@.entries.len() == 0,
            r.archetypes_part()@.names.is_empty(),
            r.archetypes_part().builders().len() == 0,
    {
        RuntimeRegistry { types: TypeRegistry::new(), archetypes: ArchetypeRegistry::new() }
    }

    pub fn types(&self) -> (r: &TypeRegistry)
        ensures
            *r == self.types_part(),
    {
        &self.types
    }

    pub fn types_mut(&mut self) -> (r: &mut TypeRegistry)
        ensures
            *r == old(self).types_part(),
            final(self).types_part() == *final(r),
            final(self).archetypes_part() == old(self).archetypes_part(),
    {
        &mut self.types
    }

    pub fn archetypes(&self) -> (r: &ArchetypeRegistry<B>)
        ensures
            *r == self.archetypes_part(),
    {
        &self.archetypes
    }

    pub fn archetypes_mut(&mut self) -> (r: &mut ArchetypeRegistry<B>)
        ensures
            *r == old(self).archetypes_part(),
            final(self).archetypes_part() == *final(r),
            final(self).types_part() == old(self).types_part(),
    {
        &mut self.archetypes
    }

    /// Registers a type (see `TypeRegistry::register_named`).
    pub fn register_type(
        &mut self,
        type_id: TypeKey,
        name: &str,
        kind: RegisteredTypeKind,
        source: RegistrationSource,
    ) -> (r: TypeMetadata)
        requires
            old(self).wf(),
        ensures
            final(self).wf(),
            r@ == (TypeInfo { type_id, name: name@, kind, source }),
            final(self).types_part()@ == registered(old(self).types_part()@, r@),
            final(self).archetypes_part() == old(self).archetypes_part(),
    {
        self.types.register_named(type_id, name, kind, source)
    }

    pub fn register_component(&mut self, type_id: TypeKey, name: &str) -> (r: TypeMetadata)
        requires
            old(self).wf(),
        ensures
            final(self).wf(),
            r@ == (TypeInfo { type_id, name: name@, kind: RegisteredTypeKind::Component, source: RegistrationSource::User }),
            final(self).types_part()@ == registered(old(self).types_part()@, r@),
            final(self).archetypes_part() == old(self).archetypes_part(),
    {
        self.types.register_component(type_id, name)
    }

    pub fn register_builtin_component(&mut self, type_id: TypeKey, name: &str) -> (r: TypeMetadata)
        requires
            old(self).wf(),
        ensures
            final(self).wf(),
            r@ == (TypeInfo { type_id, name: name@, kind: RegisteredTypeKind::Component, source: RegistrationSource::BuiltIn }),
            final(self).types_part()@ == registered(old(self).types_part()@, r@),
            final(self).archetypes_part() == old(self).archetypes_part(),
    {
        self.types.register_builtin_component(type_id, name)
    }

    pub fn register_script(&mut self, type_id: TypeKey, name: &str) -> (r: TypeMetadata)
        requires
            old(self).wf(),
        ensures
            final(self).wf(),
            r@ == (TypeInfo { type_id, name: name@, kind: RegisteredTypeKind::Script, source: RegistrationSource::User }),
            final(self).types_part()@ == registered(old(self).types_part()@, r@),
            final(self).archetypes_part() == old(self).archetypes_part(),
    {
        self.types.register_script(type_id, name)
    }

    pub fn register_builtin_script(&mut self, type_id: TypeKey, name: &str) -> (r: TypeMetadata)
        requires
            old(self).wf(),
        ensures
            final(self).wf(),
            r@ == (TypeInfo { type_id, name: name@, kind: RegisteredTypeKind::Script, source: RegistrationSource::BuiltIn }),
            final(self).types_part()@ == registered(old(self).types_part()@, r@),
            final(self).archetypes_part() == old(self).archetypes_part(),
    {
        self.types.register_builtin_script(type_id, name)
    }

    /// Registers a user component type with a builder kept by the caller.
    pub fn register_component_factory(&mut self, type_id: TypeKey, name: &str) -> (r: TypeMetadata)
        requires
            old(self).wf(),
        ensures
            final(self).wf(),
            r@ == (TypeInfo { type_id, name: name@, kind: RegisteredTypeKind::Component, source: RegistrationSource::User }),
            final(self).types_part()@.entries == registered(old(self).types_part()@, r@).entries,
            final(self).types_part()@.names == registered(old(self).types_part()@, r@).names,
            final(self).types_part()@.factories == old(self).types_part()@.factories.insert(type_id),
            final(self).archetypes_part() == old(self).archetypes_part(),
    {
        self.types.register_factory(type_id, name, RegisteredTypeKind::Component, RegistrationSource::User)
    }

    /// Registers a user script type with a builder kept by the caller.
    pub fn register_script_factory(&mut self, type_id: TypeKey, name: &str) -> (r: TypeMetadata)
        requires
            old(self).wf(),
        ensures
            final(self).wf(),
            r@ == (TypeInfo { type_id, name: name@, kind: RegisteredTypeKind::Script, source: RegistrationSource::User }),
            final(self).types_part()@.entries == registered(old(self).types_part()@, r@).entries,
            final(self).types_part()@.names == registered(old(self).types_part()@, r@).names,
            final(self).types_part()@.factories == old(self).types_part()@.factories.insert(type_id),
            final(self).archetypes_part() == old(self).archetypes_part(),
    {
        self.types.register_factory(type_id, name, RegisteredTypeKind::Script, RegistrationSource::User)
    }

    pub fn register_archetype(&mut self, key: &ArchetypeKey, builder: B) -> (r: ArchetypeMetadata)
        requires
            old(self).wf(),
        ensures
            final(self).wf(),
            r@ == (ArchetypeInfo { key: key@, name: key@, source: RegistrationSource::User }),
            final(self).archetypes_part()@ == archetype_registered(old(self).archetypes_part()@, r@),
            final(self).archetypes_part().builders()
                == builders_registered(old(self).archetypes_part()@.entries, old(self).archetypes_part().builders(), key@, builder),
            final(self).archetypes_part().marks()
                == builders_registered(old(self).archetypes_part()@.entries, old(self).archetypes_part().marks(), key@, false),
            final(self).types_part() == old(self).types_part(),
    {
        self.archetypes.register(key, builder)
    }

    pub fn register_archetype_named(&mut self, name: &str, builder: B) -> (r: ArchetypeMetadata)
        requires
            old(self).wf(),
        ensures
            final(self).wf(),
            r@ == (ArchetypeInfo { key: name@, name: name@, source: RegistrationSource::User }),
            final(self).archetypes_part()@ == archetype_registered(old(self).archetypes_part()@, r@),
            final(self).archetypes_part().builders()
                == builders_registered(old(self).archetypes_part()@.entries, old(self).archetypes_part().builders(), name@, builder),
            final(self).archetypes_part().marks()
                == builders_registered(old(self).archetypes_part()@.entries, old(self).archetypes_part().marks(), name@, true),
            final(self).types_part() == old(self).types_part(),
    {
        self.archetypes.register_named(name, builder)
    }

    pub fn spawn_archetype_by_key<C>(&self, world: &mut World<C>, key: &ArchetypeKey) -> (r: Option<ObjectId>)
        where
            B: ArchetypeBuilder<C>,
        requires
            self.wf(),
            old(world).wf(),
            old(world).next_id() < u64::MAX,
        ensures
            final(world).wf(),
            match archetype_index(self.archetypes_part()@.entries, key@) {
                Some(i) => r == Some(old(world).next_id())
                    && final(world).spawned_from(old(world), final(world).objects().last())
                    && spawned_archetype(final(world).objects().last(), self.archetypes_part().builders()[i],
                        self.archetypes_part().marks()[i], key@),
                None => r is None && *final(world) == *old(world),
            },
    {
        self.archetypes.spawn_by_key(world, key)
    }

    pub fn spawn_archetype_by_name<C>(&self, world: &mut World<C>, name: &str) -> (r: Option<ObjectId>)
        where
            B: ArchetypeBuilder<C>,
        requires
            self.wf(),
            old(world).wf(),
            old(world).next_id() < u64::MAX,
        ensures
            final(world).wf(),
            archetype_info_by_name(self.archetypes_part()@, name@) is None ==> r is None && *final(world) == *old(world),
            archetype_info_by_name(self.archetypes_part()@, name@) is Some ==> ({
                let i = archetype_index(self.archetypes_part()@.entries, self.archetypes_part()@.names[name@])->0;
                r == Some(old(world).next_id())
                    && final(world).spawned_from(old(world), final(world).objects().last())
                    && spawned_archetype(final(world).objects().last(), self.archetypes_part().builders()[i],
                        self.archetypes_part().marks()[i], self.archetypes_part()@.names[name@])
            }),
    {
        self.archetypes.spawn_by_name(world, name)
    }

    /// Registers a user component type whose builder (kept by the caller) fills in an object.
    pub fn register_component_object_factory(&mut self, type_id: TypeKey, name: &str) -> (r: TypeMetadata)
        requires
            old(self).wf(),
        ensures
            final(self).wf(),
            r@ == (TypeInfo { type_id, name: name@, kind: RegisteredTypeKind::Component, source: RegistrationSource::User }),
            final(self).types_part()@.entries == registered(old(self).types_part()@, r@).entries,
            final(self).types_part()@.names == registered(old(self).types_part()@, r@).names,
            final(self).types_part()@.factories == old(self).types_part()@.factories.insert(type_id),
            final(self).archetypes_part() == old(self).archetypes_part(),
    {
        self.types.register_factory(type_id, name, RegisteredTypeKind::Component, RegistrationSource::User)
    }

    /// Registers a user component type under a name of the caller's choice, with a builder.
    pub fn register_component_named_factory(&mut self, type_id: TypeKey, name: &str) -> (r: TypeMetadata)
        requires
            old(self).wf(),
        ensures
            final(self).wf(),
            r@ == (TypeInfo { type_id, name: name@, kind: RegisteredTypeKind::Component, source: RegistrationSource::User }),
            final(self).types_part()@.entries == registered(old(self).types_part()@, r@).entries,
            final(self).types_part()@.names == registered(old(self).types_part()@, r@).names,
            final(self).types_part()@.factories == old(self).types_part()@.factories.insert(type_id),
            final(self).archetypes_part() == old(self).archetypes_part(),
    {
        self.types.register_factory(type_id, name, RegisteredTypeKind::Component, RegistrationSource::User)
    }

    /// Registers a built-in component type with a builder.
    pub fn register_builtin_component_factory(&mut self, type_id: TypeKey, name: &str) -> (r: TypeMetadata)
        requires
            old(self).wf(),
        ensures
            final(self).wf(),
            r@ == (TypeInfo { type_id, name: name@, kind: RegisteredTypeKind::Component, source: RegistrationSource::BuiltIn }),
            final(self).types_part()@.entries == registered(old(self).types_part()@, r@).entries,
            final(self).types_part()@.names == registered(old(self).types_part()@, r@).names,
            final(self).types_part()@.factories == old(self).types_part()@.factories.insert(type_id),
            final(self).archetypes_part() == old(self).archetypes_part(),
    {
        self.types.register_factory(type_id, name, RegisteredTypeKind::Component, RegistrationSource::BuiltIn)
    }

    /// Registers a built-in component type whose builder fills in an object.
    pub fn register_builtin_component_object_factory(&mut self, type_id: TypeKey, name: &str) -> (r: TypeMetadata)
        requires
            old(self).wf(),
        ensures
            final(self).wf(),
            r@ == (TypeInfo { type_id, name: name@, kind: RegisteredTypeKind::Component, source: RegistrationSource::BuiltIn }),
            final(self).types_part()@.entries == registered(old(self).types_part()@, r@).entries,
            final(self).types_part()@.names == registered(old(self).types_part()@, r@).names,
            final(self).types_part()@.factories == old(self).types_part()@.factories.insert(type_id),
            final(self).archetypes_part() == old(self).archetypes_part(),
    {
        self.types.register_factory(type_id, name, RegisteredTypeKind::Component, RegistrationSource::BuiltIn)
    }

    /// Registers a user script type under a name of the caller's choice, with a builder.
    pub fn register_script_named_factory(&mut self, type_id: TypeKey, name: &str) -> (r: TypeMetadata)
        requires
            old(self).wf(),
        ensures
            final(self).wf(),
            r@ == (TypeInfo { type_id, name: name@, kind: RegisteredTypeKind::Script, source: RegistrationSource::User }),
            final(self).types_part()@.entries == registered(old(self).types_part()@, r@).entries,
            final(self).types_part()@.names == registered(old(self).types_part()@, r@).names,
            final(self).types_part()@.factories == old(self).types_part()@.factories.insert(type_id),
            final(self).archetypes_part() == old(self).archetypes_part(),
    {
        self.types.register_factory(type_id, name, RegisteredTypeKind::Script, RegistrationSource::User)
    }

    /// Registers a built-in script type with a builder.
    pub fn register_builtin_script_factory(&mut self, type_id: TypeKey, name: &str) -> (r: TypeMetadata)
        requires
            old(self).wf(),
        ensures
            final(self).wf(),
            r@ == (TypeInfo { type_id, name: name@, kind: RegisteredTypeKind::Script, source: RegistrationSource::BuiltIn }),
            final(self).types_part()@.entries == registered(old(self).types_part()@, r@).entries,
            final(self).types_part()@.names == registered(old(self).types_part()@, r@).names,
            final(self).types_part()@.factories == old(self).types_part()@.factories.insert(type_id),
            final(self).archetypes_part() == old(self).archetypes_part(),
    {
        self.types.register_factory(type_id, name, RegisteredTypeKind::Script, RegistrationSource::BuiltIn)
    }

    /// Registers a user component type under a name of the caller's choice.
    pub fn register_component_named(&mut self, type_id: TypeKey, name: &str) -> (r: TypeMetadata)
        requires
            old(self).wf(),
        ensures
            final(self).wf(),
            r@ == (TypeInfo { type_id, name: name@, kind: RegisteredTypeKind::Component, source: RegistrationSource::User }),
            final(self).types_part()@ == registered(old(self).types_part()@, r@),
            final(self).archetypes_part() == old(self).archetypes_part(),
    {
        self.types.register_named(type_id, name, RegisteredTypeKind::Component, RegistrationSource::User)
    }

    /// Registers a user script type under a name of the caller's choice.
    pub fn register_script_named(&mut self, type_id: TypeKey, name: &str) -> (r: TypeMetadata)
        requires
            old(self).wf(),
        ensures
            final(self).wf(),
            r@ == (TypeInfo { type_id, name: name@, kind: RegisteredTypeKind::Script, source: RegistrationSource::User }),
            final(self).types_part()@ == registered(old(self).types_part()@, r@),
            final(self).archetypes_part() == old(self).archetypes_part(),
    {
        self.types.register_named(type_id, name, RegisteredTypeKind::Script, RegistrationSource::User)
    }

    /// Registers an object definition: an archetype under its key.
    pub fn register_object_def(&mut self, key: &ArchetypeKey, builder: B) -> (r: ArchetypeMetadata)
        requires
            old(self).wf(),
        ensures
            final(self).wf(),
            r@ == (ArchetypeInfo { key: key@, name: key@, source: RegistrationSource::User }),
            final(self).archetypes_part()@ == archetype_registered(old(self).archetypes_part()@, r@),
            final(self).archetypes_part().builders()
                == builders_registered(old(self).archetypes_part()@.entries, old(self).archetypes_part().builders(), key@, builder),
            final(self).archetypes_part().marks()
                == builders_registered(old(self).archetypes_part()@.entries, old(self).archetypes_part().marks(), key@, false),
            final(self).types_part() == old(self).types_part(),
    {
        self.archetypes.register_def(key, builder)
    }

    /// Registers an object definition whose key is its name.
    pub fn register_object_def_named(&mut self, name: &str, builder: B) -> (r: ArchetypeMetadata)
        requires
            old(self).wf(),
        ensures
            final(self).wf(),
            r@ == (ArchetypeInfo { key: name@, name: name@, source: RegistrationSource::User }),
            final(self).archetypes_part()@ == archetype_registered(old(self).archetypes_part()@, r@),
            final(self).archetypes_part().builders()
                == builders_registered(old(self).archetypes_part()@.entries, old(self).archetypes_part().builders(), name@, builder),
            final(self).archetypes_part().marks()
                == builders_registered(old(self).archetypes_part()@.entries, old(self).archetypes_part().marks(), name@, true),
            final(self).types_part() == old(self).types_part(),
    {
        self.archetypes.register_named(name, builder)
    }

    /// Same as `spawn_archetype_by_key`.
    pub fn spawn_object_def_by_key<C>(&self, world: &mut World<C>, key: &ArchetypeKey) -> (r: Option<ObjectId>)
        where
            B: ArchetypeBuilder<C>,
        requires
            self.wf(),
            old(world).wf(),
            old(world).next_id() < u64::MAX,
        ensures
            final(world).wf(),
            match archetype_index(self.archetypes_part()@.entries, key@) {
                Some(i) => r == Some(old(world).next_id())
                    && final(world).spawned_from(old(world), final(world).objects().last())
                    && spawned_archetype(final(world).objects().last(), self.archetypes_part().builders()[i],
                        self.archetypes_part().marks()[i], key@),
                None => r is None && *final(world) == *old(world),
            },
    {
        self.archetypes.spawn_by_key(world, key)
    }

    /// Same as `spawn_archetype_by_name`.
    pub fn spawn_object_def_by_name<C>(&self, world: &mut World<C>, name: &str) -> (r: Option<ObjectId>)
        where
            B: ArchetypeBuilder<C>,
        requires
            self.wf(),
            old(world).wf(),
            old(world).next_id() < u64::MAX,
        ensures
            final(world).wf(),
            archetype_info_by_name(self.archetypes_part()@, name@) is None ==> r is None && *final(world) == *old(world),
            archetype_info_by_name(self.archetypes_part()@, name@) is Some ==> ({
                let i = archetype_index(self.archetypes_part()@.entries, self.archetypes_part()@.names[name@])->0;
                r == Some(old(world).next_id())
                    && final(world).spawned_from(old(world), final(world).objects().last())
                    && spawned_archetype(final(world).objects().last(), self.archetypes_part().builders()[i],
                        self.archetypes_part().marks()[i], self.archetypes_part()@.names[name@])
            }),
    {
        self.archetypes.spawn_by_name(world, name)
    }

    pub fn add_type_to_object<C>(&self, object: &mut Object<C>, type_id: TypeKey, component: C) -> (r: bool)
        requires
            self.wf(),
            old(object).wf(),
        ensures
            final(object).wf(),
            r == (self.types_part()@.factories.contains(type_id) && !old(object).holds(type_id)),
            r ==> final(object).components() == old(object).components().push((type_id, component)),
            !r ==> final(object).components() == old(object).components(),
            final(object).name_view() == old(object).name_view(),
            final(object).pending() == old(object).pending(),
    {
        self.types.add_to_object(object, type_id, component)
    }
}

/// A type that registers itself: its key, its name and its kind. The
/// `spec_` functions name, for the proofs, what the methods return; an
/// implementation outside verified code defines them as those methods.
pub trait RunaType {
    /// The key the type is registered under.
    spec fn spec_key() -> TypeKey;

    /// The name the type is registered under.
    spec fn spec_name() -> String;

    /// Whether the type is a component or a script.
    spec fn spec_kind() -> RegisteredTypeKind;

    fn type_key() -> (r: TypeKey)
        ensures
            r == Self::spec_key(),
    ;

    fn runa_type_name() -> (r: String)
        ensures
            r@ == Self::spec_name()@,
    ;

    fn kind() -> (r: RegisteredTypeKind)
        ensures
            r == Self::spec_kind(),
    ;
}

/// How many component types are built in.
pub const BUILTIN_COMPONENT_COUNT: u64 = 13;

/// The name of the built-in component type with key `key`.
pub open spec fn builtin_component_name_spec(key: u64) -> Seq<char> {
    if key == 0 {
        "runa_core::components::transform::Transform"@
    } else if key == 1 {
        "runa_core::components::camera::Camera"@
    } else if key == 2 {
        "runa_core::components::camera2d::Camera2D"@
    } else if key == 3 {
        "runa_core::components::camera3d::Camera3D"@
    } else if key == 4 {
        "runa_core::components::sprite_renderer::SpriteRenderer"@
    } else if key == 5 {
        "runa_core::components::mesh_renderer::MeshRenderer"@
    } else if key == 6 {
        "runa_core::components::tilemap::Tilemap"@
    } else if key == 7 {
        "runa_core::components::tilemap::TilemapRenderer"@
    } else if key == 8 {
        "runa_core::components::collider2d::Collider2D"@
    } else if key == 9 {
        "runa_core::components::audio_source::AudioSource"@
    } else if key == 10 {
        "runa_core::components::audio_source::AudioListener"@
    } else if key == 11 {
        "runa_core::components::cursor_interactable::CursorInteractable"@
    } else {
        "runa_core::components::ui::canvas::Canvas"@
    }
}

pub fn builtin_component_name(key: u64) -> (r: &'static str)
    requires
        key < BUILTIN_COMPONENT_COUNT,
    ensures
        r@ == builtin_component_name_spec(key),
{
    if key == 0 {
        "runa_core::components::transform::Transform"
    } else if key == 1 {
        "runa_core::components::camera::Camera"
    } else if key == 2 {
        "runa_core::components::camera2d::Camera2D"
    } else if key == 3 {
        "runa_core::components::camera3d::Camera3D"
    } else if key == 4 {
        "runa_core::components::sprite_renderer::SpriteRenderer"
    } else if key == 5 {
        "runa_core::components::mesh_renderer::MeshRenderer"
    } else if key == 6 {
        "runa_core::components::tilemap::Tilemap"
    } else if key == 7 {
        "runa_core::components::tilemap::TilemapRenderer"
    } else if key == 8 {
        "runa_core::components::collider2d::Collider2D"
    } else if key == 9 {
        "runa_core::components::audio_source::AudioSource"
    } else if key == 10 {
        "runa_core::components::audio_source::AudioListener"
    } else if key == 11 {
        "runa_core::components::cursor_interactable::CursorInteractable"
    } else {
        "runa_core::components::ui::canvas::Canvas"
    }
}

/// The entries of the built-in component types, keys `0..n`.
pub open spec fn builtin_entries(n: nat) -> Seq<TypeInfo> {
    Seq::new(n, |k: int| TypeInfo {
        type_id: k as u64,
        name: builtin_component_name_spec(k as u64),
        kind: RegisteredTypeKind::Component,
        source: RegistrationSource::BuiltIn,
    })
}

/// The engine's registries, with the built-in types registered.
#[derive(Debug)]
pub struct Engine<B> {
    registry: RuntimeRegistry<B>,
}

impl<B> Engine<B> {
    pub closed spec fn registry(&self) -> RuntimeRegistry<B> {
        self.registry
    }

    /// An engine whose type registry holds exactly the built-in component
    /// types (the transform first), and no archetype.
    pub fn new() -> (r: Self)
        ensures
            r.registry().wf(),
            r.registry().types_part()@.entries == builtin_entries(BUILTIN_COMPONENT_COUNT as nat),
            r.registry().types_part()@.factories.is_empty(),
            r.registry().archetypes_part()@.entries.len() == 0,
    {
        let mut registry = RuntimeRegistry::new();
        let mut key: u64 = 0;
        while key < BUILTIN_COMPONENT_COUNT
            invariant
                key <= BUILTIN_COMPONENT_COUNT,
                registry.wf(),
                registry.types_part()@.entries == builtin_entries(key as nat),
                registry.types_part()@.factories.is_empty(),
                registry.archetypes_part()@.entries.len() == 0,
            decreases BUILTIN_COMPONENT_COUNT - key,
        {
            let ghost before = registry.types_part()@;
            proof {
                assert forall|i: int| 0 <= i < before.entries.len() implies #[trigger] before.entries[i].type_id != key by {}
            }
            let _ = registry.register_builtin_component(key, builtin_component_name(key));
            proof {
                assert(registry.types_part()@.entries =~= builtin_entries((key + 1) as nat));
                assert(registry.types_part()@.factories =~= Set::<TypeKey>::empty());
            }
            key = key + 1;
        }
        Engine { registry }
    }

    pub fn runtime_registry(&self) -> (r: &RuntimeRegistry<B>)
        ensures
            *r == self.registry(),
    {
        &self.registry
    }

    pub fn runtime_registry_mut(&mut self) -> (r: &mut RuntimeRegistry<B>)
        ensures
            *r == old(self).registry(),
            final(self).registry() == *final(r),
    {
        &mut self.registry
    }

    /// Registers the user type `T` under its key, name and kind.
    pub fn register<T: RunaType>(&mut self) -> (r: TypeMetadata)
        requires
            old(self).registry().wf(),
        ensures
            final(self).registry().wf(),
            r@ == (TypeInfo { type_id: T::spec_key(), name: T::spec_name()@, kind: T::spec_kind(), source: RegistrationSource::User }),
            final(self).registry().types_part()@ == registered(old(self).registry().types_part()@, r@),
            final(self).registry().archetypes_part() == old(self).registry().archetypes_part(),
    {
        let key = T::type_key();
        let name = T::runa_type_name();
        let kind = T::kind();
        self.registry.register_type(key, name.as_str(), kind, RegistrationSource::User)
    }

    pub fn register_archetype(&mut self, key: &ArchetypeKey, builder: B) -> (r: ArchetypeMetadata)
        requires
            old(self).registry().wf(),
        ensures
            final(self).registry().wf(),
            r@ == (ArchetypeInfo { key: key@, name: key@, source: RegistrationSource::User }),
            final(self).registry().archetypes_part()@ == archetype_registered(old(self).registry().archetypes_part()@, r@),
            final(self).registry().archetypes_part().builders() == builders_registered(
                old(self).registry().archetypes_part()@.entries,
                old(self).registry().archetypes_part().builders(),
                key@,
                builder,
            ),
            final(self).registry().archetypes_part().marks() == builders_registered(
                old(self).registry().archetypes_part()@.entries,
                old(self).registry().archetypes_part().marks(),
                key@,
                false,
            ),
            final(self).registry().types_part() == old(self).registry().types_part(),
    {
        self.registry.register_archetype(key, builder)
    }

    /// A new, empty world.
    pub fn create_world<C>(&self) -> (w: World<C>)
        ensures
            w.wf(),
            w.nodes().len() == 0,
            w.objects().len() == 0,
            w.next_id() == 1,
            w.queue().len() == 0,
            !w.in_lifecycle(),
            !w.is_started(),
    {
        World::new()
    }
}

/// No two archetypes share a key.
pub open spec fn unique_archetype_keys(entries: Seq<ArchetypeInfo>) -> bool {
    forall|i: int, j: int| 0 <= i < entries.len() && 0 <= j < entries.len() && i != j
        ==> #[trigger] entries[i].key != #[trigger] entries[j].key
}

/// What is registered last wins: after registering `info`, its key and its
/// name both find it, and every other key finds what it found before.
pub proof fn lemma_archetype_registered_lookup(v: ArchetypeRegistryView, info: ArchetypeInfo)
    requires
        unique_archetype_keys(v.entries),
    ensures
        unique_archetype_keys(archetype_registered(v, info).entries),
        archetype_info(archetype_registered(v, info), info.key) == Some(info),
        archetype_info_by_name(archetype_registered(v, info), info.name) == Some(info),
        forall|id: Seq<char>| id != info.key ==> #[trigger] archetype_info(archetype_registered(v, info), id) == archetype_info(v, id),
{
    let v2 = archetype_registered(v, info);
    let e = v.entries;
    let e2 = v2.entries;
    match archetype_index(e, info.key) {
        Some(i) => {
            assert(e2 == e.update(i, info));
        },
        None => {
            assert(e2 == e.push(info));
        },
    }
    assert forall|a: int, b: int| 0 <= a < e2.len() && 0 <= b < e2.len() && a != b
        implies #[trigger] e2[a].key != #[trigger] e2[b].key by {
        match archetype_index(e, info.key) {
            Some(i) => {
                if a != i && b != i {
                    assert(e2[a] == e[a] && e2[b] == e[b]);
                } else if a == i {
                    assert(e2[b] == e[b]);
                    assert(e[i].key == info.key);
                } else {
                    assert(e2[a] == e[a]);
                    assert(e[i].key == info.key);
                }
            },
            None => {
                if a < e.len() && b < e.len() {
                    assert(e2[a] == e[a] && e2[b] == e[b]);
                } else if a < e.len() {
                    assert(e2[a] == e[a]);
                } else {
                    assert(e2[b] == e[b]);
                }
            },
        }
    }
    let k = match archetype_index(e, info.key) {
        Some(i) => i,
        None => e.len() as int,
    };
    assert(e2[k] == info);
    assert(archetype_index(e2, info.key) == Some(k));
    assert forall|id: Seq<char>| id != info.key implies #[trigger] archetype_info(v2, id) == archetype_info(v, id) by {
        if exists|j: int| 0 <= j < e.len() && #[trigger] e[j].key == id {
            let j = choose|j: int| 0 <= j < e.len() && #[trigger] e[j].key == id;
            assert(j != k);
            assert(e2[j] == e[j]);
            assert(archetype_index(e2, id) == Some(j));
        }
        if exists|j: int| 0 <= j < e2.len() && #[trigger] e2[j].key == id {
            let j = choose|j: int| 0 <= j < e2.len() && #[trigger] e2[j].key == id;
            assert(j != k);
            assert(e2[j] == e[j]);
        }
    }
}

impl<B> ArchetypeRegistry<B> {
    /// The entries of a registry have distinct keys.
    pub proof fn lemma_unique_keys(&self)
        requires
            self.wf(),
        ensures
            unique_archetype_keys(self@.entries),
    {
        assert forall|i: int, j: int| 0 <= i < self@.entries.len() && 0 <= j < self@.entries.len() && i != j
            implies #[trigger] self@.entries[i].key != #[trigger] self@.entries[j].key by {
            assert(self@.entries[i].key == self.archetypes@[i]@.key);
            assert(self@.entries[j].key == self.archetypes@[j]@.key);
        }
    }
}

} // verus!
