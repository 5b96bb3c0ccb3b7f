//! Front end for the Rado language: a lexer for its tokens, the declarative
//! syntax-tree data model, and the name-resolving program builder that turns
//! a parsed file into a scope graph of regions, items and tags.

pub mod arena;
pub mod ast;
pub mod builder;
pub mod intern;
pub mod token;

use vstd::prelude::*;

verus! {

/// An identifier in a Rado program.
///
/// Identifiers are interned within a single Program, so they cannot be
/// directly converted back to strings: equality and ordering go by the
/// handle alone.
#[derive(Copy, Clone, PartialEq, Eq, Structural, PartialOrd, Ord, Hash, Debug)]
pub struct Ident(pub usize);

/// A name of a declared entity.
///
/// In addition to an identifier, an entity's name may have a human-readable
/// alternate, used when formatting messages.
#[derive(Clone, Debug)]
pub struct Name {
    pub ident: Ident,
    pub human: Option<String>,
}

/// The mathematical value of a [Name]: the handle, and the display text.
#[verifier::ext_equal]
pub struct NameV {
    pub ident: Ident,
    pub human: Option<Seq<char>>,
}

impl View for Name {
    type V = NameV;

    open spec fn view(&self) -> NameV {
        NameV {
            ident: self.ident,
            human: match &self.human {
                Option::None => Option::None,
                Option::Some(h) => Option::Some(h@),
            },
        }
    }
}

/// An untyped id for an entity in a Rado program.
///
/// Ids are only unique within a given entity kind; a region and an item may
/// share an id. Use [EntityId] instead to get uniqueness.
#[derive(Copy, Clone, PartialEq, Eq, Structural, PartialOrd, Ord, Hash, Debug)]
pub struct Id(pub usize);

/// A typed id for an entity in a Rado program. Every entity has a unique
/// EntityId.
#[derive(Copy, Clone, PartialEq, Eq, Structural, PartialOrd, Ord, Hash, Debug)]
pub enum EntityId {
    Region(Id),
    Item(Id),
    /// Because tags have no information other than their identifier, the
    /// identifier is used directly as the id.
    Tag(Ident),
}

impl EntityId {
    /// Unwrap this id as a region id.
    pub fn unwrap_region(&self) -> (r: Id)
        requires
            self is Region,
        ensures
            *self == EntityId::Region(r),
    {
        match self {
            EntityId::Region(x) => *x,
            _ => Id(0),  // excluded by the precondition
        }
    }

    /// Unwrap this id as an item id.
    pub fn unwrap_item(&self) -> (r: Id)
        requires
            self is Item,
        ensures
            *self == EntityId::Item(r),
    {
        match self {
            EntityId::Item(x) => *x,
            _ => Id(0),  // excluded by the precondition
        }
    }

    /// Unwrap this id as a tag identifier.
    pub fn unwrap_tag(&self) -> (r: Ident)
        requires
            self is Tag,
        ensures
            *self == EntityId::Tag(r),
    {
        match self {
            EntityId::Tag(x) => *x,
            _ => Ident(0),  // excluded by the precondition
        }
    }
}

/// An identifier for a scope in a Rado program: the global scope, or a
/// region.
#[derive(Copy, Clone, PartialEq, Eq, Structural, PartialOrd, Ord, Hash, Debug)]
pub enum ScopeId {
    Global,
    Region(Id),
}

/// An error from building or querying a program. Building aborts at the
/// first of these; no partial program is returned.
#[derive(Copy, Clone, PartialEq, Eq, Structural, Debug)]
pub enum BuildError {
    /// A declaration whose name is already bound in the same scope.
    AlreadyDeclared,
    /// A declaration whose name would shadow an entity of a higher scope.
    Shadows,
    /// A tag declared with the same name as an entity somewhere in the
    /// program, other than an identical earlier tag.
    TagCollision,
    /// A path constructed from no segments.
    EmptyPath,
    /// The first identifier of a path was not found in any enclosing scope.
    PathStartNotFound,
    /// A path segment was looked up inside an entity that is not a region.
    NotAScope,
    /// A later path segment was not found among the children of its region.
    PathSegmentNotFound,
    /// A statement kind the builder does not support: a conditional block,
    /// an amendment of an earlier declaration, an incremental tag list on an
    /// item group, or a declaration kind not yet handled.
    Unsupported,
    /// A lookup met an entity or scope that the program does not hold.
    /// Building never returns this: the second pass is proved to find
    /// everything the first created, so a build fails only on the
    /// first-pass errors above. Path lookups on a program return it when
    /// handed an id the program does not hold.
    MissingEntity,
}

impl BuildError {
    /// A short description of the error.
    pub fn message(self) -> &'static str {
        match self {
            BuildError::AlreadyDeclared => "name already declared in same scope",
            BuildError::Shadows => "name shadows entity in higher scope",
            BuildError::TagCollision => "tag declared with same name as entity",
            BuildError::EmptyPath => "trying to construct empty path",
            BuildError::PathStartNotFound => "first identifier in path not found in lookup",
            BuildError::NotAScope => "tried to lookup entity in non-scope",
            BuildError::PathSegmentNotFound => "next segment not found in child scope",
            BuildError::Unsupported => "unsupported statement",
            BuildError::MissingEntity => "entity missing from program",
        }
    }
}

/// A path is a series of identifiers used to look up an entity or value.
/// Paths are always nonempty.
#[derive(PartialEq, Eq, PartialOrd, Ord, Hash, Debug)]
pub struct Path(pub(crate) Vec<Ident>);

impl Clone for Path {
    /// Copy the path, segment for segment.
    fn clone(&self) -> (r: Self)
        ensures
            r@ == self@,
    {
        proof {
            use_type_invariant(self);
        }
        let mut segments: Vec<Ident> = Vec::new();
        let mut k: usize = 0;
        while k < self.0.len()
            invariant
                k <= self.0@.len(),
                segments@ == self.0@.subrange(0, k as int),
            decreases self.0@.len() - k,
        {
            segments.push(self.0[k]);
            proof {
                assert(self.0@.subrange(0, k + 1) =~= self.0@.subrange(0, k as int).push(
                    self.0@[k as int],
                ));
            }
            k = k + 1;
        }
        proof {
            assert(self.0@.subrange(0, self.0@.len() as int) =~= self.0@);
        }
        Path(segments)
    }
}

impl View for Path {
    type V = Seq<Ident>;

    closed spec fn view(&self) -> Seq<Ident> {
        self.0@
    }
}

impl Path {
    #[verifier::type_invariant]
    spec fn type_inv(self) -> bool {
        self.0@.len() > 0
    }

    /// Construct a new path. Returns an error if `segments` is empty.
    pub fn new(segments: Vec<Ident>) -> (r: Result<Path, BuildError>)
        ensures
            match r {
                Ok(p) => segments@.len() > 0 && p@ == segments@,
                Err(e) => segments@.len() == 0 && e == BuildError::EmptyPath,
            },
    {
        if segments.len() == 0 {
            Err(BuildError::EmptyPath)
        } else {
            Ok(Path(segments))
        }
    }

    /// The number of segments; always at least one.
    pub fn len(&self) -> (r: usize)
        ensures
            r == self@.len(),
            r > 0,
    {
        proof {
            use_type_invariant(self);
        }
        self.0.len()
    }
}

/// Association-list lookup: the value of the first pair whose key matches.
pub open spec fn assoc_get(s: Seq<(Ident, EntityId)>, i: Ident) -> Option<EntityId>
    decreases s.len(),
{
    if s.len() == 0 {
        None
    } else if s[0].0 == i {
        Some(s[0].1)
    } else {
        assoc_get(s.drop_first(), i)
    }
}

/// The map an association list stands for.
pub open spec fn assoc_map(s: Seq<(Ident, EntityId)>) -> Map<Ident, EntityId> {
    Map::new(|i: Ident| assoc_get(s, i) is Some, |i: Ident| assoc_get(s, i)->0)
}

/// The set an identifier list stands for.
pub open spec fn idents_set(s: Seq<Ident>) -> Set<Ident> {
    Set::new(|i: Ident| s.contains(i))
}

/// A Rado region: a scope with its own name, child bindings and parent.
#[derive(Debug)]
pub struct Region {
    pub(crate) parent: ScopeId,
    pub(crate) name: Name,
    pub(crate) children: Vec<(Ident, EntityId)>,
}

/// The mathematical value of a [Region].
#[verifier::ext_equal]
pub struct RegionV {
    pub parent: ScopeId,
    pub name: NameV,
    pub children: Map<Ident, EntityId>,
}

impl View for Region {
    type V = RegionV;

    closed spec fn view(&self) -> RegionV {
        RegionV { parent: self.parent, name: self.name@, children: assoc_map(self.children@) }
    }
}

impl Region {
    /// The scope this region was declared in.
    pub fn parent(&self) -> (r: ScopeId)
        ensures
            r == self@.parent,
    {
        self.parent
    }

    /// The identifier this region was declared under.
    pub fn ident(&self) -> (r: Ident)
        ensures
            r == self@.name.ident,
    {
        self.name.ident
    }

    /// The region's human-readable name, if one was declared.
    pub fn human(&self) -> (r: &Option<String>)
        ensures
            self@.name.human == match r {
                Option::None => Option::None::<Seq<char>>,
                Option::Some(h) => Option::Some(h@),
            },
    {
        &self.name.human
    }

    /// Look a single identifier up among this region's own children.
    pub fn lookup_ident(&self, i: Ident) -> (r: Option<EntityId>)
        ensures
            match r {
                Some(e) => self@.children.dom().contains(i) && e == self@.children[i],
                None => !self@.children.dom().contains(i),
            },
    {
        assoc_lookup(&self.children, i)
    }

    /// The region's child bindings.
    pub fn children(&self) -> (r: &Vec<(Ident, EntityId)>)
        ensures
            assoc_map(r@) == self@.children,
    {
        &self.children
    }
}

/// An item to be randomized.
#[derive(Debug)]
pub struct Item {
    pub(crate) parent: ScopeId,
    pub(crate) name: Name,
    pub(crate) tags: Vec<Ident>,
}

/// The mathematical value of an [Item].
#[verifier::ext_equal]
pub struct ItemV {
    pub parent: ScopeId,
    pub name: NameV,
    pub tags: Set<Ident>,
}

impl View for Item {
    type V = ItemV;

    closed spec fn view(&self) -> ItemV {
        ItemV { parent: self.parent, name: self.name@, tags: idents_set(self.tags@) }
    }
}

impl Item {
    /// The scope this item was declared in.
    pub fn parent(&self) -> (r: ScopeId)
        ensures
            r == self@.parent,
    {
        self.parent
    }

    /// The identifier this item was declared under.
    pub fn ident(&self) -> (r: Ident)
        ensures
            r == self@.name.ident,
    {
        self.name.ident
    }

    /// The item's human-readable name, if one was declared.
    pub fn human(&self) -> (r: &Option<String>)
        ensures
            self@.name.human == match r {
                Option::None => Option::None::<Seq<char>>,
                Option::Some(h) => Option::Some(h@),
            },
    {
        &self.name.human
    }

    /// Whether the item carries the given tag.
    pub fn has_tag(&self, t: Ident) -> (r: bool)
        ensures
            r == self@.tags.contains(t),
    {
        idents_contain(&self.tags, t)
    }
}

/// A tag is just an identifier. This struct exists only so that tags can be
/// handled as entities; a tag's parent scope is always the global scope.
#[derive(Copy, Clone, PartialEq, Eq, Structural, Debug)]
pub struct Tag(pub Ident);

impl Tag {
    /// The scope a tag belongs to: always the global scope.
    pub fn parent(&self) -> (r: ScopeId)
        ensures
            r == ScopeId::Global,
    {
        ScopeId::Global
    }
}

/// A Rado program: the abstract state of a program prior to it being
/// configured or used. It owns the region and item arenas, the global name
/// table, and the identifier interner.
pub struct Program {
    pub(crate) regions: id_map::IdMap<Region>,
    pub(crate) items: id_map::IdMap<Item>,
    pub(crate) global_decls: Vec<(Ident, EntityId)>,
    pub(crate) idents: intern::IdentInterner,
}

/// The mathematical value of a [Program]: its regions and items by id, the
/// global name table, and the interner's text-to-handle map with the next
/// fresh handle.
#[verifier::ext_equal]
pub struct ProgramV {
    pub regions: Seq<RegionV>,
    pub items: Seq<ItemV>,
    pub global: Map<Ident, EntityId>,
    pub interned: Map<Seq<char>, usize>,
    pub n_idents: nat,
}

impl ProgramV {
    /// The value of a program holding nothing.
    pub open spec fn empty() -> ProgramV {
        ProgramV {
            regions: Seq::empty(),
            items: Seq::empty(),
            global: Map::empty(),
            interned: Map::empty(),
            n_idents: 0,
        }
    }
}

impl View for Program {
    type V = ProgramV;

    closed spec fn view(&self) -> ProgramV {
        ProgramV {
            regions: Seq::new(
                arena::region_next_of(self.regions) as nat,
                |i: int| arena::region_arena_of(self.regions)[i as usize]@,
            ),
            items: Seq::new(
                arena::item_next_of(self.items) as nat,
                |i: int| arena::item_arena_of(self.items)[i as usize]@,
            ),
            global: assoc_map(self.global_decls@),
            interned: intern::interned_of(self.idents),
            n_idents: intern::interner_len(self.idents),
        }
    }
}

/// Whether a binding of an identifier to an entity may stand in the given
/// scope: the entity exists, was declared in that scope, and is bound under
/// its own name; a tag is bound globally under its own identifier.
pub open spec fn entity_ok(p: ProgramV, s: ScopeId, i: Ident, e: EntityId) -> bool {
    match e {
        EntityId::Region(rid) => rid.0 < p.regions.len() && p.regions[rid.0 as int].parent == s
            && p.regions[rid.0 as int].name.ident == i,
        EntityId::Item(iid) => iid.0 < p.items.len() && p.items[iid.0 as int].parent == s
            && p.items[iid.0 as int].name.ident == i,
        EntityId::Tag(t) => s == ScopeId::Global && t == i,
    }
}

/// Whether a scope id refers to a scope the program holds.
pub open spec fn scope_valid(p: ProgramV, s: ScopeId) -> bool {
    match s {
        ScopeId::Global => true,
        ScopeId::Region(rid) => rid.0 < p.regions.len(),
    }
}

/// Whether an entity id refers to an entity the program holds.
pub open spec fn entity_valid(p: ProgramV, e: EntityId) -> bool {
    match e {
        EntityId::Region(rid) => rid.0 < p.regions.len(),
        EntityId::Item(iid) => iid.0 < p.items.len(),
        EntityId::Tag(_) => true,
    }
}

/// The child bindings of a scope.
pub open spec fn scope_children(p: ProgramV, s: ScopeId) -> Map<Ident, EntityId> {
    match s {
        ScopeId::Global => p.global,
        ScopeId::Region(rid) => if rid.0 < p.regions.len() {
            p.regions[rid.0 as int].children
        } else {
            Map::empty()
        },
    }
}

/// The scope an entity was declared in; a tag belongs to the global scope.
pub open spec fn spec_entity_parent(p: ProgramV, e: EntityId) -> ScopeId {
    match e {
        EntityId::Region(rid) => p.regions[rid.0 as int].parent,
        EntityId::Item(iid) => p.items[iid.0 as int].parent,
        EntityId::Tag(_) => ScopeId::Global,
    }
}

/// Whether a region's parent is well-placed: the global scope, or a region
/// created strictly earlier, so that parent chains reach the global scope.
pub open spec fn region_parent_ok(p: ProgramV, r: int) -> bool {
    match p.regions[r].parent {
        ScopeId::Global => true,
        ScopeId::Region(pid) => pid.0 < r,
    }
}

/// Whether an item's parent scope exists.
pub open spec fn item_parent_ok(p: ProgramV, t: int) -> bool {
    match p.items[t].parent {
        ScopeId::Global => true,
        ScopeId::Region(pid) => pid.0 < p.regions.len(),
    }
}

/// Whether a region is bound in its parent scope under its own name: every
/// region the program holds is reachable from the global scope.
pub open spec fn region_bound(p: ProgramV, r: int) -> bool {
    scope_children(p, p.regions[r].parent).contains_pair(
        p.regions[r].name.ident,
        EntityId::Region(Id(r as usize)),
    )
}

/// Whether an item is bound in its parent scope under its own name.
pub open spec fn item_bound(p: ProgramV, t: int) -> bool {
    scope_children(p, p.items[t].parent).contains_pair(
        p.items[t].name.ident,
        EntityId::Item(Id(t as usize)),
    )
}

/// The well-formedness of a program's mathematical value: every binding
/// points at an entity declared in that scope under that name, parent
/// chains are well-founded, every entity is bound in its parent, and the
/// interner is injective with handles below the next fresh one.
pub open spec fn abs_wf(p: ProgramV) -> bool {
    &&& forall|i: Ident| #[trigger] p.global.dom().contains(i) ==> entity_ok(
        p,
        ScopeId::Global,
        i,
        p.global[i],
    )
    &&& forall|r: int, i: Ident|
        0 <= r < p.regions.len() && #[trigger] p.regions[r].children.dom().contains(i)
            ==> entity_ok(p, ScopeId::Region(Id(r as usize)), i, p.regions[r].children[i])
    &&& forall|r: int| 0 <= r < p.regions.len() ==> #[trigger] region_parent_ok(p, r)
    &&& forall|t: int| 0 <= t < p.items.len() ==> #[trigger] item_parent_ok(p, t)
    &&& forall|r: int| 0 <= r < p.regions.len() ==> #[trigger] region_bound(p, r)
    &&& forall|t: int| 0 <= t < p.items.len() ==> #[trigger] item_bound(p, t)
    &&& forall|t1: Seq<char>, t2: Seq<char>|
        p.interned.dom().contains(t1) && p.interned.dom().contains(t2) && t1 != t2
            ==> #[trigger] p.interned[t1] != #[trigger] p.interned[t2]
    &&& forall|t: Seq<char>| #[trigger] p.interned.dom().contains(t) ==> p.interned[t]
        < p.n_idents
    &&& p.n_idents <= usize::MAX
    &&& p.regions.len() <= usize::MAX
    &&& p.items.len() <= usize::MAX
}

impl Program {
    /// The arenas hold exactly the ids below their next one.
    spec fn arenas_ok(&self) -> bool {
        &&& arena::region_arena_inv(self.regions)
        &&& forall|j: usize| #[trigger] arena::region_arena_of(self.regions).dom().contains(j)
            ==> j < arena::region_next_of(self.regions)
        &&& arena::item_arena_inv(self.items)
        &&& forall|j: usize| #[trigger] arena::item_arena_of(self.items).dom().contains(j) ==> j
            < arena::item_next_of(self.items)
    }

    /// The full well-formedness of a program: its arenas hold exactly the
    /// ids below their next one, and its mathematical value is well-formed.
    pub closed spec fn wf(&self) -> bool {
        &&& self.arenas_ok()
        &&& abs_wf(self@)
    }
}

/// How far a scope stands from the global scope, by ids: a measure that
/// shrinks along well-formed parent chains.
pub open spec fn scope_rank(s: ScopeId) -> int {
    match s {
        ScopeId::Global => 0,
        ScopeId::Region(rid) => rid.0 + 1,
    }
}

/// What looking an identifier up from a scope yields: the binding in the
/// nearest enclosing scope that has one, climbing from the scope given to
/// the global scope.
pub open spec fn spec_lookup(p: ProgramV, s: ScopeId, i: Ident) -> Option<EntityId>
    decreases scope_rank(s) when abs_wf(p) && scope_valid(p, s)
{
    if scope_children(p, s).dom().contains(i) {
        Some(scope_children(p, s)[i])
    } else {
        match s {
            ScopeId::Global => None,
            ScopeId::Region(rid) => {
                proof {
                    assert(region_parent_ok(p, rid.0 as int));
                }
                spec_lookup(p, p.regions[rid.0 as int].parent, i)
            },
        }
    }
}

/// What resolving the remaining path segments from an entity yields: each
/// further segment must step into a region, and is looked up strictly among
/// that region's own children.
pub open spec fn spec_resolve_rest(
    p: ProgramV,
    cur: EntityId,
    path: Seq<Ident>,
    k: int,
) -> Result<EntityId, BuildError>
    decreases path.len() - k,
{
    if k >= path.len() {
        Ok(cur)
    } else {
        match cur {
            EntityId::Region(rid) => if rid.0 < p.regions.len() {
                if p.regions[rid.0 as int].children.dom().contains(path[k]) {
                    spec_resolve_rest(p, p.regions[rid.0 as int].children[path[k]], path, k + 1)
                } else {
                    Err(BuildError::PathSegmentNotFound)
                }
            } else {
                Err(BuildError::MissingEntity)
            },
            _ => Err(BuildError::NotAScope),
        }
    }
}

/// What looking a full path up from a scope yields: the first segment may
/// climb the scope chain; each further segment steps into a region.
pub open spec fn spec_lookup_entity(p: ProgramV, s: ScopeId, path: Seq<Ident>) -> Result<
    EntityId,
    BuildError,
>
    recommends
        path.len() > 0,
{
    match spec_lookup(p, s, path[0]) {
        None => Err(BuildError::PathStartNotFound),
        Some(e) => spec_resolve_rest(p, e, path, 1),
    }
}

/// Path resolution reaches through regions: where the first segment
/// resolves to a region holding the second among its own children, the
/// two-segment path yields exactly that child.
pub proof fn lemma_path_resolves_child(p: ProgramV, scope: ScopeId, a: Ident, b: Ident, rid: Id)
    requires
        abs_wf(p),
        scope_valid(p, scope),
        spec_lookup(p, scope, a) == Some(EntityId::Region(rid)),
        p.regions[rid.0 as int].children.dom().contains(b),
    ensures
        spec_lookup_entity(p, scope, seq![a, b]) == Ok::<EntityId, BuildError>(
            p.regions[rid.0 as int].children[b],
        ),
{
    builder::lemma_lookup_found(p, scope, a);
    let path = seq![a, b];
    assert(path[0] == a && path[1] == b && path.len() == 2);
    let child = p.regions[rid.0 as int].children[b];
    assert(spec_resolve_rest(p, child, path, 2) == Ok::<EntityId, BuildError>(child));
    assert(spec_resolve_rest(p, EntityId::Region(rid), path, 1) == Ok::<EntityId, BuildError>(
        child,
    ));
}

/// A later path segment looked up inside an entity that is not a region
/// fails with the non-scope error.
pub proof fn lemma_path_into_non_region(p: ProgramV, scope: ScopeId, a: Ident, b: Ident, e: EntityId)
    requires
        abs_wf(p),
        scope_valid(p, scope),
        spec_lookup(p, scope, a) == Some(e),
        !(e is Region),
    ensures
        spec_lookup_entity(p, scope, seq![a, b]) == Err::<EntityId, BuildError>(
            BuildError::NotAScope,
        ),
{
    let path = seq![a, b];
    assert(path[0] == a && path[1] == b && path.len() == 2);
}

/// A path whose first identifier is bound in no enclosing scope fails with
/// the not-found error.
pub proof fn lemma_path_start_unbound(p: ProgramV, scope: ScopeId, path: Seq<Ident>)
    requires
        abs_wf(p),
        scope_valid(p, scope),
        path.len() > 0,
        spec_lookup(p, scope, path[0]) is None,
    ensures
        spec_lookup_entity(p, scope, path) == Err::<EntityId, BuildError>(
            BuildError::PathStartNotFound,
        ),
{
}

proof fn lemma_assoc_map_get(s: Seq<(Ident, EntityId)>, i: Ident)
    ensures
        match assoc_get(s, i) {
            Some(e) => assoc_map(s).dom().contains(i) && assoc_map(s)[i] == e,
            None => !assoc_map(s).dom().contains(i),
        },
{
}

/// A reference to an entity of a program: a region, an item, or a tag. Tags
/// carry no state beyond their identifier, so a tag is returned by value.
pub enum EntityRef<'a> {
    Region(&'a Region),
    Item(&'a Item),
    Tag(Tag),
}

impl<'a> EntityRef<'a> {
    /// The scope the entity was declared in.
    pub fn parent(&self) -> (r: ScopeId)
        ensures
            r == (match self {
                EntityRef::Region(x) => x@.parent,
                EntityRef::Item(x) => x@.parent,
                EntityRef::Tag(_) => ScopeId::Global,
            }),
    {
        match self {
            EntityRef::Region(x) => x.parent(),
            EntityRef::Item(x) => x.parent(),
            EntityRef::Tag(t) => t.parent(),
        }
    }
}

/// A reference to a scope of a program: the program itself as the global
/// scope, or a region.
pub enum ScopeRef<'a> {
    Global(&'a Program),
    Region(&'a Region),
}

impl<'a> ScopeRef<'a> {
    /// The scope's parent. Only the global scope has none.
    pub fn parent(&self) -> (r: Option<ScopeId>)
        ensures
            r == (match self {
                ScopeRef::Global(_) => Option::<ScopeId>::None,
                ScopeRef::Region(x) => Option::Some(x@.parent),
            }),
    {
        match self {
            ScopeRef::Global(_) => None,
            ScopeRef::Region(x) => Some(x.parent()),
        }
    }

    /// Look a single identifier up among this scope's own children. To do
    /// lookup across the scope tree, which is more usual, use the methods
    /// of [Program].
    pub fn lookup_ident(&self, i: Ident) -> (r: Option<EntityId>)
        ensures
            ({
                let children = match self {
                    ScopeRef::Global(p) => p@.global,
                    ScopeRef::Region(x) => x@.children,
                };
                match r {
                    Some(e) => children.dom().contains(i) && e == children[i],
                    None => !children.dom().contains(i),
                }
            }),
    {
        match self {
            ScopeRef::Global(p) => p.lookup_ident(i),
            ScopeRef::Region(x) => x.lookup_ident(i),
        }
    }

    /// The scope's child bindings.
    pub fn children(&self) -> (r: &Vec<(Ident, EntityId)>)
        ensures
            assoc_map(r@) == (match self {
                ScopeRef::Global(p) => p@.global,
                ScopeRef::Region(x) => x@.children,
            }),
    {
        match self {
            ScopeRef::Global(p) => p.children(),
            ScopeRef::Region(x) => x.children(),
        }
    }
}

impl Default for Program {
    /// Construct a completely empty program.
    fn default() -> (r: Program)
        ensures
            r@ == ProgramV::empty(),
            r.wf(),
    {
        let p = Program {
            regions: arena::region_arena_new(),
            items: arena::item_arena_new(),
            global_decls: Vec::new(),
            idents: intern::interner_new(),
        };
        proof {
            assert(p@.regions =~= Seq::<RegionV>::empty());
            assert(p@.items =~= Seq::<ItemV>::empty());
            assert(p@.global =~= Map::<Ident, EntityId>::empty());
            assert(p@ =~= ProgramV::empty());
        }
        p
    }
}

impl Program {
    /// Lookup a single identifier in a scope. Lookup proceeds by traversing
    /// upwards along the scope tree to find if any scope contains the
    /// provided identifier.
    pub fn lookup(&self, scope: ScopeId, ident: Ident) -> (r: Option<EntityId>)
        requires
            self.wf(),
            scope_valid(self@, scope),
        ensures
            r == spec_lookup(self@, scope, ident),
    {
        let mut s = scope;
        loop
            invariant
                self.wf(),
                scope_valid(self@, s),
                spec_lookup(self@, scope, ident) == spec_lookup(self@, s, ident),
            decreases scope_rank(s),
        {
            match s {
                ScopeId::Global => {
                    let r = assoc_lookup(&self.global_decls, ident);
                    proof {
                        lemma_assoc_map_get(self.global_decls@, ident);
                    }
                    return r;
                },
                ScopeId::Region(rid) => {
                    match arena::region_arena_get(&self.regions, rid.0) {
                        Some(reg) => {
                            let r = assoc_lookup(&reg.children, ident);
                            proof {
                                lemma_assoc_map_get(reg.children@, ident);
                                assert(reg@ == self@.regions[rid.0 as int]);
                                assert(region_parent_ok(self@, rid.0 as int));
                            }
                            match r {
                                Some(e) => {
                                    return Some(e);
                                },
                                None => {
                                    s = reg.parent;
                                },
                            }
                        },
                        None => {
                            proof {
                                assert(false);
                            }
                            return None;
                        },
                    }
                },
            }
        }
    }

    /// Lookup an entity by full path: the first identifier may climb the
    /// scope chain; each further identifier is looked up strictly within the
    /// region found so far.
    pub fn lookup_entity(&self, scope: ScopeId, path: &Path) -> (r: Result<EntityId, BuildError>)
        requires
            self.wf(),
            scope_valid(self@, scope),
        ensures
            r == spec_lookup_entity(self@, scope, path@),
    {
        proof {
            use_type_invariant(path);
        }
        let mut cur = match self.lookup(scope, path.0[0]) {
            Some(e) => e,
            None => {
                return Err(BuildError::PathStartNotFound);
            },
        };
        let mut k: usize = 1;
        while k < path.0.len()
            invariant
                self.wf(),
                1 <= k <= path.0@.len(),
                path@ == path.0@,
                spec_lookup_entity(self@, scope, path@) == spec_resolve_rest(
                    self@,
                    cur,
                    path@,
                    k as int,
                ),
            decreases path.0@.len() - k,
        {
            match cur {
                EntityId::Region(rid) => {
                    match arena::region_arena_get(&self.regions, rid.0) {
                        Some(reg) => {
                            proof {
                                assert(reg@ == self@.regions[rid.0 as int]);
                                lemma_assoc_map_get(reg.children@, path.0@[k as int]);
                            }
                            match assoc_lookup(&reg.children, path.0[k]) {
                                Some(e) => {
                                    cur = e;
                                    k = k + 1;
                                },
                                None => {
                                    return Err(BuildError::PathSegmentNotFound);
                                },
                            }
                        },
                        None => {
                            return Err(BuildError::MissingEntity);
                        },
                    }
                },
                _ => {
                    return Err(BuildError::NotAScope);
                },
            }
        }
        Ok(cur)
    }

    /// Find the entity with the provided id.
    pub fn get_entity(&self, e: EntityId) -> (r: Option<EntityRef>)
        requires
            self.wf(),
        ensures
            match r {
                Some(er) => entity_valid(self@, e) && (match er {
                    EntityRef::Region(x) => e is Region && x@ == self@.regions[
                        e->Region_0.0 as int
                    ],
                    EntityRef::Item(x) => e is Item && x@ == self@.items[e->Item_0.0 as int],
                    EntityRef::Tag(tg) => e is Tag && tg.0 == e->Tag_0,
                }),
                None => !entity_valid(self@, e),
            },
    {
        match e {
            EntityId::Region(rid) => match arena::region_arena_get(&self.regions, rid.0) {
                Some(x) => Some(EntityRef::Region(x)),
                None => None,
            },
            EntityId::Item(iid) => match arena::item_arena_get(&self.items, iid.0) {
                Some(x) => Some(EntityRef::Item(x)),
                None => None,
            },
            EntityId::Tag(t) => Some(EntityRef::Tag(Tag(t))),
        }
    }

    /// Find the scope with the provided id; the global scope is the program
    /// itself.
    pub fn get_scope(&self, s: ScopeId) -> (r: Option<ScopeRef>)
        requires
            self.wf(),
        ensures
            match r {
                Some(sr) => scope_valid(self@, s) && (match sr {
                    ScopeRef::Global(_) => s is Global,
                    ScopeRef::Region(x) => s is Region && x@ == self@.regions[
                        s->Region_0.0 as int
                    ],
                }),
                None => !scope_valid(self@, s),
            },
    {
        match s {
            ScopeId::Global => Some(ScopeRef::Global(self)),
            ScopeId::Region(rid) => match arena::region_arena_get(&self.regions, rid.0) {
                Some(x) => Some(ScopeRef::Region(x)),
                None => None,
            },
        }
    }

    /// Look a single identifier up among the global scope's own bindings.
    pub fn lookup_ident(&self, i: Ident) -> (r: Option<EntityId>)
        ensures
            match r {
                Some(e) => self@.global.dom().contains(i) && e == self@.global[i],
                None => !self@.global.dom().contains(i),
            },
    {
        proof {
            lemma_assoc_map_get(self.global_decls@, i);
        }
        assoc_lookup(&self.global_decls, i)
    }

    /// The global scope's child bindings.
    pub fn children(&self) -> (r: &Vec<(Ident, EntityId)>)
        ensures
            assoc_map(r@) == self@.global,
    {
        &self.global_decls
    }
}

proof fn lemma_assoc_get_push(s: Seq<(Ident, EntityId)>, i: Ident, e: EntityId, x: Ident)
    ensures
        assoc_get(s.push((i, e)), x) == (if assoc_get(s, x) is Some {
            assoc_get(s, x)
        } else if x == i {
            Some(e)
        } else {
            None
        }),
    decreases s.len(),
{
    if s.len() == 0 {
        assert(s.push((i, e))[0] == (i, e));
        assert(s.push((i, e)).drop_first() =~= s);
    } else {
        assert(s.push((i, e))[0] == s[0]);
        assert(s.push((i, e)).drop_first() =~= s.drop_first().push((i, e)));
        lemma_assoc_get_push(s.drop_first(), i, e, x);
    }
}

proof fn lemma_assoc_push(s: Seq<(Ident, EntityId)>, i: Ident, e: EntityId)
    requires
        assoc_get(s, i) is None,
    ensures
        assoc_map(s.push((i, e))) == assoc_map(s).insert(i, e),
{
    assert forall|x: Ident| true implies #[trigger] assoc_get(s.push((i, e)), x) == (if x == i {
        Some(e)
    } else {
        assoc_get(s, x)
    }) by {
        lemma_assoc_get_push(s, i, e, x);
    }
    assert(assoc_map(s.push((i, e))) =~= assoc_map(s).insert(i, e));
}

proof fn lemma_region_view_after_insert(
    m0: id_map::IdMap<Region>,
    m1: id_map::IdMap<Region>,
    id: usize,
    v: Region,
)
    requires
        arena::region_arena_inv(m0),
        forall|j: usize| #[trigger] arena::region_arena_of(m0).dom().contains(j) ==> j
            < arena::region_next_of(m0),
        id == arena::region_next_of(m0),
        arena::region_arena_of(m1) == arena::region_arena_of(m0).insert(id, v),
        arena::region_arena_inv(m1),
    ensures
        arena::region_next_of(m1) == id + 1,
        forall|j: usize| #[trigger] arena::region_arena_of(m1).dom().contains(j) ==> j
            < arena::region_next_of(m1),
        Seq::new(
            arena::region_next_of(m1) as nat,
            |i: int| arena::region_arena_of(m1)[i as usize]@,
        ) == Seq::new(
            arena::region_next_of(m0) as nat,
            |i: int| arena::region_arena_of(m0)[i as usize]@,
        ).push(v@),
{
    let d0 = arena::region_arena_of(m0);
    let d1 = arena::region_arena_of(m1);
    let n1 = arena::region_next_of(m1);
    if n1 < id {
        assert(d0.dom().contains(n1));
        assert(d1.dom().contains(n1));
        assert(false);
    }
    if n1 == id {
        assert(d1.dom().contains(n1));
        assert(false);
    }
    if n1 > id + 1 {
        assert(((id + 1) as usize) < n1);
        assert(d1.dom().contains((id + 1) as usize));
        assert(d0.dom().contains((id + 1) as usize));
        assert(false);
    }
    assert(n1 == id + 1);
    assert forall|j: usize| #[trigger] d1.dom().contains(j) implies j < n1 by {
        if j != id {
            assert(d0.dom().contains(j));
        }
    }
    assert(Seq::new(n1 as nat, |i: int| d1[i as usize]@) =~= Seq::new(
        arena::region_next_of(m0) as nat,
        |i: int| d0[i as usize]@,
    ).push(v@)) by {
        assert forall|i: int| 0 <= i <= id implies #[trigger] d1[i as usize]@ == (if i < id {
            d0[i as usize]@
        } else {
            v@
        }) by {
            if i < id {
                assert(d1[i as usize] == d0[i as usize]);
            }
        }
    }
}

proof fn lemma_item_view_after_insert(
    m0: id_map::IdMap<Item>,
    m1: id_map::IdMap<Item>,
    id: usize,
    v: Item,
)
    requires
        arena::item_arena_inv(m0),
        forall|j: usize| #[trigger] arena::item_arena_of(m0).dom().contains(j) ==> j
            < arena::item_next_of(m0),
        id == arena::item_next_of(m0),
        arena::item_arena_of(m1) == arena::item_arena_of(m0).insert(id, v),
        arena::item_arena_inv(m1),
    ensures
        arena::item_next_of(m1) == id + 1,
        forall|j: usize| #[trigger] arena::item_arena_of(m1).dom().contains(j) ==> j
            < arena::item_next_of(m1),
        Seq::new(
            arena::item_next_of(m1) as nat,
            |i: int| arena::item_arena_of(m1)[i as usize]@,
        ) == Seq::new(
            arena::item_next_of(m0) as nat,
            |i: int| arena::item_arena_of(m0)[i as usize]@,
        ).push(v@),
{
    let d0 = arena::item_arena_of(m0);
    let d1 = arena::item_arena_of(m1);
    let n1 = arena::item_next_of(m1);
    if n1 < id {
        assert(d0.dom().contains(n1));
        assert(d1.dom().contains(n1));
        assert(false);
    }
    if n1 == id {
        assert(d1.dom().contains(n1));
        assert(false);
    }
    if n1 > id + 1 {
        assert(((id + 1) as usize) < n1);
        assert(d1.dom().contains((id + 1) as usize));
        assert(d0.dom().contains((id + 1) as usize));
        assert(false);
    }
    assert(n1 == id + 1);
    assert forall|j: usize| #[trigger] d1.dom().contains(j) implies j < n1 by {
        if j != id {
            assert(d0.dom().contains(j));
        }
    }
    assert(Seq::new(n1 as nat, |i: int| d1[i as usize]@) =~= Seq::new(
        arena::item_next_of(m0) as nat,
        |i: int| d0[i as usize]@,
    ).push(v@)) by {
        assert forall|i: int| 0 <= i <= id implies #[trigger] d1[i as usize]@ == (if i < id {
            d0[i as usize]@
        } else {
            v@
        }) by {
            if i < id {
                assert(d1[i as usize] == d0[i as usize]);
            }
        }
    }
}

impl Program {
    /// Intern a raw identifier, yielding its semantic handle: the same text
    /// anywhere in one program yields the same handle.
    fn add_ident(&mut self, i: &ast::Ident) -> (r: Ident)
        requires
            old(self).wf(),
        ensures
            final(self).wf(),
            final(self)@ == builder::spec_intern_p(old(self)@, i.0@),
            r == builder::spec_intern_id(old(self)@, i.0@),
            final(self).regions == old(self).regions,
            final(self).items == old(self).items,
            final(self).global_decls == old(self).global_decls,
            builder::extends(old(self)@, final(self)@),
    {
        let u = intern::intern_text(&mut self.idents, i.0.as_str());
        proof {
            builder::lemma_wf_intern(old(self)@, i.0@);
            assert(self@ =~= builder::spec_intern_p(old(self)@, i.0@));
            builder::lemma_extends_intern(old(self)@, i.0@);
        }
        Ident(u)
    }

    /// Intern a declared name; the human-readable part is set only in the
    /// second pass.
    fn add_name(&mut self, n: &ast::DeclName) -> (r: Name)
        requires
            old(self).wf(),
        ensures
            final(self).wf(),
            final(self)@ == builder::spec_intern_p(old(self)@, n.ident.0@),
            r@ == (NameV { ident: builder::spec_intern_id(old(self)@, n.ident.0@), human: None }),
            final(self).regions == old(self).regions,
            final(self).items == old(self).items,
            final(self).global_decls == old(self).global_decls,
            builder::extends(old(self)@, final(self)@),
    {
        let ident = self.add_ident(&n.ident);
        Name { ident, human: None }
    }

    /// The scope an entity was declared in.
    fn entity_parent(&self, e: EntityId) -> (r: ScopeId)
        requires
            self.wf(),
            entity_valid(self@, e),
        ensures
            r == spec_entity_parent(self@, e),
    {
        match e {
            EntityId::Region(rid) => match arena::region_arena_get(&self.regions, rid.0) {
                Some(x) => x.parent(),
                None => {
                    proof {
                        assert(false);
                    }
                    ScopeId::Global
                },
            },
            EntityId::Item(iid) => match arena::item_arena_get(&self.items, iid.0) {
                Some(x) => x.parent(),
                None => {
                    proof {
                        assert(false);
                    }
                    ScopeId::Global
                },
            },
            EntityId::Tag(_) => ScopeId::Global,
        }
    }

    /// Validate that declaring the identifier in the scope collides with
    /// nothing: the identifier must be unbound all the way up the scope
    /// chain, else the collision is reported as a same-scope duplicate or as
    /// shadowing, by where the binding found was declared.
    fn validate_name_collisions(&self, s: ScopeId, n: Ident) -> (r: Result<(), BuildError>)
        requires
            self.wf(),
            scope_valid(self@, s),
        ensures
            match r {
                Ok(_) => builder::spec_validate(self@, s, n) is None,
                Err(e) => builder::spec_validate(self@, s, n) == Some(e),
            },
    {
        match self.lookup(s, n) {
            None => Ok(()),
            Some(e) => {
                proof {
                    builder::lemma_lookup_found(self@, s, n);
                }
                if self.entity_parent(e) == s {
                    Err(BuildError::AlreadyDeclared)
                } else {
                    Err(BuildError::Shadows)
                }
            },
        }
    }

    /// Insert a binding into a scope's children. The first pass's own
    /// collision checks guarantee the name is free, so this never overwrites
    /// an existing binding.
    fn insert_child(&mut self, s: ScopeId, i: Ident, e: EntityId)
        requires
            old(self).arenas_ok(),
            scope_valid(old(self)@, s),
            !scope_children(old(self)@, s).dom().contains(i),
        ensures
            final(self).arenas_ok(),
            final(self)@ == builder::spec_bind(old(self)@, s, i, e),
            builder::extends(old(self)@, final(self)@),
    {
        proof {
            builder::lemma_extends_bind(old(self)@, s, i, e);
        }
        match s {
            ScopeId::Global => {
                proof {
                    lemma_assoc_map_get(self.global_decls@, i);
                    lemma_assoc_push(self.global_decls@, i, e);
                }
                self.global_decls.push((i, e));
                proof {
                    assert(self@ =~= builder::spec_bind(old(self)@, s, i, e));
                }
            },
            ScopeId::Region(rid) => {
                let ghost p0 = self@;
                let ghost d0 = arena::region_arena_of(self.regions);
                let dummy = Region {
                    parent: ScopeId::Global,
                    name: Name { ident: Ident(0), human: None },
                    children: Vec::new(),
                };
                let got = arena::region_arena_replace(&mut self.regions, rid.0, dummy);
                let mut reg = match got {
                    Some(x) => x,
                    None => {
                        proof {
                            assert(false);
                        }
                        Region {
                            parent: ScopeId::Global,
                            name: Name { ident: Ident(0), human: None },
                            children: Vec::new(),
                        }
                    },
                };
                proof {
                    assert(reg == d0[rid.0]);
                    lemma_assoc_map_get(reg.children@, i);
                    lemma_assoc_push(reg.children@, i, e);
                }
                reg.children.push((i, e));
                let _ = arena::region_arena_replace(&mut self.regions, rid.0, reg);
                proof {
                    let d2 = arena::region_arena_of(self.regions);
                    assert(d2 =~= d0.insert(rid.0, reg));
                    assert(self@.regions =~= p0.regions.update(
                        rid.0 as int,
                        RegionV {
                            children: p0.regions[rid.0 as int].children.insert(i, e),
                            ..p0.regions[rid.0 as int]
                        },
                    )) by {
                        assert forall|k: int|
                            0 <= k < p0.regions.len() && k != rid.0 implies #[trigger] d2[
                            k as usize
                        ]@ == p0.regions[k] by {
                            assert(d2[k as usize] == d0[k as usize]);
                        }
                        assert(d2[rid.0]@ == RegionV {
                            children: p0.regions[rid.0 as int].children.insert(i, e),
                            ..p0.regions[rid.0 as int]
                        });
                    }
                    assert(self@ =~= builder::spec_bind(old(self)@, s, i, e));
                }
            },
        }
    }
}

impl Program {
    /// Register one tag name: intern it, check it against every entity
    /// anywhere in the whole scope tree, and bind it globally; redeclaring
    /// the identical tag is idempotent.
    #[verifier::loop_isolation(false)]
    fn add_tag(&mut self, tag: &ast::Ident) -> (r: Result<(), BuildError>)
        requires
            old(self).wf(),
        ensures
            match r {
                Ok(_) => builder::spec_add_tag(old(self)@, *tag) == Ok::<ProgramV, BuildError>(
                    final(self)@,
                ) && final(self).wf(),
                Err(e) => builder::spec_add_tag(old(self)@, *tag) == Err::<ProgramV, BuildError>(
                    e,
                ),
            },
            old(self)@.regions.len() <= final(self)@.regions.len(),
            builder::extends(old(self)@, final(self)@),
            r is Ok ==> builder::spec_convert_ident(final(self)@, *tag) is Some,
    {
        let t = self.add_ident(tag);
        let ghost p1 = self@;
        proof {
            assert(self@.interned.dom().contains(tag.0@));
        }
        match self.lookup_ident(t) {
            Some(e) => {
                if e == EntityId::Tag(t) {
                    Ok(())
                } else {
                    Err(BuildError::TagCollision)
                }
            },
            None => {
                let n = arena::region_arena_next(&self.regions);
                let mut j: usize = 0;
                while j < n
                    invariant
                        self.wf(),
                        n as nat == self@.regions.len(),
                        j <= n,
                        forall|k: int|
                            0 <= k < j ==> !#[trigger] self@.regions[k].children.dom().contains(t),
                    decreases n - j,
                {
                    match arena::region_arena_get(&self.regions, j) {
                        Some(reg) => {
                            proof {
                                assert(reg@ == self@.regions[j as int]);
                                lemma_assoc_map_get(reg.children@, t);
                            }
                            match assoc_lookup(&reg.children, t) {
                                Some(_) => {
                                    proof {
                                        assert(self@.regions[j as int].children.dom().contains(t));
                                        assert(builder::tag_conflict(self@, t));
                                    }
                                    return Err(BuildError::TagCollision);
                                },
                                None => {},
                            }
                        },
                        None => {
                            proof {
                                assert(false);
                            }
                        },
                    }
                    j = j + 1;
                }
                proof {
                    assert(!builder::tag_conflict(self@, t));
                    builder::lemma_wf_add_tag(self@, t);
                }
                self.insert_child(ScopeId::Global, t, EntityId::Tag(t));
                proof {
                    builder::lemma_extends_trans(old(self)@, p1, self@);
                }
                Ok(())
            },
        }
    }

    /// Register a fresh list of tag names, left to right.
    #[verifier::loop_isolation(false)]
    fn add_tags_list(&mut self, v: &Vec<ast::Ident>) -> (r: Result<(), BuildError>)
        requires
            old(self).wf(),
        ensures
            match r {
                Ok(_) => builder::spec_add_tag_seq(old(self)@, v@) == Ok::<ProgramV, BuildError>(
                    final(self)@,
                ) && final(self).wf(),
                Err(e) => builder::spec_add_tag_seq(old(self)@, v@) == Err::<
                    ProgramV,
                    BuildError,
                >(e),
            },
            old(self)@.regions.len() <= final(self)@.regions.len(),
            builder::extends(old(self)@, final(self)@),
            r is Ok ==> builder::idents_interned(final(self)@, v@),
    {
        let ghost p0 = old(self)@;
        let mut idx: usize = 0;
        proof {
            assert(v@.skip(0) =~= v@);
            builder::lemma_extends_refl(p0);
        }
        while idx < v.len()
            invariant
                self.wf(),
                idx <= v@.len(),
                builder::spec_add_tag_seq(p0, v@) == builder::spec_add_tag_seq(
                    self@,
                    v@.skip(idx as int),
                ),
                p0.regions.len() <= self@.regions.len(),
                builder::extends(p0, self@),
                forall|k: int|
                    0 <= k < idx ==> #[trigger] builder::spec_convert_ident(self@, v@[k]) is Some,
            decreases v@.len() - idx,
        {
            let ghost pre = self@;
            let ghost tail = v@.skip(idx as int);
            proof {
                assert(tail[0] == v@[idx as int]);
                assert(tail.drop_first() =~= v@.skip(idx as int + 1));
            }
            match self.add_tag(&v[idx]) {
                Ok(_) => {
                    proof {
                        builder::lemma_extends_trans(p0, pre, self@);
                        assert forall|k: int| 0 <= k < idx + 1 implies #[trigger] builder::spec_convert_ident(
                            self@,
                            v@[k],
                        ) is Some by {
                            if k < idx {
                                assert(builder::spec_convert_ident(pre, v@[k]) is Some);
                                assert(pre.interned.dom().contains(v@[k].0@));
                            }
                        }
                    }
                },
                Err(e) => {
                    proof {
                        builder::lemma_extends_trans(p0, pre, self@);
                    }
                    return Err(e);
                },
            }
            idx = idx + 1;
        }
        proof {
            assert(v@.skip(v@.len() as int).len() == 0);
        }
        Ok(())
    }

    /// Register the tag names of an incremental list, left to right.
    #[verifier::loop_isolation(false)]
    fn add_tags_pairs(&mut self, v: &Vec<(bool, ast::Ident)>) -> (r: Result<(), BuildError>)
        requires
            old(self).wf(),
        ensures
            match r {
                Ok(_) => builder::spec_add_tag_pairs(old(self)@, v@) == Ok::<
                    ProgramV,
                    BuildError,
                >(final(self)@) && final(self).wf(),
                Err(e) => builder::spec_add_tag_pairs(old(self)@, v@) == Err::<
                    ProgramV,
                    BuildError,
                >(e),
            },
            old(self)@.regions.len() <= final(self)@.regions.len(),
            builder::extends(old(self)@, final(self)@),
    {
        let ghost p0 = old(self)@;
        let mut idx: usize = 0;
        proof {
            assert(v@.skip(0) =~= v@);
            builder::lemma_extends_refl(p0);
        }
        while idx < v.len()
            invariant
                self.wf(),
                idx <= v@.len(),
                builder::spec_add_tag_pairs(p0, v@) == builder::spec_add_tag_pairs(
                    self@,
                    v@.skip(idx as int),
                ),
                p0.regions.len() <= self@.regions.len(),
                builder::extends(p0, self@),
            decreases v@.len() - idx,
        {
            let ghost pre = self@;
            let ghost tail = v@.skip(idx as int);
            proof {
                assert(tail[0] == v@[idx as int]);
                assert(tail.drop_first() =~= v@.skip(idx as int + 1));
            }
            match self.add_tag(&v[idx].1) {
                Ok(_) => {
                    proof {
                        builder::lemma_extends_trans(p0, pre, self@);
                    }
                },
                Err(e) => {
                    proof {
                        builder::lemma_extends_trans(p0, pre, self@);
                    }
                    return Err(e);
                },
            }
            idx = idx + 1;
        }
        proof {
            assert(v@.skip(v@.len() as int).len() == 0);
        }
        Ok(())
    }

    /// Register every tag name a tag list mentions, in either of its forms.
    fn add_tag_vec(&mut self, tags: &ast::ModVec<ast::Ident>) -> (r: Result<(), BuildError>)
        requires
            old(self).wf(),
        ensures
            match r {
                Ok(_) => builder::spec_add_tag_vec(old(self)@, *tags) == Ok::<
                    ProgramV,
                    BuildError,
                >(final(self)@) && final(self).wf(),
                Err(e) => builder::spec_add_tag_vec(old(self)@, *tags) == Err::<
                    ProgramV,
                    BuildError,
                >(e),
            },
            old(self)@.regions.len() <= final(self)@.regions.len(),
            builder::extends(old(self)@, final(self)@),
    {
        match tags {
            ast::ModVec::New(v) => self.add_tags_list(v),
            ast::ModVec::Mod(v) => self.add_tags_pairs(v),
        }
    }

    /// Register the tags of an item's own direct statements; every other
    /// statement kind is put off until the second pass.
    #[verifier::loop_isolation(false)]
    fn item_tags(&mut self, stmts: &Vec<ast::Stmt>) -> (r: Result<(), BuildError>)
        requires
            old(self).wf(),
        ensures
            match r {
                Ok(_) => builder::spec_item_tags(old(self)@, stmts@) == Ok::<
                    ProgramV,
                    BuildError,
                >(final(self)@) && final(self).wf(),
                Err(e) => builder::spec_item_tags(old(self)@, stmts@) == Err::<
                    ProgramV,
                    BuildError,
                >(e),
            },
            old(self)@.regions.len() <= final(self)@.regions.len(),
            builder::extends(old(self)@, final(self)@),
    {
        let ghost p0 = old(self)@;
        let mut idx: usize = 0;
        proof {
            assert(stmts@.skip(0) =~= stmts@);
            builder::lemma_extends_refl(p0);
        }
        while idx < stmts.len()
            invariant
                self.wf(),
                idx <= stmts@.len(),
                builder::spec_item_tags(p0, stmts@) == builder::spec_item_tags(
                    self@,
                    stmts@.skip(idx as int),
                ),
                p0.regions.len() <= self@.regions.len(),
                builder::extends(p0, self@),
            decreases stmts@.len() - idx,
        {
            let ghost pre = self@;
            let ghost tail = stmts@.skip(idx as int);
            proof {
                assert(tail[0] == stmts@[idx as int]);
                assert(tail.drop_first() =~= stmts@.skip(idx as int + 1));
            }
            match &stmts[idx] {
                ast::Stmt::Prop(ast::Prop::Tag(tg)) => {
                    match self.add_tag_vec(&tg.tags) {
                        Ok(_) => {
                            proof {
                                builder::lemma_extends_trans(p0, pre, self@);
                            }
                        },
                        Err(e) => {
                            proof {
                                builder::lemma_extends_trans(p0, pre, self@);
                            }
                            return Err(e);
                        },
                    }
                },
                _ => {},
            }
            idx = idx + 1;
        }
        proof {
            assert(stmts@.skip(stmts@.len() as int).len() == 0);
        }
        Ok(())
    }

    /// The first pass over one item declaration: intern and validate its
    /// name, create the item with an empty tag set, bind it in the declaring
    /// scope, and register the tags of its own direct statements.
    fn add_item(&mut self, parent: ScopeId, item: &ast::Item) -> (r: Result<(), BuildError>)
        requires
            old(self).wf(),
            scope_valid(old(self)@, parent),
        ensures
            match r {
                Ok(_) => builder::spec_add_item(old(self)@, parent, *item) == Ok::<
                    ProgramV,
                    BuildError,
                >(final(self)@) && final(self).wf(),
                Err(e) => builder::spec_add_item(old(self)@, parent, *item) == Err::<
                    ProgramV,
                    BuildError,
                >(e),
            },
            old(self)@.regions.len() <= final(self)@.regions.len(),
            builder::extends(old(self)@, final(self)@),
            r is Ok ==> builder::item_done(final(self)@, parent, *item),
    {
        let n = self.add_name(&item.name);
        match self.validate_name_collisions(parent, n.ident) {
            Err(e) => {
                return Err(e);
            },
            Ok(_) => {},
        }
        let ghost p1 = self@;
        let ghost m0 = self.items;
        let nid = n.ident;
        let it = Item { parent, name: n, tags: Vec::new() };
        let ghost itg = it;
        let ghost itv = it@;
        let id = arena::item_arena_insert(&mut self.items, it);
        proof {
            lemma_item_view_after_insert(m0, self.items, id, itg);
        }
        proof {
            assert(id as nat == p1.items.len());
            assert(itv == (ItemV {
                parent,
                name: NameV { ident: nid, human: None },
                tags: idents_set(Seq::empty()),
            }));
            assert(idents_set(Seq::empty()) =~= Set::<Ident>::empty());
            assert(self@ =~= (ProgramV { items: p1.items.push(itv), ..p1 }));
        }
        let ghost p2 = self@;
        self.insert_child(parent, nid, EntityId::Item(Id(id)));
        proof {
            builder::lemma_wf_create_item(p1, parent, nid);
            assert(self@ =~= builder::spec_create_item(p1, parent, nid));
            assert(self.wf());
            builder::lemma_extends_create_item(p1, parent, nid);
            builder::lemma_extends_trans(old(self)@, p1, self@);
        }
        let ghost p3 = self@;
        proof {
            builder::lemma_bind_children(p2, parent, nid, EntityId::Item(Id(id)));
            assert(p3.interned == p1.interned);
            assert(builder::spec_lookup_own(p3, parent, item.name.ident) == Some(
                EntityId::Item(Id(id)),
            ));
            assert(builder::item_done(p3, parent, *item));
        }
        let r = self.item_tags(&item.stmts);
        proof {
            builder::lemma_extends_trans(old(self)@, p3, self@);
            if r is Ok {
                builder::lemma_item_done_mono(p3, self@, parent, *item);
            }
        }
        r
    }

    /// The first pass over one region declaration: intern and validate its
    /// name, create the region with no children, bind it in the declaring
    /// scope, and populate its own statements under the new scope.
    fn add_region(&mut self, parent: ScopeId, region: &ast::Region) -> (r: Result<(), BuildError>)
        requires
            old(self).wf(),
            scope_valid(old(self)@, parent),
        ensures
            match r {
                Ok(_) => builder::spec_add_region(old(self)@, parent, *region) == Ok::<
                    ProgramV,
                    BuildError,
                >(final(self)@) && final(self).wf(),
                Err(e) => builder::spec_add_region(old(self)@, parent, *region) == Err::<
                    ProgramV,
                    BuildError,
                >(e),
            },
            old(self)@.regions.len() <= final(self)@.regions.len(),
            builder::extends(old(self)@, final(self)@),
            r is Ok ==> builder::region_done(final(self)@, parent, *region),
        decreases *region,
    {
        let n = self.add_name(&region.name);
        match self.validate_name_collisions(parent, n.ident) {
            Err(e) => {
                return Err(e);
            },
            Ok(_) => {},
        }
        let ghost p1 = self@;
        let ghost m0 = self.regions;
        let nid = n.ident;
        let reg = Region { parent, name: n, children: Vec::new() };
        let ghost regg = reg;
        let ghost regv = reg@;
        let id = arena::region_arena_insert(&mut self.regions, reg);
        proof {
            lemma_region_view_after_insert(m0, self.regions, id, regg);
        }
        proof {
            assert(id as nat == p1.regions.len());
            assert(regv == (RegionV {
                parent,
                name: NameV { ident: nid, human: None },
                children: assoc_map(Seq::empty()),
            }));
            assert(assoc_map(Seq::empty()) =~= Map::<Ident, EntityId>::empty());
            assert(self@ =~= (ProgramV { regions: p1.regions.push(regv), ..p1 }));
        }
        let ghost p2 = self@;
        self.insert_child(parent, nid, EntityId::Region(Id(id)));
        proof {
            builder::lemma_wf_create_region(p1, parent, nid);
            assert(self@ =~= builder::spec_create_region(p1, parent, nid));
            assert(self.wf());
            builder::lemma_extends_create_region(p1, parent, nid);
            builder::lemma_extends_trans(old(self)@, p1, self@);
        }
        let ghost p3 = self@;
        proof {
            builder::lemma_bind_children(p2, parent, nid, EntityId::Region(Id(id)));
            assert(p3.interned == p1.interned);
            assert(builder::spec_lookup_own(p3, parent, region.name.ident) == Some(
                EntityId::Region(Id(id)),
            ));
        }
        let r = self.populate_scope(ScopeId::Region(Id(id)), &region.stmts);
        proof {
            builder::lemma_extends_trans(old(self)@, p3, self@);
            if r is Ok {
                builder::lemma_lookup_own_mono(p3, self@, parent, region.name.ident);
                assert(builder::region_done(self@, parent, *region));
            }
        }
        r
    }

    /// The first pass over a grouped-items declaration: the group's tag list
    /// must be in fresh form; its tags are registered, then its direct
    /// members, then its nested sub-groups.
    #[verifier::loop_isolation(false)]
    fn add_items(&mut self, parent: ScopeId, g: &ast::Items) -> (r: Result<(), BuildError>)
        requires
            old(self).wf(),
            scope_valid(old(self)@, parent),
        ensures
            match r {
                Ok(_) => builder::spec_add_items(old(self)@, parent, *g) == Ok::<
                    ProgramV,
                    BuildError,
                >(final(self)@) && final(self).wf(),
                Err(e) => builder::spec_add_items(old(self)@, parent, *g) == Err::<
                    ProgramV,
                    BuildError,
                >(e),
            },
            old(self)@.regions.len() <= final(self)@.regions.len(),
            builder::extends(old(self)@, final(self)@),
            r is Ok ==> builder::items_done(final(self)@, parent, *g),
        decreases *g,
    {
        let ghost p0 = old(self)@;
        proof {
            builder::lemma_extends_refl(p0);
        }
        match &g.tags {
            ast::ModVec::Mod(_) => Err(BuildError::Unsupported),
            ast::ModVec::New(v) => {
                match self.add_tags_list(v) {
                    Err(e) => {
                        return Err(e);
                    },
                    Ok(_) => {},
                }
                let ghost pt = self@;
                let mut idx: usize = 0;
                proof {
                    assert(g.items@.skip(0) =~= g.items@);
                    builder::lemma_extends_refl(pt);
                }
                while idx < g.items.len()
                    invariant
                        self.wf(),
                        idx <= g.items@.len(),
                        scope_valid(self@, parent),
                        builder::spec_add_items_members(pt, parent, g.items@)
                            == builder::spec_add_items_members(
                            self@,
                            parent,
                            g.items@.skip(idx as int),
                        ),
                        p0.regions.len() <= self@.regions.len(),
                        builder::extends(p0, self@),
                        builder::extends(pt, self@),
                        forall|k: int|
                            0 <= k < idx ==> #[trigger] builder::item_done(
                                self@,
                                parent,
                                g.items@[k],
                            ),
                    decreases g.items@.len() - idx,
                {
                    let ghost pre = self@;
                    let ghost tail = g.items@.skip(idx as int);
                    proof {
                        assert(tail[0] == g.items@[idx as int]);
                        assert(tail.drop_first() =~= g.items@.skip(idx as int + 1));
                    }
                    match self.add_item(parent, &g.items[idx]) {
                        Ok(_) => {
                            proof {
                                builder::lemma_extends_trans(p0, pre, self@);
                                builder::lemma_extends_trans(pt, pre, self@);
                                assert forall|k: int| 0 <= k < idx + 1 implies #[trigger] builder::item_done(
                                    self@,
                                    parent,
                                    g.items@[k],
                                ) by {
                                    if k < idx {
                                        builder::lemma_item_done_mono(
                                            pre,
                                            self@,
                                            parent,
                                            g.items@[k],
                                        );
                                    }
                                }
                            }
                        },
                        Err(e) => {
                            proof {
                                builder::lemma_extends_trans(p0, pre, self@);
                            }
                            return Err(e);
                        },
                    }
                    idx = idx + 1;
                }
                proof {
                    assert(g.items@.skip(g.items@.len() as int).len() == 0);
                }
                let ghost pm = self@;
                let mut jdx: usize = 0;
                proof {
                    assert(g.nested@.skip(0) =~= g.nested@);
                    builder::lemma_extends_refl(pm);
                }
                while jdx < g.nested.len()
                    invariant
                        self.wf(),
                        jdx <= g.nested@.len(),
                        scope_valid(self@, parent),
                        builder::spec_add_items_nested(pm, parent, g.nested@)
                            == builder::spec_add_items_nested(
                            self@,
                            parent,
                            g.nested@.skip(jdx as int),
                        ),
                        p0.regions.len() <= self@.regions.len(),
                        builder::extends(p0, self@),
                        builder::extends(pt, self@),
                        builder::extends(pm, self@),
                        forall|k: int|
                            0 <= k < jdx ==> #[trigger] builder::items_done(
                                self@,
                                parent,
                                g.nested@[k],
                            ),
                        forall|k: int|
                            0 <= k < g.items@.len() ==> #[trigger] builder::item_done(
                                self@,
                                parent,
                                g.items@[k],
                            ),
                    decreases g.nested@.len() - jdx,
                {
                    let ghost pre = self@;
                    let ghost tail = g.nested@.skip(jdx as int);
                    proof {
                        assert(tail[0] == g.nested@[jdx as int]);
                        assert(tail.drop_first() =~= g.nested@.skip(jdx as int + 1));
                    }
                    match self.add_items(parent, &g.nested[jdx]) {
                        Ok(_) => {
                            proof {
                                builder::lemma_extends_trans(p0, pre, self@);
                                builder::lemma_extends_trans(pt, pre, self@);
                                builder::lemma_extends_trans(pm, pre, self@);
                                assert forall|k: int| 0 <= k < jdx + 1 implies #[trigger] builder::items_done(
                                    self@,
                                    parent,
                                    g.nested@[k],
                                ) by {
                                    if k < jdx {
                                        builder::lemma_items_done_mono(
                                            pre,
                                            self@,
                                            parent,
                                            g.nested@[k],
                                        );
                                    }
                                }
                                assert forall|k: int| 0 <= k < g.items@.len() implies #[trigger] builder::item_done(
                                    self@,
                                    parent,
                                    g.items@[k],
                                ) by {
                                    builder::lemma_item_done_mono(pre, self@, parent, g.items@[k]);
                                }
                            }
                        },
                        Err(e) => {
                            proof {
                                builder::lemma_extends_trans(p0, pre, self@);
                            }
                            return Err(e);
                        },
                    }
                    jdx = jdx + 1;
                }
                proof {
                    assert(g.nested@.skip(g.nested@.len() as int).len() == 0);
                    assert forall|k: int| 0 <= k < v@.len() implies #[trigger] builder::spec_convert_ident(
                        self@,
                        v@[k],
                    ) is Some by {
                        assert(builder::spec_convert_ident(pt, v@[k]) is Some);
                        assert(pt.interned.dom().contains(v@[k].0@));
                    }
                    builder::lemma_nested_done_from_each(self@, parent, g.nested@);
                    assert(builder::items_done(self@, parent, *g));
                }
                Ok(())
            },
        }
    }

    /// The first pass over a scope's statements: load all the entities, so
    /// that name lookup becomes possible; tags are the only properties
    /// registered.
    #[verifier::loop_isolation(false)]
    fn populate_scope(&mut self, scope: ScopeId, stmts: &Vec<ast::Stmt>) -> (r: Result<
        (),
        BuildError,
    >)
        requires
            old(self).wf(),
            scope_valid(old(self)@, scope),
        ensures
            match r {
                Ok(_) => builder::spec_populate(old(self)@, scope, stmts@) == Ok::<
                    ProgramV,
                    BuildError,
                >(final(self)@) && final(self).wf() && scope_valid(final(self)@, scope),
                Err(e) => builder::spec_populate(old(self)@, scope, stmts@) == Err::<
                    ProgramV,
                    BuildError,
                >(e),
            },
            old(self)@.regions.len() <= final(self)@.regions.len(),
            builder::extends(old(self)@, final(self)@),
            r is Ok ==> builder::pass1_done(final(self)@, scope, stmts@),
        decreases stmts@,
    {
        let ghost p0 = old(self)@;
        let mut idx: usize = 0;
        proof {
            assert(stmts@.skip(0) =~= stmts@);
            builder::lemma_extends_refl(p0);
            assert(builder::pass1_done(self@, scope, stmts@.subrange(0, 0)));
        }
        while idx < stmts.len()
            invariant
                self.wf(),
                idx <= stmts@.len(),
                scope_valid(self@, scope),
                builder::spec_populate(p0, scope, stmts@) == builder::spec_populate(
                    self@,
                    scope,
                    stmts@.skip(idx as int),
                ),
                p0.regions.len() <= self@.regions.len(),
                builder::extends(p0, self@),
                builder::pass1_done(self@, scope, stmts@.subrange(0, idx as int)),
            decreases stmts@.len() - idx,
        {
            let ghost pre = self@;
            let ghost done = stmts@.subrange(0, idx as int);
            let ghost tail = stmts@.skip(idx as int);
            proof {
                assert(tail[0] == stmts@[idx as int]);
                assert(tail.drop_first() =~= stmts@.skip(idx as int + 1));
                assert(stmts@.subrange(0, idx + 1) =~= done.push(stmts@[idx as int]));
            }
            match &stmts[idx] {
                ast::Stmt::Decl(ast::Decl::Region(r)) => {
                    match self.add_region(scope, r) {
                        Ok(_) => {
                            proof {
                                builder::lemma_extends_trans(p0, pre, self@);
                                builder::lemma_pass1_done_mono(pre, self@, scope, done);
                                assert(builder::stmt1_done(self@, scope, stmts@[idx as int]));
                                builder::lemma_pass1_done_snoc(
                                    self@,
                                    scope,
                                    done,
                                    stmts@[idx as int],
                                );
                            }
                        },
                        Err(e) => {
                            proof {
                                builder::lemma_extends_trans(p0, pre, self@);
                            }
                            return Err(e);
                        },
                    }
                },
                ast::Stmt::Decl(ast::Decl::Item(it)) => {
                    match self.add_item(scope, it) {
                        Ok(_) => {
                            proof {
                                builder::lemma_extends_trans(p0, pre, self@);
                                builder::lemma_pass1_done_mono(pre, self@, scope, done);
                                assert(builder::stmt1_done(self@, scope, stmts@[idx as int]));
                                builder::lemma_pass1_done_snoc(
                                    self@,
                                    scope,
                                    done,
                                    stmts@[idx as int],
                                );
                            }
                        },
                        Err(e) => {
                            proof {
                                builder::lemma_extends_trans(p0, pre, self@);
                            }
                            return Err(e);
                        },
                    }
                },
                ast::Stmt::Decl(ast::Decl::Items(g)) => {
                    match self.add_items(scope, g) {
                        Ok(_) => {
                            proof {
                                builder::lemma_extends_trans(p0, pre, self@);
                                builder::lemma_pass1_done_mono(pre, self@, scope, done);
                                assert(builder::stmt1_done(self@, scope, stmts@[idx as int]));
                                builder::lemma_pass1_done_snoc(
                                    self@,
                                    scope,
                                    done,
                                    stmts@[idx as int],
                                );
                            }
                        },
                        Err(e) => {
                            proof {
                                builder::lemma_extends_trans(p0, pre, self@);
                            }
                            return Err(e);
                        },
                    }
                },
                ast::Stmt::Prop(ast::Prop::Tag(tg)) => {
                    match self.add_tag_vec(&tg.tags) {
                        Ok(_) => {
                            proof {
                                builder::lemma_extends_trans(p0, pre, self@);
                                builder::lemma_pass1_done_mono(pre, self@, scope, done);
                                assert(builder::stmt1_done(self@, scope, stmts@[idx as int]));
                                builder::lemma_pass1_done_snoc(
                                    self@,
                                    scope,
                                    done,
                                    stmts@[idx as int],
                                );
                            }
                        },
                        Err(e) => {
                            proof {
                                builder::lemma_extends_trans(p0, pre, self@);
                            }
                            return Err(e);
                        },
                    }
                },
                _ => {
                    return Err(BuildError::Unsupported);
                },
            }
            idx = idx + 1;
        }
        proof {
            assert(stmts@.skip(stmts@.len() as int).len() == 0);
            assert(stmts@.subrange(0, stmts@.len() as int) =~= stmts@);
        }
        Ok(())
    }
}

proof fn lemma_region_view_after_replace(
    m0: id_map::IdMap<Region>,
    m1: id_map::IdMap<Region>,
    id: usize,
    v: Region,
)
    requires
        arena::region_arena_inv(m0),
        forall|j: usize| #[trigger] arena::region_arena_of(m0).dom().contains(j) ==> j
            < arena::region_next_of(m0),
        id < arena::region_next_of(m0),
        arena::region_arena_of(m1) == arena::region_arena_of(m0).insert(id, v),
        arena::region_next_of(m1) == arena::region_next_of(m0),
    ensures
        arena::region_arena_inv(m1),
        forall|j: usize| #[trigger] arena::region_arena_of(m1).dom().contains(j) ==> j
            < arena::region_next_of(m1),
        Seq::new(
            arena::region_next_of(m1) as nat,
            |i: int| arena::region_arena_of(m1)[i as usize]@,
        ) == Seq::new(
            arena::region_next_of(m0) as nat,
            |i: int| arena::region_arena_of(m0)[i as usize]@,
        ).update(id as int, v@),
{
    let d0 = arena::region_arena_of(m0);
    let d1 = arena::region_arena_of(m1);
    let n = arena::region_next_of(m0);
    assert forall|j: usize| #[trigger] d1.dom().contains(j) implies j < n by {
        if j != id {
            assert(d0.dom().contains(j));
        }
    }
    assert(!d1.dom().contains(arena::region_next_of(m1)));
    assert(Seq::new(n as nat, |i: int| d1[i as usize]@) =~= Seq::new(
        n as nat,
        |i: int| d0[i as usize]@,
    ).update(id as int, v@)) by {
        assert forall|i: int| 0 <= i < n implies #[trigger] d1[i as usize]@ == (if i == id {
            v@
        } else {
            d0[i as usize]@
        }) by {
            if i != id {
                assert(d1[i as usize] == d0[i as usize]);
            }
        }
    }
}

proof fn lemma_item_view_after_replace(
    m0: id_map::IdMap<Item>,
    m1: id_map::IdMap<Item>,
    id: usize,
    v: Item,
)
    requires
        arena::item_arena_inv(m0),
        forall|j: usize| #[trigger] arena::item_arena_of(m0).dom().contains(j) ==> j
            < arena::item_next_of(m0),
        id < arena::item_next_of(m0),
        arena::item_arena_of(m1) == arena::item_arena_of(m0).insert(id, v),
        arena::item_next_of(m1) == arena::item_next_of(m0),
    ensures
        arena::item_arena_inv(m1),
        forall|j: usize| #[trigger] arena::item_arena_of(m1).dom().contains(j) ==> j
            < arena::item_next_of(m1),
        Seq::new(
            arena::item_next_of(m1) as nat,
            |i: int| arena::item_arena_of(m1)[i as usize]@,
        ) == Seq::new(
            arena::item_next_of(m0) as nat,
            |i: int| arena::item_arena_of(m0)[i as usize]@,
        ).update(id as int, v@),
{
    let d0 = arena::item_arena_of(m0);
    let d1 = arena::item_arena_of(m1);
    let n = arena::item_next_of(m0);
    assert forall|j: usize| #[trigger] d1.dom().contains(j) implies j < n by {
        if j != id {
            assert(d0.dom().contains(j));
        }
    }
    assert(!d1.dom().contains(arena::item_next_of(m1)));
    assert(Seq::new(n as nat, |i: int| d1[i as usize]@) =~= Seq::new(
        n as nat,
        |i: int| d0[i as usize]@,
    ).update(id as int, v@)) by {
        assert forall|i: int| 0 <= i < n implies #[trigger] d1[i as usize]@ == (if i == id {
            v@
        } else {
            d0[i as usize]@
        }) by {
            if i != id {
                assert(d1[i as usize] == d0[i as usize]);
            }
        }
    }
}

proof fn lemma_idents_push(s: Seq<Ident>, n: Ident)
    ensures
        idents_set(s.push(n)) == idents_set(s).insert(n),
{
    assert forall|x: Ident| #[trigger] idents_set(s.push(n)).contains(x) implies idents_set(
        s,
    ).insert(n).contains(x) by {
        let k = choose|k: int| 0 <= k < s.push(n).len() && s.push(n)[k] == x;
        if k < s.len() {
            assert(s[k] == x);
        }
    }
    assert forall|x: Ident| #[trigger] idents_set(s).insert(n).contains(x) implies idents_set(
        s.push(n),
    ).contains(x) by {
        if x == n {
            assert(s.push(n)[s.len() as int] == x);
        } else {
            let k = choose|k: int| 0 <= k < s.len() && s[k] == x;
            assert(s.push(n)[k] == x);
        }
    }
    assert(idents_set(s.push(n)) =~= idents_set(s).insert(n));
}

/// Copy an identifier list.
fn copy_idents(v: &Vec<Ident>) -> (r: Vec<Ident>)
    ensures
        r@ == v@,
{
    let mut out: Vec<Ident> = Vec::new();
    let mut k: usize = 0;
    while k < v.len()
        invariant
            k <= v@.len(),
            out@ == v@.subrange(0, k as int),
        decreases v@.len() - k,
    {
        out.push(v[k]);
        proof {
            assert(v@.subrange(0, k + 1) =~= v@.subrange(0, k as int).push(v@[k as int]));
        }
        k = k + 1;
    }
    proof {
        assert(v@.subrange(0, v@.len() as int) =~= v@);
    }
    out
}

impl Program {
    /// Convert a raw identifier to its handle; in the second pass every
    /// name in reach was interned by the first.
    fn convert_ident(&self, i: &ast::Ident) -> (r: Option<Ident>)
        ensures
            r == builder::spec_convert_ident(self@, *i),
    {
        match intern::intern_get(&self.idents, i.0.as_str()) {
            Some(u) => Some(Ident(u)),
            None => None,
        }
    }

    /// Resolve a declared name strictly among a scope's own children.
    fn lookup_ast(&self, scope: ScopeId, ident: &ast::Ident) -> (r: Option<EntityId>)
        requires
            self.wf(),
        ensures
            r == builder::spec_lookup_own(self@, scope, *ident),
    {
        match self.convert_ident(ident) {
            None => None,
            Some(n) => match scope {
                ScopeId::Global => {
                    proof {
                        lemma_assoc_map_get(self.global_decls@, n);
                    }
                    assoc_lookup(&self.global_decls, n)
                },
                ScopeId::Region(rid) => match arena::region_arena_get(&self.regions, rid.0) {
                    Some(reg) => {
                        proof {
                            assert(reg@ == self@.regions[rid.0 as int]);
                            lemma_assoc_map_get(reg.children@, n);
                        }
                        assoc_lookup(&reg.children, n)
                    },
                    None => None,
                },
            },
        }
    }

    /// The second pass over one item: set its human name and its final tag
    /// set, the set accumulated from its enclosing groups.
    fn build_item(&mut self, item_id: Id, input: &ast::Item, tags: Vec<Ident>) -> (r: Result<
        (),
        BuildError,
    >)
        requires
            old(self).wf(),
            item_id.0 < old(self)@.items.len(),
        ensures
            r is Ok,
            final(self)@ == builder::spec_build_item(
                old(self)@,
                item_id.0 as int,
                *input,
                idents_set(tags@),
            ),
            final(self).wf(),
            builder::extends(old(self)@, final(self)@),
            builder::extends(final(self)@, old(self)@),
    {
        let ghost p0 = self@;
        let ghost m0 = self.items;
        let ghost tags_v = tags@;
        let dummy = Item {
            parent: ScopeId::Global,
            name: Name { ident: Ident(0), human: None },
            tags: Vec::new(),
        };
        let got = arena::item_arena_replace(&mut self.items, item_id.0, dummy);
        let it = match got {
            Some(x) => x,
            None => {
                proof {
                    assert(false);
                }
                Item {
                    parent: ScopeId::Global,
                    name: Name { ident: Ident(0), human: None },
                    tags: Vec::new(),
                }
            },
        };
        let human = match &input.name.human {
            Option::None => Option::None,
            Option::Some(h) => Option::Some(h.clone()),
        };
        let finished = Item {
            parent: it.parent,
            name: Name { ident: it.name.ident, human },
            tags,
        };
        let ghost fin_g = finished;
        let _ = arena::item_arena_replace(&mut self.items, item_id.0, finished);
        proof {
            assert(arena::item_arena_of(self.items) =~= arena::item_arena_of(m0).insert(
                item_id.0,
                fin_g,
            ));
            lemma_item_view_after_replace(m0, self.items, item_id.0, fin_g);
            assert(fin_g@ == (ItemV {
                parent: p0.items[item_id.0 as int].parent,
                name: NameV {
                    ident: p0.items[item_id.0 as int].name.ident,
                    human: builder::opt_str_view(input.name.human),
                },
                tags: idents_set(tags_v),
            }));
            assert(self@ =~= builder::spec_build_item(
                p0,
                item_id.0 as int,
                *input,
                idents_set(tags_v),
            ));
            builder::lemma_wf_build_item(p0, item_id.0 as int, *input, idents_set(tags_v));
            builder::lemma_extends_build_item(p0, item_id.0 as int, *input, idents_set(tags_v));
        }
        Ok(())
    }

    /// The second pass over one region declaration: re-walk its body under
    /// its own scope, then set its human name.
    fn build_region(&mut self, region_id: Id, input: &ast::Region) -> (r: Result<(), BuildError>)
        requires
            old(self).wf(),
            region_id.0 < old(self)@.regions.len(),
            builder::pass1_done(old(self)@, ScopeId::Region(region_id), input.stmts@),
        ensures
            r is Ok,
            match r {
                Ok(_) => builder::spec_build_region(old(self)@, region_id, *input) == Ok::<
                    ProgramV,
                    BuildError,
                >(final(self)@) && final(self).wf(),
                Err(e) => builder::spec_build_region(old(self)@, region_id, *input) == Err::<
                    ProgramV,
                    BuildError,
                >(e),
            },
            builder::extends(old(self)@, final(self)@),
            builder::extends(final(self)@, old(self)@),
        decreases *input,
    {
        match self.build_scope(ScopeId::Region(region_id), &input.stmts) {
            Err(e) => {
                proof {
                    assert(false);
                }
                return Err(e);
            },
            Ok(_) => {},
        }
        let ghost p1 = self@;
        let ghost m0 = self.regions;
        let n = arena::region_arena_next(&self.regions);
        if region_id.0 >= n {
            proof {
                assert(false);
            }
            return Err(BuildError::MissingEntity);
        }
        let dummy = Region {
            parent: ScopeId::Global,
            name: Name { ident: Ident(0), human: None },
            children: Vec::new(),
        };
        let got = arena::region_arena_replace(&mut self.regions, region_id.0, dummy);
        let reg = match got {
            Some(x) => x,
            None => {
                proof {
                    assert(false);
                }
                Region {
                    parent: ScopeId::Global,
                    name: Name { ident: Ident(0), human: None },
                    children: Vec::new(),
                }
            },
        };
        let human = match &input.name.human {
            Option::None => Option::None,
            Option::Some(h) => Option::Some(h.clone()),
        };
        let named = Region {
            parent: reg.parent,
            name: Name { ident: reg.name.ident, human },
            children: reg.children,
        };
        let ghost named_g = named;
        let _ = arena::region_arena_replace(&mut self.regions, region_id.0, named);
        proof {
            assert(arena::region_arena_of(self.regions) =~= arena::region_arena_of(m0).insert(
                region_id.0,
                named_g,
            ));
            lemma_region_view_after_replace(m0, self.regions, region_id.0, named_g);
            assert(named_g@ == (RegionV {
                parent: p1.regions[region_id.0 as int].parent,
                name: NameV {
                    ident: p1.regions[region_id.0 as int].name.ident,
                    human: builder::opt_str_view(input.name.human),
                },
                children: p1.regions[region_id.0 as int].children,
            }));
            assert(self@ =~= builder::spec_set_region_human(
                p1,
                region_id.0 as int,
                builder::opt_str_view(input.name.human),
            ));
            builder::lemma_wf_set_region_human(
                p1,
                region_id.0 as int,
                builder::opt_str_view(input.name.human),
            );
            builder::lemma_extends_set_human(
                p1,
                region_id.0 as int,
                builder::opt_str_view(input.name.human),
            );
            builder::lemma_extends_trans(old(self)@, p1, self@);
            builder::lemma_extends_trans(self@, p1, old(self)@);
        }
        Ok(())
    }

    /// The second pass over a grouped-items declaration: extend a copy of
    /// the accumulated tag set with the group's own tags, then build the
    /// nested sub-groups, then the direct members.
    #[verifier::loop_isolation(false)]
    fn build_items(&mut self, g: &ast::Items, scope: ScopeId, tags: &Vec<Ident>) -> (r: Result<
        (),
        BuildError,
    >)
        requires
            old(self).wf(),
            builder::items_done(old(self)@, scope, *g),
        ensures
            r is Ok,
            match r {
                Ok(_) => builder::spec_build_items(old(self)@, *g, scope, idents_set(tags@))
                    == Ok::<ProgramV, BuildError>(final(self)@) && final(self).wf(),
                Err(e) => builder::spec_build_items(old(self)@, *g, scope, idents_set(tags@))
                    == Err::<ProgramV, BuildError>(e),
            },
            builder::extends(old(self)@, final(self)@),
            builder::extends(final(self)@, old(self)@),
        decreases *g,
    {
        let ghost p0 = old(self)@;
        proof {
            builder::lemma_extends_refl(p0);
        }
        match &g.tags {
            ast::ModVec::Mod(_) => {
                proof {
                    assert(false);
                }
                Err(BuildError::Unsupported)
            },
            ast::ModVec::New(t) => {
                let mut tags2 = copy_idents(tags);
                let mut k: usize = 0;
                proof {
                    assert(t@.skip(0) =~= t@);
                }
                while k < t.len()
                    invariant
                        k <= t@.len(),
                        builder::spec_extend_tags(p0, idents_set(tags@), t@)
                            == builder::spec_extend_tags(
                            p0,
                            idents_set(tags2@),
                            t@.skip(k as int),
                        ),
                    decreases t@.len() - k,
                {
                    let ghost tail = t@.skip(k as int);
                    proof {
                        assert(tail[0] == t@[k as int]);
                        assert(tail.drop_first() =~= t@.skip(k as int + 1));
                    }
                    match self.convert_ident(&t[k]) {
                        None => {
                            proof {
                                assert(builder::spec_convert_ident(p0, t@[k as int]) is Some);
                                assert(false);
                            }
                            return Err(BuildError::MissingEntity);
                        },
                        Some(n) => {
                            proof {
                                lemma_idents_push(tags2@, n);
                            }
                            tags2.push(n);
                        },
                    }
                    k = k + 1;
                }
                proof {
                    assert(t@.skip(t@.len() as int).len() == 0);
                }
                let ghost tags2_set = idents_set(tags2@);
                let ghost pt = self@;
                let mut jdx: usize = 0;
                proof {
                    assert(g.nested@.skip(0) =~= g.nested@);
                }
                while jdx < g.nested.len()
                    invariant
                        self.wf(),
                        jdx <= g.nested@.len(),
                        builder::spec_build_items_nested(pt, g.nested@, scope, tags2_set)
                            == builder::spec_build_items_nested(
                            self@,
                            g.nested@.skip(jdx as int),
                            scope,
                            tags2_set,
                        ),
                        builder::extends(p0, self@),
                        builder::extends(self@, p0),
                    decreases g.nested@.len() - jdx,
                {
                    let ghost pre = self@;
                    let ghost tail = g.nested@.skip(jdx as int);
                    proof {
                        assert(tail[0] == g.nested@[jdx as int]);
                        assert(tail.drop_first() =~= g.nested@.skip(jdx as int + 1));
                        builder::lemma_nested_done_at(p0, scope, g.nested@, jdx as int);
                        builder::lemma_items_done_mono(p0, pre, scope, g.nested@[jdx as int]);
                    }
                    match self.build_items(&g.nested[jdx], scope, &tags2) {
                        Ok(_) => {
                            proof {
                                builder::lemma_extends_trans(p0, pre, self@);
                                builder::lemma_extends_trans(self@, pre, p0);
                            }
                        },
                        Err(e) => {
                            proof {
                                assert(false);
                            }
                            return Err(e);
                        },
                    }
                    jdx = jdx + 1;
                }
                proof {
                    assert(g.nested@.skip(g.nested@.len() as int).len() == 0);
                }
                let ghost pm = self@;
                let mut idx: usize = 0;
                proof {
                    assert(g.items@.skip(0) =~= g.items@);
                }
                while idx < g.items.len()
                    invariant
                        self.wf(),
                        idx <= g.items@.len(),
                        builder::spec_build_items_members(pm, g.items@, scope, tags2_set)
                            == builder::spec_build_items_members(
                            self@,
                            g.items@.skip(idx as int),
                            scope,
                            tags2_set,
                        ),
                        builder::extends(p0, self@),
                        builder::extends(self@, p0),
                    decreases g.items@.len() - idx,
                {
                    let ghost pre = self@;
                    let ghost tail = g.items@.skip(idx as int);
                    proof {
                        assert(tail[0] == g.items@[idx as int]);
                        assert(tail.drop_first() =~= g.items@.skip(idx as int + 1));
                        assert(builder::item_done(p0, scope, g.items@[idx as int]));
                        builder::lemma_item_done_mono(p0, pre, scope, g.items@[idx as int]);
                    }
                    match self.lookup_ast(scope, &g.items[idx].name.ident) {
                        Some(EntityId::Item(iid)) => {
                            match arena::item_arena_get(&self.items, iid.0) {
                                Some(_) => {},
                                None => {
                                    proof {
                                        assert(false);
                                    }
                                    return Err(BuildError::MissingEntity);
                                },
                            }
                            match self.build_item(iid, &g.items[idx], copy_idents(&tags2)) {
                                Ok(_) => {
                                    proof {
                                        builder::lemma_extends_trans(p0, pre, self@);
                                        builder::lemma_extends_trans(self@, pre, p0);
                                    }
                                },
                                Err(e) => {
                                    proof {
                                        assert(false);
                                    }
                                    return Err(e);
                                },
                            }
                        },
                        _ => {
                            proof {
                                assert(false);
                            }
                            return Err(BuildError::MissingEntity);
                        },
                    }
                    idx = idx + 1;
                }
                proof {
                    assert(g.items@.skip(g.items@.len() as int).len() == 0);
                }
                Ok(())
            },
        }
    }

    /// The second pass over a scope's statements: resolve each fresh
    /// declaration to the entity the first pass created, and finish it.
    #[verifier::loop_isolation(false)]
    fn build_scope(&mut self, scope: ScopeId, stmts: &Vec<ast::Stmt>) -> (r: Result<
        (),
        BuildError,
    >)
        requires
            old(self).wf(),
            builder::pass1_done(old(self)@, scope, stmts@),
        ensures
            r is Ok,
            match r {
                Ok(_) => builder::spec_build_scope(old(self)@, scope, stmts@) == Ok::<
                    ProgramV,
                    BuildError,
                >(final(self)@) && final(self).wf(),
                Err(e) => builder::spec_build_scope(old(self)@, scope, stmts@) == Err::<
                    ProgramV,
                    BuildError,
                >(e),
            },
            builder::extends(old(self)@, final(self)@),
            builder::extends(final(self)@, old(self)@),
        decreases stmts@,
    {
        let ghost p0 = old(self)@;
        let mut idx: usize = 0;
        proof {
            assert(stmts@.skip(0) =~= stmts@);
            builder::lemma_extends_refl(p0);
        }
        while idx < stmts.len()
            invariant
                self.wf(),
                idx <= stmts@.len(),
                builder::spec_build_scope(p0, scope, stmts@) == builder::spec_build_scope(
                    self@,
                    scope,
                    stmts@.skip(idx as int),
                ),
                builder::extends(p0, self@),
                builder::extends(self@, p0),
            decreases stmts@.len() - idx,
        {
            let ghost pre = self@;
            let ghost tail = stmts@.skip(idx as int);
            proof {
                assert(tail[0] == stmts@[idx as int]);
                assert(tail.drop_first() =~= stmts@.skip(idx as int + 1));
                builder::lemma_pass1_done_at(p0, scope, stmts@, idx as int);
                builder::lemma_stmt1_done_mono(p0, pre, scope, stmts@[idx as int]);
            }
            match &stmts[idx] {
                ast::Stmt::Decl(ast::Decl::Region(reg)) => {
                    proof {
                        assert(builder::region_done(pre, scope, *reg));
                    }
                    match self.lookup_ast(scope, &reg.name.ident) {
                        Some(EntityId::Region(rid)) => {
                            match self.build_region(rid, reg) {
                                Ok(_) => {
                                    proof {
                                        builder::lemma_extends_trans(p0, pre, self@);
                                        builder::lemma_extends_trans(self@, pre, p0);
                                    }
                                },
                                Err(e) => {
                                    proof {
                                        assert(false);
                                    }
                                    return Err(e);
                                },
                            }
                        },
                        _ => {
                            proof {
                                assert(false);
                            }
                            return Err(BuildError::MissingEntity);
                        },
                    }
                },
                ast::Stmt::Decl(ast::Decl::Item(it)) => {
                    proof {
                        assert(builder::item_done(pre, scope, *it));
                    }
                    match self.lookup_ast(scope, &it.name.ident) {
                        Some(EntityId::Item(iid)) => {
                            match arena::item_arena_get(&self.items, iid.0) {
                                Some(_) => {},
                                None => {
                                    proof {
                                        assert(false);
                                    }
                                    return Err(BuildError::MissingEntity);
                                },
                            }
                            match self.build_item(iid, it, Vec::new()) {
                                Ok(_) => {
                                    proof {
                                        builder::lemma_extends_trans(p0, pre, self@);
                                        builder::lemma_extends_trans(self@, pre, p0);
                                    }
                                },
                                Err(e) => {
                                    proof {
                                        assert(false);
                                    }
                                    return Err(e);
                                },
                            }
                            proof {
                                assert(idents_set(Seq::<Ident>::empty()) =~= Set::<
                                    Ident,
                                >::empty());
                            }
                        },
                        _ => {
                            proof {
                                assert(false);
                            }
                            return Err(BuildError::MissingEntity);
                        },
                    }
                },
                ast::Stmt::Decl(ast::Decl::Items(g)) => {
                    proof {
                        assert(builder::items_done(pre, scope, *g));
                    }
                    let empty_tags: Vec<Ident> = Vec::new();
                    proof {
                        assert(idents_set(Seq::<Ident>::empty()) =~= Set::<Ident>::empty());
                    }
                    match self.build_items(g, scope, &empty_tags) {
                        Ok(_) => {
                            proof {
                                builder::lemma_extends_trans(p0, pre, self@);
                                builder::lemma_extends_trans(self@, pre, p0);
                            }
                        },
                        Err(e) => {
                            proof {
                                assert(false);
                            }
                            return Err(e);
                        },
                    }
                },
                ast::Stmt::Prop(ast::Prop::Tag(_)) => {},
                _ => {
                    proof {
                        assert(false);
                    }
                    return Err(BuildError::Unsupported);
                },
            }
            idx = idx + 1;
        }
        proof {
            assert(stmts@.skip(stmts@.len() as int).len() == 0);
        }
        Ok(())
    }

    /// Construct a program from a parsed file: the first pass creates every
    /// entity and registers every tag, enforcing the scoping and collision
    /// rules; the second fills in human names and tag sets. A failed build
    /// returns the first error and no program; every failure is a
    /// first-pass failure, since the second pass is proved to find
    /// everything the first created.
    pub fn from_ast(file: ast::File) -> (r: Result<Program, BuildError>)
        ensures
            match r {
                Ok(p) => builder::spec_build(file) == Ok::<ProgramV, BuildError>(p@) && p.wf(),
                Err(e) => builder::spec_build(file) == Err::<ProgramV, BuildError>(e),
            },
            r is Err ==> builder::spec_populate(
                ProgramV::empty(),
                ScopeId::Global,
                file.stmts@,
            ) == Err::<ProgramV, BuildError>(r->Err_0),
    {
        let mut p = Program::default();
        match p.populate_scope(ScopeId::Global, &file.stmts) {
            Err(e) => {
                return Err(e);
            },
            Ok(_) => {},
        }
        match p.build_scope(ScopeId::Global, &file.stmts) {
            Err(e) => {
                proof {
                    assert(false);
                }
                Err(e)
            },
            Ok(_) => Ok(p),
        }
    }
}

/// Look an identifier up in an association list, first match wins.
fn assoc_lookup(v: &Vec<(Ident, EntityId)>, i: Ident) -> (r: Option<EntityId>)
    ensures
        r == assoc_get(v@, i),
{
    proof {
        assert(v@.skip(0) =~= v@);
    }
    let mut k: usize = 0;
    while k < v.len()
        invariant
            k <= v@.len(),
            assoc_get(v@, i) == assoc_get(v@.skip(k as int), i),
        decreases v@.len() - k,
    {
        let ghost tail = v@.skip(k as int);
        proof {
            assert(tail[0] == v@[k as int]);
            assert(tail.drop_first() =~= v@.skip(k + 1));
        }
        if v[k].0 == i {
            return Some(v[k].1);
        }
        k = k + 1;
    }
    proof {
        assert(v@.skip(v@.len() as int).len() == 0);
    }
    None
}

/// Decide whether an identifier list contains an identifier.
fn idents_contain(v: &Vec<Ident>, i: Ident) -> (r: bool)
    ensures
        r == idents_set(v@).contains(i),
{
    let mut k: usize = 0;
    while k < v.len()
        invariant
            k <= v@.len(),
            forall|m: int| 0 <= m < k ==> v@[m] != i,
        decreases v@.len() - k,
    {
        if v[k] == i {
            proof {
                assert(v@.contains(i));
            }
            return true;
        }
        k = k + 1;
    }
    proof {
        assert(!v@.contains(i));
    }
    false
}

} // verus!
