//! The program builder: a two-pass walk over a parsed file that populates a
//! [Program](crate::Program) with its regions, items and tags, enforcing the
//! scoping and collision rules.
//!
//! The first pass creates every entity and registers every tag, so that
//! names become forward-referenceable; the second pass fills in the
//! human-readable names and the accumulated tag sets. Each pass is specified
//! by a spec-level walk over the same statements, and the executable passes
//! are proved to compute exactly what those walks say.

use crate::ast;
use crate::{
    abs_wf, entity_ok, scope_children, scope_valid, spec_entity_parent, spec_lookup, BuildError,
    EntityId, Id, Ident, ItemV, NameV, ProgramV, RegionV, ScopeId,
};
use vstd::prelude::*;

verus! {

broadcast use vstd::seq::group_seq_axioms;

/// The program after interning a text: unchanged if the text is known, else
/// extended with the next fresh handle.
pub open spec fn spec_intern_p(p: ProgramV, s: Seq<char>) -> ProgramV {
    if p.interned.dom().contains(s) {
        p
    } else {
        ProgramV {
            interned: p.interned.insert(s, p.n_idents as usize),
            n_idents: p.n_idents + 1,
            ..p
        }
    }
}

/// The handle a text interns to: its existing handle, or the next fresh one.
pub open spec fn spec_intern_id(p: ProgramV, s: Seq<char>) -> Ident {
    if p.interned.dom().contains(s) {
        Ident(p.interned[s])
    } else {
        Ident(p.n_idents as usize)
    }
}

/// What collision validation yields for declaring an identifier in a scope:
/// nothing if the name is unbound all the way up the scope chain; otherwise
/// the same-scope error if the binding found was declared in this very
/// scope, and the shadowing error if it sits in a higher one.
pub open spec fn spec_validate(p: ProgramV, scope: ScopeId, n: Ident) -> Option<BuildError> {
    match spec_lookup(p, scope, n) {
        None => None,
        Some(e) => if spec_entity_parent(p, e) == scope {
            Some(BuildError::AlreadyDeclared)
        } else {
            Some(BuildError::Shadows)
        },
    }
}

/// The program with one binding added to a scope's children.
pub open spec fn spec_bind(p: ProgramV, s: ScopeId, i: Ident, e: EntityId) -> ProgramV {
    match s {
        ScopeId::Global => ProgramV { global: p.global.insert(i, e), ..p },
        ScopeId::Region(rid) => ProgramV {
            regions: p.regions.update(
                rid.0 as int,
                RegionV {
                    children: p.regions[rid.0 as int].children.insert(i, e),
                    ..p.regions[rid.0 as int]
                },
            ),
            ..p
        },
    }
}

/// Whether a tag identifier collides with an entity: some scope anywhere in
/// the program binds the identifier, other than the global scope binding it
/// to the identical tag.
pub open spec fn tag_conflict(p: ProgramV, t: Ident) -> bool {
    ||| (p.global.dom().contains(t) && p.global[t] != EntityId::Tag(t))
    ||| exists|r: int|
        0 <= r < p.regions.len() && #[trigger] p.regions[r].children.dom().contains(t)
}

/// What registering a tag identifier yields: nothing to do if the identical
/// tag is already registered; an error if any entity anywhere carries the
/// name; otherwise the tag is bound in the global name table, wherever in
/// the source it was declared.
pub open spec fn spec_add_tag_ident(p: ProgramV, t: Ident) -> Result<ProgramV, BuildError> {
    if p.global.dom().contains(t) && p.global[t] == EntityId::Tag(t) {
        Ok(p)
    } else if tag_conflict(p, t) {
        Err(BuildError::TagCollision)
    } else {
        Ok(spec_bind(p, ScopeId::Global, t, EntityId::Tag(t)))
    }
}

/// What registering one raw tag name yields: its text is interned, then the
/// tag is registered.
pub open spec fn spec_add_tag(p: ProgramV, tag: ast::Ident) -> Result<ProgramV, BuildError> {
    spec_add_tag_ident(spec_intern_p(p, tag.0@), spec_intern_id(p, tag.0@))
}

/// Registering a fresh list of tag names, left to right.
pub open spec fn spec_add_tag_seq(p: ProgramV, tags: Seq<ast::Ident>) -> Result<
    ProgramV,
    BuildError,
>
    decreases tags.len(),
{
    if tags.len() == 0 {
        Ok(p)
    } else {
        match spec_add_tag(p, tags[0]) {
            Ok(p1) => spec_add_tag_seq(p1, tags.drop_first()),
            Err(e) => Err(e),
        }
    }
}

/// Registering the tag names of an incremental list, left to right: every
/// name mentioned is registered, whether the entry adds or removes it.
pub open spec fn spec_add_tag_pairs(p: ProgramV, tags: Seq<(bool, ast::Ident)>) -> Result<
    ProgramV,
    BuildError,
>
    decreases tags.len(),
{
    if tags.len() == 0 {
        Ok(p)
    } else {
        match spec_add_tag(p, tags[0].1) {
            Ok(p1) => spec_add_tag_pairs(p1, tags.drop_first()),
            Err(e) => Err(e),
        }
    }
}

/// Registering every tag name a tag list mentions.
pub open spec fn spec_add_tag_vec(p: ProgramV, tags: ast::ModVec<ast::Ident>) -> Result<
    ProgramV,
    BuildError,
> {
    match tags {
        ast::ModVec::New(v) => spec_add_tag_seq(p, v@),
        ast::ModVec::Mod(v) => spec_add_tag_pairs(p, v@),
    }
}

/// Registering the tags of an item's own direct statements: only tag
/// properties act in the first pass; every other statement of the item is
/// put off until the second.
pub open spec fn spec_item_tags(p: ProgramV, stmts: Seq<ast::Stmt>) -> Result<
    ProgramV,
    BuildError,
>
    decreases stmts.len(),
{
    if stmts.len() == 0 {
        Ok(p)
    } else {
        match stmts[0] {
            ast::Stmt::Prop(ast::Prop::Tag(tg)) => match spec_add_tag_vec(p, tg.tags) {
                Ok(p1) => spec_item_tags(p1, stmts.drop_first()),
                Err(e) => Err(e),
            },
            _ => spec_item_tags(p, stmts.drop_first()),
        }
    }
}

/// The program with a fresh region created in a scope under an interned
/// name and bound there: the region starts with no children and no human
/// name, and its id is the next region id.
pub open spec fn spec_create_region(p: ProgramV, scope: ScopeId, n: Ident) -> ProgramV {
    spec_bind(
        ProgramV {
            regions: p.regions.push(
                RegionV {
                    parent: scope,
                    name: NameV { ident: n, human: None },
                    children: Map::empty(),
                },
            ),
            ..p
        },
        scope,
        n,
        EntityId::Region(Id(p.regions.len() as usize)),
    )
}

/// The program with a fresh item created in a scope under an interned name
/// and bound there: the item starts with an empty tag set and no human
/// name, and its id is the next item id.
pub open spec fn spec_create_item(p: ProgramV, scope: ScopeId, n: Ident) -> ProgramV {
    spec_bind(
        ProgramV {
            items: p.items.push(
                ItemV { parent: scope, name: NameV { ident: n, human: None }, tags: Set::empty() },
            ),
            ..p
        },
        scope,
        n,
        EntityId::Item(Id(p.items.len() as usize)),
    )
}

/// What the first pass does with one item declaration: intern its name,
/// validate it against the declaring scope, create the item with an empty
/// tag set, bind it, and register the tags of its own direct statements.
pub open spec fn spec_add_item(p: ProgramV, scope: ScopeId, item: ast::Item) -> Result<
    ProgramV,
    BuildError,
> {
    let p1 = spec_intern_p(p, item.name.ident.0@);
    let n = spec_intern_id(p, item.name.ident.0@);
    match spec_validate(p1, scope, n) {
        Some(e) => Err(e),
        None => spec_item_tags(spec_create_item(p1, scope, n), item.stmts@),
    }
}

/// What the first pass does with one region declaration: intern its name,
/// validate it, create the region with no children yet, bind it in the
/// declaring scope, and populate its own statements under the new scope.
pub open spec fn spec_add_region(p: ProgramV, scope: ScopeId, region: ast::Region) -> Result<
    ProgramV,
    BuildError,
>
    decreases region,
{
    let p1 = spec_intern_p(p, region.name.ident.0@);
    let n = spec_intern_id(p, region.name.ident.0@);
    match spec_validate(p1, scope, n) {
        Some(e) => Err(e),
        None => spec_populate(
            spec_create_region(p1, scope, n),
            ScopeId::Region(Id(p1.regions.len() as usize)),
            region.stmts@,
        ),
    }
}

/// What the first pass does with a grouped-items declaration: the group's
/// tag list must be in fresh form, since an incremental list has no base to
/// diff against during population; its tags are registered, then its direct
/// members, then its nested sub-groups.
pub open spec fn spec_add_items(p: ProgramV, scope: ScopeId, g: ast::Items) -> Result<
    ProgramV,
    BuildError,
>
    decreases g,
{
    match g.tags {
        ast::ModVec::Mod(_) => Err(BuildError::Unsupported),
        ast::ModVec::New(v) => match spec_add_tag_seq(p, v@) {
            Err(e) => Err(e),
            Ok(p1) => match spec_add_items_members(p1, scope, g.items@) {
                Err(e) => Err(e),
                Ok(p2) => spec_add_items_nested(p2, scope, g.nested@),
            },
        },
    }
}

/// The first pass over a group's direct members, left to right.
pub open spec fn spec_add_items_members(p: ProgramV, scope: ScopeId, v: Seq<ast::Item>) -> Result<
    ProgramV,
    BuildError,
>
    decreases v.len(),
{
    if v.len() == 0 {
        Ok(p)
    } else {
        match spec_add_item(p, scope, v[0]) {
            Ok(p1) => spec_add_items_members(p1, scope, v.drop_first()),
            Err(e) => Err(e),
        }
    }
}

/// The first pass over a group's nested sub-groups, left to right.
pub open spec fn spec_add_items_nested(p: ProgramV, scope: ScopeId, v: Seq<ast::Items>) -> Result<
    ProgramV,
    BuildError,
>
    decreases v,
{
    if v.len() == 0 {
        Ok(p)
    } else {
        match spec_add_items(p, scope, v[0]) {
            Ok(p1) => spec_add_items_nested(p1, scope, v.drop_first()),
            Err(e) => Err(e),
        }
    }
}

/// The first pass over a scope's statements: fresh region, item and grouped
/// item declarations create their entities, tag properties register their
/// tags so they become forward-referenceable from anywhere in the file, and
/// any other statement kind is unsupported.
pub open spec fn spec_populate(p: ProgramV, scope: ScopeId, stmts: Seq<ast::Stmt>) -> Result<
    ProgramV,
    BuildError,
>
    decreases stmts,
{
    if stmts.len() == 0 {
        Ok(p)
    } else {
        let rest = stmts.drop_first();
        match stmts[0] {
            ast::Stmt::Decl(ast::Decl::Region(r)) => match spec_add_region(p, scope, r) {
                Ok(p1) => spec_populate(p1, scope, rest),
                Err(e) => Err(e),
            },
            ast::Stmt::Decl(ast::Decl::Item(it)) => match spec_add_item(p, scope, it) {
                Ok(p1) => spec_populate(p1, scope, rest),
                Err(e) => Err(e),
            },
            ast::Stmt::Decl(ast::Decl::Items(g)) => match spec_add_items(p, scope, g) {
                Ok(p1) => spec_populate(p1, scope, rest),
                Err(e) => Err(e),
            },
            ast::Stmt::Prop(ast::Prop::Tag(tg)) => match spec_add_tag_vec(p, tg.tags) {
                Ok(p1) => spec_populate(p1, scope, rest),
                Err(e) => Err(e),
            },
            _ => Err(BuildError::Unsupported),
        }
    }
}

// ---------------------------------------------------------------------------
// The second pass.
// ---------------------------------------------------------------------------

/// The view of an optional display string.
pub open spec fn opt_str_view(h: Option<String>) -> Option<Seq<char>> {
    match h {
        Option::None => Option::None,
        Option::Some(s) => Option::Some(s@),
    }
}

/// The handle a raw identifier converts to in the second pass: it must have
/// been interned by the first.
pub open spec fn spec_convert_ident(p: ProgramV, i: ast::Ident) -> Option<Ident> {
    if p.interned.dom().contains(i.0@) {
        Some(Ident(p.interned[i.0@]))
    } else {
        None
    }
}

/// The entity a declaration resolves to in the second pass: its identifier,
/// looked up strictly among the scope's own children.
pub open spec fn spec_lookup_own(p: ProgramV, scope: ScopeId, i: ast::Ident) -> Option<EntityId> {
    match spec_convert_ident(p, i) {
        None => None,
        Some(n) => if scope_children(p, scope).dom().contains(n) {
            Some(scope_children(p, scope)[n])
        } else {
            None
        },
    }
}

/// The program with a region's human-readable name set.
pub open spec fn spec_set_region_human(p: ProgramV, rid: int, h: Option<Seq<char>>) -> ProgramV {
    ProgramV {
        regions: p.regions.update(
            rid,
            RegionV {
                name: NameV { ident: p.regions[rid].name.ident, human: h },
                ..p.regions[rid]
            },
        ),
        ..p
    }
}

/// What the second pass does with one item: its human name is set, and its
/// final tag set is exactly the set passed down from its enclosing groups.
pub open spec fn spec_build_item(p: ProgramV, iid: int, item: ast::Item, tags: Set<Ident>) -> ProgramV {
    ProgramV {
        items: p.items.update(
            iid,
            ItemV {
                parent: p.items[iid].parent,
                name: NameV {
                    ident: p.items[iid].name.ident,
                    human: opt_str_view(item.name.human),
                },
                tags,
            },
        ),
        ..p
    }
}

/// What the second pass does with one region declaration: its body is
/// re-walked under its own scope, then its human name is set.
pub open spec fn spec_build_region(p: ProgramV, rid: Id, region: ast::Region) -> Result<
    ProgramV,
    BuildError,
>
    decreases region,
{
    match spec_build_scope(p, ScopeId::Region(rid), region.stmts@) {
        Err(e) => Err(e),
        Ok(p1) => if rid.0 < p1.regions.len() {
            Ok(spec_set_region_human(p1, rid.0 as int, opt_str_view(region.name.human)))
        } else {
            Err(BuildError::MissingEntity)
        },
    }
}

/// Extending an accumulated tag set with a group's own tag names; the names
/// were interned by the first pass.
pub open spec fn spec_extend_tags(p: ProgramV, tags: Set<Ident>, v: Seq<ast::Ident>) -> Result<
    Set<Ident>,
    BuildError,
>
    decreases v.len(),
{
    if v.len() == 0 {
        Ok(tags)
    } else {
        match spec_convert_ident(p, v[0]) {
            None => Err(BuildError::MissingEntity),
            Some(n) => spec_extend_tags(p, tags.insert(n), v.drop_first()),
        }
    }
}

/// What the second pass does with a grouped-items declaration: the group's
/// tag list must still be in fresh form; the accumulated tag set is copied
/// and extended with the group's own tags, so sibling groups never see each
/// other's additions; nested sub-groups are built first, then the direct
/// members.
pub open spec fn spec_build_items(
    p: ProgramV,
    g: ast::Items,
    scope: ScopeId,
    tags: Set<Ident>,
) -> Result<ProgramV, BuildError>
    decreases g,
{
    match g.tags {
        ast::ModVec::Mod(_) => Err(BuildError::Unsupported),
        ast::ModVec::New(t) => match spec_extend_tags(p, tags, t@) {
            Err(e) => Err(e),
            Ok(tags2) => match spec_build_items_nested(p, g.nested@, scope, tags2) {
                Err(e) => Err(e),
                Ok(p1) => spec_build_items_members(p1, g.items@, scope, tags2),
            },
        },
    }
}

/// The second pass over a group's nested sub-groups, left to right.
pub open spec fn spec_build_items_nested(
    p: ProgramV,
    v: Seq<ast::Items>,
    scope: ScopeId,
    tags: Set<Ident>,
) -> Result<ProgramV, BuildError>
    decreases v,
{
    if v.len() == 0 {
        Ok(p)
    } else {
        match spec_build_items(p, v[0], scope, tags) {
            Ok(p1) => spec_build_items_nested(p1, v.drop_first(), scope, tags),
            Err(e) => Err(e),
        }
    }
}

/// The second pass over a group's direct members, left to right: each is
/// resolved among the enclosing scope's children and built with the
/// accumulated tag set.
pub open spec fn spec_build_items_members(
    p: ProgramV,
    v: Seq<ast::Item>,
    scope: ScopeId,
    tags: Set<Ident>,
) -> Result<ProgramV, BuildError>
    decreases v.len(),
{
    if v.len() == 0 {
        Ok(p)
    } else {
        match spec_lookup_own(p, scope, v[0].name.ident) {
            Some(EntityId::Item(iid)) => if iid.0 < p.items.len() {
                spec_build_items_members(
                    spec_build_item(p, iid.0 as int, v[0], tags),
                    v.drop_first(),
                    scope,
                    tags,
                )
            } else {
                Err(BuildError::MissingEntity)
            },
            _ => Err(BuildError::MissingEntity),
        }
    }
}

/// The second pass over a scope's statements: each fresh declaration is
/// resolved to the entity the first pass created and finished; tag
/// properties have nothing left to do.
pub open spec fn spec_build_scope(p: ProgramV, scope: ScopeId, stmts: Seq<ast::Stmt>) -> Result<
    ProgramV,
    BuildError,
>
    decreases stmts,
{
    if stmts.len() == 0 {
        Ok(p)
    } else {
        let rest = stmts.drop_first();
        match stmts[0] {
            ast::Stmt::Decl(ast::Decl::Region(r)) => match spec_lookup_own(p, scope, r.name.ident) {
                Some(EntityId::Region(rid)) => match spec_build_region(p, rid, r) {
                    Ok(p1) => spec_build_scope(p1, scope, rest),
                    Err(e) => Err(e),
                },
                _ => Err(BuildError::MissingEntity),
            },
            ast::Stmt::Decl(ast::Decl::Item(it)) => match spec_lookup_own(p, scope, it.name.ident) {
                Some(EntityId::Item(iid)) => if iid.0 < p.items.len() {
                    match spec_build_scope(
                        spec_build_item(p, iid.0 as int, it, Set::empty()),
                        scope,
                        rest,
                    ) {
                        Ok(p1) => Ok(p1),
                        Err(e) => Err(e),
                    }
                } else {
                    Err(BuildError::MissingEntity)
                },
                _ => Err(BuildError::MissingEntity),
            },
            ast::Stmt::Decl(ast::Decl::Items(g)) => match spec_build_items(
                p,
                g,
                scope,
                Set::empty(),
            ) {
                Ok(p1) => spec_build_scope(p1, scope, rest),
                Err(e) => Err(e),
            },
            ast::Stmt::Prop(ast::Prop::Tag(_)) => spec_build_scope(p, scope, rest),
            _ => Err(BuildError::Unsupported),
        }
    }
}

/// What building a whole file yields: the first pass populates the global
/// scope from an empty program, and the second finishes it; an error in
/// either pass fails the build, and no program is returned.
pub open spec fn spec_build(f: ast::File) -> Result<ProgramV, BuildError> {
    match spec_populate(ProgramV::empty(), ScopeId::Global, f.stmts@) {
        Err(e) => Err(e),
        Ok(p1) => spec_build_scope(p1, ScopeId::Global, f.stmts@),
    }
}

// ---------------------------------------------------------------------------
// Preservation of well-formedness by the builder's steps.
// ---------------------------------------------------------------------------

/// Interning a text preserves well-formedness: a fresh handle is distinct
/// from every existing one.
pub proof fn lemma_wf_intern(p: ProgramV, s: Seq<char>)
    requires
        abs_wf(p),
        p.interned.dom().contains(s) || p.n_idents < usize::MAX,
    ensures
        abs_wf(spec_intern_p(p, s)),
{
    let p2 = spec_intern_p(p, s);
    assert(p2.regions == p.regions && p2.items == p.items && p2.global == p.global);
    assert forall|i: Ident| #[trigger] p2.global.dom().contains(i) implies entity_ok(
        p2,
        ScopeId::Global,
        i,
        p2.global[i],
    ) by {
        assert(entity_ok(p, ScopeId::Global, i, p.global[i]));
    }
    assert forall|r: int, i: Ident|
        0 <= r < p2.regions.len() && #[trigger] p2.regions[r].children.dom().contains(i) implies
        entity_ok(p2, ScopeId::Region(Id(r as usize)), i, p2.regions[r].children[i]) by {
        assert(entity_ok(p, ScopeId::Region(Id(r as usize)), i, p.regions[r].children[i]));
    }
    assert forall|r: int| 0 <= r < p2.regions.len() implies #[trigger] crate::region_bound(
        p2,
        r,
    ) by {
        assert(crate::region_bound(p, r));
    }
    assert forall|t: int| 0 <= t < p2.items.len() implies #[trigger] crate::item_bound(p2, t) by {
        assert(crate::item_bound(p, t));
    }
    assert forall|r: int| 0 <= r < p2.regions.len() implies #[trigger] crate::region_parent_ok(
        p2,
        r,
    ) by {
        assert(crate::region_parent_ok(p, r));
    }
    assert forall|t: int| 0 <= t < p2.items.len() implies #[trigger] crate::item_parent_ok(
        p2,
        t,
    ) by {
        assert(crate::item_parent_ok(p, t));
    }
    assert forall|t1: Seq<char>, t2: Seq<char>|
        p2.interned.dom().contains(t1) && p2.interned.dom().contains(t2) && t1 != t2 implies
        #[trigger] p2.interned[t1] != #[trigger] p2.interned[t2] by {
        if p.interned.dom().contains(t1) && p.interned.dom().contains(t2) {
        } else if t1 == s && p.interned.dom().contains(t2) {
            assert(p.interned[t2] < p.n_idents);
        } else if t2 == s && p.interned.dom().contains(t1) {
            assert(p.interned[t1] < p.n_idents);
        }
    }
}

/// Creating and binding a fresh region preserves well-formedness, provided
/// its name is unbound all the way up from the declaring scope.
pub proof fn lemma_wf_create_region(p: ProgramV, scope: ScopeId, n: Ident)
    requires
        abs_wf(p),
        scope_valid(p, scope),
        spec_lookup(p, scope, n) is None,
        p.regions.len() < usize::MAX,
    ensures
        abs_wf(spec_create_region(p, scope, n)),
        spec_create_region(p, scope, n).regions.len() == p.regions.len() + 1,
        spec_create_region(p, scope, n).regions[p.regions.len() as int].parent == scope,
        spec_create_region(p, scope, n).regions[p.regions.len() as int].name.ident == n,
        spec_create_region(p, scope, n).items == p.items,
        spec_create_region(p, scope, n).interned == p.interned,
        spec_create_region(p, scope, n).n_idents == p.n_idents,
{
    let rid = p.regions.len() as int;
    let q = spec_create_region(p, scope, n);
    assert(!scope_children(p, scope).dom().contains(n));
    // The regions below the new one keep their parent, name and children,
    // except that the declaring scope's children gain the new binding.
    assert forall|r: int| 0 <= r < p.regions.len() implies #[trigger] q.regions[r].parent
        == p.regions[r].parent && q.regions[r].name == p.regions[r].name && (q.regions[r].children
        == p.regions[r].children || (scope == ScopeId::Region(Id(r as usize)) && q.regions[
        r
    ].children == p.regions[r].children.insert(n, EntityId::Region(Id(rid as usize))))) by {}
    assert(q.regions[rid] == RegionV {
        parent: scope,
        name: NameV { ident: n, human: None },
        children: Map::<Ident, EntityId>::empty(),
    } || (scope == ScopeId::Region(Id(rid as usize))));
    assert forall|i: Ident| #[trigger] q.global.dom().contains(i) implies entity_ok(
        q,
        ScopeId::Global,
        i,
        q.global[i],
    ) by {
        if scope == ScopeId::Global && i == n {
        } else {
            assert(p.global.dom().contains(i));
            assert(entity_ok(p, ScopeId::Global, i, p.global[i]));
        }
    }
    assert forall|r: int, i: Ident|
        0 <= r < q.regions.len() && #[trigger] q.regions[r].children.dom().contains(i) implies
        entity_ok(q, ScopeId::Region(Id(r as usize)), i, q.regions[r].children[i]) by {
        if r == rid && scope != ScopeId::Region(Id(rid as usize)) {
            // the new region has no children
        } else if scope == ScopeId::Region(Id(r as usize)) && i == n {
            // the new binding itself
        } else {
            assert(0 <= r < p.regions.len());
            assert(p.regions[r].children.dom().contains(i));
            assert(entity_ok(p, ScopeId::Region(Id(r as usize)), i, p.regions[r].children[i]));
        }
    }
    assert forall|r: int| 0 <= r < q.regions.len() implies #[trigger] crate::region_parent_ok(
        q,
        r,
    ) by {
        if r < p.regions.len() {
            assert(crate::region_parent_ok(p, r));
        }
    }
    assert forall|t: int| 0 <= t < q.items.len() implies #[trigger] crate::item_parent_ok(
        q,
        t,
    ) by {
        assert(crate::item_parent_ok(p, t));
    }
    assert forall|r: int| 0 <= r < q.regions.len() implies #[trigger] crate::region_bound(
        q,
        r,
    ) by {
        if r < p.regions.len() {
            assert(crate::region_bound(p, r));
            assert(p.regions[r].name.ident != n || p.regions[r].parent != scope);
        }
    }
    assert forall|t: int| 0 <= t < q.items.len() implies #[trigger] crate::item_bound(q, t) by {
        assert(crate::item_bound(p, t));
        assert(p.items[t].name.ident != n || p.items[t].parent != scope);
    }
}

/// Creating and binding a fresh item preserves well-formedness, provided
/// its name is unbound all the way up from the declaring scope.
pub proof fn lemma_wf_create_item(p: ProgramV, scope: ScopeId, n: Ident)
    requires
        abs_wf(p),
        scope_valid(p, scope),
        spec_lookup(p, scope, n) is None,
        p.items.len() < usize::MAX,
    ensures
        abs_wf(spec_create_item(p, scope, n)),
        spec_create_item(p, scope, n).items.len() == p.items.len() + 1,
        spec_create_item(p, scope, n).items[p.items.len() as int].parent == scope,
        spec_create_item(p, scope, n).items[p.items.len() as int].name.ident == n,
        spec_create_item(p, scope, n).regions.len() == p.regions.len(),
        spec_create_item(p, scope, n).interned == p.interned,
        spec_create_item(p, scope, n).n_idents == p.n_idents,
{
    let iid = p.items.len() as int;
    let q = spec_create_item(p, scope, n);
    assert(!scope_children(p, scope).dom().contains(n));
    assert forall|r: int| 0 <= r < p.regions.len() implies #[trigger] q.regions[r].parent
        == p.regions[r].parent && q.regions[r].name == p.regions[r].name && (q.regions[r].children
        == p.regions[r].children || (scope == ScopeId::Region(Id(r as usize)) && q.regions[
        r
    ].children == p.regions[r].children.insert(n, EntityId::Item(Id(iid as usize))))) by {}
    assert forall|t: int| 0 <= t < p.items.len() implies #[trigger] q.items[t] == p.items[t] by {}
    assert forall|i: Ident| #[trigger] q.global.dom().contains(i) implies entity_ok(
        q,
        ScopeId::Global,
        i,
        q.global[i],
    ) by {
        if scope == ScopeId::Global && i == n {
        } else {
            assert(p.global.dom().contains(i));
            assert(entity_ok(p, ScopeId::Global, i, p.global[i]));
        }
    }
    assert forall|r: int, i: Ident|
        0 <= r < q.regions.len() && #[trigger] q.regions[r].children.dom().contains(i) implies
        entity_ok(q, ScopeId::Region(Id(r as usize)), i, q.regions[r].children[i]) by {
        if scope == ScopeId::Region(Id(r as usize)) && i == n {
        } else {
            assert(p.regions[r].children.dom().contains(i));
            assert(entity_ok(p, ScopeId::Region(Id(r as usize)), i, p.regions[r].children[i]));
        }
    }
    assert forall|r: int| 0 <= r < q.regions.len() implies #[trigger] crate::region_parent_ok(
        q,
        r,
    ) by {
        assert(crate::region_parent_ok(p, r));
    }
    assert forall|t: int| 0 <= t < q.items.len() implies #[trigger] crate::item_parent_ok(
        q,
        t,
    ) by {
        if t < p.items.len() {
            assert(crate::item_parent_ok(p, t));
        }
    }
    assert forall|r: int| 0 <= r < q.regions.len() implies #[trigger] crate::region_bound(
        q,
        r,
    ) by {
        assert(crate::region_bound(p, r));
        assert(p.regions[r].name.ident != n || p.regions[r].parent != scope);
    }
    assert forall|t: int| 0 <= t < q.items.len() implies #[trigger] crate::item_bound(q, t) by {
        if t < p.items.len() {
            assert(crate::item_bound(p, t));
            assert(p.items[t].name.ident != n || p.items[t].parent != scope);
        }
    }
}

/// Registering a fresh tag into the global name table preserves
/// well-formedness, provided no entity anywhere carries the name.
pub proof fn lemma_wf_add_tag(p: ProgramV, t: Ident)
    requires
        abs_wf(p),
        !p.global.dom().contains(t),
        !tag_conflict(p, t),
    ensures
        abs_wf(spec_bind(p, ScopeId::Global, t, EntityId::Tag(t))),
        spec_bind(p, ScopeId::Global, t, EntityId::Tag(t)).regions == p.regions,
        spec_bind(p, ScopeId::Global, t, EntityId::Tag(t)).items == p.items,
        spec_bind(p, ScopeId::Global, t, EntityId::Tag(t)).interned == p.interned,
        spec_bind(p, ScopeId::Global, t, EntityId::Tag(t)).n_idents == p.n_idents,
{
    let q = spec_bind(p, ScopeId::Global, t, EntityId::Tag(t));
    assert forall|i: Ident| #[trigger] q.global.dom().contains(i) implies entity_ok(
        q,
        ScopeId::Global,
        i,
        q.global[i],
    ) by {
        if i != t {
            assert(entity_ok(p, ScopeId::Global, i, p.global[i]));
        }
    }
    assert forall|r: int, i: Ident|
        0 <= r < q.regions.len() && #[trigger] q.regions[r].children.dom().contains(i) implies
        entity_ok(q, ScopeId::Region(Id(r as usize)), i, q.regions[r].children[i]) by {
        assert(entity_ok(p, ScopeId::Region(Id(r as usize)), i, p.regions[r].children[i]));
    }
    assert forall|r: int| 0 <= r < q.regions.len() implies #[trigger] crate::region_parent_ok(
        q,
        r,
    ) by {
        assert(crate::region_parent_ok(p, r));
    }
    assert forall|x: int| 0 <= x < q.items.len() implies #[trigger] crate::item_parent_ok(
        q,
        x,
    ) by {
        assert(crate::item_parent_ok(p, x));
    }
    assert forall|r: int| 0 <= r < q.regions.len() implies #[trigger] crate::region_bound(
        q,
        r,
    ) by {
        assert(crate::region_bound(p, r));
        assert(p.regions[r].parent != ScopeId::Global || p.regions[r].name.ident != t);
    }
    assert forall|x: int| 0 <= x < q.items.len() implies #[trigger] crate::item_bound(q, x) by {
        assert(crate::item_bound(p, x));
        assert(p.items[x].parent != ScopeId::Global || p.items[x].name.ident != t);
    }
}

/// Setting a region's human name preserves well-formedness: nothing that
/// the scoping invariants read is changed.
pub proof fn lemma_wf_set_region_human(p: ProgramV, rid: int, h: Option<Seq<char>>)
    requires
        abs_wf(p),
        0 <= rid < p.regions.len(),
    ensures
        abs_wf(spec_set_region_human(p, rid, h)),
{
    let q = spec_set_region_human(p, rid, h);
    assert forall|r: int| 0 <= r < p.regions.len() implies #[trigger] q.regions[r].parent
        == p.regions[r].parent && q.regions[r].name.ident == p.regions[r].name.ident
        && q.regions[r].children == p.regions[r].children by {}
    assert forall|i: Ident| #[trigger] q.global.dom().contains(i) implies entity_ok(
        q,
        ScopeId::Global,
        i,
        q.global[i],
    ) by {
        assert(entity_ok(p, ScopeId::Global, i, p.global[i]));
    }
    assert forall|r: int, i: Ident|
        0 <= r < q.regions.len() && #[trigger] q.regions[r].children.dom().contains(i) implies
        entity_ok(q, ScopeId::Region(Id(r as usize)), i, q.regions[r].children[i]) by {
        assert(entity_ok(p, ScopeId::Region(Id(r as usize)), i, p.regions[r].children[i]));
    }
    assert forall|r: int| 0 <= r < q.regions.len() implies #[trigger] crate::region_parent_ok(
        q,
        r,
    ) by {
        assert(crate::region_parent_ok(p, r));
    }
    assert forall|x: int| 0 <= x < q.items.len() implies #[trigger] crate::item_parent_ok(
        q,
        x,
    ) by {
        assert(crate::item_parent_ok(p, x));
    }
    assert forall|r: int| 0 <= r < q.regions.len() implies #[trigger] crate::region_bound(
        q,
        r,
    ) by {
        assert(crate::region_bound(p, r));
    }
    assert forall|x: int| 0 <= x < q.items.len() implies #[trigger] crate::item_bound(q, x) by {
        assert(crate::item_bound(p, x));
    }
}

/// Finishing an item, with its human name and final tag set, preserves
/// well-formedness: nothing that the scoping invariants read is changed.
pub proof fn lemma_wf_build_item(p: ProgramV, iid: int, item: ast::Item, tags: Set<Ident>)
    requires
        abs_wf(p),
        0 <= iid < p.items.len(),
    ensures
        abs_wf(spec_build_item(p, iid, item, tags)),
{
    let q = spec_build_item(p, iid, item, tags);
    assert forall|x: int| 0 <= x < p.items.len() implies #[trigger] q.items[x].parent
        == p.items[x].parent && q.items[x].name.ident == p.items[x].name.ident by {}
    assert forall|i: Ident| #[trigger] q.global.dom().contains(i) implies entity_ok(
        q,
        ScopeId::Global,
        i,
        q.global[i],
    ) by {
        assert(entity_ok(p, ScopeId::Global, i, p.global[i]));
    }
    assert forall|r: int, i: Ident|
        0 <= r < q.regions.len() && #[trigger] q.regions[r].children.dom().contains(i) implies
        entity_ok(q, ScopeId::Region(Id(r as usize)), i, q.regions[r].children[i]) by {
        assert(entity_ok(p, ScopeId::Region(Id(r as usize)), i, p.regions[r].children[i]));
    }
    assert forall|r: int| 0 <= r < q.regions.len() implies #[trigger] crate::region_parent_ok(
        q,
        r,
    ) by {
        assert(crate::region_parent_ok(p, r));
    }
    assert forall|x: int| 0 <= x < q.items.len() implies #[trigger] crate::item_parent_ok(
        q,
        x,
    ) by {
        assert(crate::item_parent_ok(p, x));
    }
    assert forall|r: int| 0 <= r < q.regions.len() implies #[trigger] crate::region_bound(
        q,
        r,
    ) by {
        assert(crate::region_bound(p, r));
    }
    assert forall|x: int| 0 <= x < q.items.len() implies #[trigger] crate::item_bound(q, x) by {
        assert(crate::item_bound(p, x));
    }
}

/// Whatever a lookup finds is an entity the program holds, declared in the
/// scope whose children bound it; a binding found past the scope's own
/// children was declared in a strictly higher scope.
pub proof fn lemma_lookup_found(p: ProgramV, s: ScopeId, i: Ident)
    requires
        abs_wf(p),
        scope_valid(p, s),
    ensures
        match spec_lookup(p, s, i) {
            Some(e) => crate::entity_valid(p, e) && entity_ok(p, spec_entity_parent(p, e), i, e)
                && crate::scope_rank(spec_entity_parent(p, e)) <= crate::scope_rank(s) && (
            !scope_children(p, s).dom().contains(i) ==> crate::scope_rank(
                spec_entity_parent(p, e),
            ) < crate::scope_rank(s)),
            None => !scope_children(p, s).dom().contains(i),
        },
    decreases crate::scope_rank(s),
{
    if scope_children(p, s).dom().contains(i) {
        let e = scope_children(p, s)[i];
        match s {
            ScopeId::Global => {
                assert(entity_ok(p, ScopeId::Global, i, e));
            },
            ScopeId::Region(rid) => {
                assert(entity_ok(p, ScopeId::Region(rid), i, e));
            },
        }
    } else {
        match s {
            ScopeId::Global => {},
            ScopeId::Region(rid) => {
                assert(crate::region_parent_ok(p, rid.0 as int));
                lemma_lookup_found(p, p.regions[rid.0 as int].parent, i);
            },
        }
    }
}

// ---------------------------------------------------------------------------
// Growth of the program under the first pass, and what the second pass
// finds: everything the first pass created and bound stays in place, so the
// second pass can never miss an entity.
// ---------------------------------------------------------------------------

/// A region kept across later builder steps: same parent and name, and
/// every child binding still in place.
pub open spec fn region_kept(p: ProgramV, q: ProgramV, r: int) -> bool {
    &&& q.regions[r].parent == p.regions[r].parent
    &&& q.regions[r].name.ident == p.regions[r].name.ident
    &&& p.regions[r].children.submap_of(q.regions[r].children)
}

/// An item kept across later builder steps: same parent and name.
pub open spec fn item_kept(p: ProgramV, q: ProgramV, t: int) -> bool {
    &&& q.items[t].parent == p.items[t].parent
    &&& q.items[t].name.ident == p.items[t].name.ident
}

/// One program state extends another: later builder steps only add
/// entities, bindings and interned texts, and never move or rename what is
/// already there; human names and tag sets are free to change.
pub open spec fn extends(p: ProgramV, q: ProgramV) -> bool {
    &&& p.regions.len() <= q.regions.len()
    &&& forall|r: int| 0 <= r < p.regions.len() ==> #[trigger] region_kept(p, q, r)
    &&& p.items.len() <= q.items.len()
    &&& forall|t: int| 0 <= t < p.items.len() ==> #[trigger] item_kept(p, q, t)
    &&& p.global.submap_of(q.global)
    &&& p.interned.submap_of(q.interned)
}

pub proof fn lemma_extends_refl(p: ProgramV)
    ensures
        extends(p, p),
{
    assert forall|r: int| 0 <= r < p.regions.len() implies #[trigger] region_kept(p, p, r) by {}
    assert forall|t: int| 0 <= t < p.items.len() implies #[trigger] item_kept(p, p, t) by {}
}

pub proof fn lemma_extends_trans(p: ProgramV, q: ProgramV, s: ProgramV)
    requires
        extends(p, q),
        extends(q, s),
    ensures
        extends(p, s),
{
    assert forall|r: int| 0 <= r < p.regions.len() implies #[trigger] region_kept(p, s, r) by {
        assert(region_kept(p, q, r));
        assert(region_kept(q, s, r));
        vstd::map_lib::lemma_submap_of_trans(
            p.regions[r].children,
            q.regions[r].children,
            s.regions[r].children,
        );
    }
    assert forall|t: int| 0 <= t < p.items.len() implies #[trigger] item_kept(p, s, t) by {
        assert(item_kept(p, q, t));
        assert(item_kept(q, s, t));
    }
    vstd::map_lib::lemma_submap_of_trans(p.global, q.global, s.global);
    vstd::map_lib::lemma_submap_of_trans(p.interned, q.interned, s.interned);
}

/// Interning a text only extends the program.
pub proof fn lemma_extends_intern(p: ProgramV, s: Seq<char>)
    ensures
        extends(p, spec_intern_p(p, s)),
{
    let q = spec_intern_p(p, s);
    assert forall|r: int| 0 <= r < p.regions.len() implies #[trigger] region_kept(p, q, r) by {}
    assert forall|t: int| 0 <= t < p.items.len() implies #[trigger] item_kept(p, q, t) by {}
}

/// Binding a fresh name in a scope only extends the program.
pub proof fn lemma_extends_bind(p: ProgramV, scope: ScopeId, i: Ident, e: EntityId)
    requires
        scope_valid(p, scope),
        !scope_children(p, scope).dom().contains(i),
    ensures
        extends(p, spec_bind(p, scope, i, e)),
{
    let q = spec_bind(p, scope, i, e);
    assert forall|r: int| 0 <= r < p.regions.len() implies #[trigger] region_kept(p, q, r) by {}
    assert forall|t: int| 0 <= t < p.items.len() implies #[trigger] item_kept(p, q, t) by {}
}

/// Creating and binding a fresh region only extends the program.
pub proof fn lemma_extends_create_region(p: ProgramV, scope: ScopeId, n: Ident)
    requires
        scope_valid(p, scope),
        !scope_children(p, scope).dom().contains(n),
    ensures
        extends(p, spec_create_region(p, scope, n)),
{
    let q = spec_create_region(p, scope, n);
    assert forall|r: int| 0 <= r < p.regions.len() implies #[trigger] region_kept(p, q, r) by {}
    assert forall|t: int| 0 <= t < p.items.len() implies #[trigger] item_kept(p, q, t) by {}
}

/// Creating and binding a fresh item only extends the program.
pub proof fn lemma_extends_create_item(p: ProgramV, scope: ScopeId, n: Ident)
    requires
        scope_valid(p, scope),
        !scope_children(p, scope).dom().contains(n),
    ensures
        extends(p, spec_create_item(p, scope, n)),
{
    let q = spec_create_item(p, scope, n);
    assert forall|r: int| 0 <= r < p.regions.len() implies #[trigger] region_kept(p, q, r) by {}
    assert forall|t: int| 0 <= t < p.items.len() implies #[trigger] item_kept(p, q, t) by {}
}

/// Setting a region's human name changes the skeleton in neither direction.
pub proof fn lemma_extends_set_human(p: ProgramV, rid: int, h: Option<Seq<char>>)
    requires
        0 <= rid < p.regions.len(),
    ensures
        extends(p, spec_set_region_human(p, rid, h)),
        extends(spec_set_region_human(p, rid, h), p),
{
    let q = spec_set_region_human(p, rid, h);
    assert forall|r: int| 0 <= r < p.regions.len() implies #[trigger] region_kept(p, q, r)
        && region_kept(q, p, r) by {}
    assert forall|t: int| 0 <= t < p.items.len() implies #[trigger] item_kept(p, q, t)
        && item_kept(q, p, t) by {}
}

/// Finishing an item changes the skeleton in neither direction.
pub proof fn lemma_extends_build_item(p: ProgramV, iid: int, item: ast::Item, tags: Set<Ident>)
    requires
        0 <= iid < p.items.len(),
    ensures
        extends(p, spec_build_item(p, iid, item, tags)),
        extends(spec_build_item(p, iid, item, tags), p),
{
    let q = spec_build_item(p, iid, item, tags);
    assert forall|r: int| 0 <= r < p.regions.len() implies #[trigger] region_kept(p, q, r)
        && region_kept(q, p, r) by {}
    assert forall|t: int| 0 <= t < p.items.len() implies #[trigger] item_kept(p, q, t)
        && item_kept(q, p, t) by {}
}

/// Every raw identifier of a list has been interned.
pub open spec fn idents_interned(p: ProgramV, v: Seq<ast::Ident>) -> bool {
    forall|k: int| 0 <= k < v.len() ==> #[trigger] spec_convert_ident(p, v[k]) is Some
}

/// What the first pass leaves behind for an item declaration: its name
/// resolves among the scope's own children to an item the program holds.
pub open spec fn item_done(p: ProgramV, scope: ScopeId, item: ast::Item) -> bool {
    match spec_lookup_own(p, scope, item.name.ident) {
        Some(EntityId::Item(iid)) => iid.0 < p.items.len(),
        _ => false,
    }
}

/// What the first pass leaves behind for a region declaration: its name
/// resolves among the scope's own children to a region the program holds,
/// whose own statements are likewise done.
pub open spec fn region_done(p: ProgramV, scope: ScopeId, region: ast::Region) -> bool
    decreases region,
{
    match spec_lookup_own(p, scope, region.name.ident) {
        Some(EntityId::Region(rid)) => rid.0 < p.regions.len() && pass1_done(
            p,
            ScopeId::Region(rid),
            region.stmts@,
        ),
        _ => false,
    }
}

/// What the first pass leaves behind for a grouped-items declaration: a
/// fresh-form tag list whose names are interned, every member resolved, and
/// every nested sub-group likewise done.
pub open spec fn items_done(p: ProgramV, scope: ScopeId, g: ast::Items) -> bool
    decreases g,
{
    match g.tags {
        ast::ModVec::Mod(_) => false,
        ast::ModVec::New(t) => {
            &&& idents_interned(p, t@)
            &&& forall|k: int|
                0 <= k < g.items@.len() ==> #[trigger] item_done(p, scope, g.items@[k])
            &&& nested_done(p, scope, g.nested@)
        },
    }
}

/// The first pass is done for each of a list of nested sub-groups.
pub open spec fn nested_done(p: ProgramV, scope: ScopeId, v: Seq<ast::Items>) -> bool
    decreases v,
{
    if v.len() == 0 {
        true
    } else {
        items_done(p, scope, v[0]) && nested_done(p, scope, v.drop_first())
    }
}

/// A list of sub-groups each done is a done list.
pub proof fn lemma_nested_done_from_each(p: ProgramV, scope: ScopeId, v: Seq<ast::Items>)
    requires
        forall|k: int| 0 <= k < v.len() ==> #[trigger] items_done(p, scope, v[k]),
    ensures
        nested_done(p, scope, v),
    decreases v,
{
    if v.len() > 0 {
        assert(items_done(p, scope, v[0]));
        assert forall|k: int| 0 <= k < v.drop_first().len() implies #[trigger] items_done(
            p,
            scope,
            v.drop_first()[k],
        ) by {
            assert(v.drop_first()[k] == v[k + 1]);
            assert(items_done(p, scope, v[k + 1]));
        }
        lemma_nested_done_from_each(p, scope, v.drop_first());
    }
}

/// The first pass's results for a list of sub-groups, extracted per group.
pub proof fn lemma_nested_done_at(p: ProgramV, scope: ScopeId, v: Seq<ast::Items>, k: int)
    requires
        nested_done(p, scope, v),
        0 <= k < v.len(),
    ensures
        items_done(p, scope, v[k]),
    decreases k,
{
    if k > 0 {
        lemma_nested_done_at(p, scope, v.drop_first(), k - 1);
        assert(v.drop_first()[k - 1] == v[k]);
    }
}

/// What the first pass leaves behind for one statement; statement kinds the
/// first pass refuses never survive it.
pub open spec fn stmt1_done(p: ProgramV, scope: ScopeId, st: ast::Stmt) -> bool
    decreases st,
{
    match st {
        ast::Stmt::Decl(ast::Decl::Region(r)) => region_done(p, scope, r),
        ast::Stmt::Decl(ast::Decl::Item(it)) => item_done(p, scope, it),
        ast::Stmt::Decl(ast::Decl::Items(g)) => items_done(p, scope, g),
        ast::Stmt::Prop(ast::Prop::Tag(_)) => true,
        _ => false,
    }
}

/// The first pass is done for a scope's statements: each one resolves to
/// the entity created for it, recursively.
pub open spec fn pass1_done(p: ProgramV, scope: ScopeId, stmts: Seq<ast::Stmt>) -> bool
    decreases stmts,
{
    if stmts.len() == 0 {
        true
    } else {
        stmt1_done(p, scope, stmts[0]) && pass1_done(p, scope, stmts.drop_first())
    }
}

/// Binding a name in a valid scope adds exactly that binding to the
/// scope's children.
pub proof fn lemma_bind_children(p: ProgramV, s: ScopeId, i: Ident, e: EntityId)
    requires
        scope_valid(p, s),
    ensures
        scope_children(spec_bind(p, s, i, e), s) == scope_children(p, s).insert(i, e),
{
}

/// A resolution among a scope's own children survives later builder steps.
pub proof fn lemma_lookup_own_mono(p: ProgramV, q: ProgramV, scope: ScopeId, i: ast::Ident)
    requires
        spec_lookup_own(p, scope, i) is Some,
        extends(p, q),
    ensures
        spec_lookup_own(q, scope, i) == spec_lookup_own(p, scope, i),
{
    assert(p.interned.dom().contains(i.0@));
    assert(q.interned.dom().contains(i.0@) && q.interned[i.0@] == p.interned[i.0@]);
    let n = Ident(p.interned[i.0@]);
    match scope {
        ScopeId::Global => {
            assert(p.global.dom().contains(n));
        },
        ScopeId::Region(rid) => {
            assert(rid.0 < p.regions.len());
            assert(region_kept(p, q, rid.0 as int));
            assert(p.regions[rid.0 as int].children.dom().contains(n));
        },
    }
}

pub proof fn lemma_item_done_mono(p: ProgramV, q: ProgramV, scope: ScopeId, item: ast::Item)
    requires
        item_done(p, scope, item),
        extends(p, q),
    ensures
        item_done(q, scope, item),
{
    lemma_lookup_own_mono(p, q, scope, item.name.ident);
}

pub proof fn lemma_region_done_mono(p: ProgramV, q: ProgramV, scope: ScopeId, region: ast::Region)
    requires
        region_done(p, scope, region),
        extends(p, q),
    ensures
        region_done(q, scope, region),
    decreases region,
{
    lemma_lookup_own_mono(p, q, scope, region.name.ident);
    let rid = spec_lookup_own(p, scope, region.name.ident)->Some_0->Region_0;
    lemma_pass1_done_mono(p, q, ScopeId::Region(rid), region.stmts@);
}

pub proof fn lemma_items_done_mono(p: ProgramV, q: ProgramV, scope: ScopeId, g: ast::Items)
    requires
        items_done(p, scope, g),
        extends(p, q),
    ensures
        items_done(q, scope, g),
    decreases g,
{
    match g.tags {
        ast::ModVec::Mod(_) => {},
        ast::ModVec::New(t) => {
            assert forall|k: int| 0 <= k < t@.len() implies #[trigger] spec_convert_ident(
                q,
                t@[k],
            ) is Some by {
                assert(spec_convert_ident(p, t@[k]) is Some);
                assert(p.interned.dom().contains(t@[k].0@));
            }
            assert forall|k: int| 0 <= k < g.items@.len() implies #[trigger] item_done(
                q,
                scope,
                g.items@[k],
            ) by {
                assert(item_done(p, scope, g.items@[k]));
                lemma_item_done_mono(p, q, scope, g.items@[k]);
            }
            lemma_nested_done_mono(p, q, scope, g.nested@);
        },
    }
}

pub proof fn lemma_nested_done_mono(p: ProgramV, q: ProgramV, scope: ScopeId, v: Seq<ast::Items>)
    requires
        nested_done(p, scope, v),
        extends(p, q),
    ensures
        nested_done(q, scope, v),
    decreases v,
{
    if v.len() > 0 {
        lemma_items_done_mono(p, q, scope, v[0]);
        lemma_nested_done_mono(p, q, scope, v.drop_first());
    }
}

pub proof fn lemma_stmt1_done_mono(p: ProgramV, q: ProgramV, scope: ScopeId, st: ast::Stmt)
    requires
        stmt1_done(p, scope, st),
        extends(p, q),
    ensures
        stmt1_done(q, scope, st),
    decreases st,
{
    match st {
        ast::Stmt::Decl(ast::Decl::Region(r)) => {
            lemma_region_done_mono(p, q, scope, r);
        },
        ast::Stmt::Decl(ast::Decl::Item(it)) => {
            lemma_item_done_mono(p, q, scope, it);
        },
        ast::Stmt::Decl(ast::Decl::Items(g)) => {
            lemma_items_done_mono(p, q, scope, g);
        },
        _ => {},
    }
}

/// Everything the first pass left behind survives later builder steps.
pub proof fn lemma_pass1_done_mono(p: ProgramV, q: ProgramV, scope: ScopeId, stmts: Seq<ast::Stmt>)
    requires
        pass1_done(p, scope, stmts),
        extends(p, q),
    ensures
        pass1_done(q, scope, stmts),
    decreases stmts,
{
    if stmts.len() > 0 {
        lemma_stmt1_done_mono(p, q, scope, stmts[0]);
        lemma_pass1_done_mono(p, q, scope, stmts.drop_first());
    }
}

/// The first pass's results, statement by statement: appending one more
/// finished statement keeps the whole list done.
pub proof fn lemma_pass1_done_snoc(p: ProgramV, scope: ScopeId, pre: Seq<ast::Stmt>, st: ast::Stmt)
    requires
        pass1_done(p, scope, pre),
        stmt1_done(p, scope, st),
    ensures
        pass1_done(p, scope, pre.push(st)),
    decreases pre.len(),
{
    if pre.len() == 0 {
        assert(pre.push(st)[0] == st);
        assert(pre.push(st).drop_first() =~= pre);
    } else {
        assert(pre.push(st)[0] == pre[0]);
        assert(pre.push(st).drop_first() =~= pre.drop_first().push(st));
        lemma_pass1_done_snoc(p, scope, pre.drop_first(), st);
    }
}

/// The first pass's results extracted per statement.
pub proof fn lemma_pass1_done_at(p: ProgramV, scope: ScopeId, stmts: Seq<ast::Stmt>, k: int)
    requires
        pass1_done(p, scope, stmts),
        0 <= k < stmts.len(),
    ensures
        stmt1_done(p, scope, stmts[k]),
    decreases k,
{
    if k > 0 {
        lemma_pass1_done_at(p, scope, stmts.drop_first(), k - 1);
        assert(stmts.drop_first()[k - 1] == stmts[k]);
    }
}

// ---------------------------------------------------------------------------
// The scoping and collision laws.
// ---------------------------------------------------------------------------

/// Declaring an identifier already bound in the very same scope fails with
/// the same-scope error, whatever kind of entity holds the name.
pub proof fn lemma_duplicate_in_scope(p: ProgramV, scope: ScopeId, n: Ident)
    requires
        abs_wf(p),
        scope_valid(p, scope),
        scope_children(p, scope).dom().contains(n),
    ensures
        spec_validate(p, scope, n) == Some(BuildError::AlreadyDeclared),
{
    lemma_lookup_found(p, scope, n);
    let e = scope_children(p, scope)[n];
    match scope {
        ScopeId::Global => {
            assert(entity_ok(p, ScopeId::Global, n, e));
        },
        ScopeId::Region(rid) => {
            assert(entity_ok(p, ScopeId::Region(rid), n, e));
        },
    }
}

/// Declaring an identifier that is unbound in its own scope but visible
/// from a higher one fails with the shadowing error: shadowing a nested
/// declaration is rejected just as strictly as duplication.
pub proof fn lemma_shadowing_rejected(p: ProgramV, scope: ScopeId, n: Ident)
    requires
        abs_wf(p),
        scope_valid(p, scope),
        !scope_children(p, scope).dom().contains(n),
        spec_lookup(p, scope, n) is Some,
    ensures
        spec_validate(p, scope, n) == Some(BuildError::Shadows),
{
    lemma_lookup_found(p, scope, n);
}

/// A tag declared with the same identifier as an entity bound anywhere in
/// the whole scope tree fails, unless the identifier is bound globally to
/// the identical tag.
pub proof fn lemma_tag_collides_with_entity(p: ProgramV, t: Ident)
    requires
        tag_conflict(p, t),
        !(p.global.dom().contains(t) && p.global[t] == EntityId::Tag(t)),
    ensures
        spec_add_tag_ident(p, t) == Err::<ProgramV, BuildError>(BuildError::TagCollision),
{
}

/// Redeclaring the identical tag is idempotent: the program is returned
/// unchanged.
pub proof fn lemma_tag_redeclaration_idempotent(p: ProgramV, t: Ident)
    requires
        p.global.dom().contains(t),
        p.global[t] == EntityId::Tag(t),
    ensures
        spec_add_tag_ident(p, t) == Ok::<ProgramV, BuildError>(p),
{
}

} // verus!
