use rado::ast;
use rado::{BuildError, EntityId, EntityRef, Path, Program, ScopeId};

fn ident(s: &str) -> ast::Ident {
    ast::Ident(s.to_string())
}

fn decl_name(s: &str) -> ast::DeclName {
    ast::DeclName { ident: ident(s), human: None }
}

fn human_name(s: &str, h: &str) -> ast::DeclName {
    ast::DeclName { ident: ident(s), human: Some(h.to_string()) }
}

fn region(name: ast::DeclName, stmts: Vec<ast::Stmt>) -> ast::Stmt {
    ast::Stmt::Decl(ast::Decl::Region(ast::Region { name, stmts }))
}

fn item(name: ast::DeclName, stmts: Vec<ast::Stmt>) -> ast::Stmt {
    ast::Stmt::Decl(ast::Decl::Item(ast::Item { name, stmts }))
}

fn tag_prop(names: Vec<&str>) -> ast::Stmt {
    ast::Stmt::Prop(ast::Prop::Tag(ast::Tag {
        tags: ast::ModVec::New(names.into_iter().map(ident).collect()),
    }))
}

fn build(stmts: Vec<ast::Stmt>) -> Result<Program, BuildError> {
    Program::from_ast(ast::File { stmts })
}

#[test]
fn duplicate_region_in_same_scope_fails() {
    let r = build(vec![
        region(decl_name("a"), vec![]),
        region(decl_name("a"), vec![]),
    ]);
    let e = r.err().unwrap();
    assert_eq!(BuildError::AlreadyDeclared, e);
    assert_eq!("name already declared in same scope", e.message());
}

#[test]
fn same_name_in_sibling_scopes_succeeds() {
    // An item named identically to a region in a sibling scope is fine:
    // the collision check climbs ancestors only.
    let r = build(vec![
        region(decl_name("s1"), vec![region(decl_name("n"), vec![])]),
        region(decl_name("s2"), vec![item(decl_name("n"), vec![])]),
    ]);
    assert!(r.is_ok());
}

#[test]
fn shadowing_a_higher_scope_fails() {
    let r = build(vec![
        item(decl_name("n"), vec![]),
        region(decl_name("s"), vec![region(decl_name("n"), vec![])]),
    ]);
    let e = r.err().unwrap();
    assert_eq!(BuildError::Shadows, e);
    assert_eq!("name shadows entity in higher scope", e.message());
}

#[test]
fn tag_colliding_with_entity_fails() {
    // The tag check walks the entire scope tree, not just ancestors.
    let r = build(vec![
        region(decl_name("deep"), vec![region(decl_name("t"), vec![])]),
        item(decl_name("x"), vec![tag_prop(vec!["t"])]),
    ]);
    let e = r.err().unwrap();
    assert_eq!(BuildError::TagCollision, e);
    assert_eq!("tag declared with same name as entity", e.message());
}

#[test]
fn entity_colliding_with_tag_fails() {
    let r = build(vec![
        item(decl_name("x"), vec![tag_prop(vec!["t"])]),
        region(decl_name("t"), vec![]),
    ]);
    assert_eq!(BuildError::AlreadyDeclared, r.err().unwrap());
}

#[test]
fn repeated_identical_tag_is_idempotent() {
    // The end-to-end scenario: `region Foo { item Bar { tag t1; } } tag t1;`
    // builds, because the second declaration repeats the identical tag.
    let r = build(vec![
        region(
            decl_name("Foo"),
            vec![item(decl_name("Bar"), vec![tag_prop(vec!["t1"])])],
        ),
        tag_prop(vec!["t1"]),
    ]);
    assert!(r.is_ok());
}

#[test]
fn region_and_item_of_one_name_at_top_level_fail() {
    // The other end-to-end scenario: `region Foo {} item Foo {}` at top
    // level fails with the same-scope error.
    let r = build(vec![
        region(decl_name("Foo"), vec![]),
        item(decl_name("Foo"), vec![]),
    ]);
    let e = r.err().unwrap();
    assert_eq!(BuildError::AlreadyDeclared, e);
    assert_eq!("name already declared in same scope", e.message());
}

#[test]
fn path_resolution_finds_nested_item() {
    let p = build(vec![region(
        decl_name("a"),
        vec![item(decl_name("b"), vec![])],
    )])
    .unwrap();
    // The program's global children hold exactly the region "a".
    assert_eq!(1, p.children().len());
    let (a, a_entity) = p.children()[0];
    let rid = match a_entity {
        EntityId::Region(rid) => rid,
        _ => panic!("expected a region at top level"),
    };
    // The region's children hold exactly the item "b".
    let reg = match p.get_entity(a_entity) {
        Some(EntityRef::Region(reg)) => reg,
        _ => panic!("expected the region to exist"),
    };
    assert_eq!(1, reg.children().len());
    let (b, b_entity) = reg.children()[0];
    assert!(matches!(b_entity, EntityId::Item(_)));
    assert_eq!(Some(b_entity), reg.lookup_ident(b));
    // Resolving ["a", "b"] from the global scope yields the item.
    let path = Path::new(vec![a, b]).unwrap();
    assert_eq!(Ok(b_entity), p.lookup_entity(ScopeId::Global, &path));
    // The item's parent is the region's scope.
    match p.get_entity(b_entity) {
        Some(EntityRef::Item(it)) => {
            assert_eq!(ScopeId::Region(rid), it.parent());
        },
        _ => panic!("expected the item to exist"),
    }
}

#[test]
fn path_through_non_region_fails() {
    let p = build(vec![
        item(decl_name("a"), vec![]),
        region(decl_name("c"), vec![]),
    ])
    .unwrap();
    let (a, _) = p.children()[0];
    let path = Path::new(vec![a, a]).unwrap();
    let e = p.lookup_entity(ScopeId::Global, &path).err().unwrap();
    assert_eq!(BuildError::NotAScope, e);
    assert_eq!("tried to lookup entity in non-scope", e.message());
}

#[test]
fn path_with_unbound_start_fails() {
    let p = build(vec![region(decl_name("a"), vec![])]).unwrap();
    let path = Path::new(vec![rado::Ident(123456)]).unwrap();
    let e = p.lookup_entity(ScopeId::Global, &path).err().unwrap();
    assert_eq!(BuildError::PathStartNotFound, e);
    assert_eq!("first identifier in path not found in lookup", e.message());
}

#[test]
fn missing_child_segment_fails() {
    let p = build(vec![region(decl_name("a"), vec![])]).unwrap();
    let (a, _) = p.children()[0];
    let path = Path::new(vec![a, rado::Ident(123456)]).unwrap();
    let e = p.lookup_entity(ScopeId::Global, &path).err().unwrap();
    assert_eq!(BuildError::PathSegmentNotFound, e);
    assert_eq!("next segment not found in child scope", e.message());
}

#[test]
fn empty_path_is_rejected() {
    let e = Path::new(vec![]).err().unwrap();
    assert_eq!(BuildError::EmptyPath, e);
    assert_eq!("trying to construct empty path", e.message());
}

#[test]
fn lookup_climbs_the_scope_chain() {
    let p = build(vec![
        item(decl_name("outer"), vec![]),
        region(decl_name("a"), vec![region(decl_name("b"), vec![])]),
    ])
    .unwrap();
    let (outer, outer_entity) = p.children()[0];
    let (_, a_entity) = p.children()[1];
    let a_rid = match a_entity {
        EntityId::Region(rid) => rid,
        _ => panic!("expected a region"),
    };
    // From inside region "a", the top-level item is visible by climbing.
    assert_eq!(
        Some(outer_entity),
        p.lookup(ScopeId::Region(a_rid), outer)
    );
    // The global scope resolves it directly.
    assert_eq!(Some(outer_entity), p.lookup(ScopeId::Global, outer));
    assert_eq!(Some(outer_entity), p.lookup_ident(outer));
}

#[test]
fn same_text_interns_to_same_handle() {
    // Two occurrences of the same identifier text anywhere in the source
    // yield the same handle; distinct texts yield distinct handles.
    let p = build(vec![
        region(decl_name("s1"), vec![item(decl_name("n"), vec![])]),
        region(decl_name("s2"), vec![item(decl_name("n"), vec![])]),
    ])
    .unwrap();
    let (s1, e1) = p.children()[0];
    let (s2, e2) = p.children()[1];
    assert_ne!(s1, s2);
    let r1 = match p.get_entity(e1) {
        Some(EntityRef::Region(r)) => r,
        _ => panic!("expected a region"),
    };
    let r2 = match p.get_entity(e2) {
        Some(EntityRef::Region(r)) => r,
        _ => panic!("expected a region"),
    };
    let (n1, _) = r1.children()[0];
    let (n2, _) = r2.children()[0];
    assert_eq!(n1, n2);
}

#[test]
fn group_tags_accumulate_to_members() {
    let g = ast::Stmt::Decl(ast::Decl::Items(ast::Items {
        tags: ast::ModVec::New(vec![ident("t1"), ident("t2")]),
        items: vec![ast::Item { name: decl_name("x"), stmts: vec![] }],
        nested: vec![ast::Items {
            tags: ast::ModVec::New(vec![ident("t3")]),
            items: vec![ast::Item { name: decl_name("y"), stmts: vec![] }],
            nested: vec![],
        }],
    }));
    let p = build(vec![g]).unwrap();
    // Pass one registers: t1, t2, then the member x, then t3 and y.
    let names: Vec<_> = p.children().iter().map(|(i, e)| (*i, *e)).collect();
    assert_eq!(5, names.len());
    let (t1, t1e) = names[0];
    let (t2, _) = names[1];
    let (_, xe) = names[2];
    let (t3, _) = names[3];
    let (_, ye) = names[4];
    assert_eq!(EntityId::Tag(t1), t1e);
    let x = match p.get_entity(xe) {
        Some(EntityRef::Item(it)) => it,
        _ => panic!("expected item x"),
    };
    let y = match p.get_entity(ye) {
        Some(EntityRef::Item(it)) => it,
        _ => panic!("expected item y"),
    };
    // x carries the group tags; y carries the nested group's as well;
    // sibling additions never leak back.
    assert!(x.has_tag(t1) && x.has_tag(t2) && !x.has_tag(t3));
    assert!(y.has_tag(t1) && y.has_tag(t2) && y.has_tag(t3));
}

#[test]
fn human_names_are_set_in_second_pass() {
    let p = build(vec![region(
        human_name("a", "Area One"),
        vec![item(human_name("b", "Boss Key"), vec![])],
    )])
    .unwrap();
    let (_, ae) = p.children()[0];
    let reg = match p.get_entity(ae) {
        Some(EntityRef::Region(r)) => r,
        _ => panic!("expected a region"),
    };
    assert_eq!(&Some("Area One".to_string()), reg.human());
    let (_, be) = reg.children()[0];
    match p.get_entity(be) {
        Some(EntityRef::Item(it)) => {
            assert_eq!(&Some("Boss Key".to_string()), it.human());
        },
        _ => panic!("expected the item"),
    }
}

#[test]
fn unsupported_statements_are_reported() {
    // A conditional block is an explicit unsupported-statement error, not
    // a silent approximation.
    let cond = ast::Stmt::Cond(ast::Expr::Bool(true), vec![], vec![]);
    let e = build(vec![cond]).err().unwrap();
    assert_eq!(BuildError::Unsupported, e);
    assert_eq!("unsupported statement", e.message());

    // So is a declaration kind the builder does not yet handle.
    let loc = ast::Stmt::Decl(ast::Decl::Location(ast::Location {
        name: decl_name("l"),
        stmts: vec![],
    }));
    assert_eq!(BuildError::Unsupported, build(vec![loc]).err().unwrap());

    // And an incremental tag list on an item group, which has no base to
    // diff against during population.
    let g = ast::Stmt::Decl(ast::Decl::Items(ast::Items {
        tags: ast::ModVec::Mod(vec![(true, ident("t"))]),
        items: vec![],
        nested: vec![],
    }));
    assert_eq!(BuildError::Unsupported, build(vec![g]).err().unwrap());
}

#[test]
fn deep_paths_resolve() {
    let p = build(vec![region(
        decl_name("a"),
        vec![region(decl_name("b"), vec![item(decl_name("c"), vec![])])],
    )])
    .unwrap();
    let (a, ae) = p.children()[0];
    let ra = match p.get_entity(ae) {
        Some(EntityRef::Region(r)) => r,
        _ => panic!("expected region a"),
    };
    let (b, be) = ra.children()[0];
    let rb = match p.get_entity(be) {
        Some(EntityRef::Region(r)) => r,
        _ => panic!("expected region b"),
    };
    let (c, ce) = rb.children()[0];
    let path = Path::new(vec![a, b, c]).unwrap();
    assert_eq!(Ok(ce), p.lookup_entity(ScopeId::Global, &path));
    // From inside b, the one-segment path to c resolves as well.
    let short = Path::new(vec![c]).unwrap();
    assert_eq!(Ok(ce), p.lookup_entity(ScopeId::Region(be.unwrap_region()), &short));
}

#[test]
fn item_tag_property_registers_globally_only() {
    // A tag declared inside an item becomes a global, forward-referenceable
    // tag; the item's own final tag set is the one passed down from
    // enclosing groups, which for a bare item is empty.
    let p = build(vec![item(decl_name("x"), vec![tag_prop(vec!["t"])])]).unwrap();
    let (_, xe) = p.children()[0];
    let (t, te) = p.children()[1];
    assert_eq!(EntityId::Tag(t), te);
    match p.get_entity(xe) {
        Some(EntityRef::Item(it)) => {
            assert!(!it.has_tag(t));
        },
        _ => panic!("expected the item"),
    }
}

#[test]
fn default_program_is_empty() {
    let p = Program::default();
    assert_eq!(0, p.children().len());
    assert!(p.get_scope(ScopeId::Global).is_some());
    assert!(p.get_scope(ScopeId::Region(rado::Id(0))).is_none());
}

#[test]
fn entity_id_unwrappers() {
    let p = build(vec![
        region(decl_name("a"), vec![]),
        item(decl_name("b"), vec![tag_prop(vec!["t"])]),
    ])
    .unwrap();
    let (_, ae) = p.children()[0];
    let (_, be) = p.children()[1];
    let (t, te) = p.children()[2];
    assert_eq!(EntityId::Region(ae.unwrap_region()), ae);
    assert_eq!(EntityId::Item(be.unwrap_item()), be);
    assert_eq!(t, te.unwrap_tag());
    match p.get_entity(te) {
        Some(EntityRef::Tag(tag)) => {
            assert_eq!(ScopeId::Global, tag.parent());
            assert_eq!(t, tag.0);
        },
        _ => panic!("expected the tag"),
    }
}
