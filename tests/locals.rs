use starlark::locals::{LocalsBuilder, LocalsQuery};

#[test]
fn one_level() {
    let mut builder = LocalsBuilder::default();
    builder.register_local("a");
    builder.register_local("b");
    builder.register_local("a");
    let locals = builder.build();
    let query = LocalsQuery::new(&locals);
    assert_eq!(Some(0), query.local_slot("a"));
    assert_eq!(Some(1), query.local_slot("b"));
    assert_eq!(None, query.local_slot("c"));
}

#[test]
fn override_on_second_level() {
    let mut builder = LocalsBuilder::default();
    builder.register_local("a");
    builder.push_scope();
    builder.register_local("a");
    builder.pop_scope();
    let locals = builder.build();
    let mut query = LocalsQuery::new(&locals);
    assert_eq!(Some(0), query.local_slot("a"));
    query.push_next_scope();
    assert_eq!(Some(1), query.local_slot("a"));
    query.pop_scope();
    assert_eq!(Some(0), query.local_slot("a"));
}

#[test]
fn overrride_twice_on_second_level() {
    // Here we have three distinct `a` variables:
    // in the top scope, and in two nested scopes
    let mut builder = LocalsBuilder::default();
    builder.register_local("a");
    builder.push_scope();
    builder.register_local("a");
    builder.pop_scope();
    builder.push_scope();
    builder.register_local("a");
    builder.pop_scope();
    let locals = builder.build();
    let mut query = LocalsQuery::new(&locals);
    assert_eq!(Some(0), query.local_slot("a"));
    query.push_next_scope();
    assert_eq!(Some(1), query.local_slot("a"));
    query.pop_scope();
    assert_eq!(Some(0), query.local_slot("a"));
    query.push_next_scope();
    assert_eq!(Some(2), query.local_slot("a"));
    query.pop_scope();
    assert_eq!(Some(0), query.local_slot("a"));
}

#[test]
fn repeated_declaration_counts_a_slot() {
    let mut builder = LocalsBuilder::default();
    builder.register_local("a");
    builder.register_local("b");
    builder.register_local("a");
    let locals = builder.build();
    assert_eq!(3, locals.len());
    assert_eq!(Some(0), locals.top_level_name_to_slot("a"));
    assert_eq!(Some(1), locals.top_level_name_to_slot("b"));
    assert_eq!(None, locals.top_level_name_to_slot("c"));
}

#[test]
fn distinct_names_get_consecutive_slots() {
    let names = ["x", "y", "z", "w", "v"];
    let mut builder = LocalsBuilder::default();
    for name in names.iter() {
        builder.register_local(name);
    }
    let locals = builder.build();
    assert_eq!(names.len(), locals.len());
    for (i, name) in names.iter().enumerate() {
        assert_eq!(Some(i), locals.top_level_name_to_slot(name));
    }
}

#[test]
fn empty_builder_has_no_slots() {
    let locals = LocalsBuilder::default().build();
    assert_eq!(0, locals.len());
    assert_eq!(None, locals.top_level_name_to_slot("a"));
    let query = LocalsQuery::new(&locals);
    assert_eq!(None, query.local_slot(""));
}

#[test]
fn sibling_scopes_get_distinct_slots() {
    let mut builder = LocalsBuilder::default();
    builder.push_scope();
    builder.register_local("a");
    builder.pop_scope();
    builder.push_scope();
    builder.register_local("a");
    builder.pop_scope();
    let locals = builder.build();
    assert_eq!(2, locals.len());
    assert_eq!(None, locals.top_level_name_to_slot("a"));
    let mut query = LocalsQuery::new(&locals);
    assert_eq!(None, query.local_slot("a"));
    query.push_next_scope();
    assert_eq!(Some(0), query.local_slot("a"));
    query.pop_scope();
    assert_eq!(None, query.local_slot("a"));
    query.push_next_scope();
    assert_eq!(Some(1), query.local_slot("a"));
    query.pop_scope();
    assert_eq!(None, query.local_slot("a"));
}

#[test]
fn outer_names_visible_in_nested_scopes() {
    let mut builder = LocalsBuilder::default();
    builder.register_local("a");
    builder.push_scope();
    builder.register_local("b");
    builder.push_scope();
    builder.register_local("c");
    builder.register_local("a");
    builder.pop_scope();
    builder.register_local("d");
    builder.pop_scope();
    let locals = builder.build();
    assert_eq!(5, locals.len());
    let mut query = LocalsQuery::new(&locals);
    assert_eq!(None, query.local_slot("b"));
    query.push_next_scope();
    assert_eq!(Some(0), query.local_slot("a"));
    assert_eq!(Some(1), query.local_slot("b"));
    assert_eq!(None, query.local_slot("c"));
    assert_eq!(Some(4), query.local_slot("d"));
    query.push_next_scope();
    assert_eq!(Some(3), query.local_slot("a"));
    assert_eq!(Some(1), query.local_slot("b"));
    assert_eq!(Some(2), query.local_slot("c"));
    query.pop_scope();
    assert_eq!(Some(0), query.local_slot("a"));
    assert_eq!(None, query.local_slot("c"));
    query.pop_scope();
    assert_eq!(None, query.local_slot("d"));
}
