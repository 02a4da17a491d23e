use rebacdb::Object;
use rebacdb::ObjectOrSet;
use rebacdb::RSet;
use rebacdb::RelationGraph;
use rebacdb::WILDCARD_ID;

fn obj(namespace: &str, id: &str) -> ObjectOrSet {
    let object: Object = (namespace, id).into();
    object.into()
}

fn set(namespace: &str, id: &str, relation: &str) -> RSet {
    (namespace, id, relation).into()
}

#[test]
fn simple_graph() {
    let mut graph = RelationGraph::default();

    let alice: Object = ("user", "alice").into();
    let bob: Object = ("user", "bob").into();
    let charlie: Object = ("user", "charlie").into();

    let foo_read: RSet = ("application", "foo", "read").into();
    let bar_read: RSet = ("application", "bar", "read").into();

    graph.insert(&(&alice).into(), &foo_read);
    graph.insert(&(&bob).into(), &bar_read);

    assert!(graph.check(&(&alice).into(), &foo_read, None));
    assert!(!graph.check(&(&alice).into(), &bar_read, None));

    assert!(!graph.check(&(&bob).into(), &foo_read, None));
    assert!(graph.check(&(&bob).into(), &bar_read, None));

    assert!(!graph.check(&(&charlie).into(), &foo_read, None));
    assert!(!graph.check(&(&charlie).into(), &bar_read, None));

    graph.remove(&(&alice).into(), &foo_read);
    graph.remove(&(&alice).into(), &bar_read);

    assert!(!graph.check(&(&alice).into(), &foo_read, None));
    assert!(!graph.check(&(&alice).into(), &bar_read, None));

    graph.insert(&(&charlie).into(), &foo_read);
    graph.insert(&(&charlie).into(), &bar_read);

    assert!(graph.check(&(&charlie).into(), &foo_read, None));
    assert!(graph.check(&(&charlie).into(), &bar_read, None));
}

#[test]
fn wildcard() {
    let mut graph = RelationGraph::default();

    let alice: Object = ("user", "alice").into();
    let bob: Object = ("user", "bob").into();
    let charlie: Object = ("user", "charlie").into();

    let user_wildcard: Object = ("user", WILDCARD_ID).into();

    let foo_read: RSet = ("application", "foo", "read").into();
    let bar_read: RSet = ("application", "bar", "read").into();

    let app_read: RSet = ("application", WILDCARD_ID, "read").into();

    let some_app_read: RSet = ("application", "bla", "read").into();

    graph.insert(&(&alice).into(), &foo_read);
    graph.insert(&(&user_wildcard).into(), &foo_read);
    graph.insert(&(&bob).into(), &bar_read);

    assert!(graph.check(&(&alice).into(), &foo_read, None));
    assert!(graph.check(&(&bob).into(), &foo_read, None));
    assert!(graph.check(&(&charlie).into(), &foo_read, None));
    assert!(graph.check(&(&bob).into(), &bar_read, None));

    graph.insert(&(&alice).into(), &app_read);

    assert!(graph.check(&(&alice).into(), &some_app_read, None));
    assert!(graph.check(&(&alice).into(), &bar_read, None));
    assert!(!graph.check(&(&bob).into(), &some_app_read, None));
    assert!(!graph.check(&(&charlie).into(), &some_app_read, None));
}

#[test]
fn tests_simple_graph() {
    let mut graph = RelationGraph::default();

    let alice: Object = ("user", "alice").into();
    let bob: Object = ("user", "bob").into();
    let charlie: Object = ("user", "charlie").into();

    let foo_read: RSet = ("application", "foo", "read").into();
    let bar_read: RSet = ("application", "bar", "read").into();

    graph.insert(&(&alice).into(), &foo_read);
    graph.insert(&(&bob).into(), &bar_read);

    assert!(graph.check(&(&alice).into(), &foo_read, None));
    assert!(!graph.check(&(&alice).into(), &bar_read, None));

    assert!(!graph.check(&(&bob).into(), &foo_read, None));
    assert!(graph.check(&(&bob).into(), &bar_read, None));

    assert!(!graph.check(&(&charlie).into(), &foo_read, None));
    assert!(!graph.check(&(&charlie).into(), &bar_read, None));

    graph.remove(&(&alice).into(), &foo_read);
    graph.remove(&(&alice).into(), &bar_read);

    assert!(!graph.check(&(&alice).into(), &foo_read, None));
    assert!(!graph.check(&(&alice).into(), &bar_read, None));

    graph.insert(&(&charlie).into(), &foo_read);
    graph.insert(&(&charlie).into(), &bar_read);

    assert!(graph.check(&(&charlie).into(), &foo_read, None));
    assert!(graph.check(&(&charlie).into(), &bar_read, None));
}

#[test]
fn tests_wildcard() {
    let mut graph = RelationGraph::default();

    let alice: Object = ("user", "alice").into();
    let bob: Object = ("user", "bob").into();
    let charlie: Object = ("user", "charlie").into();

    let user_wildcard: Object = ("user", WILDCARD_ID).into();

    let foo_read: RSet = ("application", "foo", "read").into();
    let bar_read: RSet = ("application", "bar", "read").into();

    let app_read: RSet = ("application", WILDCARD_ID, "read").into();

    let some_app_read: RSet = ("application", "bla", "read").into();

    graph.insert(&(&alice).into(), &foo_read);
    graph.insert(&(&user_wildcard).into(), &foo_read);
    graph.insert(&(&bob).into(), &bar_read);

    assert!(graph.check(&(&alice).into(), &foo_read, None));
    assert!(graph.check(&(&bob).into(), &foo_read, None));
    assert!(graph.check(&(&charlie).into(), &foo_read, None));
    assert!(graph.check(&(&bob).into(), &bar_read, None));

    graph.insert(&(&alice).into(), &app_read);

    assert!(graph.check(&(&alice).into(), &some_app_read, None));
    assert!(graph.check(&(&alice).into(), &bar_read, None));
    assert!(!graph.check(&(&bob).into(), &some_app_read, None));
    assert!(!graph.check(&(&charlie).into(), &some_app_read, None));
}

#[test]
fn insert_then_has() {
    let mut graph = RelationGraph::new();
    let src = obj("user", "alice");
    let dst = set("application", "foo", "read");
    assert!(!graph.has(&src, &dst));
    graph.insert(&src, &dst);
    assert!(graph.has(&src, &dst));
    assert!(!graph.has(&obj("user", "bob"), &dst));
}

#[test]
fn remove_undoes_insert() {
    let mut graph = RelationGraph::new();
    let src = obj("user", "alice");
    let dst = set("application", "foo", "read");
    graph.insert(&src, &dst);
    graph.remove(&src, &dst);
    assert!(!graph.has(&src, &dst));
    assert!(!graph.check(&src, &dst, None));
}

#[test]
fn insert_and_remove_are_idempotent() {
    let mut once = RelationGraph::new();
    let mut twice = RelationGraph::new();
    let src = obj("user", "alice");
    let dst = set("application", "foo", "read");
    once.insert(&src, &dst);
    twice.insert(&src, &dst);
    twice.insert(&src, &dst);
    assert_eq!(once.write_savefile(), twice.write_savefile());
    assert_eq!(once.vertices(), twice.vertices());
    once.remove(&src, &dst);
    twice.remove(&src, &dst);
    twice.remove(&src, &dst);
    assert_eq!(once.write_savefile(), twice.write_savefile());
    assert_eq!(once.vertices(), twice.vertices());
}

#[test]
fn remove_of_absent_relation_changes_nothing() {
    let mut graph = RelationGraph::new();
    graph.insert(&obj("user", "alice"), &set("application", "foo", "read"));
    let before = graph.write_savefile();
    graph.remove(&obj("user", "nobody"), &set("application", "foo", "read"));
    graph.remove(&obj("user", "alice"), &set("application", "none", "read"));
    assert_eq!(graph.write_savefile(), before);
}

#[test]
fn has_ignores_wildcards_and_paths() {
    let mut graph = RelationGraph::new();
    graph.insert(&obj("user", WILDCARD_ID), &set("application", "foo", "read"));
    assert!(!graph.has(&obj("user", "alice"), &set("application", "foo", "read")));
    assert!(graph.check(&obj("user", "alice"), &set("application", "foo", "read"), None));
}

#[test]
fn check_does_not_count_the_source_itself() {
    let mut graph = RelationGraph::new();
    let foo_read = set("application", "foo", "read");
    graph.insert(&obj("user", "alice"), &foo_read);
    let as_source = ObjectOrSet::RSet(foo_read.clone());
    assert!(graph.has_vertex(&as_source));
    assert!(!graph.check(&as_source, &foo_read, None));
}

#[test]
fn check_finds_an_inserted_self_edge() {
    let mut graph = RelationGraph::new();
    let foo_read = set("application", "foo", "read");
    let as_source = ObjectOrSet::RSet(foo_read.clone());
    graph.insert(&as_source, &foo_read);
    assert!(graph.check(&as_source, &foo_read, None));
}

#[test]
fn has_implies_check() {
    let mut graph = RelationGraph::new();
    let src = obj("user", "alice");
    let dst = set("application", "foo", "read");
    graph.insert(&src, &dst);
    assert!(graph.has(&src, &dst));
    assert!(graph.check(&src, &dst, None));
    assert!(graph.check(&src, &dst, Some(1)));
    assert!(!graph.check(&src, &dst, Some(0)));
}

#[test]
fn check_stays_true_when_relations_are_added() {
    let mut graph = RelationGraph::new();
    let foo_read = set("application", "foo", "read");
    graph.insert(&obj("user", WILDCARD_ID), &foo_read);
    assert!(graph.check(&obj("user", "alice"), &foo_read, None));
    graph.insert(&obj("user", "alice"), &set("application", "bar", "read"));
    assert!(graph.check(&obj("user", "alice"), &foo_read, None));
    graph.insert(&obj("user", "bob"), &foo_read);
    assert!(graph.check(&obj("user", "alice"), &foo_read, None));
}

#[test]
fn remove_keeps_the_wildcard() {
    let mut graph = RelationGraph::new();
    let alice = obj("user", "alice");
    let foo_read = set("application", "foo", "read");
    graph.insert(&alice, &foo_read);
    graph.insert(&obj("user", "bob"), &set("application", "bar", "read"));
    graph.remove(&alice, &foo_read);
    assert!(!graph.check(&alice, &foo_read, None));
    assert!(graph.has_vertex(&obj("user", WILDCARD_ID)));
}

#[test]
fn vertex_without_edges_is_gone() {
    let mut graph = RelationGraph::new();
    let src = ObjectOrSet::RSet(set("group", WILDCARD_ID, "member"));
    let dst = set("application", WILDCARD_ID, "read");
    graph.insert(&src, &dst);
    assert!(graph.has_vertex(&ObjectOrSet::RSet(dst.clone())));
    graph.remove(&src, &dst);
    graph.remove(&src, &set("group", WILDCARD_ID, "member"));
    graph.remove(&ObjectOrSet::RSet(dst.clone()), &dst);
    assert!(!graph.has_vertex(&src));
    assert!(!graph.has_vertex(&ObjectOrSet::RSet(dst.clone())));
    assert_eq!(graph.vertices().len(), 0);
}

#[test]
fn source_wildcard_stands_for_every_user() {
    let mut graph = RelationGraph::new();
    let foo_read = set("application", "foo", "read");
    graph.insert(&obj("user", WILDCARD_ID), &foo_read);
    for id in ["alice", "bob", "x", "*"] {
        assert!(graph.check(&obj("user", id), &foo_read, None));
        assert!(!graph.check(&obj("user", id), &set("application", "bar", "read"), None));
        assert!(!graph.check(&obj("user", id), &set("other", "foo", "read"), None));
    }
}

#[test]
fn destination_wildcard_stands_for_every_object() {
    let mut graph = RelationGraph::new();
    graph.insert(&obj("user", "alice"), &set("application", WILDCARD_ID, "read"));
    for id in ["foo", "bar", "y"] {
        assert!(graph.check(&obj("user", "alice"), &set("application", id, "read"), None));
        assert!(!graph.check(&obj("user", "bob"), &set("application", id, "read"), None));
    }
    assert!(!graph.check(&obj("user", "alice"), &set("application", "foo", "write"), None));
}

fn userset_graph() -> RelationGraph {
    let mut graph = RelationGraph::new();
    graph.insert(&obj("user", "alice"), &set("group", "admins", "member"));
    graph.insert(
        &ObjectOrSet::RSet(set("group", "admins", "member")),
        &set("application", "foo", "admin"),
    );
    graph
}

#[test]
fn userset_rewrite_takes_two_steps() {
    let graph = userset_graph();
    let alice = obj("user", "alice");
    let foo_admin = set("application", "foo", "admin");
    assert!(graph.check(&alice, &foo_admin, None));
    assert!(graph.check(&alice, &foo_admin, Some(2)));
    assert!(!graph.check(&alice, &foo_admin, Some(1)));
    assert!(!graph.has(&alice, &foo_admin));
}

#[test]
fn limit_is_sound() {
    let graph = userset_graph();
    let alice = obj("user", "alice");
    let foo_admin = set("application", "foo", "admin");
    for k in 0..5u32 {
        if graph.check(&alice, &foo_admin, Some(k)) {
            assert!(k >= 2);
            assert!(graph.check(&alice, &foo_admin, None));
        }
    }
}

#[test]
fn expand_follows_the_chain() {
    let graph = userset_graph();
    let expanded = graph.expand(&set("application", "foo", "admin"));
    let alice: Object = ("user", "alice").into();
    assert_eq!(expanded, vec![(alice, vec![set("group", "admins", "member")])]);
}

#[test]
fn expand_of_unknown_set_is_empty() {
    let graph = userset_graph();
    assert_eq!(graph.expand(&set("application", "bar", "admin")).len(), 0);
    assert_eq!(RelationGraph::new().expand(&set("application", "foo", "admin")).len(), 0);
}

#[test]
fn expand_falls_back_to_the_wildcard() {
    let mut graph = RelationGraph::new();
    graph.insert(&obj("user", "alice"), &set("application", WILDCARD_ID, "read"));
    let expanded = graph.expand(&set("application", "unknown", "read"));
    let alice: Object = ("user", "alice").into();
    assert_eq!(expanded, vec![(alice, vec![])]);
}

#[test]
fn expand_names_each_object_once_and_each_passes_the_check() {
    let mut graph = RelationGraph::new();
    let target = set("application", "foo", "admin");
    graph.insert(&obj("user", "alice"), &set("group", "a", "member"));
    graph.insert(&obj("user", "alice"), &set("group", "b", "member"));
    graph.insert(&obj("user", "bob"), &set("group", "b", "member"));
    graph.insert(&ObjectOrSet::RSet(set("group", "a", "member")), &target);
    graph.insert(&ObjectOrSet::RSet(set("group", "b", "member")), &target);
    graph.insert(&obj("user", "carol"), &target);
    let expanded = graph.expand(&target);
    assert_eq!(expanded.len(), 3);
    for (i, (object, path)) in expanded.iter().enumerate() {
        for (other, _) in &expanded[i + 1..] {
            assert_ne!(object, other);
        }
        assert!(graph.check(&object.into(), &target, None));
        if object.id() == "carol" {
            assert_eq!(path.len(), 0);
        } else {
            assert_eq!(path.len(), 1);
        }
    }
}

#[test]
fn getters_return_the_parts() {
    let object = Object::new("user".to_string(), "alice".to_string());
    assert_eq!(object.namespace(), "user");
    assert_eq!(object.id(), "alice");
    let set = RSet::new("file".to_string(), "foo.pdf".to_string(), "read".to_string());
    assert_eq!(set.namespace(), "file");
    assert_eq!(set.id(), "foo.pdf");
    assert_eq!(set.relation(), "read");
    let as_object: ObjectOrSet = object.clone().into();
    assert_eq!(as_object.namespace(), "user");
    assert_eq!(as_object.id(), "alice");
    assert_eq!(as_object.relation(), None);
    let as_set: ObjectOrSet = set.clone().into();
    assert_eq!(as_set.namespace(), "file");
    assert_eq!(as_set.id(), "foo.pdf");
    assert_eq!(as_set.relation(), Some("read"));
    assert_eq!(ObjectOrSet::from(("file", "foo.pdf", Some("read"))), as_set);
    assert_eq!(ObjectOrSet::from(("user", "alice", None)), as_object);
    assert_ne!(as_set, as_object);
}
