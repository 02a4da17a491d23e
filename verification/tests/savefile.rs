use rebacdb::Object;
use rebacdb::ObjectOrSet;
use rebacdb::RSet;
use rebacdb::RelationGraph;
use rebacdb::WILDCARD_ID;

fn obj(namespace: &str, id: &str) -> ObjectOrSet {
    let object: Object = (namespace, id).into();
    object.into()
}

fn set(namespace: &str, id: &str, relation: &str) -> RSet {
    (namespace, id, relation).into()
}

#[test]
fn snapshot_of_the_empty_graph_is_empty() {
    assert_eq!(RelationGraph::new().write_savefile(), "");
    assert_eq!(RelationGraph::read_savefile("").vertices().len(), 0);
}

#[test]
fn snapshot_text_is_exact() {
    let mut graph = RelationGraph::new();
    graph.insert(&obj("user", "alice"), &set("group", "admins", "member"));
    graph.insert(
        &ObjectOrSet::RSet(set("group", "admins", "member")),
        &set("application", "foo", "admin"),
    );
    graph.insert(
        &ObjectOrSet::RSet(set("application", "foo", "owner")),
        &set("application", "foo", "admin"),
    );
    let expected = "\n[application:*]\nadmin = [  ]\nowner = [  ]\n\
                    \n[application:foo]\nadmin = [ self#owner, group:admins#member ]\nowner = [  ]\n\
                    \n[group:*]\nmember = [  ]\n\
                    \n[group:admins]\nmember = [ user:alice ]\n\
                    \n[user:*]\n\
                    \n[user:alice]\n";
    assert_eq!(graph.write_savefile(), expected);
}

#[test]
fn read_of_a_written_line() {
    let graph = RelationGraph::read_savefile(
        "\n[application:foo]\nadmin = [ self#owner, group:admins#member, user:bob, self ]\n",
    );
    let admin = set("application", "foo", "admin");
    assert!(graph.has(&ObjectOrSet::RSet(set("application", "foo", "owner")), &admin));
    assert!(graph.has(&ObjectOrSet::RSet(set("group", "admins", "member")), &admin));
    assert!(graph.has(&obj("user", "bob"), &admin));
    assert!(graph.has(&obj("application", "foo"), &admin));
    assert!(graph.has(&ObjectOrSet::RSet(set("application", WILDCARD_ID, "admin")), &admin));
    assert!(graph.has_vertex(&obj("user", WILDCARD_ID)));
}

#[test]
fn read_passes_over_what_is_no_line_of_the_format() {
    let text = "read = [ user:alice ]\nnoise\n[broken]\n[\n[application:foo]\r\n\
                = ] [\n] = [ user:eve\nread = [  ]\nread = [ user:alice ]";
    let graph = RelationGraph::read_savefile(text);
    let read = set("application", "foo", "read");
    assert!(graph.has(&obj("user", "alice"), &read));
    assert!(!graph.has_vertex(&obj("user", "eve")));
    assert!(!graph.has(&obj("application", "foo"), &read));
    assert_eq!(graph.vertices().len(), 4);
}

#[test]
fn read_line_by_line_gives_the_same_graph() {
    let text = "\n[application:foo]\nread = [ user:alice, group:admins#member ]\n";
    let whole = RelationGraph::read_savefile(text);
    let mut stepwise = RelationGraph::new();
    let mut current = None;
    for line in text.lines() {
        current = stepwise.apply_line(current, line);
    }
    assert_eq!(current, Some(("application".to_string(), "foo".to_string())));
    assert_eq!(whole.write_savefile(), stepwise.write_savefile());
}

#[test]
fn relation_and_payload_are_trimmed() {
    let text = "[a:b]\n \t read\u{a0} = x [\u{2003}user:alice ] tail";
    let graph = RelationGraph::read_savefile(text);
    assert!(graph.has(&obj("user", "alice"), &set("a", "b", "read")));
}

#[test]
fn header_takes_the_id_up_to_a_second_colon() {
    let graph = RelationGraph::read_savefile("[a:b:c]\nread = [ user:alice ]");
    assert!(graph.has(&obj("user", "alice"), &set("a", "b", "read")));
}

#[test]
fn snapshot_round_trip() {
    let mut graph = RelationGraph::new();
    graph.insert(&obj("user", WILDCARD_ID), &set("application", "foo", "read"));
    graph.insert(&obj("user", "alice"), &set("group", "admins", "member"));
    graph.insert(
        &ObjectOrSet::RSet(set("group", "admins", "member")),
        &set("application", "foo", "admin"),
    );
    let text = graph.write_savefile();
    let loaded = RelationGraph::read_savefile(&text);
    let alice = obj("user", "alice");
    let foo_admin = set("application", "foo", "admin");
    assert!(loaded.check(&alice, &foo_admin, None));
    assert!(loaded.check(&alice, &foo_admin, Some(2)));
    assert!(!loaded.check(&alice, &foo_admin, Some(1)));
    assert!(!loaded.check(&obj("user", "bob"), &set("application", "bar", "read"), None));
    assert!(!loaded.check(&obj("user", "bob"), &set("other", "foo", "read"), None));
    assert_eq!(loaded.expand(&foo_admin), graph.expand(&foo_admin));
}

#[test]
fn snapshot_round_trip_with_a_wildcard_destination() {
    let mut graph = RelationGraph::new();
    graph.insert(&obj("user", "alice"), &set("group", "admins", "member"));
    graph.insert(
        &ObjectOrSet::RSet(set("group", "admins", "member")),
        &set("application", "foo", "admin"),
    );
    graph.insert(&obj("user", "alice"), &set("application", WILDCARD_ID, "read"));
    let text = graph.write_savefile();
    let loaded = RelationGraph::read_savefile(&text);
    assert_eq!(loaded.write_savefile(), text);
    assert_eq!(loaded.vertices(), graph.vertices());
    let alice = obj("user", "alice");
    assert!(loaded.check(&alice, &set("application", "bar", "read"), None));
    assert!(!loaded.check(&obj("user", "bob"), &set("application", "bar", "read"), None));
}

#[test]
fn snapshot_leaves_out_wildcard_sources() {
    let mut graph = RelationGraph::new();
    let foo_read = set("application", "foo", "read");
    graph.insert(&obj("user", WILDCARD_ID), &foo_read);
    let text = graph.write_savefile();
    assert_eq!(
        text,
        "\n[application:*]\nread = [  ]\n\n[application:foo]\nread = [  ]\n\n[user:*]\n"
    );
    let loaded = RelationGraph::read_savefile(&text);
    assert!(!loaded.check(&obj("user", "alice"), &foo_read, None));
}
