use rebacdb::bimap::BidMap;
use rebacdb::bimap::BidThreeMap;
use rebacdb::graph::Event;
use rebacdb::graph::Graph;
use rebacdb::graph::ObjectOrSet;
use rebacdb::graph::ObjectRef;
use rebacdb::graph::ObjectRelation;
use rebacdb::graph::Relation;
use rebacdb::node::Distanced;
use rebacdb::node::NodeId;
use rebacdb::table::Bag;
use rebacdb::table::Table;
use rebacdb::Object;

fn object(namespace: &str, id: &str) -> Object {
    (namespace, id).into()
}

#[test]
fn bag_holds_each_member_once() {
    let mut bag: Bag<ObjectRef> = Bag::new();
    assert!(bag.insert(ObjectRef(1)));
    assert!(bag.insert(ObjectRef(2)));
    assert!(!bag.insert(ObjectRef(1)));
    assert_eq!(bag.len(), 2);
    assert!(bag.contains(&ObjectRef(2)));
    assert!(bag.remove(&ObjectRef(2)));
    assert!(!bag.remove(&ObjectRef(2)));
    assert!(!bag.contains(&ObjectRef(2)));
    assert_eq!(bag.get(0), &ObjectRef(1));
}

#[test]
fn table_keeps_the_last_value_of_a_key() {
    let mut table: Table<Relation, ObjectRef> = Table::new();
    table.insert(Relation::new("read"), ObjectRef(1));
    table.insert(Relation::new("write"), ObjectRef(2));
    table.insert(Relation::new("read"), ObjectRef(3));
    assert_eq!(table.len(), 2);
    assert_eq!(table.get(&Relation::new("read")), Some(&ObjectRef(3)));
    assert_eq!(table.get(&Relation::new("none")), None);
    assert!(table.contains_key(&Relation::new("write")));
    assert_eq!(table.remove(&Relation::new("write")), Some(ObjectRef(2)));
    assert_eq!(table.remove(&Relation::new("write")), None);
    assert_eq!(table.len(), 1);
    assert_eq!(table.key_at(0).as_str(), "read");
    assert_eq!(table.value_at(0), &ObjectRef(3));
}

#[test]
fn bidmap_maps_both_ways() {
    let mut map: BidMap<Object, ObjectRef> = BidMap::new();
    map.insert(object("user", "alice"), ObjectRef(0));
    map.insert(object("user", "bob"), ObjectRef(1));
    assert_eq!(map.get_by_a(&object("user", "alice")), Some(&ObjectRef(0)));
    assert_eq!(map.get_by_b(&ObjectRef(1)), Some(&object("user", "bob")));
    assert_eq!(map.get_by_a(&object("user", "carol")), None);
    assert_eq!(map.iter().len(), 2);
    assert_eq!(map.remove_by_a(&object("user", "alice")), Some(ObjectRef(0)));
    assert_eq!(map.get_by_b(&ObjectRef(0)), None);
    assert_eq!(map.remove_by_a(&object("user", "alice")), None);
    assert_eq!(map.remove_by_b(&ObjectRef(1)), Some(object("user", "bob")));
    assert_eq!(map.get_by_a(&object("user", "bob")), None);
    assert_eq!(map.iter().len(), 0);
}

#[test]
fn bidmap_keeps_the_old_number_of_an_object_written_again() {
    let mut map: BidMap<Object, ObjectRef> = BidMap::default();
    map.insert(object("user", "alice"), ObjectRef(0));
    map.insert(object("user", "alice"), ObjectRef(1));
    assert_eq!(map.get_by_a(&object("user", "alice")), Some(&ObjectRef(1)));
    assert_eq!(map.get_by_b(&ObjectRef(0)), Some(&object("user", "alice")));
    assert_eq!(map.get_by_b(&ObjectRef(1)), Some(&object("user", "alice")));
}

fn triples() -> BidThreeMap<ObjectRef, Relation, ObjectRef> {
    let mut map = BidThreeMap::new();
    map.insert(ObjectRef(1), Relation::new("read"), ObjectRef(10));
    map.insert(ObjectRef(1), Relation::new("read"), ObjectRef(11));
    map.insert(ObjectRef(1), Relation::new("write"), ObjectRef(10));
    map.insert(ObjectRef(2), Relation::new("read"), ObjectRef(10));
    map
}

#[test]
fn bidthreemap_finds_what_was_inserted() {
    let map = triples();
    assert!(map.has(&ObjectRef(1), &Relation::new("read"), &ObjectRef(11)));
    assert!(!map.has(&ObjectRef(2), &Relation::new("read"), &ObjectRef(11)));
    assert!(!map.has(&ObjectRef(1), &Relation::new("none"), &ObjectRef(10)));
    let mut by_ab = map.get_by_ab(&ObjectRef(1), &Relation::new("read"));
    by_ab.sort_by_key(|c| c.0);
    assert_eq!(by_ab, vec![&ObjectRef(10), &ObjectRef(11)]);
    let mut by_cb = map.get_by_cb(&ObjectRef(10), &Relation::new("read"));
    by_cb.sort_by_key(|a| a.0);
    assert_eq!(by_cb, vec![&ObjectRef(1), &ObjectRef(2)]);
    assert_eq!(map.get_by_ab(&ObjectRef(3), &Relation::new("read")).len(), 0);
    assert_eq!(map.get_by_a(&ObjectRef(1)).len(), 2);
    assert_eq!(map.get_by_a(&ObjectRef(3)).len(), 0);
    assert_eq!(map.get_by_c(&ObjectRef(10)).len(), 2);
    assert_eq!(map.get_by_c(&ObjectRef(11)).len(), 1);
}

#[test]
fn bidthreemap_remove_leaves_the_empty_set() {
    let mut map = triples();
    map.remove(&ObjectRef(2), &Relation::new("read"), &ObjectRef(10));
    assert!(!map.has(&ObjectRef(2), &Relation::new("read"), &ObjectRef(10)));
    let row = map.get_by_a(&ObjectRef(2));
    assert_eq!(row.len(), 1);
    assert_eq!(row[0].0.as_str(), "read");
    assert_eq!(row[0].1.len(), 0);
    assert_eq!(map.get_by_cb(&ObjectRef(10), &Relation::new("read")), vec![&ObjectRef(1)]);
    map.remove(&ObjectRef(7), &Relation::new("read"), &ObjectRef(10));
    assert_eq!(map.get_by_a(&ObjectRef(7)).len(), 0);
}

#[test]
fn bidthreemap_remove_by_one_side() {
    let mut map = triples();
    map.remove_by_a(&ObjectRef(1));
    assert_eq!(map.get_by_a(&ObjectRef(1)).len(), 0);
    assert_eq!(map.get_by_cb(&ObjectRef(10), &Relation::new("read")), vec![&ObjectRef(2)]);
    assert_eq!(map.get_by_cb(&ObjectRef(11), &Relation::new("read")).len(), 0);
    assert_eq!(map.get_by_c(&ObjectRef(11)).len(), 1);
    let mut map = triples();
    map.remove_by_c(&ObjectRef(10));
    assert_eq!(map.get_by_c(&ObjectRef(10)).len(), 0);
    assert_eq!(map.get_by_ab(&ObjectRef(1), &Relation::new("read")), vec![&ObjectRef(11)]);
    assert_eq!(map.get_by_ab(&ObjectRef(1), &Relation::new("write")).len(), 0);
    assert_eq!(map.get_by_a(&ObjectRef(1)).len(), 2);
    assert!(!map.has(&ObjectRef(2), &Relation::new("read"), &ObjectRef(10)));
}

#[test]
fn graph_registers_objects_under_rising_numbers() {
    let mut graph = Graph::new();
    let alice = graph.add_node(object("user", "alice"));
    let foo = graph.add_node(object("application", "foo"));
    assert_eq!(alice, ObjectRef(0));
    assert_eq!(foo, ObjectRef(1));
    assert_eq!(graph.get_node("user", "alice"), Some(alice));
    assert_eq!(graph.get_node("user", "bob"), None);
    assert!(graph.knows(&foo));
    assert!(!graph.knows(&ObjectRef(9)));
    assert!(!graph.is_full());
    assert_eq!(graph.object_from_ref(&foo), object("application", "foo"));
    graph.remove_node(object("user", "alice"));
    assert_eq!(graph.get_node("user", "alice"), None);
    assert_eq!(graph.add_node(object("user", "bob")), ObjectRef(2));
}

#[test]
fn graph_holds_relations() {
    let mut graph = Graph::default();
    let alice = graph.add_node(object("user", "alice"));
    let admins = graph.add_node(object("group", "admins"));
    let foo = graph.add_node(object("application", "foo"));
    let member = || ObjectRelation(admins, Relation::new("member"));
    let admin = || ObjectRelation(foo, Relation::new("admin"));
    let userset = || ObjectOrSet::Userset((admins, Relation::new("member")));
    graph.add_relation(ObjectOrSet::Object(alice), member());
    graph.add_relation(userset(), admin());
    assert!(graph.has_relation(ObjectOrSet::Object(alice), member()));
    assert!(graph.has_relation(userset(), admin()));
    assert!(!graph.has_relation(ObjectOrSet::Object(alice), admin()));
    assert!(!graph.has_relation(ObjectOrSet::Object(admins), admin()));
    graph.remove_relation(userset(), admin());
    assert!(!graph.has_relation(userset(), admin()));
    graph.remove_node(object("group", "admins"));
    assert!(!graph.has_relation(ObjectOrSet::Object(alice), member()));
}

#[test]
fn graph_applies_events() {
    let mut graph = Graph::new();
    assert!(graph.apply(Event::AddObject(object("user", "alice"))));
    assert!(graph.apply(Event::AddObject(object("application", "foo"))));
    let alice = graph.get_node("user", "alice").unwrap();
    let foo = graph.get_node("application", "foo").unwrap();
    let read = || ObjectRelation(foo, Relation::new("read"));
    assert!(graph.apply(Event::AddRelation((ObjectOrSet::Object(alice), read()))));
    assert!(graph.has_relation(ObjectOrSet::Object(alice), read()));
    assert!(graph.apply(Event::RemoveRelation((ObjectOrSet::Object(alice), read()))));
    assert!(!graph.has_relation(ObjectOrSet::Object(alice), read()));
    assert!(graph.apply(Event::RemoveObject(object("user", "alice"))));
    assert_eq!(graph.get_node("user", "alice"), None);
}

#[test]
fn source_parts() {
    let set = ObjectOrSet::Userset((ObjectRef(4), Relation::new("member")));
    assert_eq!(set.object_ref(), &ObjectRef(4));
    assert_eq!(set.relation().map(|r| r.as_str()), Some("member"));
    let single = ObjectOrSet::Object(ObjectRef(5));
    assert_eq!(single.object_ref(), &ObjectRef(5));
    assert!(single.relation().is_none());
}

#[test]
fn node_id_converts_to_a_source() {
    let set: NodeId = ("application", "foo", "read").into();
    assert_eq!(set.into_source(), rebacdb::ObjectOrSet::from(("application", "foo", Some("read"))));
    let single: NodeId = ("user", "alice").into();
    assert_eq!(single.into_source(), rebacdb::ObjectOrSet::from(("user", "alice", None)));
    let owned: NodeId = ("a".to_string(), "b".to_string(), Some("c".to_string())).into();
    assert_eq!(owned.relation.as_deref(), Some("c"));
}

#[test]
fn distanced_holds_its_distance() {
    let near = Distanced::one("a");
    let far = Distanced::new("b", 3);
    assert_eq!(near.distance(), 1);
    assert_eq!(far.distance(), 3);
    assert_eq!(*far.data(), "b");
    assert!(near.nearer_than(&far));
    assert!(!far.nearer_than(&near));
}

fn chained() -> (Graph, ObjectRef, ObjectRef, ObjectRef, ObjectRef) {
    let mut graph = Graph::new();
    let alice = graph.add_node(object("user", "alice"));
    let bob = graph.add_node(object("user", "bob"));
    let admins = graph.add_node(object("group", "admins"));
    let foo = graph.add_node(object("application", "foo"));
    graph.add_relation(
        ObjectOrSet::Object(alice),
        ObjectRelation(admins, Relation::new("member")),
    );
    graph.add_relation(
        ObjectOrSet::Userset((admins, Relation::new("member"))),
        ObjectRelation(foo, Relation::new("admin")),
    );
    graph.add_relation(
        ObjectOrSet::Object(bob),
        ObjectRelation(foo, Relation::new("admin")),
    );
    (graph, alice, bob, admins, foo)
}

#[test]
fn graph_follows_chains_of_sets() {
    let (graph, alice, bob, admins, foo) = chained();
    let admin = || ObjectRelation(foo, Relation::new("admin"));
    let member = || ObjectRelation(admins, Relation::new("member"));
    assert!(graph.is_related_to(ObjectOrSet::Object(alice), admin()));
    assert!(graph.is_related_to(ObjectOrSet::Object(alice), member()));
    assert!(graph.is_related_to(ObjectOrSet::Object(bob), admin()));
    assert!(!graph.is_related_to(ObjectOrSet::Object(bob), member()));
    assert!(!graph.is_related_to(ObjectOrSet::Object(foo), admin()));
    assert!(!graph.is_related_to(
        ObjectOrSet::Object(alice),
        ObjectRelation(foo, Relation::new("read"))
    ));
    let closure = graph.closure_from(&ObjectOrSet::Object(alice));
    assert_eq!(closure.len(), 2);
}

#[test]
fn graph_search_ends_on_a_cycle() {
    let mut graph = Graph::new();
    let a = graph.add_node(object("group", "a"));
    let b = graph.add_node(object("group", "b"));
    let user = graph.add_node(object("user", "alice"));
    let member = |o: ObjectRef| ObjectRelation(o, Relation::new("member"));
    let set = |o: ObjectRef| ObjectOrSet::Userset((o, Relation::new("member")));
    graph.add_relation(set(a), member(b));
    graph.add_relation(set(b), member(a));
    graph.add_relation(ObjectOrSet::Object(user), member(a));
    assert!(graph.is_related_to(ObjectOrSet::Object(user), member(b)));
    assert!(graph.is_related_to(set(a), member(a)));
    assert!(!graph.is_related_to(set(a), ObjectRelation(user, Relation::new("member"))));
    let related = graph.related_to(b, Relation::new("member"));
    assert_eq!(related.len(), 1);
    assert!(related.contains(&user));
    let all = graph.members_of(b, Relation::new("member"));
    assert_eq!(all.len(), 3);
}

#[test]
fn graph_names_who_is_related() {
    let (graph, alice, bob, admins, foo) = chained();
    let related = graph.related_to(foo, Relation::new("admin"));
    assert_eq!(related.len(), 2);
    assert!(related.contains(&alice));
    assert!(related.contains(&bob));
    assert!(!related.contains(&admins));
    let members = graph.related_to(admins, Relation::new("member"));
    assert_eq!(members.len(), 1);
    assert!(members.contains(&alice));
    assert_eq!(graph.related_to(foo, Relation::new("read")).len(), 0);
}

#[test]
fn graph_names_what_an_object_is_related_to() {
    let (graph, alice, bob, admins, foo) = chained();
    let admin_of = graph.relations(ObjectRelation(alice, Relation::new("admin")));
    assert_eq!(admin_of.len(), 1);
    assert!(admin_of.contains(&foo));
    let member_of = graph.relations(ObjectRelation(alice, Relation::new("member")));
    assert_eq!(member_of.len(), 1);
    assert!(member_of.contains(&admins));
    assert_eq!(graph.relations(ObjectRelation(bob, Relation::new("member"))).len(), 0);
    assert_eq!(graph.relations(ObjectRelation(foo, Relation::new("admin"))).len(), 0);
}

#[test]
fn entries_name_every_triple() {
    let map = triples();
    assert_eq!(map.left_entries().len(), 4);
    assert_eq!(map.right_entries().len(), 4);
}

#[test]
fn graph_text_is_exact() {
    let (mut graph, _, _, _, foo) = chained();
    graph.add_relation(
        ObjectOrSet::Userset((foo, Relation::new("owner"))),
        ObjectRelation(foo, Relation::new("admin")),
    );
    graph.add_relation(
        ObjectOrSet::Object(ObjectRef(77)),
        ObjectRelation(foo, Relation::new("admin")),
    );
    let expected = "[user:alice]\n\n[user:bob]\n\n[group:admins]\nmember = [user:alice]\n\n\
                    [application:foo]\nadmin = [group:admins#member, user:bob, self#owner]\n\n";
    assert_eq!(graph.to_file(), expected);
    assert_eq!(Graph::new().to_file(), "");
}

#[test]
fn graph_text_keeps_the_line_of_a_relation_that_nobody_bears() {
    let mut graph = Graph::new();
    let alice = graph.add_node(object("user", "alice"));
    let foo = graph.add_node(object("application", "foo"));
    graph.add_relation(ObjectOrSet::Object(alice), ObjectRelation(foo, Relation::new("read")));
    graph.remove_relation(ObjectOrSet::Object(alice), ObjectRelation(foo, Relation::new("read")));
    assert_eq!(graph.to_file(), "[user:alice]\n\n[application:foo]\nread = []\n\n");
}

#[test]
fn graph_comes_back_from_its_text() {
    let (graph, alice, bob, admins, foo) = chained();
    let loaded = Graph::from_file(&graph.to_file()).unwrap();
    assert_eq!(loaded.get_node("user", "alice"), Some(alice));
    assert_eq!(loaded.get_node("user", "bob"), Some(bob));
    assert_eq!(loaded.get_node("group", "admins"), Some(admins));
    assert_eq!(loaded.get_node("application", "foo"), Some(foo));
    assert!(loaded.has_relation(
        ObjectOrSet::Object(alice),
        ObjectRelation(admins, Relation::new("member"))
    ));
    assert!(loaded.has_relation(
        ObjectOrSet::Userset((admins, Relation::new("member"))),
        ObjectRelation(foo, Relation::new("admin"))
    ));
    assert!(loaded.is_related_to(
        ObjectOrSet::Object(alice),
        ObjectRelation(foo, Relation::new("admin"))
    ));
    assert_eq!(loaded.to_file(), graph.to_file());
}

#[test]
fn graph_reads_sources_in_any_order_of_blocks() {
    let text = "[application:foo]\nadmin = [user:alice, self#owner]\n\n[user:alice]\n";
    let graph = Graph::from_file(text).unwrap();
    let foo = graph.get_node("application", "foo").unwrap();
    let alice = graph.get_node("user", "alice").unwrap();
    assert_eq!((foo, alice), (ObjectRef(0), ObjectRef(1)));
    assert!(graph.has_relation(
        ObjectOrSet::Object(alice),
        ObjectRelation(foo, Relation::new("admin"))
    ));
    assert!(graph.has_relation(
        ObjectOrSet::Userset((foo, Relation::new("owner"))),
        ObjectRelation(foo, Relation::new("admin"))
    ));
}

#[test]
fn graph_is_not_read_where_a_source_is_unknown() {
    assert!(Graph::from_file("[application:foo]\nadmin = [user:alice]\n").is_none());
    assert!(Graph::from_file("[application:foo]\nnoise\nadmin [user:alice]\n").is_some());
    let graph = Graph::from_file("[application:foo]\nadmin = []\n").unwrap();
    let foo = graph.get_node("application", "foo").unwrap();
    assert!(graph.has_relation(
        ObjectOrSet::Object(foo),
        ObjectRelation(foo, Relation::new("admin"))
    ));
}
