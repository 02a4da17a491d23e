use rebacdb::service::extract_dst;
use rebacdb::service::extract_src;
use rebacdb::service::extract_src_dst;
use rebacdb::service::user_of;
use rebacdb::service::RequestError;
use rebacdb::service::GRANT_RELATION;
use rebacdb::service::NAMESPACE_NS;
use rebacdb::service::REVOKE_RELATION;
use rebacdb::service::USER_NS;
use rebacdb::ObjectOrSet;
use rebacdb::RSet;
use rebacdb::RelationGraph;

fn set(namespace: &str, id: &str, relation: &str) -> RSet {
    (namespace, id, relation).into()
}

#[test]
fn source_defaults_to_the_principal() {
    assert_eq!(extract_src(None, "alice"), Ok(ObjectOrSet::from(("user", "alice", None))));
    assert_eq!(user_of("alice"), ObjectOrSet::from((USER_NS, "alice", None)));
}

#[test]
fn source_needs_namespace_and_id() {
    let given = |ns: &str, id: &str| Some(ObjectOrSet::from((ns, id, Some("member"))));
    assert_eq!(extract_src(given("", "x"), "alice"), Err(RequestError::SrcNamespaceMissing));
    assert_eq!(extract_src(given("", ""), "alice"), Err(RequestError::SrcNamespaceMissing));
    assert_eq!(extract_src(given("group", ""), "alice"), Err(RequestError::SrcIdMissing));
    assert_eq!(
        extract_src(given("group", "admins"), "alice"),
        Ok(ObjectOrSet::from(("group", "admins", Some("member"))))
    );
}

#[test]
fn destination_needs_namespace_and_id() {
    assert_eq!(extract_dst(None), Err(RequestError::DstMissing));
    assert_eq!(extract_dst(Some(&set("", "foo", "read"))), Err(RequestError::DstNamespaceMissing));
    assert_eq!(extract_dst(Some(&set("app", "", "read"))), Err(RequestError::DstIdMissing));
    assert_eq!(extract_dst(Some(&set("app", "foo", ""))), Ok(set("app", "foo", "")));
}

#[test]
fn both_ends_are_tested_destination_first() {
    let src = ObjectOrSet::from(("", "", None));
    let good = ObjectOrSet::from(("user", "alice", None));
    assert_eq!(extract_src_dst(None, None), Err(RequestError::SrcMissing));
    assert_eq!(extract_src_dst(Some(&src), None), Err(RequestError::DstMissing));
    assert_eq!(
        extract_src_dst(Some(&src), Some(&set("", "", "read"))),
        Err(RequestError::DstNamespaceMissing)
    );
    assert_eq!(
        extract_src_dst(Some(&src), Some(&set("app", "", "read"))),
        Err(RequestError::DstIdMissing)
    );
    assert_eq!(
        extract_src_dst(Some(&src), Some(&set("app", "foo", "read"))),
        Err(RequestError::SrcNamespaceMissing)
    );
    assert_eq!(
        extract_src_dst(
            Some(&ObjectOrSet::from(("user", "", None))),
            Some(&set("app", "foo", "read"))
        ),
        Err(RequestError::SrcIdMissing)
    );
    assert_eq!(
        extract_src_dst(Some(&good), Some(&set("app", "foo", "read"))),
        Ok((good.clone(), set("app", "foo", "read")))
    );
}

#[test]
fn messages_name_the_fault() {
    assert_eq!(RequestError::SrcMissing.message(), "src must be set");
    assert_eq!(RequestError::DstMissing.message(), "dst must be set");
    assert_eq!(RequestError::SrcNamespaceMissing.message(), "src.namespace must be set");
    assert_eq!(RequestError::SrcIdMissing.message(), "src.id must be set");
    assert_eq!(RequestError::DstNamespaceMissing.message(), "dst.namespace must be set");
    assert_eq!(RequestError::DstIdMissing.message(), "dst.id must be set");
    assert_eq!(
        RequestError::GrantDenied.message(),
        "token not permitted to grant permissions on dst"
    );
    assert_eq!(
        RequestError::RevokeDenied.message(),
        "token not permitted to revoke permissions on dst"
    );
    assert!(RequestError::DstIdMissing.is_invalid_argument());
    assert!(!RequestError::GrantDenied.is_invalid_argument());
    assert!(!RequestError::RevokeDenied.is_invalid_argument());
    assert_eq!(
        RequestError::ExpandDenied.message(),
        "token not permitted to expand permissions on dst"
    );
    assert!(!RequestError::ExpandDenied.is_invalid_argument());
}

#[test]
fn expansion_needs_the_grant_relation() {
    let mut graph = RelationGraph::new();
    let foo_read = set("application", "foo", "read");
    graph.insert(&user_of("bob"), &foo_read);
    assert_eq!(graph.expand_for("alice", &foo_read), Err(RequestError::ExpandDenied));
    graph.insert(&user_of("alice"), &set("application", "foo", GRANT_RELATION));
    let expanded = graph.expand_for("alice", &foo_read).unwrap();
    assert_eq!(expanded.len(), 1);
    assert_eq!(expanded[0].0.id(), "bob");
    assert_eq!(expanded[0].1.len(), 0);
}

#[test]
fn grant_and_revoke_need_the_relation_on_the_object_or_its_namespace() {
    let mut graph = RelationGraph::new();
    let alice = user_of("alice");
    let bob = user_of("bob");
    let foo_read = set("application", "foo", "read");
    assert_eq!(graph.grant("alice", &bob, &foo_read), Err(RequestError::GrantDenied));
    assert!(!graph.has(&bob, &foo_read));
    graph.insert(&alice, &set("application", "foo", GRANT_RELATION));
    assert!(graph.is_permitted("alice", &foo_read, GRANT_RELATION));
    assert!(!graph.is_permitted("alice", &foo_read, REVOKE_RELATION));
    assert!(!graph.is_permitted("bob", &foo_read, GRANT_RELATION));
    assert_eq!(graph.grant("alice", &bob, &foo_read), Ok(()));
    assert!(graph.has(&bob, &foo_read));
    assert_eq!(graph.revoke("alice", &bob, &foo_read), Err(RequestError::RevokeDenied));
    assert!(graph.has(&bob, &foo_read));
    graph.insert(&alice, &set(NAMESPACE_NS, "application", REVOKE_RELATION));
    assert!(graph.is_permitted("alice", &set("application", "bar", "read"), REVOKE_RELATION));
    assert_eq!(graph.revoke("alice", &bob, &foo_read), Ok(()));
    assert!(!graph.has(&bob, &foo_read));
}
