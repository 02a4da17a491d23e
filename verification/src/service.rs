//! What a request must hold before it reaches the graph, and who may change
//! the relations of an object.

use vstd::prelude::*;
use crate::ident::Object;
use crate::ident::ObjectOrSet;
use crate::ident::RSet;
use crate::ident::VertexKey;
use crate::model::check_holds;
use crate::model::edges_after_insert;
use crate::expand::expansion_keys;
use crate::model::edges_after_remove;
use crate::model::is_expansion;
use crate::relation_graph::RelationGraph;

verus! {

/// The namespace of the principals that tokens name.
pub const USER_NS: &'static str = "user";

/// The namespace of the objects that stand for namespaces.
pub const NAMESPACE_NS: &'static str = "namespace";

/// The relation that allows to grant relations on an object.
pub const GRANT_RELATION: &'static str = "grant";

/// The relation that allows to revoke relations on an object.
pub const REVOKE_RELATION: &'static str = "revoke";

/// Why a request was not carried out.
#[derive(Clone, Copy, Debug, PartialEq, Eq, Structural)]
pub enum RequestError {
    /// The request names no source.
    SrcMissing,
    /// The request names no destination.
    DstMissing,
    /// The namespace of the source is empty.
    SrcNamespaceMissing,
    /// The id of the source is empty.
    SrcIdMissing,
    /// The namespace of the destination is empty.
    DstNamespaceMissing,
    /// The id of the destination is empty.
    DstIdMissing,
    /// The principal may not grant relations on the destination.
    GrantDenied,
    /// The principal may not revoke relations on the destination.
    RevokeDenied,
    /// The principal may not see who is related to the destination.
    ExpandDenied,
}

impl RequestError {
    /// The text that tells the caller what is wrong.
    pub fn message(&self) -> (r: &'static str)
        ensures
            r@ == match *self {
                RequestError::SrcMissing => "src must be set"@,
                RequestError::DstMissing => "dst must be set"@,
                RequestError::SrcNamespaceMissing => "src.namespace must be set"@,
                RequestError::SrcIdMissing => "src.id must be set"@,
                RequestError::DstNamespaceMissing => "dst.namespace must be set"@,
                RequestError::DstIdMissing => "dst.id must be set"@,
                RequestError::GrantDenied => "token not permitted to grant permissions on dst"@,
                RequestError::RevokeDenied => "token not permitted to revoke permissions on dst"@,
                RequestError::ExpandDenied => "token not permitted to expand permissions on dst"@,
            },
    {
        match self {
            RequestError::SrcMissing => "src must be set",
            RequestError::DstMissing => "dst must be set",
            RequestError::SrcNamespaceMissing => "src.namespace must be set",
            RequestError::SrcIdMissing => "src.id must be set",
            RequestError::DstNamespaceMissing => "dst.namespace must be set",
            RequestError::DstIdMissing => "dst.id must be set",
            RequestError::GrantDenied => "token not permitted to grant permissions on dst",
            RequestError::RevokeDenied => "token not permitted to revoke permissions on dst",
            RequestError::ExpandDenied => "token not permitted to expand permissions on dst",
        }
    }

    /// Whether the request was refused for what it holds, not for who sent it.
    pub fn is_invalid_argument(&self) -> (r: bool)
        ensures
            r == !(*self is GrantDenied || *self is RevokeDenied || *self is ExpandDenied),
    {
        match self {
            RequestError::GrantDenied => false,
            RequestError::RevokeDenied => false,
            RequestError::ExpandDenied => false,
            _ => true,
        }
    }
}

/// The principal that a token names: the user with the subject as its id.
pub open spec fn user_key(subject: Seq<char>) -> VertexKey {
    VertexKey { namespace: USER_NS@, id: subject, relation: None }
}

/// The principal that a token names.
pub fn user_of(subject: &str) -> (r: ObjectOrSet)
    ensures
        r@ == user_key(subject@),
{
    ObjectOrSet::Object(Object::new(USER_NS.to_owned(), subject.to_owned()))
}

/// What the source of a request is held to: a namespace and an id that are
/// not empty, tested in that order.
pub open spec fn source_fault(src: VertexKey) -> Option<RequestError> {
    if src.namespace.len() == 0 {
        Some(RequestError::SrcNamespaceMissing)
    } else if src.id.len() == 0 {
        Some(RequestError::SrcIdMissing)
    } else {
        None
    }
}

/// What the destination of a request is held to: a namespace and an id that
/// are not empty, tested in that order.
pub open spec fn destination_fault(dst: VertexKey) -> Option<RequestError> {
    if dst.namespace.len() == 0 {
        Some(RequestError::DstNamespaceMissing)
    } else if dst.id.len() == 0 {
        Some(RequestError::DstIdMissing)
    } else {
        None
    }
}

/// The source of a request. Where the request names none, it is the
/// principal of the token. One that the request names needs a namespace and
/// an id.
pub fn extract_src(src: Option<ObjectOrSet>, subject: &str) -> (r: Result<
    ObjectOrSet,
    RequestError,
>)
    ensures
        src is None ==> r is Ok && r->Ok_0@ == user_key(subject@),
        src is Some ==> match source_fault(src->0@) {
            Some(fault) => r == Err::<ObjectOrSet, RequestError>(fault),
            None => r is Ok && r->Ok_0@ == src->0@,
        },
{
    match src {
        Some(src) => {
            if src.namespace().is_empty() {
                Err(RequestError::SrcNamespaceMissing)
            } else if src.id().is_empty() {
                Err(RequestError::SrcIdMissing)
            } else {
                Ok(src)
            }
        },
        None => Ok(user_of(subject)),
    }
}

/// The destination of a request: it must be named, with a namespace and an id.
pub fn extract_dst(dst: Option<&RSet>) -> (r: Result<RSet, RequestError>)
    ensures
        dst is None ==> r == Err::<RSet, RequestError>(RequestError::DstMissing),
        dst is Some ==> match destination_fault(dst->0@) {
            Some(fault) => r == Err::<RSet, RequestError>(fault),
            None => r is Ok && r->Ok_0@ == dst->0@,
        },
{
    match dst {
        None => Err(RequestError::DstMissing),
        Some(dst) => {
            if dst.namespace().is_empty() {
                Err(RequestError::DstNamespaceMissing)
            } else if dst.id().is_empty() {
                Err(RequestError::DstIdMissing)
            } else {
                Ok(dst.clone())
            }
        },
    }
}

/// The source and the destination of a request that must name both. The
/// destination is tested first.
pub fn extract_src_dst(src: Option<&ObjectOrSet>, dst: Option<&RSet>) -> (r: Result<
    (ObjectOrSet, RSet),
    RequestError,
>)
    ensures
        src is None ==> r == Err::<(ObjectOrSet, RSet), RequestError>(RequestError::SrcMissing),
        src is Some && dst is None ==> r == Err::<(ObjectOrSet, RSet), RequestError>(
            RequestError::DstMissing,
        ),
        src is Some && dst is Some ==> match (
            destination_fault(dst->0@),
            source_fault(src->0@),
        ) {
            (Some(fault), _) => r == Err::<(ObjectOrSet, RSet), RequestError>(fault),
            (None, Some(fault)) => r == Err::<(ObjectOrSet, RSet), RequestError>(fault),
            (None, None) => r is Ok && r->Ok_0.0@ == src->0@ && r->Ok_0.1@ == dst->0@,
        },
{
    let src = match src {
        Some(src) => src,
        None => {
            return Err(RequestError::SrcMissing);
        },
    };
    let dst = match dst {
        Some(dst) => dst,
        None => {
            return Err(RequestError::DstMissing);
        },
    };
    if dst.namespace().is_empty() {
        return Err(RequestError::DstNamespaceMissing);
    }
    if dst.id().is_empty() {
        return Err(RequestError::DstIdMissing);
    }
    if src.namespace().is_empty() {
        return Err(RequestError::SrcNamespaceMissing);
    }
    if src.id().is_empty() {
        return Err(RequestError::SrcIdMissing);
    }
    Ok((src.clone(), dst.clone()))
}

/// The set of those that bear `relation` on the object of `dst`.
pub open spec fn on_object(dst: VertexKey, relation: Seq<char>) -> VertexKey {
    VertexKey { namespace: dst.namespace, id: dst.id, relation: Some(relation) }
}

/// The set of those that bear `relation` on the namespace of `dst`.
pub open spec fn on_namespace(dst: VertexKey, relation: Seq<char>) -> VertexKey {
    VertexKey { namespace: NAMESPACE_NS@, id: dst.namespace, relation: Some(relation) }
}

impl RelationGraph {
    /// Whether the principal of a token bears `relation` on the object of
    /// `dst` or on its namespace.
    pub fn is_permitted(&self, subject: &str, dst: &RSet, relation: &str) -> (r: bool)
        ensures
            r == (check_holds(self@, user_key(subject@), on_object(dst@, relation@), None)
                || check_holds(self@, user_key(subject@), on_namespace(dst@, relation@), None)),
    {
        let user = user_of(subject);
        let object = RSet::new(dst.namespace.clone(), dst.id.clone(), relation.to_owned());
        let namespace = RSet::new(
            NAMESPACE_NS.to_owned(),
            dst.namespace.clone(),
            relation.to_owned(),
        );
        let s1 = self.check(&user, &object, None);
        let s2 = self.check(&user, &namespace, None);
        s1 || s2
    }

    /// Grants a relation on behalf of the principal of a token, if that
    /// principal may grant on the destination.
    pub fn grant(&mut self, subject: &str, src: &ObjectOrSet, dst: &RSet) -> (r: Result<
        (),
        RequestError,
    >)
        ensures
            r is Ok <==> (check_holds(
                old(self)@,
                user_key(subject@),
                on_object(dst@, GRANT_RELATION@),
                None,
            ) || check_holds(
                old(self)@,
                user_key(subject@),
                on_namespace(dst@, GRANT_RELATION@),
                None,
            )),
            r is Ok ==> final(self)@ == edges_after_insert(old(self)@, src@, dst@),
            r is Err ==> r == Err::<(), RequestError>(RequestError::GrantDenied) && final(self)@
                == old(self)@,
    {
        if !self.is_permitted(subject, dst, GRANT_RELATION) {
            return Err(RequestError::GrantDenied);
        }
        self.insert(src, dst);
        Ok(())
    }

    /// All objects that are related to `dst`, for a principal that may grant
    /// on `dst`.
    pub fn expand_for(&self, subject: &str, dst: &RSet) -> (r: Result<
        Vec<(Object, Vec<RSet>)>,
        RequestError,
    >)
        ensures
            r is Ok <==> (check_holds(
                self@,
                user_key(subject@),
                on_object(dst@, GRANT_RELATION@),
                None,
            ) || check_holds(self@, user_key(subject@), on_namespace(dst@, GRANT_RELATION@), None)),
            r is Ok ==> is_expansion(self@, dst@, expansion_keys(r->Ok_0@)),
            r is Err ==> r->Err_0 == RequestError::ExpandDenied,
    {
        if !self.is_permitted(subject, dst, GRANT_RELATION) {
            return Err(RequestError::ExpandDenied);
        }
        Ok(self.expand(dst))
    }

    /// Revokes a relation on behalf of the principal of a token, if that
    /// principal may revoke on the destination.
    pub fn revoke(&mut self, subject: &str, src: &ObjectOrSet, dst: &RSet) -> (r: Result<
        (),
        RequestError,
    >)
        ensures
            r is Ok <==> (check_holds(
                old(self)@,
                user_key(subject@),
                on_object(dst@, REVOKE_RELATION@),
                None,
            ) || check_holds(
                old(self)@,
                user_key(subject@),
                on_namespace(dst@, REVOKE_RELATION@),
                None,
            )),
            r is Ok ==> final(self)@ == edges_after_remove(old(self)@, src@, dst@),
            r is Err ==> r == Err::<(), RequestError>(RequestError::RevokeDenied) && final(self)@
                == old(self)@,
    {
        if !self.is_permitted(subject, dst, REVOKE_RELATION) {
            return Err(RequestError::RevokeDenied);
        }
        self.remove(src, dst);
        Ok(())
    }
}

} // verus!
