//! Identifiers: objects, sets of principals, and the order between them.

use vstd::prelude::*;
use vstd::std_specs::cmp::PartialEqSpecImpl;
use vstd::std_specs::convert::FromSpecImpl;
use vstd::string::StringSliceAdditionalSpecFns;
use vstd::utf8::encode_utf8;
use vstd::utf8::encode_utf8_decode_utf8;
use crate::order::Sign;
use crate::order::bytes_lt;
use crate::order::compare_bytes;
use crate::order::lemma_bytes_lt_asymmetric;
use crate::order::lemma_bytes_lt_irreflexive;
use crate::order::lemma_bytes_lt_total;
use crate::order::lemma_bytes_lt_transitive;

verus! {

/// The id that stands for every member of a namespace.
pub const WILDCARD_ID: &'static str = "*";

/// The text of the wildcard id.
pub open spec fn wildcard_text() -> Seq<char> {
    seq!['*']
}

/// The identity of a vertex: a namespace, an id, and a relation where the
/// identifier is a set.
pub struct VertexKey {
    pub namespace: Seq<char>,
    pub id: Seq<char>,
    pub relation: Option<Seq<char>>,
}

impl VertexKey {
    /// The key stands for an object: it has no relation.
    pub open spec fn is_object(self) -> bool {
        self.relation is None
    }

    /// The key stands for a set: it has a relation.
    pub open spec fn is_set(self) -> bool {
        self.relation is Some
    }

    /// The same key with the wildcard in place of its id.
    pub open spec fn wildcard(self) -> VertexKey {
        VertexKey { namespace: self.namespace, id: wildcard_text(), relation: self.relation }
    }
}

/// `a` comes strictly before `b` in the order of `str`, which is that of the UTF-8 bytes.
pub open spec fn text_lt(a: Seq<char>, b: Seq<char>) -> bool {
    bytes_lt(encode_utf8(a), encode_utf8(b))
}

/// What a three-way comparison of two texts returns.
pub open spec fn text_sign(a: Seq<char>, b: Seq<char>) -> Sign {
    if text_lt(a, b) {
        Sign::Less
    } else if a == b {
        Sign::Equal
    } else {
        Sign::Greater
    }
}

/// An absent relation comes before every relation; two relations are ordered as texts.
pub open spec fn relation_lt(a: Option<Seq<char>>, b: Option<Seq<char>>) -> bool {
    match (a, b) {
        (None, Some(_)) => true,
        (Some(x), Some(y)) => text_lt(x, y),
        _ => false,
    }
}

/// The total order of vertices: by namespace, then id, then relation.
pub open spec fn key_lt(x: VertexKey, y: VertexKey) -> bool {
    ||| text_lt(x.namespace, y.namespace)
    ||| (x.namespace == y.namespace && text_lt(x.id, y.id))
    ||| (x.namespace == y.namespace && x.id == y.id && relation_lt(x.relation, y.relation))
}

/// What a three-way comparison of two keys returns.
pub open spec fn key_sign(x: VertexKey, y: VertexKey) -> Sign {
    if key_lt(x, y) {
        Sign::Less
    } else if x == y {
        Sign::Equal
    } else {
        Sign::Greater
    }
}

/// Two texts with the same UTF-8 encoding are the same text.
pub proof fn lemma_encoding_injective(a: Seq<char>, b: Seq<char>)
    requires
        encode_utf8(a) == encode_utf8(b),
    ensures
        a == b,
{
    encode_utf8_decode_utf8(a);
    encode_utf8_decode_utf8(b);
}

/// The order of texts is a strict total order.
pub proof fn lemma_text_order(a: Seq<char>, b: Seq<char>, c: Seq<char>)
    ensures
        !text_lt(a, a),
        text_lt(a, b) ==> !text_lt(b, a),
        text_lt(a, b) && text_lt(b, c) ==> text_lt(a, c),
        a == b || text_lt(a, b) || text_lt(b, a),
{
    lemma_bytes_lt_irreflexive(encode_utf8(a));
    if text_lt(a, b) {
        lemma_bytes_lt_asymmetric(encode_utf8(a), encode_utf8(b));
        if text_lt(b, c) {
            lemma_bytes_lt_transitive(encode_utf8(a), encode_utf8(b), encode_utf8(c));
        }
    }
    lemma_bytes_lt_total(encode_utf8(a), encode_utf8(b));
    if encode_utf8(a) == encode_utf8(b) {
        lemma_encoding_injective(a, b);
    }
}

/// The order of relations is a strict total order.
pub proof fn lemma_relation_order(
    a: Option<Seq<char>>,
    b: Option<Seq<char>>,
    c: Option<Seq<char>>,
)
    ensures
        !relation_lt(a, a),
        relation_lt(a, b) ==> !relation_lt(b, a),
        relation_lt(a, b) && relation_lt(b, c) ==> relation_lt(a, c),
        a == b || relation_lt(a, b) || relation_lt(b, a),
{
    match (a, b, c) {
        (Some(x), Some(y), Some(z)) => {
            lemma_text_order(x, y, z);
        },
        (Some(x), Some(y), None) => {
            lemma_text_order(x, y, x);
        },
        (Some(x), None, _) => {
            lemma_text_order(x, x, x);
        },
        _ => {},
    }
}

/// The order of keys is irreflexive and asymmetric.
pub proof fn lemma_key_lt_asymmetric(x: VertexKey, y: VertexKey)
    ensures
        !key_lt(x, x),
        key_lt(x, y) ==> !key_lt(y, x),
{
    lemma_text_order(x.namespace, y.namespace, x.namespace);
    lemma_text_order(x.id, y.id, x.id);
    lemma_relation_order(x.relation, y.relation, x.relation);
}

/// The order of keys is transitive.
pub proof fn lemma_key_lt_transitive(x: VertexKey, y: VertexKey, z: VertexKey)
    requires
        key_lt(x, y),
        key_lt(y, z),
    ensures
        key_lt(x, z),
{
    lemma_text_order(x.namespace, y.namespace, z.namespace);
    lemma_text_order(x.id, y.id, z.id);
    lemma_relation_order(x.relation, y.relation, z.relation);
}

/// The order of keys is total.
pub proof fn lemma_key_lt_total(x: VertexKey, y: VertexKey)
    ensures
        x == y || key_lt(x, y) || key_lt(y, x),
{
    lemma_text_order(x.namespace, y.namespace, x.namespace);
    lemma_text_order(x.id, y.id, x.id);
    lemma_relation_order(x.relation, y.relation, x.relation);
}

/// Compares two texts in the order of `str`.
pub fn compare_text(a: &str, b: &str) -> (r: Sign)
    ensures
        r == text_sign(a@, b@),
        r == Sign::Greater <==> text_lt(b@, a@),
{
    let r = compare_bytes(a.as_bytes(), b.as_bytes());
    proof {
        if a.spec_bytes() == b.spec_bytes() {
            lemma_encoding_injective(a@, b@);
        }
        lemma_text_order(a@, b@, a@);
    }
    r
}

/// Whether two texts are the same.
pub fn same_text(a: &str, b: &str) -> (r: bool)
    ensures
        r == (a@ == b@),
{
    compare_text(a, b) == Sign::Equal
}

/// Whether an id is the wildcard.
pub fn is_wildcard(id: &str) -> (r: bool)
    ensures
        r == (id@ == wildcard_text()),
{
    proof {
        reveal_strlit("*");
        assert("*"@ =~= wildcard_text());
    }
    same_text(id, WILDCARD_ID)
}

/// An object, such as (`user`, `alice`).
#[derive(Debug)]
pub struct Object {
    pub namespace: String,
    pub id: String,
}

/// An object together with a relation, such as (`file`, `foo.pdf`, `read`): the
/// set of principals that bear the relation on the object.
#[derive(Debug)]
pub struct RSet {
    pub namespace: String,
    pub id: String,
    pub relation: String,
}

/// The source of a relation tuple: an object or a set.
#[derive(Debug)]
pub enum ObjectOrSet {
    Object(Object),
    RSet(RSet),
}

impl View for Object {
    type V = VertexKey;

    open spec fn view(&self) -> VertexKey {
        VertexKey { namespace: self.namespace@, id: self.id@, relation: None }
    }
}

impl View for RSet {
    type V = VertexKey;

    open spec fn view(&self) -> VertexKey {
        VertexKey { namespace: self.namespace@, id: self.id@, relation: Some(self.relation@) }
    }
}

impl View for ObjectOrSet {
    type V = VertexKey;

    open spec fn view(&self) -> VertexKey {
        match self {
            ObjectOrSet::Object(obj) => obj@,
            ObjectOrSet::RSet(set) => set@,
        }
    }
}

impl Object {
    /// An object of a namespace.
    pub fn new(namespace: String, id: String) -> (r: Self)
        ensures
            r.namespace == namespace,
            r.id == id,
            r@ == (VertexKey { namespace: namespace@, id: id@, relation: None }),
    {
        Object { namespace, id }
    }

    /// The namespace of the object.
    pub fn namespace(&self) -> (r: &str)
        ensures
            r@ == self@.namespace,
    {
        self.namespace.as_str()
    }

    /// The id of the object.
    pub fn id(&self) -> (r: &str)
        ensures
            r@ == self@.id,
    {
        self.id.as_str()
    }
}

impl RSet {
    /// The set of those that bear a relation on an object.
    pub fn new(namespace: String, id: String, relation: String) -> (r: Self)
        ensures
            r.namespace == namespace,
            r.id == id,
            r.relation == relation,
            r@ == (VertexKey { namespace: namespace@, id: id@, relation: Some(relation@) }),
    {
        RSet { namespace, id, relation }
    }

    /// The namespace of the object of the set.
    pub fn namespace(&self) -> (r: &str)
        ensures
            r@ == self@.namespace,
    {
        self.namespace.as_str()
    }

    /// The id of the object of the set.
    pub fn id(&self) -> (r: &str)
        ensures
            r@ == self@.id,
    {
        self.id.as_str()
    }

    /// The relation of the set.
    pub fn relation(&self) -> (r: &str)
        ensures
            Some(r@) == self@.relation,
    {
        self.relation.as_str()
    }
}

impl ObjectOrSet {
    /// The namespace of the identifier.
    pub fn namespace(&self) -> (r: &str)
        ensures
            r@ == self@.namespace,
    {
        match self {
            ObjectOrSet::Object(obj) => obj.namespace(),
            ObjectOrSet::RSet(set) => set.namespace(),
        }
    }

    /// The id of the identifier.
    pub fn id(&self) -> (r: &str)
        ensures
            r@ == self@.id,
    {
        match self {
            ObjectOrSet::Object(obj) => obj.id(),
            ObjectOrSet::RSet(set) => set.id(),
        }
    }

    /// The relation of the identifier, where it is a set.
    pub fn relation(&self) -> (r: Option<&str>)
        ensures
            r is Some <==> self@.relation is Some,
            r is Some ==> r->0@ == self@.relation->0,
    {
        match self {
            ObjectOrSet::Object(_) => None,
            ObjectOrSet::RSet(set) => Some(set.relation()),
        }
    }

    /// An identifier made of a namespace, an id and, for a set, a relation.
    pub fn from_parts(namespace: &str, id: &str, relation: Option<&str>) -> (r: Self)
        ensures
            r@.namespace == namespace@,
            r@.id == id@,
            relation is Some <==> r@.relation is Some,
            relation is Some ==> r@.relation->0 == relation->0@,
    {
        match relation {
            Some(rel) => ObjectOrSet::RSet(
                RSet::new(namespace.to_owned(), id.to_owned(), rel.to_owned()),
            ),
            None => ObjectOrSet::Object(Object::new(namespace.to_owned(), id.to_owned())),
        }
    }
}

impl Clone for Object {
    fn clone(&self) -> (r: Self)
        ensures
            r == *self,
    {
        Object { namespace: self.namespace.clone(), id: self.id.clone() }
    }
}

impl Clone for RSet {
    fn clone(&self) -> (r: Self)
        ensures
            r == *self,
    {
        RSet {
            namespace: self.namespace.clone(),
            id: self.id.clone(),
            relation: self.relation.clone(),
        }
    }
}

impl Clone for ObjectOrSet {
    fn clone(&self) -> (r: Self)
        ensures
            r == *self,
    {
        match self {
            ObjectOrSet::Object(obj) => ObjectOrSet::Object(obj.clone()),
            ObjectOrSet::RSet(set) => ObjectOrSet::RSet(set.clone()),
        }
    }
}

impl PartialEq for Object {
    fn eq(&self, other: &Self) -> (r: bool) {
        same_text(self.namespace.as_str(), other.namespace.as_str()) && same_text(
            self.id.as_str(),
            other.id.as_str(),
        )
    }
}

impl PartialEqSpecImpl for Object {
    open spec fn obeys_eq_spec() -> bool {
        true
    }

    open spec fn eq_spec(&self, other: &Self) -> bool {
        self@ == other@
    }
}

impl Eq for Object {

}

impl PartialEq for RSet {
    fn eq(&self, other: &Self) -> (r: bool) {
        same_text(self.namespace.as_str(), other.namespace.as_str()) && same_text(
            self.id.as_str(),
            other.id.as_str(),
        ) && same_text(self.relation.as_str(), other.relation.as_str())
    }
}

impl PartialEqSpecImpl for RSet {
    open spec fn obeys_eq_spec() -> bool {
        true
    }

    open spec fn eq_spec(&self, other: &Self) -> bool {
        self@ == other@
    }
}

impl Eq for RSet {

}

impl PartialEq for ObjectOrSet {
    fn eq(&self, other: &Self) -> (r: bool) {
        compare_keys(self, other) == Sign::Equal
    }
}

impl PartialEqSpecImpl for ObjectOrSet {
    open spec fn obeys_eq_spec() -> bool {
        true
    }

    open spec fn eq_spec(&self, other: &Self) -> bool {
        self@ == other@
    }
}

impl Eq for ObjectOrSet {

}

/// Compares two identifiers in the total order of vertices.
pub fn compare_keys(a: &ObjectOrSet, b: &ObjectOrSet) -> (r: Sign)
    ensures
        r == key_sign(a@, b@),
        r == Sign::Greater <==> key_lt(b@, a@),
{
    proof {
        lemma_key_lt_asymmetric(a@, b@);
        lemma_key_lt_asymmetric(b@, a@);
        lemma_key_lt_total(a@, b@);
        lemma_text_order(a@.namespace, b@.namespace, a@.namespace);
        lemma_text_order(a@.id, b@.id, a@.id);
        lemma_relation_order(a@.relation, b@.relation, a@.relation);
    }
    let by_namespace = compare_text(a.namespace(), b.namespace());
    if by_namespace != Sign::Equal {
        return by_namespace;
    }
    let by_id = compare_text(a.id(), b.id());
    if by_id != Sign::Equal {
        return by_id;
    }
    match (a.relation(), b.relation()) {
        (None, None) => Sign::Equal,
        (None, Some(_)) => Sign::Less,
        (Some(_), None) => Sign::Greater,
        (Some(x), Some(y)) => {
            proof {
                lemma_text_order(x@, y@, x@);
            }
            compare_text(x, y)
        },
    }
}

/// Whether two identifiers are the same.
pub fn same_key(a: &ObjectOrSet, b: &ObjectOrSet) -> (r: bool)
    ensures
        r == (a@ == b@),
{
    compare_keys(a, b) == Sign::Equal
}

impl From<(String, String)> for Object {
    fn from(value: (String, String)) -> (r: Self) {
        Object { namespace: value.0, id: value.1 }
    }
}

impl FromSpecImpl<(String, String)> for Object {
    open spec fn obeys_from_spec() -> bool {
        true
    }

    open spec fn from_spec(value: (String, String)) -> Self {
        Object { namespace: value.0, id: value.1 }
    }
}

impl From<(String, String, String)> for RSet {
    fn from(value: (String, String, String)) -> (r: Self) {
        RSet { namespace: value.0, id: value.1, relation: value.2 }
    }
}

impl FromSpecImpl<(String, String, String)> for RSet {
    open spec fn obeys_from_spec() -> bool {
        true
    }

    open spec fn from_spec(value: (String, String, String)) -> Self {
        RSet { namespace: value.0, id: value.1, relation: value.2 }
    }
}

impl From<Object> for ObjectOrSet {
    fn from(value: Object) -> (r: Self) {
        ObjectOrSet::Object(value)
    }
}

impl FromSpecImpl<Object> for ObjectOrSet {
    open spec fn obeys_from_spec() -> bool {
        true
    }

    open spec fn from_spec(value: Object) -> Self {
        ObjectOrSet::Object(value)
    }
}

impl From<RSet> for ObjectOrSet {
    fn from(value: RSet) -> (r: Self) {
        ObjectOrSet::RSet(value)
    }
}

impl FromSpecImpl<RSet> for ObjectOrSet {
    open spec fn obeys_from_spec() -> bool {
        true
    }

    open spec fn from_spec(value: RSet) -> Self {
        ObjectOrSet::RSet(value)
    }
}

impl From<(&str, &str)> for Object {
    fn from(value: (&str, &str)) -> (r: Self)
        ensures
            r@ == (VertexKey { namespace: value.0@, id: value.1@, relation: None }),
    {
        Object { namespace: value.0.to_owned(), id: value.1.to_owned() }
    }
}

impl FromSpecImpl<(&str, &str)> for Object {
    open spec fn obeys_from_spec() -> bool {
        false
    }

    open spec fn from_spec(value: (&str, &str)) -> Self {
        arbitrary()
    }
}

impl From<(&str, &str, &str)> for RSet {
    fn from(value: (&str, &str, &str)) -> (r: Self)
        ensures
            r@ == (VertexKey { namespace: value.0@, id: value.1@, relation: Some(value.2@) }),
    {
        RSet {
            namespace: value.0.to_owned(),
            id: value.1.to_owned(),
            relation: value.2.to_owned(),
        }
    }
}

impl FromSpecImpl<(&str, &str, &str)> for RSet {
    open spec fn obeys_from_spec() -> bool {
        false
    }

    open spec fn from_spec(value: (&str, &str, &str)) -> Self {
        arbitrary()
    }
}

impl From<(&str, &str, Option<&str>)> for ObjectOrSet {
    fn from(value: (&str, &str, Option<&str>)) -> (r: Self)
        ensures
            r@.namespace == value.0@,
            r@.id == value.1@,
            value.2 is Some <==> r@.relation is Some,
            value.2 is Some ==> r@.relation->0 == value.2->0@,
    {
        ObjectOrSet::from_parts(value.0, value.1, value.2)
    }
}

impl FromSpecImpl<(&str, &str, Option<&str>)> for ObjectOrSet {
    open spec fn obeys_from_spec() -> bool {
        false
    }

    open spec fn from_spec(value: (&str, &str, Option<&str>)) -> Self {
        arbitrary()
    }
}

impl From<(String, String, Option<String>)> for ObjectOrSet {
    fn from(value: (String, String, Option<String>)) -> (r: Self) {
        match value.2 {
            Some(relation) => ObjectOrSet::RSet(
                RSet { namespace: value.0, id: value.1, relation },
            ),
            None => ObjectOrSet::Object(Object { namespace: value.0, id: value.1 }),
        }
    }
}

impl FromSpecImpl<(String, String, Option<String>)> for ObjectOrSet {
    open spec fn obeys_from_spec() -> bool {
        true
    }

    open spec fn from_spec(value: (String, String, Option<String>)) -> Self {
        match value.2 {
            Some(relation) => ObjectOrSet::RSet(
                RSet { namespace: value.0, id: value.1, relation },
            ),
            None => ObjectOrSet::Object(Object { namespace: value.0, id: value.1 }),
        }
    }
}

impl From<&Object> for ObjectOrSet {
    fn from(value: &Object) -> (r: Self) {
        ObjectOrSet::Object(value.clone())
    }
}

impl FromSpecImpl<&Object> for ObjectOrSet {
    open spec fn obeys_from_spec() -> bool {
        true
    }

    open spec fn from_spec(value: &Object) -> Self {
        ObjectOrSet::Object(*value)
    }
}

impl From<&RSet> for ObjectOrSet {
    fn from(value: &RSet) -> (r: Self) {
        ObjectOrSet::RSet(value.clone())
    }
}

impl FromSpecImpl<&RSet> for ObjectOrSet {
    open spec fn obeys_from_spec() -> bool {
        true
    }

    open spec fn from_spec(value: &RSet) -> Self {
        ObjectOrSet::RSet(*value)
    }
}

} // verus!
