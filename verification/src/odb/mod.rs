//! A content-addressable object database.
//!
//! An object is a sequence of bytes, and its identifier is derived from
//! those bytes alone: it is their SHA-256 digest, written in hexadecimal.
//! [`Odb`] is the interface, [`KvOdb`] keeps the objects in a
//! [`WeakStore`](crate::kv::WeakStore) under their identifiers.
//!
//! For information on the general concept of content addressable storage,
//! see <https://en.wikipedia.org/wiki/Content-addressable_storage>.

pub mod sha256;

use vstd::prelude::*;
use vstd::string::StringExecFns;
use crate::hex::hex_text;
use crate::kv::{
    lemma_hex_text_is_key, lemma_weak_put_then_get, put_allows, valid_key, ErrorKind, Key,
    StoreError, WeakStore,
};
use crate::odb::sha256::{digest, sha256, MAX_MESSAGE_BYTES};

verus! {

/// The identifier of an object: the key under which it is kept. Its view is
/// the key's string.
///
/// Callers cannot make an identifier other than by handing the content that
/// it identifies to the database.
#[derive(Debug, Hash)]
pub struct Oid(Key);

impl View for Oid {
    type V = Seq<char>;

    open spec fn view(&self) -> Seq<char> {
        self.key()@
    }
}

impl PartialEq for Oid {
    fn eq(&self, other: &Oid) -> (r: bool) {
        self.0 == other.0
    }
}

impl vstd::std_specs::cmp::PartialEqSpecImpl for Oid {
    open spec fn obeys_eq_spec() -> bool {
        true
    }

    /// Identifiers are equal when they are the same string.
    open spec fn eq_spec(&self, other: &Oid) -> bool {
        self@ == other@
    }
}

impl Eq for Oid {

}

impl Clone for Oid {
    fn clone(&self) -> (r: Oid)
        ensures
            r@ == self@,
    {
        Oid(self.0.clone())
    }
}

impl Oid {
    /// The key under which the object is kept.
    pub closed spec fn key(&self) -> Key {
        self.0
    }

    /// The key under which the object is kept.
    pub fn as_key(&self) -> (key: &Key)
        ensures
            *key == self.key(),
            key@ == self@,
    {
        &self.0
    }

    /// The identifier as a string of hexadecimal digits.
    pub fn as_str(&self) -> (s: &str)
        ensures
            s@ == self@,
    {
        self.0.as_str()
    }
}

/// The payload of an object: an opaque sequence of bytes, which is its view.
#[derive(Debug)]
pub struct Content(Vec<u8>);

impl View for Content {
    type V = Seq<u8>;

    closed spec fn view(&self) -> Seq<u8> {
        self.0@
    }
}

impl Content {
    /// Wrap `bytes` as the content of an object.
    pub fn new(bytes: Vec<u8>) -> (content: Content)
        ensures
            content@ == bytes@,
    {
        Content(bytes)
    }

    /// The content's bytes.
    pub fn as_bytes(&self) -> (bytes: &[u8])
        ensures
            bytes@ == self@,
    {
        self.0.as_slice()
    }

    /// Give up the content for its bytes.
    pub fn into_bytes(self) -> (bytes: Vec<u8>)
        ensures
            bytes@ == self@,
    {
        self.0
    }
}

/// A failure of an operation of the object database.
///
/// Where the store below failed, `cause` holds its error and the failure is
/// of the same class. A failure without a cause is the database's own, and
/// permanent: the content is too long to be identified, or the identifier
/// resolves to no object.
#[derive(Debug)]
pub struct OdbError {
    /// The store's error that caused this one, if one did.
    pub cause: Option<StoreError>,
}

impl OdbError {
    /// The class of the failure.
    pub open spec fn kind_spec(&self) -> ErrorKind {
        match self.cause {
            Some(e) => e.kind,
            None => ErrorKind::Permanent,
        }
    }

    /// The class of the failure: that of its cause, or permanent where it
    /// has none.
    pub fn kind(&self) -> (kind: ErrorKind)
        ensures
            kind == self.kind_spec(),
    {
        match &self.cause {
            Some(e) => e.kind,
            None => ErrorKind::Permanent,
        }
    }

    /// The store's error that caused this one, if one did.
    pub fn source(&self) -> (cause: Option<&StoreError>)
        ensures
            cause == match self.cause {
                Some(e) => Some(&e),
                None => None,
            },
    {
        self.cause.as_ref()
    }

    /// The text that [`OdbError::message`] produces.
    pub open spec fn message_spec(&self) -> Seq<char> {
        match self.cause {
            None => "OdbError"@,
            Some(e) => "OdbError"@ + " caused by: "@ + e.message_spec(),
        }
    }

    /// A one-line description: `OdbError`, then the cause if there is one.
    pub fn message(&self) -> (r: String)
        ensures
            r@ == self.message_spec(),
    {
        let mut out = String::from_str("OdbError");
        match &self.cause {
            None => {},
            Some(e) => {
                out.append(" caused by: ");
                let inner = e.message();
                out.append(inner.as_str());
            },
        }
        out
    }
}

/// The identifier of an object with the given content: the SHA-256 digest of
/// the content, in hexadecimal.
pub open spec fn oid_text(content: Seq<u8>) -> Seq<char> {
    hex_text(sha256(content))
}

/// Derive the identifier of `content`. No storage is touched.
///
/// Fails, permanently and without a cause, exactly when the content is
/// longer than [`MAX_MESSAGE_BYTES`], for which SHA-256 is not defined.
pub fn identify(content: &[u8]) -> (r: Result<Oid, OdbError>)
    ensures
        match r {
            Ok(oid) => content@.len() <= MAX_MESSAGE_BYTES && oid@ == oid_text(content@),
            Err(e) => content@.len() > MAX_MESSAGE_BYTES && e.cause is None,
        },
{
    if content.len() as u64 > MAX_MESSAGE_BYTES {
        return Err(OdbError { cause: None });
    }
    let sum = digest(content);
    match Key::hex_of(sum.as_slice()) {
        Ok(key) => Ok(Oid(key)),
        Err(_) => Err(OdbError { cause: None }),
    }
}

/// What `put_object` returns for the identifier under which it wrote, given
/// the store's answer to the write: the identifier where the store has
/// written, else the store's error as the cause.
pub fn put_outcome(oid: Oid, written: Result<(), StoreError>) -> (r: Result<Oid, OdbError>)
    ensures
        match written {
            Ok(_) => r matches Ok(same) && same == oid,
            Err(e) => r matches Err(failure) && failure.cause == Some(e),
        },
{
    match written {
        Ok(_) => Ok(oid),
        Err(e) => Err(OdbError { cause: Some(e) }),
    }
}

/// Whether `r` is what `get_object` returns for the identifier `oid` when
/// the store answers the read with `fetched`.
///
/// Bytes that the store found are the object if `oid` is their identifier.
/// Bytes with another identifier, and no bytes at all, are a permanent
/// failure without a cause: the identifier resolves to no object. A failure
/// of the store is passed on as the cause.
pub open spec fn get_outcome_of(
    oid: Seq<char>,
    fetched: Result<Option<Vec<u8>>, StoreError>,
    r: Result<Content, OdbError>,
) -> bool {
    match fetched {
        Ok(Some(bytes)) => if bytes@.len() <= MAX_MESSAGE_BYTES && oid_text(bytes@) == oid {
            r matches Ok(content) && content@ == bytes@
        } else {
            r matches Err(failure) && failure.cause is None
        },
        Ok(None) => r matches Err(failure) && failure.cause is None,
        Err(e) => r matches Err(failure) && failure.cause == Some(e),
    }
}

/// What `get_object` returns for `oid`, given the store's answer to the
/// read: see [`get_outcome_of`].
///
/// Bytes that the store found are the object if `oid` is their identifier.
/// Bytes with another identifier, and no bytes at all, are a permanent
/// failure without a cause: the identifier resolves to no object. A failure
/// of the store is passed on as the cause.
pub fn get_outcome(oid: &Oid, fetched: Result<Option<Vec<u8>>, StoreError>) -> (r: Result<
    Content,
    OdbError,
>)
    ensures
        get_outcome_of(oid@, fetched, r),
{
    match fetched {
        Ok(Some(bytes)) => {
            match identify(bytes.as_slice()) {
                Ok(actual) => {
                    if actual == *oid {
                        Ok(Content(bytes))
                    } else {
                        Err(OdbError { cause: None })
                    }
                },
                Err(_) => Err(OdbError { cause: None }),
            }
        },
        Ok(None) => Err(OdbError { cause: None }),
        Err(e) => Err(OdbError { cause: Some(e) }),
    }
}

/// Identifying is a function of the content: equal contents have equal
/// identifiers.
pub proof fn lemma_identify_deterministic(first: Seq<u8>, second: Seq<u8>)
    requires
        first == second,
    ensures
        oid_text(first) == oid_text(second),
{
}

/// An identifier is a well-formed key of 64 characters.
pub proof fn lemma_oid_is_key(content: Seq<u8>)
    ensures
        oid_text(content).len() == 64,
        valid_key(oid_text(content)),
{
    lemma_hex_text_is_key(sha256(content));
}

/// What was put is what is got: after a successful put of `content`, every
/// content that the database serves under the identifier of `content` is
/// `content`, provided that no other content was recorded under that
/// identifier before.
///
/// The proviso is where the identifying function is trusted to tell
/// contents apart. A content that shares its identifier with the one put
/// may stay recorded, and be served in its place.
pub proof fn lemma_put_then_get_object(
    before: Set<(Seq<char>, Seq<u8>)>,
    after: Set<(Seq<char>, Seq<u8>)>,
    content: Seq<u8>,
    found: Seq<u8>,
)
    requires
        put_allows(before, after, oid_text(content), content, true),
        forall|other: Seq<u8>| before.contains((oid_text(content), other)) ==> other == content,
        after.contains((oid_text(content), found)),
    ensures
        found == content,
{
    lemma_weak_put_then_get(before, after, oid_text(content), content, found);
}

/// Putting the same content again changes nothing for the reader: after
/// two successful puts of `content` it is recorded, and under the same
/// proviso as in [`lemma_put_then_get_object`] every content served under
/// its identifier, after the first put and after the second, is `content`.
pub proof fn lemma_put_twice(
    before: Set<(Seq<char>, Seq<u8>)>,
    between: Set<(Seq<char>, Seq<u8>)>,
    after: Set<(Seq<char>, Seq<u8>)>,
    content: Seq<u8>,
)
    requires
        put_allows(before, between, oid_text(content), content, true),
        put_allows(between, after, oid_text(content), content, true),
        forall|other: Seq<u8>| before.contains((oid_text(content), other)) ==> other == content,
    ensures
        between.contains((oid_text(content), content)),
        after.contains((oid_text(content), content)),
        forall|found: Seq<u8>| #[trigger]
            between.contains((oid_text(content), found)) ==> found == content,
        forall|found: Seq<u8>| #[trigger]
            after.contains((oid_text(content), found)) ==> found == content,
{
    let oid = oid_text(content);
    assert forall|found: Seq<u8>| #[trigger] between.contains((oid, found)) implies found
        == content by {
        lemma_weak_put_then_get(before, between, oid, content, found);
    }
    assert forall|found: Seq<u8>| #[trigger] after.contains((oid, found)) implies found
        == content by {
        lemma_weak_put_then_get(between, after, oid, content, found);
    }
}

/// Objects do not change once they are recorded: a put leaves every object
/// with another identifier recorded as it was.
pub proof fn lemma_put_keeps_others(
    before: Set<(Seq<char>, Seq<u8>)>,
    after: Set<(Seq<char>, Seq<u8>)>,
    content: Seq<u8>,
    done: bool,
    oid: Seq<char>,
    recorded: Seq<u8>,
)
    requires
        put_allows(before, after, oid_text(content), content, done),
        before.contains((oid, recorded)),
        oid != oid_text(content),
    ensures
        after.contains((oid, recorded)),
{
}

/// A content addressable object database.
///
/// Properties of an `Odb` include:
///
///   - If two objects have the same id, they are identical. Thus, two
///     objects can be compared for equality without pulling the content out
///     of the database.
///   - Once an object is recorded, it does not go away unless explicit
///     removal is requested through some means beyond the scope of this
///     trait. In other words, puts are durable.
///   - Callers cannot construct oids other than by giving the database the
///     contents to associate with the oid.
///
/// The contract is stated over [`Odb::objects`], the pairs of an identifier
/// and a content that the database may serve, and [`Odb::oid_of`], the
/// function that identifies a content.
pub trait Odb {
    /// The identifier of an object with the given content.
    spec fn oid_of(content: Seq<u8>) -> Seq<char>;

    /// The pairs of an identifier and the content recorded under it.
    spec fn objects(&self) -> Set<(Seq<char>, Seq<u8>)>;

    /// Derive the identifier of `content`, without touching any storage.
    fn identify_object(content: &Content) -> (r: Result<Oid, OdbError>)
        ensures
            r matches Ok(oid) ==> oid@ == Self::oid_of(content@),
            r matches Err(e) ==> e.kind_spec() == ErrorKind::Permanent,
    ;

    /// Record `content` and return its identifier.
    ///
    /// An object that is recorded already is recorded still. Nothing but
    /// the object given comes in, and the objects with other identifiers
    /// are left alone.
    fn put_object(&mut self, content: &Content) -> (r: Result<Oid, OdbError>)
        ensures
            r matches Ok(oid) ==> oid@ == Self::oid_of(content@),
            put_allows(
                old(self).objects(),
                final(self).objects(),
                Self::oid_of(content@),
                content@,
                r is Ok,
            ),
    ;

    /// The content recorded under `oid`.
    ///
    /// What comes back is recorded under `oid`, and `oid` is its
    /// identifier.
    fn get_object(&mut self, oid: &Oid) -> (r: Result<Content, OdbError>)
        ensures
            final(self).objects() == old(self).objects(),
            r matches Ok(content) ==> old(self).objects().contains((oid@, content@))
                && Self::oid_of(content@) == oid@,
    ;
}

/// The objects among the pairs that a store serves: the pairs whose key is
/// the identifier of their value.
pub open spec fn objects_of(pairs: Set<(Seq<char>, Seq<u8>)>) -> Set<(Seq<char>, Seq<u8>)> {
    Set::new(|p: (Seq<char>, Seq<u8>)| pairs.contains(p) && p.0 == oid_text(p.1))
}

/// An object database that keeps each object in a store, under its
/// identifier.
pub struct KvOdb<S: WeakStore> {
    /// The store that holds the objects.
    pub store: S,
}

impl<S: WeakStore> KvOdb<S> {
    /// An object database on top of `store`.
    pub fn new(store: S) -> (odb: KvOdb<S>)
        ensures
            odb.store == store,
    {
        KvOdb { store }
    }
}

impl<S: WeakStore> Odb for KvOdb<S> {
    open spec fn oid_of(content: Seq<u8>) -> Seq<char> {
        oid_text(content)
    }

    open spec fn objects(&self) -> Set<(Seq<char>, Seq<u8>)> {
        objects_of(self.store.stored())
    }

    /// The outcome is that of [`identify`] on the content's bytes.
    fn identify_object(content: &Content) -> (r: Result<Oid, OdbError>)
        ensures
            match r {
                Ok(oid) => content@.len() <= MAX_MESSAGE_BYTES && oid@ == oid_text(content@),
                Err(e) => content@.len() > MAX_MESSAGE_BYTES && e.cause is None,
            },
    {
        identify(content.as_bytes())
    }

    /// Content that cannot be identified fails as in [`identify`], and the
    /// store is not touched. Else the content is put into the store under
    /// its identifier, and the outcome is that of [`put_outcome`] on the
    /// store's answer.
    fn put_object(&mut self, content: &Content) -> (r: Result<Oid, OdbError>)
        ensures
            content@.len() > MAX_MESSAGE_BYTES ==> r is Err && final(self).store == old(self).store,
            r matches Err(e) ==> (e.cause is None <==> content@.len() > MAX_MESSAGE_BYTES),
            put_allows(
                old(self).store.stored(),
                final(self).store.stored(),
                oid_text(content@),
                content@,
                r is Ok,
            ),
    {
        match identify(content.as_bytes()) {
            Err(e) => Err(e),
            Ok(oid) => {
                let written = self.store.weak_put(oid.as_key(), content.as_bytes());
                put_outcome(oid, written)
            },
        }
    }

    /// The store is asked for the value under the identifier's key, once,
    /// and the result is what [`get_outcome_of`] makes of its answer: the
    /// object where the store found it, a failure without a cause where the
    /// store found nothing that `oid` identifies, the store's own failure
    /// where it failed.
    fn get_object(&mut self, oid: &Oid) -> (r: Result<Content, OdbError>)
        ensures
            final(self).store.stored() == old(self).store.stored(),
            exists|store: &mut S, fetched: Result<Option<Vec<u8>>, StoreError>|
                {
                    &&& *store == old(self).store
                    &&& *final(store) == final(self).store
                    &&& #[trigger] call_ensures(S::weak_get, (store, &oid.key()), fetched)
                    &&& get_outcome_of(oid@, fetched, r)
                },
    {
        let fetched = self.store.weak_get(oid.as_key());
        get_outcome(oid, fetched)
    }
}

} // verus!
