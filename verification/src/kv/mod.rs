//! Keys, errors and the two key/value store interfaces.
//!
//! [`WeakStore`] is the weakly consistent interface meant for content
//! addressed data, [`Store`] the strongly consistent one with an atomic
//! compare-and-swap. [`mem::MemWeakStore`] implements both in memory.

pub mod mem;
pub mod order;
pub mod page;

use vstd::prelude::*;
use vstd::std_specs::convert::IntoSpec;
use vstd::string::StringExecFns;
use crate::hex::{hex_digit, hex_text, push_hex_digit, to_hex};
use crate::kv::order::ascii_bytes;

verus! {

/// Whether the caller may retry a failed operation unchanged.
#[derive(Debug, Clone, Copy, PartialEq, Eq, Structural)]
pub enum ErrorKind {
    /// The operation may succeed if it is retried as it is.
    Transient,
    /// The operation cannot succeed as given.
    Permanent,
}

/// A failure of a store operation: its class, and optionally what caused it.
#[derive(Debug)]
pub struct StoreError {
    /// The class that drives the caller's behaviour.
    pub kind: ErrorKind,
    /// A description of the underlying cause, for diagnostics only.
    pub cause: Option<String>,
}

impl StoreError {
    /// A retryable failure.
    pub fn transient(cause: Option<String>) -> (e: StoreError)
        ensures
            e.kind == ErrorKind::Transient,
            e.cause == cause,
    {
        StoreError { kind: ErrorKind::Transient, cause }
    }

    /// A failure that retrying unchanged cannot mend.
    pub fn permanent(cause: Option<String>) -> (e: StoreError)
        ensures
            e.kind == ErrorKind::Permanent,
            e.cause == cause,
    {
        StoreError { kind: ErrorKind::Permanent, cause }
    }

    /// Whether the failed operation may be retried as it is.
    pub fn is_transient(&self) -> (b: bool)
        ensures
            b == (self.kind == ErrorKind::Transient),
    {
        match self.kind {
            ErrorKind::Transient => true,
            ErrorKind::Permanent => false,
        }
    }

    /// The text that [`StoreError::message`] produces.
    pub open spec fn message_spec(&self) -> Seq<char> {
        let head = match self.kind {
            ErrorKind::Transient => "transient store error"@,
            ErrorKind::Permanent => "permanent store error"@,
        };
        match self.cause {
            None => head,
            Some(c) => head + " caused by: "@ + c@,
        }
    }

    /// A one-line description: the class, then the cause if there is one.
    pub fn message(&self) -> (r: String)
        ensures
            r@ == self.message_spec(),
    {
        let mut out = match self.kind {
            ErrorKind::Transient => String::from_str("transient store error"),
            ErrorKind::Permanent => String::from_str("permanent store error"),
        };
        match &self.cause {
            None => {},
            Some(c) => {
                out.append(" caused by: ");
                out.append(c.as_str());
            },
        }
        out
    }
}

/// Whether `c` is one of the characters `0-9a-f`.
pub open spec fn is_key_char(c: char) -> bool {
    ('0' <= c && c <= '9') || ('a' <= c && c <= 'f')
}

/// Whether `s` is a well-formed key: non-empty, and made of `0-9a-f` only.
pub open spec fn valid_key(s: Seq<char>) -> bool {
    &&& s.len() > 0
    &&& forall|i: int| 0 <= i < s.len() ==> is_key_char(#[trigger] s[i])
}

/// What constructing a key from the string `s` must produce.
pub open spec fn key_outcome(s: Seq<char>, r: Result<Key, InvalidKeyError>) -> bool {
    match r {
        Ok(key) => valid_key(s) && key@ == s,
        Err(InvalidKeyError::Empty) => s.len() == 0,
        Err(InvalidKeyError::InvalidCharacter) => s.len() > 0 && !valid_key(s),
    }
}

/// The hexadecimal text of one byte or more is a well-formed key.
pub proof fn lemma_hex_text_is_key(bytes: Seq<u8>)
    requires
        bytes.len() > 0,
    ensures
        valid_key(hex_text(bytes)),
{
    let text = hex_text(bytes);
    assert forall|i: int| 0 <= i < text.len() implies is_key_char(#[trigger] text[i]) by {
        let b = bytes[i / 2];
        let digit: u8 = if i % 2 == 0 {
            b / 16
        } else {
            b % 16
        };
        assert(text[i] == hex_digit(digit));
        assert(digit < 16);
        assert(is_key_char(hex_digit(digit)));
    }
}

/// The provided string was not a valid representation of a key.
#[derive(Debug, Clone, Copy, PartialEq, Eq, Structural)]
#[non_exhaustive]
pub enum InvalidKeyError {
    /// The provided string contained one or more disallowed characters.
    InvalidCharacter,
    /// The provided string was empty, which is not a valid key.
    Empty,
}

/// A key with which values can be associated in a store.
///
/// A key is a string guaranteed to be non-empty and contain only `[0-9a-f]`.
/// Its view is that string.
#[derive(Debug, Hash)]
pub struct Key {
    s: String,
}

impl View for Key {
    type V = Seq<char>;

    closed spec fn view(&self) -> Seq<char> {
        self.s@
    }
}

impl PartialEq for Key {
    fn eq(&self, other: &Key) -> (r: bool) {
        self.s == other.s
    }
}

impl vstd::std_specs::cmp::PartialEqSpecImpl for Key {
    open spec fn obeys_eq_spec() -> bool {
        true
    }

    /// Keys are equal when they are the same string.
    open spec fn eq_spec(&self, other: &Key) -> bool {
        self@ == other@
    }
}

impl Eq for Key {

}

impl Clone for Key {
    fn clone(&self) -> (r: Key)
        ensures
            r@ == self@,
    {
        proof {
            use_type_invariant(self);
        }
        Key { s: self.s.clone() }
    }
}

impl Key {
    #[verifier::type_invariant]
    spec fn well_formed(self) -> bool {
        valid_key(self.s@)
    }

    /// Construct a new key from anything that converts into a string. Fails
    /// if the string is empty or contains a character outside `0-9a-f`.
    ///
    /// The outcome is that of [`Key::from_string`] on the string that `k`
    /// converts into.
    pub fn new<T: Into<String>>(k: T) -> (r: Result<Key, InvalidKeyError>)
        ensures
            exists|s: String| #[trigger] call_ensures(T::into, (k,), s) && key_outcome(s@, r),
            T::obeys_into_spec() ==> key_outcome(k.into_spec()@, r),
    {
        let s: String = k.into();
        assert(call_ensures(T::into, (k,), s));
        Key::from_string(s)
    }

    /// Validate `s` and wrap it as a key.
    ///
    /// Succeeds exactly when `s` is non-empty and every character of it is in
    /// `0-9a-f`; the key then holds `s` unchanged. An empty string is reported
    /// as `Empty`, any other rejected string as `InvalidCharacter`.
    pub fn from_string(s: String) -> (r: Result<Key, InvalidKeyError>)
        ensures
            key_outcome(s@, r),
    {
        if s.as_str().is_empty() {
            return Err(InvalidKeyError::Empty);
        }
        for c in it: s.as_str().chars()
            invariant
                it.seq() == s@,
                forall|i: int| 0 <= i < it.index() ==> is_key_char(#[trigger] s@[i]),
        {
            let ok = match c {
                '0'..='9' => true,
                'a'..='f' => true,
                _ => false,
            };
            if !ok {
                assert(!is_key_char(s@[it.index() as int]));
                return Err(InvalidKeyError::InvalidCharacter);
            }
        }
        Ok(Key { s })
    }

    /// The key as a string slice.
    pub fn as_str(&self) -> (r: &str)
        ensures
            r@ == self@,
            valid_key(r@),
    {
        proof {
            use_type_invariant(self);
        }
        self.s.as_str()
    }
}

impl Key {
    /// Validate `bytes` and make the key that they spell, one character for
    /// each byte.
    ///
    /// Succeeds exactly when there is at least one byte and every byte is
    /// the ASCII code of a character in `0-9a-f`.
    pub fn from_bytes(bytes: &[u8]) -> (r: Result<Key, InvalidKeyError>)
        ensures
            key_outcome(key_of_bytes(bytes@), r),
    {
        if bytes.len() == 0 {
            return Err(InvalidKeyError::Empty);
        }
        let ghost text = key_of_bytes(bytes@);
        let mut s = String::new();
        let mut i: usize = 0;
        while i < bytes.len()
            invariant
                i <= bytes@.len(),
                text == key_of_bytes(bytes@),
                s@ == text.take(i as int),
                forall|j: int| 0 <= j < i ==> is_key_char(#[trigger] text[j]),
            decreases bytes@.len() - i,
        {
            let b: u8 = bytes[i];
            assert(text[i as int] == b as char);
            // 48..=57 are the codes of `0-9`, 97..=102 those of `a-f`.
            let digit: u8 = if 48 <= b && b <= 57 {
                b - 48
            } else if 97 <= b && b <= 102 {
                b - 87
            } else {
                assert(!is_key_char(text[i as int]));
                return Err(InvalidKeyError::InvalidCharacter);
            };
            push_hex_digit(&mut s, digit);
            assert(hex_digit(digit) == b as char);
            assert(text.take(i + 1) =~= text.take(i as int).push(text[i as int]));
            i += 1;
        }
        assert(text.take(i as int) =~= text);
        Ok(Key { s })
    }

    /// The key that spells `bytes` in hexadecimal, two characters for each
    /// byte. Fails, with `Empty`, exactly when there are no bytes.
    pub fn hex_of(bytes: &[u8]) -> (r: Result<Key, InvalidKeyError>)
        ensures
            match r {
                Ok(key) => bytes@.len() > 0 && key@ == hex_text(bytes@),
                Err(e) => bytes@.len() == 0 && e == InvalidKeyError::Empty,
            },
    {
        if bytes.len() == 0 {
            return Err(InvalidKeyError::Empty);
        }
        let s = to_hex(bytes);
        proof {
            lemma_hex_text_is_key(bytes@);
        }
        Ok(Key { s })
    }

    /// The key's bytes: one ASCII byte for each character.
    pub fn as_bytes(&self) -> (b: &[u8])
        ensures
            b@ == ascii_bytes(self@),
            valid_key(self@),
    {
        proof {
            use_type_invariant(self);
        }
        let t = self.s.as_str();
        proof {
            assert(vstd::string::is_ascii(t)) by {
                assert forall|i: int| 0 <= i < t@.len() implies '\0' <= #[trigger] t@[i] <= '\u{7f}' by {
                    assert(is_key_char(t@[i]));
                }
            }
            vstd::string::is_ascii_spec_bytes(t);
        }
        t.as_bytes()
    }
}

impl Key {
    /// The string that the key gives up when it is converted into one.
    pub closed spec fn into_string(self) -> String {
        self.s
    }

    /// The string that a key converts into holds the key's text.
    pub broadcast proof fn lemma_into_string(self)
        ensures
            #[trigger] self.into_string()@ == self@,
    {
    }
}

impl From<Key> for String {
    fn from(k: Key) -> (s: String)
        ensures
            s@ == k@,
    {
        k.s
    }
}

impl vstd::std_specs::convert::FromSpecImpl<Key> for String {
    open spec fn obeys_from_spec() -> bool {
        true
    }

    open spec fn from_spec(k: Key) -> String {
        k.into_string()
    }
}

impl From<&Key> for String {
    fn from(k: &Key) -> (s: String)
        ensures
            s@ == k@,
    {
        k.s.clone()
    }
}

impl vstd::std_specs::convert::FromSpecImpl<&Key> for String {
    open spec fn obeys_from_spec() -> bool {
        true
    }

    open spec fn from_spec(k: &Key) -> String {
        k.into_string()
    }
}

impl AsRef<str> for Key {
    fn as_ref(&self) -> (r: &str)
        ensures
            r@ == self@,
    {
        self.s.as_str()
    }
}

/// Opaque state of a bounded iteration: where the next step resumes.
///
/// A cursor is made by a store and handed back to the same store. Callers
/// keep it, and may move it across a restart as bytes, but give it no
/// meaning.
#[derive(Debug)]
pub struct Cursor(Vec<u8>);

impl View for Cursor {
    type V = Seq<u8>;

    closed spec fn view(&self) -> Seq<u8> {
        self.0@
    }
}

impl Cursor {
    /// Restore a cursor from the bytes that [`Cursor::into_bytes`] gave.
    pub fn from_bytes(bytes: Vec<u8>) -> (c: Cursor)
        ensures
            c@ == bytes@,
    {
        Cursor(bytes)
    }

    /// The token's bytes.
    pub fn as_bytes(&self) -> (b: &[u8])
        ensures
            b@ == self@,
    {
        self.0.as_slice()
    }

    /// Give up the cursor for its bytes, to persist them.
    pub fn into_bytes(self) -> (b: Vec<u8>)
        ensures
            b@ == self@,
    {
        self.0
    }
}

/// One step of a bounded iteration over a store's keys.
///
/// `keys` may be empty while `cursor` is present: only an absent cursor says
/// that the iteration is complete.
#[derive(Debug)]
pub struct IterationResult {
    /// The keys found by this step.
    pub keys: Vec<Key>,
    /// Where the next step resumes, or `None` once the iteration is complete.
    pub cursor: Option<Cursor>,
}

/// The strings of a list of keys.
pub open spec fn key_views(keys: Seq<Key>) -> Seq<Seq<char>> {
    Seq::new(keys.len(), |i: int| keys[i]@)
}

/// The bytes of an optional value.
pub open spec fn value_view(value: Option<Vec<u8>>) -> Option<Seq<u8>> {
    match value {
        Some(v) => Some(v@),
        None => None,
    }
}

/// The bytes of an optional borrowed value.
pub open spec fn slice_view(value: Option<&[u8]>) -> Option<Seq<u8>> {
    match value {
        Some(v) => Some(v@),
        None => None,
    }
}

/// The bytes of an optional cursor.
pub open spec fn cursor_view(cursor: Option<Cursor>) -> Option<Seq<u8>> {
    match cursor {
        Some(c) => Some(c@),
        None => None,
    }
}

/// What a store that maps keys to values as `m` does holds for `key`.
pub open spec fn lookup(m: Map<Seq<char>, Seq<u8>>, key: Seq<char>) -> Option<Seq<u8>> {
    if m.contains_key(key) {
        Some(m[key])
    } else {
        None
    }
}

/// The string whose characters are the bytes `b`, one for one.
pub open spec fn key_of_bytes(b: Seq<u8>) -> Seq<char> {
    Seq::new(b.len(), |i: int| b[i] as char)
}

/// Whether a compare-and-swap on `key` that expects `expected` goes through
/// on a store that maps keys to values as `m` does: the bytes spell a
/// well-formed key, and what the store holds for it is what was expected
/// (`None`: nothing).
pub open spec fn swap_applies(
    m: Map<Seq<char>, Seq<u8>>,
    key: Seq<u8>,
    expected: Option<Seq<u8>>,
) -> bool {
    valid_key(key_of_bytes(key)) && lookup(m, key_of_bytes(key)) == expected
}

/// Whether two byte strings are the same.
pub fn bytes_equal(a: &[u8], b: &[u8]) -> (r: bool)
    ensures
        r == (a@ == b@),
{
    if a.len() != b.len() {
        return false;
    }
    let mut i: usize = 0;
    while i < a.len()
        invariant
            a@.len() == b@.len(),
            i <= a@.len(),
            forall|j: int| 0 <= j < i ==> a@[j] == b@[j],
        decreases a@.len() - i,
    {
        if a[i] != b[i] {
            return false;
        }
        i += 1;
    }
    assert(a@ =~= b@);
    true
}

/// Decide a compare-and-swap from the value that the store was found to
/// hold for the key: the swap is allowed exactly when that value is the
/// expected one, both absent or both the same bytes.
pub fn swap_allowed(found: &Option<Vec<u8>>, expected: Option<&[u8]>) -> (r: bool)
    ensures
        r == (value_view(*found) == slice_view(expected)),
{
    match found {
        None => expected.is_none(),
        Some(v) => match expected {
            None => false,
            Some(e) => bytes_equal(v.as_slice(), e),
        },
    }
}

/// What is put under a key is what the store then holds for it.
///
/// This is the round trip of the strongly consistent `put` and `get`, and
/// that of `weak_put` and `weak_get` on a store that shows its writes at
/// once, such as the in-memory one.
pub proof fn lemma_put_then_get(m: Map<Seq<char>, Seq<u8>>, key: Seq<char>, value: Seq<u8>)
    ensures
        m.insert(key, value).contains_key(key),
        lookup(m.insert(key, value), key) == Some(value),
{
}

/// A key that was put and then deleted is no longer in the store.
pub proof fn lemma_put_then_delete(m: Map<Seq<char>, Seq<u8>>, key: Seq<char>, value: Seq<u8>)
    ensures
        !m.insert(key, value).remove(key).contains_key(key),
        lookup(m.insert(key, value).remove(key), key) is None,
{
}

/// Compare-and-swap on one key, step by step.
///
/// On a store without the key, a swap that expects absence applies. Once it
/// has put `first`, a swap that expects absence no longer applies, while one
/// that expects `first` does. Once that one has put `second`, the store holds
/// `second`, and a swap that still expects `first` no longer applies.
pub proof fn lemma_swap_steps(
    m: Map<Seq<char>, Seq<u8>>,
    key: Seq<u8>,
    first: Seq<u8>,
    second: Seq<u8>,
)
    requires
        valid_key(key_of_bytes(key)),
        !m.contains_key(key_of_bytes(key)),
        first != second,
    ensures
        swap_applies(m, key, None),
        !swap_applies(m.insert(key_of_bytes(key), first), key, None),
        swap_applies(m.insert(key_of_bytes(key), first), key, Some(first)),
        lookup(m.insert(key_of_bytes(key), first).insert(key_of_bytes(key), second), key_of_bytes(key))
            == Some(second),
        !swap_applies(
            m.insert(key_of_bytes(key), first).insert(key_of_bytes(key), second),
            key,
            Some(first),
        ),
{
}

/// A key's bytes spell the key again.
pub proof fn lemma_key_bytes_round_trip(key: Seq<char>)
    requires
        valid_key(key),
    ensures
        key_of_bytes(ascii_bytes(key)) == key,
{
    assert forall|i: int| 0 <= i < key.len() implies key_of_bytes(ascii_bytes(key))[i] == key[i] by {
        assert(is_key_char(key[i]));
        let c = key[i];
        assert(ascii_bytes(key)[i] == c as u8);
        assert(c as u8 as char == c);
    }
    assert(key_of_bytes(ascii_bytes(key)) =~= key);
}

/// The pairs of a key and a value that a store with the map `m` serves.
pub open spec fn pairs_of(m: Map<Seq<char>, Seq<u8>>) -> Set<(Seq<char>, Seq<u8>)> {
    Set::new(|p: (Seq<char>, Seq<u8>)| m.contains_key(p.0) && m[p.0] == p.1)
}

/// Whether some value is among `pairs` for `key`.
pub open spec fn has_key(pairs: Set<(Seq<char>, Seq<u8>)>, key: Seq<char>) -> bool {
    exists|value: Seq<u8>| pairs.contains((key, value))
}

/// What a `weak_put` of `value` under `key` may make of the pairs that a
/// store serves, `done` telling whether it reported success.
///
/// A successful put serves the new pair. Whether or not it succeeded, the
/// new pair is the only one that can have come in, and what other keys had
/// is left alone; what `key` had before may stay or go.
pub open spec fn put_allows(
    before: Set<(Seq<char>, Seq<u8>)>,
    after: Set<(Seq<char>, Seq<u8>)>,
    key: Seq<char>,
    value: Seq<u8>,
    done: bool,
) -> bool {
    &&& done ==> after.contains((key, value))
    &&& after.subset_of(before.insert((key, value)))
    &&& forall|p: (Seq<char>, Seq<u8>)| #[trigger] before.contains(p) && p.0 != key ==> after.contains(p)
}

/// What a `weak_delete` of `key` may make of the pairs that a store serves:
/// nothing comes in, and what other keys had is left alone.
pub open spec fn delete_allows(
    before: Set<(Seq<char>, Seq<u8>)>,
    after: Set<(Seq<char>, Seq<u8>)>,
    key: Seq<char>,
) -> bool {
    &&& after.subset_of(before)
    &&& forall|p: (Seq<char>, Seq<u8>)| #[trigger] before.contains(p) && p.0 != key ==> after.contains(p)
}

/// After a put under a key that had no other value, every value that the
/// store serves for the key is the value put.
///
/// Where the key had another value, the store may go on serving that one:
/// which of the two it keeps is left open.
pub proof fn lemma_weak_put_then_get(
    before: Set<(Seq<char>, Seq<u8>)>,
    after: Set<(Seq<char>, Seq<u8>)>,
    key: Seq<char>,
    value: Seq<u8>,
    found: Seq<u8>,
)
    requires
        put_allows(before, after, key, value, true),
        forall|other: Seq<u8>| before.contains((key, other)) ==> other == value,
        after.contains((key, found)),
    ensures
        found == value,
        has_key(after, key),
{
    assert(before.insert((key, value)).contains((key, found)));
}

/// On a store that serves exactly what its map holds, putting into the map
/// is a put, and removing from it is a delete.
pub proof fn lemma_map_writes(m: Map<Seq<char>, Seq<u8>>, key: Seq<char>, value: Seq<u8>)
    ensures
        put_allows(pairs_of(m), pairs_of(m.insert(key, value)), key, value, true),
        delete_allows(pairs_of(m), pairs_of(m.remove(key)), key),
        has_key(pairs_of(m), key) <==> m.contains_key(key),
{
    if m.contains_key(key) {
        assert(pairs_of(m).contains((key, m[key])));
    }
}

/// Storage of key to value mappings with weakened semantics, sufficient for
/// content addressed data and maximally relaxed otherwise.
///
/// A successful `weak_put` has stored the value durably and as a whole. It
/// need not be visible to the reads that follow at once, and where the key
/// already had a value it is left open which of the two is kept. Reads may
/// therefore miss what is stored, but they never invent anything: every
/// value and key they report was handed to a `weak_put`.
///
/// The contract is stated over [`WeakStore::stored`], the pairs of a key and
/// a value that the store may serve.
pub trait WeakStore {
    /// The pairs of a key and a value that were stored and may be served.
    spec fn stored(&self) -> Set<(Seq<char>, Seq<u8>)>;

    /// Get the value associated with the given key.
    ///
    /// `Ok(Some(v))`: `v` is stored under the key. `Ok(None)`: there is no
    /// value, or it has not yet become readable.
    fn weak_get(&mut self, key: &Key) -> (r: Result<Option<Vec<u8>>, StoreError>)
        ensures
            final(self).stored() == old(self).stored(),
            r matches Ok(Some(v)) ==> old(self).stored().contains((key@, v@)),
    ;

    /// Store `value` under `key`, durably and as a whole.
    ///
    /// See [`put_allows`] for what the call may change.
    fn weak_put(&mut self, key: &Key, value: &[u8]) -> (r: Result<(), StoreError>)
        ensures
            put_allows(old(self).stored(), final(self).stored(), key@, value@, r is Ok),
    ;

    /// Determine whether a given key is associated with a value in the store.
    ///
    /// `Ok(true)`: some value is stored under the key. `Ok(false)` may also
    /// be the answer for a key whose value is not yet visible.
    fn weak_exists(&mut self, key: &Key) -> (r: Result<bool, StoreError>)
        ensures
            final(self).stored() == old(self).stored(),
            r matches Ok(true) ==> has_key(old(self).stored(), key@),
    ;

    /// Remove what is stored under `key`.
    ///
    /// See [`delete_allows`] for what the call may change. When the removal
    /// shows in reads is up to the store.
    fn weak_delete(&mut self, key: &Key) -> (r: Result<(), StoreError>)
        ensures
            delete_allows(old(self).stored(), final(self).stored(), key@),
    ;

    /// One bounded step of an enumeration of the store's keys.
    ///
    /// `cursor` is `None` to start, or the cursor that the previous step
    /// returned. The step reports at most `max_items` keys, each of them
    /// stored, and the cursor for the next step: `None` once the enumeration
    /// is complete. The order of the keys is up to the store.
    fn weak_iter(&mut self, cursor: Option<Cursor>, max_items: usize) -> (r: Result<
        IterationResult,
        StoreError,
    >)
        ensures
            final(self).stored() == old(self).stored(),
            r matches Ok(page) ==> {
                &&& page.keys@.len() <= max_items
                &&& forall|k: Seq<char>| #[trigger]
                    key_views(page.keys@).contains(k) ==> has_key(old(self).stored(), k)
            },
    ;
}

/// Storage of key to value mappings with strongly consistent semantics.
///
/// The store is viewed as the map from keys to values that it holds. Every
/// successful write shows in the reads that follow, and `put_if` replaces a
/// value only if the current one (present or absent) is the expected one.
pub trait Store: View<V = Map<Seq<char>, Seq<u8>>> {
    /// Get the value associated with the given key, if there is one.
    fn get(&mut self, key: &Key) -> (r: Result<Option<Vec<u8>>, StoreError>)
        ensures
            final(self)@ == old(self)@,
            r matches Ok(found) ==> value_view(found) == lookup(old(self)@, key@),
    ;

    /// Put a value in the store regardless of whether there currently exists
    /// a value associated with the same key. Any existing value is
    /// overwritten.
    ///
    /// The write is all or nothing: a call that fails has left the store as
    /// it was, or has put the value after all.
    fn put(&mut self, key: &Key, value: &[u8]) -> (r: Result<(), StoreError>)
        ensures
            r is Ok ==> final(self)@ == old(self)@.insert(key@, value@),
            r is Err ==> final(self)@ == old(self)@ || final(self)@ == old(self)@.insert(
                key@,
                value@,
            ),
    ;

    /// Put the given value into the store if and only if the current value
    /// associated with the key is `expected_value` (`None` means the value
    /// must be absent).
    ///
    /// `key` holds the bytes of the key. Where they do not spell a
    /// well-formed key, or the current value is not the expected one, the
    /// call fails with a permanent error and nothing has changed: see
    /// [`swap_applies`]. Where the swap applies the write is all or nothing,
    /// as that of `put`.
    fn put_if(&mut self, key: &[u8], expected_value: Option<&[u8]>, new_value: &[u8]) -> (r:
        Result<(), StoreError>)
        ensures
            r is Ok ==> swap_applies(old(self)@, key@, slice_view(expected_value)),
            r is Ok ==> final(self)@ == old(self)@.insert(key_of_bytes(key@), new_value@),
            !swap_applies(old(self)@, key@, slice_view(expected_value)) ==> {
                &&& final(self)@ == old(self)@
                &&& r matches Err(e)
                &&& e.kind == ErrorKind::Permanent
            },
            r is Err ==> final(self)@ == old(self)@ || final(self)@ == old(self)@.insert(
                key_of_bytes(key@),
                new_value@,
            ),
    ;

    /// Determine whether a given key is associated with a value in the store.
    fn contains_key(&mut self, key: &Key) -> (r: Result<bool, StoreError>)
        ensures
            final(self)@ == old(self)@,
            r matches Ok(b) ==> b == old(self)@.contains_key(key@),
    ;
}

} // verus!
