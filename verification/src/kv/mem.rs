//! A store that lives in memory, for tests and as a reference for the two
//! store interfaces.

use vstd::prelude::*;
use vstd::slice::slice_to_vec;
use crate::kv::order::{
    ascii_bytes, bytes_less, bytes_lt, lemma_ascii_bytes_injective, lemma_lt_asymmetric,
    lemma_lt_irreflexive, lemma_lt_total, lemma_lt_transitive,
};
use crate::kv::page::{
    is_after, lemma_page_within, lemma_passed_is, lists_keys_of, page_cursor, page_keys,
    page_start, sorted_keys,
};
use crate::kv::{
    cursor_view, has_key, is_key_char, key_views, lemma_map_writes, lookup, pairs_of, slice_view,
    swap_allowed, swap_applies, valid_key, value_view, Cursor, IterationResult, Key, Store,
    StoreError, WeakStore,
};

verus! {

/// A key with the value stored under it.
struct Entry {
    key: Key,
    value: Vec<u8>,
}

/// The bytes of the key of entry `i`.
spec fn bytes_at(es: Seq<Entry>, i: int) -> Seq<u8> {
    ascii_bytes(es[i].key@)
}

/// The entries hold well-formed keys in strictly ascending byte order.
spec fn entries_ok(es: Seq<Entry>) -> bool {
    &&& forall|i: int| 0 <= i < es.len() ==> valid_key(#[trigger] es[i].key@)
    &&& forall|i: int, j: int|
        0 <= i < j < es.len() ==> bytes_lt(#[trigger] bytes_at(es, i), #[trigger] bytes_at(es, j))
}

/// Whether some entry has the key `k`.
spec fn has_entry(es: Seq<Entry>, k: Seq<char>) -> bool {
    exists|i: int| 0 <= i < es.len() && #[trigger] es[i].key@ == k
}

/// The index of an entry with the key `k`.
spec fn index_of(es: Seq<Entry>, k: Seq<char>) -> int {
    choose|i: int| 0 <= i < es.len() && #[trigger] es[i].key@ == k
}

/// The map from keys to values that the entries stand for.
spec fn entries_map(es: Seq<Entry>) -> Map<Seq<char>, Seq<u8>> {
    Map::new(|k: Seq<char>| has_entry(es, k), |k: Seq<char>| es[index_of(es, k)].value@)
}

/// The keys of the entries, in their order.
spec fn entry_keys(es: Seq<Entry>) -> Seq<Seq<char>> {
    Seq::new(es.len(), |i: int| es[i].key@)
}

/// `p` is where a key with the bytes `t` belongs: every entry before it has
/// a smaller key, no entry from it on has.
spec fn is_slot(es: Seq<Entry>, t: Seq<u8>, p: int) -> bool {
    &&& 0 <= p <= es.len()
    &&& forall|i: int| 0 <= i < p ==> bytes_lt(#[trigger] bytes_at(es, i), t)
    &&& forall|i: int| p <= i < es.len() ==> !bytes_lt(#[trigger] bytes_at(es, i), t)
}

/// A well-formed key is made of ASCII characters.
proof fn lemma_key_is_ascii(k: Seq<char>)
    requires
        valid_key(k),
    ensures
        forall|i: int| 0 <= i < k.len() ==> #[trigger] k[i] <= '\u{7f}',
{
    assert forall|i: int| 0 <= i < k.len() implies #[trigger] k[i] <= '\u{7f}' by {
        assert(is_key_char(k[i]));
    }
}

/// No two entries share a key.
proof fn lemma_unique_index(es: Seq<Entry>, i: int, j: int)
    requires
        entries_ok(es),
        0 <= i < es.len(),
        0 <= j < es.len(),
        es[i].key@ == es[j].key@,
    ensures
        i == j,
{
    lemma_lt_irreflexive(bytes_at(es, i));
    if i < j {
        assert(bytes_lt(bytes_at(es, i), bytes_at(es, j)));
    } else if j < i {
        assert(bytes_lt(bytes_at(es, j), bytes_at(es, i)));
    }
}

/// The map holds each entry's value under its key.
proof fn lemma_map_at(es: Seq<Entry>, i: int)
    requires
        entries_ok(es),
        0 <= i < es.len(),
    ensures
        entries_map(es).contains_key(es[i].key@),
        entries_map(es)[es[i].key@] == es[i].value@,
{
    let k = es[i].key@;
    assert(has_entry(es, k));
    lemma_unique_index(es, i, index_of(es, k));
}

/// A key whose slot holds another key, or none, is not in the map.
proof fn lemma_absent(es: Seq<Entry>, k: Seq<char>, p: int)
    requires
        entries_ok(es),
        is_slot(es, ascii_bytes(k), p),
        p == es.len() || bytes_at(es, p) != ascii_bytes(k),
    ensures
        !entries_map(es).contains_key(k),
{
    if has_entry(es, k) {
        let i = index_of(es, k);
        let t = ascii_bytes(k);
        assert(bytes_at(es, i) == t);
        lemma_lt_irreflexive(t);
        if i < p {
            assert(bytes_lt(bytes_at(es, i), t));
        } else if i > p {
            assert(bytes_lt(bytes_at(es, p), bytes_at(es, i)));
            assert(!bytes_lt(bytes_at(es, p), t));
        }
    }
}

/// Every entry from the slot of an absent key on has a greater key.
proof fn lemma_slot_of_absent(es: Seq<Entry>, t: Seq<u8>, p: int)
    requires
        entries_ok(es),
        is_slot(es, t, p),
        p == es.len() || bytes_at(es, p) != t,
    ensures
        forall|i: int| p <= i < es.len() ==> bytes_lt(t, #[trigger] bytes_at(es, i)),
{
    assert forall|i: int| p <= i < es.len() implies bytes_lt(t, #[trigger] bytes_at(es, i)) by {
        lemma_lt_total(bytes_at(es, i), t);
        if i > p && bytes_at(es, i) == t {
            assert(bytes_lt(bytes_at(es, p), bytes_at(es, i)));
        }
    }
}

/// Putting a new key into its slot keeps the order and adds the pair.
proof fn lemma_insert(es: Seq<Entry>, p: int, e: Entry)
    requires
        entries_ok(es),
        valid_key(e.key@),
        is_slot(es, ascii_bytes(e.key@), p),
        p == es.len() || bytes_at(es, p) != ascii_bytes(e.key@),
    ensures
        entries_ok(es.insert(p, e)),
        entries_map(es.insert(p, e)) == entries_map(es).insert(e.key@, e.value@),
{
    let es2 = es.insert(p, e);
    let t = ascii_bytes(e.key@);
    lemma_slot_of_absent(es, t, p);
    assert forall|i: int, j: int| 0 <= i < j < es2.len() implies bytes_lt(
        #[trigger] bytes_at(es2, i),
        #[trigger] bytes_at(es2, j),
    ) by {
        if j < p {
            assert(bytes_lt(bytes_at(es, i), bytes_at(es, j)));
        } else if j == p {
            assert(bytes_lt(bytes_at(es, i), t));
        } else if i < p {
            assert(bytes_lt(bytes_at(es, i), bytes_at(es, j - 1)));
        } else if i == p {
            assert(bytes_lt(t, bytes_at(es, j - 1)));
        } else {
            assert(bytes_lt(bytes_at(es, i - 1), bytes_at(es, j - 1)));
        }
    }
    assert forall|i: int| 0 <= i < es2.len() implies valid_key(#[trigger] es2[i].key@) by {
        if i < p {
            assert(es2[i] == es[i]);
        } else if i > p {
            assert(es2[i] == es[i - 1]);
        }
    }
    let m = entries_map(es).insert(e.key@, e.value@);
    let m2 = entries_map(es2);
    assert forall|k: Seq<char>| #[trigger] m2.contains_key(k) implies m.contains_key(k) && m[k]
        == m2[k] by {
        let i = index_of(es2, k);
        lemma_map_at(es2, i);
        if i < p {
            assert(es2[i] == es[i]);
            lemma_map_at(es, i);
        } else if i > p {
            assert(es2[i] == es[i - 1]);
            lemma_map_at(es, i - 1);
        }
        if k == e.key@ {
            lemma_unique_index(es2, i, p);
        }
    }
    assert forall|k: Seq<char>| #[trigger] m.contains_key(k) implies m2.contains_key(k) by {
        if k == e.key@ {
            assert(es2[p].key@ == k);
        } else {
            let i = index_of(es, k);
            if i < p {
                assert(es2[i].key@ == k);
            } else {
                assert(es2[i + 1].key@ == k);
            }
        }
    }
    assert(m2 =~= m);
}

/// Replacing an entry by one with the same key replaces the value.
proof fn lemma_update(es: Seq<Entry>, p: int, e: Entry)
    requires
        entries_ok(es),
        0 <= p < es.len(),
        e.key@ == es[p].key@,
    ensures
        entries_ok(es.update(p, e)),
        entries_map(es.update(p, e)) == entries_map(es).insert(e.key@, e.value@),
{
    let es2 = es.update(p, e);
    assert forall|i: int, j: int| 0 <= i < j < es2.len() implies bytes_lt(
        #[trigger] bytes_at(es2, i),
        #[trigger] bytes_at(es2, j),
    ) by {
        assert(bytes_at(es2, i) == bytes_at(es, i));
        assert(bytes_at(es2, j) == bytes_at(es, j));
    }
    assert forall|i: int| 0 <= i < es2.len() implies valid_key(#[trigger] es2[i].key@) by {
        assert(es2[i].key@ == es[i].key@);
    }
    let m = entries_map(es).insert(e.key@, e.value@);
    let m2 = entries_map(es2);
    assert forall|k: Seq<char>| #[trigger] m2.contains_key(k) implies m.contains_key(k) && m[k]
        == m2[k] by {
        let i = index_of(es2, k);
        lemma_map_at(es2, i);
        if i != p {
            assert(es2[i] == es[i]);
            lemma_map_at(es, i);
        }
        if k == e.key@ {
            lemma_unique_index(es2, i, p);
        }
    }
    assert forall|k: Seq<char>| #[trigger] m.contains_key(k) implies m2.contains_key(k) by {
        if k == e.key@ {
            assert(es2[p].key@ == k);
        } else {
            let i = index_of(es, k);
            assert(es2[i].key@ == k);
        }
    }
    assert(m2 =~= m);
}

/// Taking an entry out keeps the order and removes its key.
proof fn lemma_remove(es: Seq<Entry>, p: int)
    requires
        entries_ok(es),
        0 <= p < es.len(),
    ensures
        entries_ok(es.remove(p)),
        entries_map(es.remove(p)) == entries_map(es).remove(es[p].key@),
{
    let es2 = es.remove(p);
    assert forall|i: int, j: int| 0 <= i < j < es2.len() implies bytes_lt(
        #[trigger] bytes_at(es2, i),
        #[trigger] bytes_at(es2, j),
    ) by {
        let i0 = if i < p { i } else { i + 1 };
        let j0 = if j < p { j } else { j + 1 };
        assert(bytes_lt(bytes_at(es, i0), bytes_at(es, j0)));
    }
    assert forall|i: int| 0 <= i < es2.len() implies valid_key(#[trigger] es2[i].key@) by {
        let i0 = if i < p { i } else { i + 1 };
        assert(es2[i] == es[i0]);
    }
    let m = entries_map(es).remove(es[p].key@);
    let m2 = entries_map(es2);
    assert forall|k: Seq<char>| #[trigger] m2.contains_key(k) implies m.contains_key(k) && m[k]
        == m2[k] by {
        let i = index_of(es2, k);
        let i0 = if i < p { i } else { i + 1 };
        lemma_map_at(es2, i);
        assert(es2[i] == es[i0]);
        lemma_map_at(es, i0);
        if k == es[p].key@ {
            lemma_unique_index(es, i0, p);
        }
    }
    assert forall|k: Seq<char>| #[trigger] m.contains_key(k) implies m2.contains_key(k) by {
        let i = index_of(es, k);
        assert(es[i].key@ == k);
        if i < p {
            assert(es2[i].key@ == k);
        } else {
            assert(i > p);
            assert(es2[i - 1] == es[i]);
            assert(es2[i - 1].key@ == k);
        }
    }
    assert(m2 =~= m);
}

/// A simple in-memory store for purposes of testing.
///
/// It keeps its entries ordered by key. Every write shows in the reads that
/// follow, and no operation fails but a `put_if` whose condition does not
/// hold. The store is viewed as the map from keys to values that it holds.
pub struct MemWeakStore {
    entries: Vec<Entry>,
}

impl View for MemWeakStore {
    type V = Map<Seq<char>, Seq<u8>>;

    closed spec fn view(&self) -> Map<Seq<char>, Seq<u8>> {
        entries_map(self.entries@)
    }
}

impl Default for MemWeakStore {
    fn default() -> (store: MemWeakStore)
        ensures
            store@ == Map::<Seq<char>, Seq<u8>>::empty(),
    {
        MemWeakStore::new()
    }
}

impl MemWeakStore {
    #[verifier::type_invariant]
    spec fn well_formed(self) -> bool {
        entries_ok(self.entries@)
    }

    /// The keys that the store holds, in ascending order of their bytes.
    pub closed spec fn keys(&self) -> Seq<Seq<char>> {
        entry_keys(self.entries@)
    }

    /// An empty store.
    pub fn new() -> (store: MemWeakStore)
        ensures
            store@ == Map::<Seq<char>, Seq<u8>>::empty(),
            store.keys() == Seq::<Seq<char>>::empty(),
    {
        let store = MemWeakStore { entries: Vec::new() };
        assert(store@ =~= Map::<Seq<char>, Seq<u8>>::empty());
        assert(store.keys() =~= Seq::<Seq<char>>::empty());
        store
    }

    /// Find the slot of the key with the bytes `target`, and whether the
    /// entry there has that key.
    fn locate(&self, target: &[u8]) -> (r: (usize, bool))
        ensures
            is_slot(self.entries@, target@, r.0 as int),
            r.1 <==> (r.0 < self.entries@.len() && bytes_at(self.entries@, r.0 as int) == target@),
    {
        proof {
            use_type_invariant(self);
        }
        let mut lo: usize = 0;
        let mut hi: usize = self.entries.len();
        while lo < hi
            invariant
                entries_ok(self.entries@),
                0 <= lo <= hi <= self.entries@.len(),
                forall|i: int| 0 <= i < lo ==> bytes_lt(#[trigger] bytes_at(self.entries@, i), target@),
                forall|i: int|
                    hi <= i < self.entries@.len() ==> !bytes_lt(
                        #[trigger] bytes_at(self.entries@, i),
                        target@,
                    ),
            decreases hi - lo,
        {
            let mid: usize = lo + (hi - lo) / 2;
            if bytes_less(self.entries[mid].key.as_bytes(), target) {
                proof {
                    assert forall|i: int| 0 <= i < mid + 1 implies bytes_lt(
                        #[trigger] bytes_at(self.entries@, i),
                        target@,
                    ) by {
                        if i < mid {
                            assert(bytes_lt(bytes_at(self.entries@, i), bytes_at(self.entries@, mid as int)));
                            lemma_lt_transitive(
                                bytes_at(self.entries@, i),
                                bytes_at(self.entries@, mid as int),
                                target@,
                            );
                        }
                    }
                }
                lo = mid + 1;
            } else {
                proof {
                    assert forall|i: int| mid <= i < self.entries@.len() implies !bytes_lt(
                        #[trigger] bytes_at(self.entries@, i),
                        target@,
                    ) by {
                        if i > mid && bytes_lt(bytes_at(self.entries@, i), target@) {
                            assert(bytes_lt(bytes_at(self.entries@, mid as int), bytes_at(self.entries@, i)));
                            lemma_lt_transitive(
                                bytes_at(self.entries@, mid as int),
                                bytes_at(self.entries@, i),
                                target@,
                            );
                        }
                    }
                }
                hi = mid;
            }
        }
        let found = lo < self.entries.len() && !bytes_less(target, self.entries[lo].key.as_bytes());
        proof {
            if lo < self.entries@.len() {
                lemma_lt_total(bytes_at(self.entries@, lo as int), target@);
                lemma_lt_irreflexive(target@);
            }
        }
        (lo, found)
    }

    /// The entry at the slot of `key` is the one with that key.
    proof fn lemma_found(&self, key: Seq<char>, p: int)
        requires
            entries_ok(self.entries@),
            valid_key(key),
            0 <= p < self.entries@.len(),
            bytes_at(self.entries@, p) == ascii_bytes(key),
        ensures
            self.entries@[p].key@ == key,
            self@.contains_key(key),
            self@[key] == self.entries@[p].value@,
    {
        assert(valid_key(self.entries@[p].key@));
        lemma_key_is_ascii(key);
        lemma_key_is_ascii(self.entries@[p].key@);
        lemma_ascii_bytes_injective(self.entries@[p].key@, key);
        lemma_map_at(self.entries@, p);
    }

    /// The value that the store holds for `key`, if it holds one.
    pub fn value_of(&self, key: &Key) -> (r: Option<Vec<u8>>)
        ensures
            value_view(r) == lookup(self@, key@),
    {
        proof {
            use_type_invariant(self);
        }
        let (p, found) = self.locate(key.as_bytes());
        if found {
            proof {
                self.lemma_found(key@, p as int);
            }
            Some(slice_to_vec(self.entries[p].value.as_slice()))
        } else {
            proof {
                lemma_absent(self.entries@, key@, p as int);
            }
            None
        }
    }

    /// Whether the store holds a value for `key`.
    pub fn holds(&self, key: &Key) -> (r: bool)
        ensures
            r == self@.contains_key(key@),
    {
        proof {
            use_type_invariant(self);
        }
        let (p, found) = self.locate(key.as_bytes());
        proof {
            if found {
                self.lemma_found(key@, p as int);
            } else {
                lemma_absent(self.entries@, key@, p as int);
            }
        }
        found
    }

    /// Associate `value` with `key`, in place of any value that the key had.
    pub fn set(&mut self, key: &Key, value: &[u8])
        ensures
            final(self)@ == old(self)@.insert(key@, value@),
    {
        proof {
            use_type_invariant(&*self);
        }
        let (p, found) = self.locate(key.as_bytes());
        let e = Entry { key: key.clone(), value: slice_to_vec(value) };
        proof {
            if found {
                self.lemma_found(key@, p as int);
                lemma_update(self.entries@, p as int, e);
            } else {
                lemma_insert(self.entries@, p as int, e);
            }
        }
        let mut entries: Vec<Entry> = Vec::new();
        core::mem::swap(&mut self.entries, &mut entries);
        if found {
            entries[p] = e;
        } else {
            entries.insert(p, e);
        }
        core::mem::swap(&mut self.entries, &mut entries);
    }

    /// Drop `key` and its value, if the store holds it.
    pub fn unset(&mut self, key: &Key)
        ensures
            final(self)@ == old(self)@.remove(key@),
    {
        proof {
            use_type_invariant(&*self);
        }
        let (p, found) = self.locate(key.as_bytes());
        if found {
            proof {
                self.lemma_found(key@, p as int);
                lemma_remove(self.entries@, p as int);
            }
            let mut entries: Vec<Entry> = Vec::new();
            core::mem::swap(&mut self.entries, &mut entries);
            let _ = entries.remove(p);
            core::mem::swap(&mut self.entries, &mut entries);
        } else {
            proof {
                lemma_absent(self.entries@, key@, p as int);
                assert(self@.remove(key@) =~= self@);
            }
        }
    }
}

impl MemWeakStore {
    /// The index at which a walk that resumes at `cursor` goes on.
    fn resume_index(&self, cursor: &Option<Cursor>) -> (start: usize)
        ensures
            start == page_start(self.keys(), cursor_view(*cursor)),
            start <= self.entries@.len(),
            sorted_keys(self.keys()),
    {
        proof {
            use_type_invariant(self);
            self.lemma_keys_sorted();
        }
        match cursor {
            None => 0,
            Some(c) => {
                let (p, found) = self.locate(c.as_bytes());
                let n = self.entries.len();
                assert(found ==> p < n);
                let start: usize = if found {
                    p + 1
                } else {
                    p
                };
                proof {
                    let es = self.entries@;
                    let keys = self.keys();
                    if !found {
                        lemma_slot_of_absent(es, c@, p as int);
                    }
                    assert forall|i: int| 0 <= i < start implies !is_after(
                        #[trigger] keys[i],
                        Some(c@),
                    ) by {
                        assert(ascii_bytes(keys[i]) == bytes_at(es, i));
                        if i < p {
                            lemma_lt_asymmetric(bytes_at(es, i), c@);
                        } else {
                            lemma_lt_irreflexive(c@);
                        }
                    }
                    assert forall|i: int| start <= i < keys.len() implies is_after(
                        #[trigger] keys[i],
                        Some(c@),
                    ) by {
                        assert(ascii_bytes(keys[i]) == bytes_at(es, i));
                        if found {
                            assert(bytes_lt(bytes_at(es, p as int), bytes_at(es, i)));
                        }
                    }
                    lemma_passed_is(keys, c@, start as int);
                }
                start
            },
        }
    }

    /// The list of keys is ascending and lists what the store maps.
    proof fn lemma_keys_sorted(&self)
        requires
            entries_ok(self.entries@),
        ensures
            lists_keys_of(self.keys(), self@),
    {
        let es = self.entries@;
        let keys = self.keys();
        assert forall|i: int, j: int| 0 <= i < j < keys.len() implies bytes_lt(
            ascii_bytes(#[trigger] keys[i]),
            ascii_bytes(#[trigger] keys[j]),
        ) by {
            assert(bytes_lt(bytes_at(es, i), bytes_at(es, j)));
        }
        assert forall|k: Seq<char>| keys.contains(k) <==> #[trigger] self@.contains_key(k) by {
            if keys.contains(k) {
                let i = choose|i: int| 0 <= i < keys.len() && keys[i] == k;
                assert(es[i].key@ == k);
            }
            if self@.contains_key(k) {
                let i = index_of(es, k);
                assert(keys[i] == k);
            }
        }
    }

    /// One page of the store's keys: the next `max_items` keys after
    /// `cursor` in ascending order, and the cursor behind them.
    pub fn page(&self, cursor: Option<Cursor>, max_items: usize) -> (r: IterationResult)
        ensures
            lists_keys_of(self.keys(), self@),
            key_views(r.keys@) == page_keys(self.keys(), cursor_view(cursor), max_items as nat),
            cursor_view(r.cursor) == page_cursor(
                self.keys(),
                cursor_view(cursor),
                max_items as nat,
            ),
    {
        proof {
            use_type_invariant(self);
            self.lemma_keys_sorted();
        }
        let start = self.resume_index(&cursor);
        let n = self.entries.len();
        let end: usize = if max_items < n - start {
            start + max_items
        } else {
            n
        };
        let ghost all = self.keys();
        let mut keys: Vec<Key> = Vec::new();
        let mut i: usize = start;
        while i < end
            invariant
                start <= i <= end <= n,
                n == self.entries@.len(),
                all == self.keys(),
                key_views(keys@) == all.subrange(start as int, i as int),
            decreases end - i,
        {
            let k = self.entries[i].key.clone();
            keys.push(k);
            proof {
                assert(key_views(keys@) =~= all.subrange(start as int, i as int).push(all[i as int]));
                assert(all.subrange(start as int, i + 1) =~= all.subrange(
                    start as int,
                    i as int,
                ).push(all[i as int]));
            }
            i += 1;
        }
        let next = if end == n {
            None
        } else if end > start {
            Some(Cursor::from_bytes(slice_to_vec(self.entries[end - 1].key.as_bytes())))
        } else {
            match cursor {
                Some(c) => Some(c),
                None => Some(Cursor::from_bytes(Vec::new())),
            }
        };
        IterationResult { keys, cursor: next }
    }
}

impl WeakStore for MemWeakStore {
    /// The store serves exactly what it maps.
    open spec fn stored(&self) -> Set<(Seq<char>, Seq<u8>)> {
        pairs_of(self@)
    }

    /// Never fails, and finds every value that the store holds.
    fn weak_get(&mut self, key: &Key) -> (r: Result<Option<Vec<u8>>, StoreError>)
        ensures
            final(self)@ == old(self)@,
            r matches Ok(found) && value_view(found) == lookup(old(self)@, key@),
    {
        Ok(self.value_of(key))
    }

    /// Never fails, and replaces the value that the key had.
    fn weak_put(&mut self, key: &Key, value: &[u8]) -> (r: Result<(), StoreError>)
        ensures
            r is Ok,
            final(self)@ == old(self)@.insert(key@, value@),
    {
        proof {
            lemma_map_writes(self@, key@, value@);
        }
        self.set(key, value);
        Ok(())
    }

    /// Never fails, and answers for the store as it is.
    fn weak_exists(&mut self, key: &Key) -> (r: Result<bool, StoreError>)
        ensures
            final(self)@ == old(self)@,
            r matches Ok(b) && b == old(self)@.contains_key(key@),
    {
        proof {
            lemma_map_writes(self@, key@, Seq::empty());
        }
        Ok(self.holds(key))
    }

    /// Never fails, and removes the key at once.
    fn weak_delete(&mut self, key: &Key) -> (r: Result<(), StoreError>)
        ensures
            r is Ok,
            final(self)@ == old(self)@.remove(key@),
    {
        proof {
            lemma_map_writes(self@, key@, Seq::empty());
        }
        self.unset(key);
        Ok(())
    }

    /// Never fails, and reports the page that [`MemWeakStore::page`] gives.
    fn weak_iter(&mut self, cursor: Option<Cursor>, max_items: usize) -> (r: Result<
        IterationResult,
        StoreError,
    >)
        ensures
            final(self)@ == old(self)@,
            final(self).keys() == old(self).keys(),
            lists_keys_of(old(self).keys(), old(self)@),
            r matches Ok(page) && {
                &&& key_views(page.keys@) == page_keys(
                    old(self).keys(),
                    cursor_view(cursor),
                    max_items as nat,
                )
                &&& cursor_view(page.cursor) == page_cursor(
                    old(self).keys(),
                    cursor_view(cursor),
                    max_items as nat,
                )
            },
    {
        let page = self.page(cursor, max_items);
        proof {
            let all = self.keys();
            let shown = page_keys(all, cursor_view(cursor), max_items as nat);
            lemma_page_within(all, cursor_view(cursor), max_items as nat);
            assert(key_views(page.keys@).len() == page.keys@.len());
            assert forall|k: Seq<char>| #[trigger]
                key_views(page.keys@).contains(k) implies has_key(old(self).stored(), k) by {
                assert(shown.contains(k));
                assert(all.contains(k));
                assert(self@.contains_key(k));
                lemma_map_writes(self@, k, Seq::empty());
            }
        }
        Ok(page)
    }
}

impl Store for MemWeakStore {
    /// Never fails.
    fn get(&mut self, key: &Key) -> (r: Result<Option<Vec<u8>>, StoreError>)
        ensures
            r is Ok,
    {
        Ok(self.value_of(key))
    }

    /// Never fails.
    fn put(&mut self, key: &Key, value: &[u8]) -> (r: Result<(), StoreError>)
        ensures
            r is Ok,
    {
        self.set(key, value);
        Ok(())
    }

    /// Succeeds exactly when the swap applies. A swap that does not apply
    /// fails without a cause.
    fn put_if(&mut self, key: &[u8], expected_value: Option<&[u8]>, new_value: &[u8]) -> (r:
        Result<(), StoreError>)
        ensures
            r is Ok <==> swap_applies(old(self)@, key@, slice_view(expected_value)),
            r matches Err(e) ==> e.cause is None,
    {
        match Key::from_bytes(key) {
            Err(_) => Err(StoreError::permanent(None)),
            Ok(k) => {
                let found = self.value_of(&k);
                if swap_allowed(&found, expected_value) {
                    self.set(&k, new_value);
                    Ok(())
                } else {
                    Err(StoreError::permanent(None))
                }
            },
        }
    }

    /// Never fails.
    fn contains_key(&mut self, key: &Key) -> (r: Result<bool, StoreError>)
        ensures
            r is Ok,
    {
        Ok(self.holds(key))
    }
}

} // verus!
