//! How the in-memory store cuts the enumeration of its keys into pages.
//!
//! The keys are walked in ascending order of their bytes. A cursor holds the
//! bytes after which the walk resumes, which are those of the last key
//! reported, so a step depends on the cursor and on the keys that the store
//! holds at that moment alone.

use vstd::prelude::*;
use crate::kv::order::{
    ascii_bytes, bytes_lt, lemma_lt_asymmetric, lemma_lt_irreflexive, lemma_lt_transitive,
};
use crate::kv::valid_key;

verus! {

/// `keys` is a list of well-formed keys in strictly ascending byte order.
pub open spec fn sorted_keys(keys: Seq<Seq<char>>) -> bool {
    &&& forall|i: int| 0 <= i < keys.len() ==> valid_key(#[trigger] keys[i])
    &&& forall|i: int, j: int|
        0 <= i < j < keys.len() ==> bytes_lt(
            ascii_bytes(#[trigger] keys[i]),
            ascii_bytes(#[trigger] keys[j]),
        )
}

/// `keys` lists, in ascending order, exactly the keys that `m` maps.
pub open spec fn lists_keys_of(keys: Seq<Seq<char>>, m: Map<Seq<char>, Seq<u8>>) -> bool {
    &&& sorted_keys(keys)
    &&& forall|k: Seq<char>| keys.contains(k) <==> #[trigger] m.contains_key(k)
}

/// Whether a walk that resumes at `cursor` has the key `k` still before it.
pub open spec fn is_after(k: Seq<char>, cursor: Option<Seq<u8>>) -> bool {
    match cursor {
        None => true,
        Some(c) => bytes_lt(c, ascii_bytes(k)),
    }
}

/// How many of the leading keys the cursor `c` has passed: those up to the
/// first key that comes after it.
pub open spec fn passed(keys: Seq<Seq<char>>, c: Seq<u8>) -> nat
    decreases keys.len(),
{
    if keys.len() == 0 || bytes_lt(c, ascii_bytes(keys[0])) {
        0
    } else {
        1 + passed(keys.drop_first(), c)
    }
}

/// The index of the first key of the page that resumes at `cursor`.
pub open spec fn page_start(keys: Seq<Seq<char>>, cursor: Option<Seq<u8>>) -> nat {
    match cursor {
        None => 0,
        Some(c) => passed(keys, c),
    }
}

/// The index behind the last key of the page of at most `max_items` keys.
pub open spec fn page_end(keys: Seq<Seq<char>>, cursor: Option<Seq<u8>>, max_items: nat) -> nat {
    let start = page_start(keys, cursor);
    if start + max_items < keys.len() {
        start + max_items
    } else {
        keys.len()
    }
}

/// The keys that the step reports: the next `max_items` keys after the
/// cursor, or as many as there are.
pub open spec fn page_keys(
    keys: Seq<Seq<char>>,
    cursor: Option<Seq<u8>>,
    max_items: nat,
) -> Seq<Seq<char>> {
    keys.subrange(page_start(keys, cursor) as int, page_end(keys, cursor, max_items) as int)
}

/// The cursor that the step returns: none once the last key was reported,
/// else the bytes of the last key of the page, else (for an empty page) the
/// place at which the step itself resumed.
pub open spec fn page_cursor(
    keys: Seq<Seq<char>>,
    cursor: Option<Seq<u8>>,
    max_items: nat,
) -> Option<Seq<u8>> {
    let start = page_start(keys, cursor);
    let end = page_end(keys, cursor, max_items);
    if end == keys.len() {
        None
    } else if end > start {
        Some(ascii_bytes(keys[end - 1]))
    } else {
        match cursor {
            Some(c) => Some(c),
            None => Some(Seq::empty()),
        }
    }
}

/// The tail of an ascending list of keys is one.
proof fn lemma_sorted_tail(keys: Seq<Seq<char>>)
    requires
        sorted_keys(keys),
        keys.len() > 0,
    ensures
        sorted_keys(keys.drop_first()),
{
    let rest = keys.drop_first();
    assert forall|i: int, j: int| 0 <= i < j < rest.len() implies bytes_lt(
        ascii_bytes(#[trigger] rest[i]),
        ascii_bytes(#[trigger] rest[j]),
    ) by {
        assert(rest[i] == keys[i + 1] && rest[j] == keys[j + 1]);
    }
    assert forall|i: int| 0 <= i < rest.len() implies valid_key(#[trigger] rest[i]) by {
        assert(rest[i] == keys[i + 1]);
    }
}

/// The first key of an ascending list comes before every other key of it.
proof fn lemma_first_is_least(keys: Seq<Seq<char>>, k: Seq<char>)
    requires
        sorted_keys(keys),
        keys.contains(k),
    ensures
        k == keys[0] || bytes_lt(ascii_bytes(keys[0]), ascii_bytes(k)),
{
    let i = choose|i: int| 0 <= i < keys.len() && keys[i] == k;
    if i > 0 {
        assert(bytes_lt(ascii_bytes(keys[0]), ascii_bytes(keys[i])));
    }
}

/// There is one ascending list of a set of keys: two ascending lists that
/// hold the same keys are the same list. So the keys that a store maps
/// decide the list that is cut into pages.
pub proof fn lemma_key_list_unique(a: Seq<Seq<char>>, b: Seq<Seq<char>>)
    requires
        sorted_keys(a),
        sorted_keys(b),
        forall|k: Seq<char>| a.contains(k) <==> b.contains(k),
    ensures
        a == b,
    decreases a.len(),
{
    if a.len() == 0 {
        if b.len() > 0 {
            assert(b.contains(b[0]));
        }
        assert(a =~= b);
    } else {
        assert(a.contains(a[0]));
        assert(b.contains(a[0]));
        assert(b.contains(b[0]));
        lemma_first_is_least(b, a[0]);
        lemma_first_is_least(a, b[0]);
        if a[0] != b[0] {
            lemma_lt_asymmetric(ascii_bytes(a[0]), ascii_bytes(b[0]));
        }
        let ra = a.drop_first();
        let rb = b.drop_first();
        lemma_sorted_tail(a);
        lemma_sorted_tail(b);
        assert forall|k: Seq<char>| ra.contains(k) <==> rb.contains(k) by {
            if ra.contains(k) {
                let i = choose|i: int| 0 <= i < ra.len() && ra[i] == k;
                assert(a[i + 1] == k);
                assert(b.contains(k));
                let j = choose|j: int| 0 <= j < b.len() && b[j] == k;
                if j == 0 {
                    assert(bytes_lt(ascii_bytes(a[0]), ascii_bytes(a[i + 1])));
                    lemma_lt_irreflexive(ascii_bytes(k));
                }
                assert(rb[j - 1] == k);
            }
            if rb.contains(k) {
                let j = choose|j: int| 0 <= j < rb.len() && rb[j] == k;
                assert(b[j + 1] == k);
                assert(a.contains(k));
                let i = choose|i: int| 0 <= i < a.len() && a[i] == k;
                if i == 0 {
                    assert(bytes_lt(ascii_bytes(b[0]), ascii_bytes(b[j + 1])));
                    lemma_lt_irreflexive(ascii_bytes(k));
                }
                assert(ra[i - 1] == k);
            }
        }
        lemma_key_list_unique(ra, rb);
        assert(a =~= seq![a[0]] + ra);
        assert(b =~= seq![b[0]] + rb);
    }
}

/// The cursor never passes more keys than there are.
pub proof fn lemma_passed_bound(keys: Seq<Seq<char>>, c: Seq<u8>)
    ensures
        passed(keys, c) <= keys.len(),
    decreases keys.len(),
{
    if keys.len() > 0 {
        lemma_passed_bound(keys.drop_first(), c);
    }
}

/// In an ascending list the keys that the cursor has passed are those that
/// do not come after it.
pub proof fn lemma_passed_splits(keys: Seq<Seq<char>>, c: Seq<u8>)
    requires
        sorted_keys(keys),
    ensures
        passed(keys, c) <= keys.len(),
        forall|i: int| 0 <= i < passed(keys, c) ==> !is_after(#[trigger] keys[i], Some(c)),
        forall|i: int| passed(keys, c) <= i < keys.len() ==> is_after(#[trigger] keys[i], Some(c)),
    decreases keys.len(),
{
    if keys.len() > 0 {
        let rest = keys.drop_first();
        lemma_sorted_tail(keys);
        lemma_passed_splits(rest, c);
        if bytes_lt(c, ascii_bytes(keys[0])) {
            assert forall|i: int| 0 <= i < keys.len() implies is_after(#[trigger] keys[i], Some(c)) by {
                if i > 0 {
                    lemma_lt_transitive(c, ascii_bytes(keys[0]), ascii_bytes(keys[i]));
                }
            }
        } else {
            assert forall|i: int| 0 <= i < passed(keys, c) implies !is_after(
                #[trigger] keys[i],
                Some(c),
            ) by {
                if i > 0 {
                    assert(keys[i] == rest[i - 1]);
                }
            }
            assert forall|i: int| passed(keys, c) <= i < keys.len() implies is_after(
                #[trigger] keys[i],
                Some(c),
            ) by {
                assert(keys[i] == rest[i - 1]);
            }
        }
    }
}

/// The index that splits an ascending list into the keys not after the
/// cursor and the keys after it is the number of keys passed.
pub proof fn lemma_passed_is(keys: Seq<Seq<char>>, c: Seq<u8>, q: int)
    requires
        sorted_keys(keys),
        0 <= q <= keys.len(),
        forall|i: int| 0 <= i < q ==> !is_after(#[trigger] keys[i], Some(c)),
        forall|i: int| q <= i < keys.len() ==> is_after(#[trigger] keys[i], Some(c)),
    ensures
        passed(keys, c) == q,
{
    lemma_passed_splits(keys, c);
    let p = passed(keys, c) as int;
    if p < q {
        assert(is_after(keys[p], Some(c)));
    } else if q < p {
        assert(is_after(keys[q], Some(c)));
    }
}

/// A page holds at most `max_items` keys, all of them keys of the list.
pub proof fn lemma_page_within(keys: Seq<Seq<char>>, cursor: Option<Seq<u8>>, max_items: nat)
    ensures
        page_start(keys, cursor) <= page_end(keys, cursor, max_items) <= keys.len(),
        page_keys(keys, cursor, max_items).len() <= max_items,
        forall|k: Seq<char>| #[trigger]
            page_keys(keys, cursor, max_items).contains(k) ==> keys.contains(k),
{
    if let Some(c) = cursor {
        lemma_passed_bound(keys, c);
    }
    let page = page_keys(keys, cursor, max_items);
    let start = page_start(keys, cursor) as int;
    assert forall|k: Seq<char>| #[trigger] page.contains(k) implies keys.contains(k) by {
        let i = choose|i: int| 0 <= i < page.len() && page[i] == k;
        assert(keys[start + i] == k);
    }
}

/// A step never skips a key: a key of the list that the walk had before it
/// is on the page, or the returned cursor has it before it still.
pub proof fn lemma_step_keeps(
    keys: Seq<Seq<char>>,
    cursor: Option<Seq<u8>>,
    max_items: nat,
    k: Seq<char>,
)
    requires
        sorted_keys(keys),
        keys.contains(k),
        is_after(k, cursor),
    ensures
        page_keys(keys, cursor, max_items).contains(k) || (page_cursor(
            keys,
            cursor,
            max_items,
        ) matches Some(c) && is_after(k, Some(c))),
{
    let start = page_start(keys, cursor) as int;
    let end = page_end(keys, cursor, max_items) as int;
    let page = page_keys(keys, cursor, max_items);
    let j = choose|j: int| 0 <= j < keys.len() && keys[j] == k;
    lemma_page_within(keys, cursor, max_items);
    if let Some(c) = cursor {
        lemma_passed_splits(keys, c);
        if j < start {
            assert(!is_after(keys[j], Some(c)));
        }
    }
    assert(start <= j);
    if j < end {
        assert(page[j - start] == k);
    } else if end > start {
        assert(bytes_lt(ascii_bytes(keys[end - 1]), ascii_bytes(keys[j])));
    } else if cursor is None {
        assert(valid_key(keys[j]));
        assert(ascii_bytes(k).len() == k.len());
    }
}

/// The cursor with which step `i` of a walk resumes. Step `i` is made on a
/// store that holds `stores[i]` and reports at most `sizes[i]` keys; the
/// first step starts without a cursor, each later one with the cursor that
/// the step before it returned.
pub open spec fn cursor_at(stores: Seq<Seq<Seq<char>>>, sizes: Seq<nat>, i: nat) -> Option<
    Seq<u8>,
>
    decreases i,
{
    if i == 0 {
        None
    } else {
        page_cursor(stores[i - 1], cursor_at(stores, sizes, (i - 1) as nat), sizes[i - 1])
    }
}

/// An enumeration is complete: when a walk of one or more steps ends with
/// an absent cursor, every key that the store held at each of the steps was
/// reported by one of them, whatever else was put or deleted in between.
pub proof fn lemma_walk_complete(stores: Seq<Seq<Seq<char>>>, sizes: Seq<nat>, k: Seq<char>)
    requires
        stores.len() > 0,
        sizes.len() == stores.len(),
        forall|i: int| 0 <= i < stores.len() ==> sorted_keys(#[trigger] stores[i]),
        forall|i: int| 0 <= i < stores.len() ==> (#[trigger] stores[i]).contains(k),
        cursor_at(stores, sizes, stores.len()) is None,
    ensures
        exists|i: int|
            0 <= i < stores.len() && #[trigger] page_keys(
                stores[i],
                cursor_at(stores, sizes, i as nat),
                sizes[i],
            ).contains(k),
{
    lemma_walk_reaches(stores, sizes, k, stores.len());
}

/// Whether one of the first `n` steps of the walk reported `k`.
pub open spec fn reported_within(
    stores: Seq<Seq<Seq<char>>>,
    sizes: Seq<nat>,
    k: Seq<char>,
    n: nat,
) -> bool {
    exists|i: int|
        0 <= i < n && #[trigger] page_keys(
            stores[i],
            cursor_at(stores, sizes, i as nat),
            sizes[i],
        ).contains(k)
}

/// After `n` steps a key that the store held throughout was reported, or
/// the walk goes on and has the key before it.
proof fn lemma_walk_reaches(stores: Seq<Seq<Seq<char>>>, sizes: Seq<nat>, k: Seq<char>, n: nat)
    requires
        n <= stores.len(),
        sizes.len() == stores.len(),
        forall|i: int| 0 <= i < stores.len() ==> sorted_keys(#[trigger] stores[i]),
        forall|i: int| 0 <= i < stores.len() ==> (#[trigger] stores[i]).contains(k),
    ensures
        reported_within(stores, sizes, k, n) || (is_after(k, cursor_at(stores, sizes, n)) && (n
            == 0 || cursor_at(stores, sizes, n) is Some)),
    decreases n,
{
    if n > 0 {
        let m = (n - 1) as nat;
        lemma_walk_reaches(stores, sizes, k, m);
        if reported_within(stores, sizes, k, m) {
            let i = choose|i: int|
                0 <= i < m && #[trigger] page_keys(
                    stores[i],
                    cursor_at(stores, sizes, i as nat),
                    sizes[i],
                ).contains(k);
            assert(page_keys(stores[i], cursor_at(stores, sizes, i as nat), sizes[i]).contains(k));
        } else {
            let at = m as int;
            assert(sorted_keys(stores[at]));
            assert(stores[at].contains(k));
            lemma_step_keeps(stores[at], cursor_at(stores, sizes, m), sizes[at], k);
            if page_keys(stores[at], cursor_at(stores, sizes, m), sizes[at]).contains(k) {
                assert(page_keys(
                    stores[at],
                    cursor_at(stores, sizes, at as nat),
                    sizes[at],
                ).contains(k));
            }
        }
    }
}

} // verus!
