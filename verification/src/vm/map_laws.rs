//! What lookups, updates and deletions do to each other.
use vstd::prelude::*;

use crate::bytes::le_word;
use crate::vm::maps::{
    as_map, distinct, has_key, hex_bytes, hex_digit, hex_pair, index_of, max_fd, slot_of, stores_error, table_error,
    without, DescModel, MapErrorModel, MapType, Pairs, StoreModel,
};

verus! {

/// What a lookup gives.
pub type Found = Result<Option<Seq<u8>>, MapErrorModel>;

/// Whether contents fit a descriptor: no key occurs twice, the capacity is
/// kept, and an array has one value per slot and keys of four bytes.
pub open spec fn fits(store: StoreModel, desc: DescModel) -> bool {
    match store {
        StoreModel::Hash(m) => m.dom().finite() && m.dom().len() <= desc.max_entries,
        StoreModel::Array(slots) => slots.len() == desc.max_entries && desc.key_size == 4,
        StoreModel::Lru(s) => distinct(s) && s.len() <= desc.max_entries,
    }
}

/// Bytes of one length that hold the same number are the same.
proof fn lemma_same_word(a: Seq<u8>, b: Seq<u8>)
    requires
        a.len() == b.len(),
        le_word(a) == le_word(b),
    ensures
        a == b,
    decreases a.len(),
{
    if a.len() > 0 {
        lemma_same_word(a.skip(1), b.skip(1));
        assert forall|i: int| 0 <= i < a.len() implies a[i] == b[i] by {
            if i > 0 {
                assert(a[i] == a.skip(1)[i - 1] && b[i] == b.skip(1)[i - 1]);
            }
        }
    }
    assert(a =~= b);
}

/// Different keys of an array name different slots.
proof fn lemma_slots_apart(a: Seq<u8>, b: Seq<u8>)
    requires
        a.len() == 4,
        b.len() == 4,
        a != b,
    ensures
        slot_of(a) != slot_of(b),
{
    assert(a.take(4) =~= a && b.take(4) =~= b);
    if slot_of(a) == slot_of(b) {
        lemma_same_word(a, b);
    }
}

proof fn lemma_at(s: Pairs, key: Seq<u8>, i: int)
    requires
        distinct(s),
        0 <= i < s.len(),
        s[i].0 == key,
    ensures
        has_key(s, key),
        index_of(s, key) == i,
{
    let j = index_of(s, key);
    assert(0 <= j < s.len() && s[j].0 == key);
}

/// Entries that hold the same pairs of other keys give the same lookups.
proof fn lemma_same_entries(s: Pairs, t: Pairs, desc: DescModel, other: Seq<u8>)
    requires
        distinct(s),
        forall|i: int| 0 <= i < s.len() && (#[trigger] s[i]).0 == other ==> t.contains(s[i]),
        forall|j: int| 0 <= j < t.len() && (#[trigger] t[j]).0 == other ==> s.contains(t[j]),
    ensures
        StoreModel::Lru(t).found(desc, other) == StoreModel::Lru(s).found(desc, other),
{
    if has_key(s, other) {
        let i = index_of(s, other);
        let j = t.index_of(s[i]);
        assert(t[j].0 == other);
        let k = index_of(t, other);
        let m = s.index_of(t[k]);
        lemma_at(s, other, m);
    } else if has_key(t, other) {
        let k = index_of(t, other);
        let m = s.index_of(t[k]);
        assert(s[m].0 == other);
    }
}

/// Removing an entry leaves those of other keys.
proof fn lemma_others_left(s: Pairs, key: Seq<u8>, t: Pairs)
    requires
        t == without(s, key),
    ensures
        forall|i: int| 0 <= i < s.len() && (#[trigger] s[i]).0 != key ==> t.contains(s[i]),
        forall|j: int| 0 <= j < t.len() ==> s.contains(#[trigger] t[j]),
{
    if has_key(s, key) {
        let k = index_of(s, key);
        assert forall|i: int| 0 <= i < s.len() && (#[trigger] s[i]).0 != key implies t.contains(s[i]) by {
            let j = if i < k {
                i
            } else {
                i - 1
            };
            assert(t[j] == s[i]);
        }
        assert forall|j: int| 0 <= j < t.len() implies s.contains(#[trigger] t[j]) by {
            let i = if j < k {
                j
            } else {
                j + 1
            };
            assert(s[i] == t[j]);
        }
    }
}

/// A deletion leaves all other keys as they were, whatever the kind of the
/// map.
pub proof fn deletion_keeps_other_keys(store: StoreModel, desc: DescModel, key: Seq<u8>, other: Seq<u8>)
    requires
        fits(store, desc),
        store.delete_error(desc, key) is None,
        other != key,
    ensures
        store.deleted(desc, key).found(desc, other) == store.found(desc, other),
{
    match store {
        StoreModel::Array(slots) => {
            if other.len() == desc.key_size {
                lemma_slots_apart(key, other);
            }
        },
        StoreModel::Lru(s) => {
            let t = without(s, key);
            lemma_others_left(s, key, t);
            lemma_same_entries(s, t, desc, other);
        },
        _ => {},
    }
}

/// A deletion takes the key away; the slot of an array is zeroed.
pub proof fn deletion_removes_its_key(store: StoreModel, desc: DescModel, key: Seq<u8>)
    requires
        fits(store, desc),
        store.delete_error(desc, key) is None,
    ensures
        match store.deleted(desc, key).found(desc, key) {
            Ok(None) => store !is Array,
            Ok(Some(v)) => store is Array && v.len() == desc.value_size && forall|i: int|
                0 <= i < v.len() ==> #[trigger] v[i] == 0,
            Err(_) => false,
        },
        fits(store.deleted(desc, key), desc),
{
    if let StoreModel::Lru(s) = store {
        let i = index_of(s, key);
        let t = s.remove(i);
        assert(t == without(s, key));
        if has_key(t, key) {
            let k = index_of(t, key);
            let m = if k < i {
                k
            } else {
                k + 1
            };
            assert(t[k] == s[m]);
            lemma_at(s, key, m);
        }
        assert forall|a: int, b: int| 0 <= a < b < t.len() implies #[trigger] t[a].0 != #[trigger] t[b].0 by {
            let c = if a < i {
                a
            } else {
                a + 1
            };
            let d = if b < i {
                b
            } else {
                b + 1
            };
            assert(t[a] == s[c] && t[b] == s[d]);
        }
    }
}

/// The key that an update of an evicting map drops, if it drops one: the
/// least recently used one, where a new key meets a full map.
pub open spec fn evicts(store: StoreModel, desc: DescModel, key: Seq<u8>, other: Seq<u8>) -> bool {
    store matches StoreModel::Lru(s) && s.len() == desc.max_entries && store.found(desc, key) == Found::Ok(None)
        && s.len() > 0 && s[0].0 == other
}

/// An update is seen by lookups of its key, and leaves all others as they
/// were but for the one that is evicted, which is missed.
pub proof fn update_sets_its_key_only(
    store: StoreModel,
    desc: DescModel,
    key: Seq<u8>,
    value: Seq<u8>,
    flags: u64,
    other: Seq<u8>,
)
    requires
        fits(store, desc),
        desc.max_entries > 0,
        store.update_error(desc, key, value, flags) is None,
    ensures
        ({
            let found = store.updated(desc, key, value).found(desc, other);
            if other == key {
                found == Found::Ok(Some(value))
            } else if evicts(store, desc, key, other) {
                other.len() == desc.key_size ==> found == Found::Ok(None)
            } else {
                found == store.found(desc, other)
            }
        }),
        fits(store.updated(desc, key, value), desc),
{
    match store {
        StoreModel::Array(slots) => {
            if other != key && other.len() == desc.key_size {
                lemma_slots_apart(key, other);
            }
        },
        StoreModel::Lru(s) => {
            let full = !has_key(s, key) && s.len() >= desc.max_entries;
            let room = if full {
                s.skip(1)
            } else {
                without(s, key)
            };
            let t = room.push((key, value));
            lemma_updated_distinct(s, desc, key, value);
            assert(t[room.len() as int] == (key, value));
            lemma_at(t, key, room.len() as int);
            if other != key {
                if full {
                    assert forall|i: int| 1 <= i < s.len() implies t.contains(#[trigger] s[i]) by {
                        assert(t[i - 1] == s[i]);
                    }
                    assert forall|j: int| 0 <= j < t.len() && (#[trigger] t[j]).0 == other implies s.contains(t[j])
                        && t[j] != s[0] by {
                        assert(s[j + 1] == t[j]);
                        assert(s[0].0 != s[j + 1].0);
                    }
                    if s[0].0 == other {
                        if has_key(t, other) {
                            let k = index_of(t, other);
                            assert(s[k + 1] == t[k]);
                            assert(s[0].0 != s[k + 1].0);
                        }
                    } else {
                        lemma_same_entries(s, t, desc, other);
                    }
                } else {
                    lemma_others_left(s, key, room);
                    assert forall|i: int| 0 <= i < s.len() && (#[trigger] s[i]).0 == other implies t.contains(s[i]) by {
                        let j = room.index_of(s[i]);
                        assert(t[j] == s[i]);
                    }
                    assert forall|j: int| 0 <= j < t.len() && (#[trigger] t[j]).0 == other implies s.contains(t[j]) by {
                        assert(room[j] == t[j]);
                    }
                    lemma_same_entries(s, t, desc, other);
                }
            }
        },
        StoreModel::Hash(m) => {},
    }
}

proof fn lemma_updated_distinct(s: Pairs, desc: DescModel, key: Seq<u8>, value: Seq<u8>)
    requires
        distinct(s),
        s.len() <= desc.max_entries,
        desc.max_entries > 0,
    ensures
        ({
            let room = if !has_key(s, key) && s.len() >= desc.max_entries {
                s.skip(1)
            } else {
                without(s, key)
            };
            let t = room.push((key, value));
            distinct(t) && t.len() <= desc.max_entries
        }),
{
    let full = !has_key(s, key) && s.len() >= desc.max_entries;
    let room = if full {
        s.skip(1)
    } else {
        without(s, key)
    };
    let t = room.push((key, value));
    assert forall|a: int, b: int| 0 <= a < b < t.len() implies #[trigger] t[a].0 != #[trigger] t[b].0 by {
        if full {
            assert(t[a] == s[a + 1]);
            if b < room.len() {
                assert(t[b] == s[b + 1]);
            }
        } else if has_key(s, key) {
            let i = index_of(s, key);
            let c = if a < i {
                a
            } else {
                a + 1
            };
            assert(t[a] == s[c] && s[i].0 == key);
            if b < room.len() {
                let d = if b < i {
                    b
                } else {
                    b + 1
                };
                assert(t[b] == s[d]);
            }
        } else {
            assert(t[a] == s[a]);
        }
    }
}

/// A lookup changes no value.
pub proof fn lookup_keeps_values(store: StoreModel, desc: DescModel, key: Seq<u8>, other: Seq<u8>)
    requires
        fits(store, desc),
    ensures
        store.touched(desc, key).found(desc, other) == store.found(desc, other),
        fits(store.touched(desc, key), desc),
{
    if let StoreModel::Lru(s) = store {
        if key.len() == desc.key_size && has_key(s, key) {
            let i = index_of(s, key);
            let room = without(s, key);
            let t = room.push(s[i]);
            assert(s[i].0 == key);
            if desc.max_entries > 0 {
                lemma_updated_distinct(s, desc, key, s[i].1);
                assert(s[i] == (key, s[i].1));
            }
            lemma_others_left(s, key, room);
            assert(t[room.len() as int] == s[i]);
            assert forall|k: int| 0 <= k < s.len() && (#[trigger] s[k]).0 == other implies t.contains(s[k]) by {
                if s[k].0 == key {
                    lemma_at(s, key, k);
                } else {
                    let j = room.index_of(s[k]);
                    assert(t[j] == s[k]);
                }
            }
            assert forall|j: int| 0 <= j < t.len() && (#[trigger] t[j]).0 == other implies s.contains(t[j]) by {
                if j < room.len() {
                    assert(room[j] == t[j]);
                }
            }
            lemma_same_entries(s, t, desc, other);
        }
    }
}

/// Whether entries of two keys stand in this order.
pub open spec fn staler(s: Pairs, a: Seq<u8>, b: Seq<u8>) -> bool {
    exists|i: int, j: int| 0 <= i < j < s.len() && (#[trigger] s[i]).0 == a && (#[trigger] s[j]).0 == b
}

/// The entry of a key moves behind all others, which keep their order.
pub open spec fn refreshed(s: Pairs, t: Pairs, key: Seq<u8>) -> bool {
    &&& t.len() > 0 && t.last().0 == key
    &&& forall|a: Seq<u8>, b: Seq<u8>|
        a != key && b != key && has_key(t, a) && has_key(t, b) && #[trigger] staler(s, a, b) ==> staler(t, a, b)
}

/// A hit and an update make their key the most recently used one; the others
/// keep their order.
pub proof fn use_refreshes(s: Pairs, desc: DescModel, key: Seq<u8>, value: Seq<u8>)
    requires
        distinct(s),
        s.len() <= desc.max_entries,
        desc.max_entries > 0,
    ensures
        StoreModel::Lru(s).updated(desc, key, value) matches StoreModel::Lru(t) && refreshed(s, t, key),
        StoreModel::Lru(s).found(desc, key) matches Ok(Some(v)) ==> (StoreModel::Lru(s).touched(desc, key)
            matches StoreModel::Lru(t) && refreshed(s, t, key)),
{
    let full = !has_key(s, key) && s.len() >= desc.max_entries;
    let room = if full {
        s.skip(1)
    } else {
        without(s, key)
    };
    let t = room.push((key, value));
    assert forall|a: Seq<u8>, b: Seq<u8>|
        a != key && b != key && has_key(t, a) && has_key(t, b) && #[trigger] staler(s, a, b) implies staler(t, a, b) by {
        lemma_order_kept(s, desc, key, (key, value), a, b);
    }
    if has_key(s, key) {
        let e = s[index_of(s, key)];
        let u = room.push(e);
        assert(e.0 == key);
        assert forall|a: Seq<u8>, b: Seq<u8>|
            a != key && b != key && has_key(u, a) && has_key(u, b) && #[trigger] staler(s, a, b) implies staler(
            u,
            a,
            b,
        ) by {
            lemma_order_kept(s, desc, key, e, a, b);
        }
    }
}

proof fn lemma_order_kept(
    s: Pairs,
    desc: DescModel,
    key: Seq<u8>,
    e: (Seq<u8>, Seq<u8>),
    a: Seq<u8>,
    b: Seq<u8>,
)
    requires
        distinct(s),
        a != key,
        b != key,
        e.0 == key,
        staler(s, a, b),
        ({
            let room = if !has_key(s, key) && s.len() >= desc.max_entries {
                s.skip(1)
            } else {
                without(s, key)
            };
            has_key(room.push(e), a)
        }),
    ensures
        ({
            let room = if !has_key(s, key) && s.len() >= desc.max_entries {
                s.skip(1)
            } else {
                without(s, key)
            };
            staler(room.push(e), a, b)
        }),
{
    let full = !has_key(s, key) && s.len() >= desc.max_entries;
    let room = if full {
        s.skip(1)
    } else {
        without(s, key)
    };
    let t = room.push(e);
    let (i, j) = choose|i: int, j: int|
        0 <= i < j < s.len() && (#[trigger] s[i]).0 == a && (#[trigger] s[j]).0 == b;
    if full {
        let k = index_of(t, a);
        assert(t[k] == s[k + 1]);
        assert(k + 1 == i) by {
            lemma_at(s, a, i);
            lemma_at(s, a, k + 1);
        }
        assert(t[i - 1] == s[i] && t[j - 1] == s[j]);
        assert(t[i - 1].0 == a && t[j - 1].0 == b);
    } else if has_key(s, key) {
        let k = index_of(s, key);
        let p = if i < k {
            i
        } else {
            i - 1
        };
        let q = if j < k {
            j
        } else {
            j - 1
        };
        assert(t[p] == s[i] && t[q] == s[j]);
        assert(t[p].0 == a && t[q].0 == b);
    } else {
        assert(t[i] == s[i] && t[j] == s[j]);
        assert(t[i].0 == a && t[j].0 == b);
    }
}

/// When an update is refused, and why. Flag 1 wants a key that is not there,
/// flag 2 one that is; a full hash takes no new key.
pub proof fn update_refusals(
    store: StoreModel,
    desc: DescModel,
    key: Seq<u8>,
    value: Seq<u8>,
    flags: u64,
)
    requires
        fits(store, desc),
        key.len() <= usize::MAX,
        value.len() <= usize::MAX,
    ensures
        ({
            let error = store.update_error(desc, key, value, flags);
            &&& flags > 2 ==> error is Some && error->0 is InvalidDesc
            &&& flags <= 2 && key.len() != desc.key_size ==> error == Some(
                MapErrorModel::KeySizeMismatch { expected: desc.key_size, got: key.len() as usize },
            )
            &&& flags <= 2 && key.len() == desc.key_size && value.len() != desc.value_size ==> error == Some(
                MapErrorModel::ValueSizeMismatch { expected: desc.value_size, got: value.len() as usize },
            )
            &&& flags <= 2 && key.len() == desc.key_size && value.len() == desc.value_size ==> match store.found(
                desc,
                key,
            ) {
                Err(e) => error == Some(e),
                Ok(Some(_)) => if flags == 1 {
                    error == Some(MapErrorModel::KeyExists)
                } else {
                    error is None
                },
                Ok(None) => if flags == 2 {
                    error == Some(MapErrorModel::KeyNotFound)
                } else if store matches StoreModel::Hash(m) && m.dom().len() == desc.max_entries {
                    error == Some(MapErrorModel::Full { max_entries: desc.max_entries })
                } else {
                    error is None
                },
            }
        }),
{
}

/// When a deletion is refused: where a lookup fails or misses.
pub proof fn deletion_refusals(store: StoreModel, desc: DescModel, key: Seq<u8>)
    ensures
        match store.found(desc, key) {
            Err(e) => store.delete_error(desc, key) == Some(e),
            Ok(None) => store.delete_error(desc, key) == Some(MapErrorModel::KeyNotFound),
            Ok(Some(_)) => store.delete_error(desc, key) is None,
        },
{
}

/// When a lookup fails: at a key of the wrong width, or one that names no
/// slot of an array. Arrays miss no other key.
pub proof fn lookup_failures(store: StoreModel, desc: DescModel, key: Seq<u8>)
    requires
        fits(store, desc),
    ensures
        store.found(desc, key) is Err <==> key.len() != desc.key_size || (store is Array && le_word(key)
            >= desc.max_entries),
        store is Array ==> store.found(desc, key) != Found::Ok(None),
{
    if key.len() == 4 {
        assert(key.take(4) =~= key);
    }
}

/// The number of entries of a hash grows with new keys and shrinks with
/// deleted ones.
pub proof fn hash_counts_keys(m: Map<Seq<u8>, Seq<u8>>, desc: DescModel, key: Seq<u8>, value: Seq<u8>)
    requires
        m.dom().finite(),
        key.len() == desc.key_size,
    ensures
        StoreModel::Hash(m).updated(desc, key, value) matches StoreModel::Hash(n) && n.dom().len() == m.dom().len() + (
        if StoreModel::Hash(m).found(desc, key) == Found::Ok(None) {
            1nat
        } else {
            0
        }),
        StoreModel::Hash(m).delete_error(desc, key) is None ==> (StoreModel::Hash(m).deleted(desc, key)
            matches StoreModel::Hash(n) && n.dom().len() + 1 == m.dom().len()),
{
    assert(m.insert(key, value).dom() =~= m.dom().insert(key));
    assert(m.remove(key).dom() =~= m.dom().remove(key));
}

/// The slots after the initial entries from `i` on.
proof fn lemma_filled(desc: DescModel, slots: Seq<Seq<u8>>, i: nat, n: int)
    requires
        distinct(desc.initial),
        0 <= n < slots.len(),
        forall|k: int|
            0 <= k < desc.initial.len() ==> (#[trigger] desc.initial[k]).0.len() == 4 && slot_of(desc.initial[k].0)
                < slots.len(),
    ensures
        desc.fill_slots(slots, i).len() == slots.len(),
        forall|k: int|
            i <= k < desc.initial.len() && slot_of((#[trigger] desc.initial[k]).0) == n ==> desc.fill_slots(slots, i)[n]
                == desc.initial[k].1,
        (forall|k: int| i <= k < desc.initial.len() ==> slot_of((#[trigger] desc.initial[k]).0) != n)
            ==> desc.fill_slots(slots, i)[n] == slots[n],
    decreases desc.initial.len() - i,
{
    if i < desc.initial.len() {
        let (key, value) = desc.initial[i as int];
        assert(slot_of(desc.initial[i as int].0) < slots.len());
        let next = slots.update(slot_of(key) as int, value);
        assert(next.len() == slots.len());
        lemma_filled(desc, next, i + 1, n);
        if slot_of(key) == n {
            assert forall|k: int| i < k < desc.initial.len() implies slot_of((#[trigger] desc.initial[k]).0) != n by {
                assert(desc.initial[i as int].0 != desc.initial[k].0);
                lemma_slots_apart(desc.initial[i as int].0, desc.initial[k].0);
            }
        }
    }
}

/// A fresh store gives the initial entries, and nothing else but the zeros of
/// an array.
pub proof fn fresh_store_holds_initial_entries(desc: DescModel, key: Seq<u8>)
    requires
        desc.error() is None,
        distinct(desc.initial),
        key.len() == desc.key_size,
        desc.map_type == MapType::Array ==> le_word(key) < desc.max_entries,
    ensures
        forall|i: int|
            0 <= i < desc.initial.len() && (#[trigger] desc.initial[i]).0 == key ==> desc.contents().found(desc, key)
                == Found::Ok(Some(desc.initial[i].1)),
        (forall|i: int| 0 <= i < desc.initial.len() ==> (#[trigger] desc.initial[i]).0 != key)
            ==> match desc.contents().found(desc, key) {
            Ok(None) => desc.map_type != MapType::Array,
            Ok(Some(v)) => desc.map_type == MapType::Array && v.len() == desc.value_size && forall|i: int|
                0 <= i < v.len() ==> #[trigger] v[i] == 0,
            Err(_) => false,
        },
{
    let s = desc.initial;
    if desc.map_type == MapType::Array {
        assert(key.take(4) =~= key);
        lemma_widths(desc, 0);
        let empty = Seq::new(desc.max_entries as nat, |i: int| crate::vm::maps::zeros(desc.value_size as nat));
        lemma_filled(desc, empty, 0, slot_of(key) as int);
        assert forall|i: int| 0 <= i < s.len() && (#[trigger] s[i]).0 != key implies slot_of(s[i].0) != slot_of(key) by {
            lemma_slots_apart(s[i].0, key);
        }
    } else {
        assert forall|i: int| 0 <= i < s.len() && (#[trigger] s[i]).0 == key implies desc.contents().found(desc, key)
            == Found::Ok(Some(s[i].1)) by {
            lemma_at(s, key, i);
            assert(as_map(s).contains_key(key));
        }
        if has_key(s, key) {
            let i = index_of(s, key);
            assert(s[i].0 == key);
        }
    }
}

/// What no width error means.
proof fn lemma_widths(desc: DescModel, i: nat)
    ensures
        desc.width_error(i) is None <==> forall|k: int|
            i <= k < desc.initial.len() ==> (#[trigger] desc.initial[k]).0.len() == desc.key_size
                && desc.initial[k].1.len() == desc.value_size,
    decreases desc.initial.len() - i,
{
    if i < desc.initial.len() {
        lemma_widths(desc, i + 1);
        assert(desc.initial[i as int] == desc.initial[i as int]);
    }
}

/// Which descriptors are accepted.
pub proof fn accepted_descriptors(desc: DescModel)
    ensures
        desc.error() is None <==> {
            &&& desc.fd > 0
            &&& desc.key_size > 0 && desc.value_size > 0 && desc.max_entries > 0
            &&& desc.map_type == MapType::Array ==> desc.key_size == 4
            &&& desc.initial.len() <= desc.max_entries
            &&& forall|k: int|
                0 <= k < desc.initial.len() ==> (#[trigger] desc.initial[k]).0.len() == desc.key_size
                    && desc.initial[k].1.len() == desc.value_size && (desc.map_type == MapType::Array ==> le_word(
                    desc.initial[k].0,
                ) < desc.max_entries)
        },
{
    lemma_widths(desc, 0);
    assert forall|k: int| 0 <= k < desc.initial.len() && (#[trigger] desc.initial[k]).0.len() == 4 implies slot_of(
        desc.initial[k].0,
    ) == le_word(desc.initial[k].0) by {
        assert(desc.initial[k].0.take(4) =~= desc.initial[k].0);
    }
}

/// The largest descriptor number bounds all, and is one of them.
pub proof fn lemma_largest(descs: Seq<DescModel>)
    ensures
        forall|k: int| 0 <= k < descs.len() ==> (#[trigger] descs[k]).fd <= max_fd(descs),
        descs.len() > 0 ==> exists|k: int| 0 <= k < descs.len() && (#[trigger] descs[k]).fd == max_fd(descs),
    decreases descs.len(),
{
    if descs.len() > 0 {
        let rest = descs.drop_last();
        lemma_largest(rest);
        let last = descs.len() - 1;
        assert(descs[last] == descs.last());
        assert forall|k: int| 0 <= k < descs.len() implies (#[trigger] descs[k]).fd <= max_fd(descs) by {
            if k < last {
                assert(rest[k] == descs[k]);
            }
        }
        if descs.last().fd <= max_fd(rest) && rest.len() > 0 {
            let k = choose|k: int| 0 <= k < rest.len() && (#[trigger] rest[k]).fd == max_fd(rest);
            assert(descs[k].fd == max_fd(descs));
        }
    }
}

proof fn lemma_table(descs: Seq<DescModel>, i: nat)
    ensures
        table_error(descs, i) is None <==> forall|k: int|
            i <= k < descs.len() ==> (#[trigger] descs[k]).error() is None && (forall|j: int|
                0 <= j < k ==> (#[trigger] descs[j]).fd != descs[k].fd),
    decreases descs.len() - i,
{
    if i < descs.len() {
        lemma_table(descs, i + 1);
        let d = descs[i as int];
        assert(descs[i as int] == d);
        if table_error(descs, i) is None {
            assert forall|k: int| i <= k < descs.len() implies (#[trigger] descs[k]).error() is None && (forall|j: int|
                0 <= j < k ==> (#[trigger] descs[j]).fd != descs[k].fd) by {}
        }
    }
}

/// Which lists of descriptors make a table: those whose descriptors are all
/// accepted, with numbers up to the largest one allowed, no number twice.
pub proof fn accepted_tables(descs: Seq<DescModel>)
    ensures
        stores_error(descs) is None <==> {
            &&& forall|k: int| 0 <= k < descs.len() ==> (#[trigger] descs[k]).error() is None && descs[k].fd <= 0xffff
            &&& forall|j: int, k: int| 0 <= j < k < descs.len() ==> (#[trigger] descs[j]).fd != (#[trigger] descs[k]).fd
        },
{
    lemma_largest(descs);
    lemma_table(descs, 0);
    if descs.len() > 0 {
        let m = choose|k: int| 0 <= k < descs.len() && (#[trigger] descs[k]).fd == max_fd(descs);
        if forall|k: int| 0 <= k < descs.len() ==> (#[trigger] descs[k]).error() is None {
            accepted_descriptors(descs[m]);
            assert(descs[m].error() is None);
        }
    }
}

/// The number that a hexadecimal digit stands for, of either case.
pub open spec fn stands_for(b: u8, d: int) -> bool {
    ||| 0 <= d < 10 && b == 0x30 + d
    ||| 10 <= d < 16 && (b == 0x41 + (d - 10) || b == 0x61 + (d - 10))
}

/// Hexadecimal text is read as pairs of digits, the high one first. It has to
/// be made of them.
pub proof fn hex_reads_pairs_of_digits(s: Seq<u8>, i: int)
    requires
        0 <= i < s.len() / 2,
    ensures
        s.len() % 2 != 0 ==> hex_bytes(s) is None,
        match hex_bytes(s) {
            Some(bytes) => bytes.len() == s.len() / 2 && exists|h: int, l: int| #[trigger]
                stands_for(s[2 * i], h) && #[trigger] stands_for(s[2 * i + 1], l) && bytes[i] == 16 * h + l,
            None => s.len() % 2 != 0 || exists|k: int|
                0 <= k < s.len() && forall|d: int| !stands_for(#[trigger] s[k], d),
        },
{
    match hex_bytes(s) {
        Some(bytes) => {
            assert(hex_pair(s[2 * i], s[2 * i + 1]) is Some);
            let h = hex_digit(s[2 * i])->0 as int;
            let l = hex_digit(s[2 * i + 1])->0 as int;
            assert(stands_for(s[2 * i], h));
            assert(stands_for(s[2 * i + 1], l));
        },
        None => {
            if s.len() % 2 == 0 {
                let j = choose|j: int| 0 <= j < s.len() / 2 && #[trigger] hex_pair(s[2 * j], s[2 * j + 1]) is None;
                let k = if hex_digit(s[2 * j]) is None {
                    2 * j
                } else {
                    2 * j + 1
                };
                assert(hex_digit(s[k]) is None);
            }
        },
    }
}

} // verus!
