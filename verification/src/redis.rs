//! The commands of the store: `get`, `set` and `del` on a map that holds at
//! most one entry per key.
use vstd::prelude::*;
use vstd::multiset::Multiset;
use vstd::utf8::encode_utf8;
use crate::common::{ByteOrder, MAX_MSG_SIZE};
use crate::hashtable::{
    create_node, fnv_hash, free_entry, is_hit, law_delete_removes, law_help_rehashing_keeps,
    law_insert_adds, law_lookup_finds, law_set_val, lemma_len_is_contents, map_contents,
    map_entry, map_len, map_delete, help_rehashing, probe_of, with_val, HMap, HMapModel, LookUpFunction, Probe, MAX_ENTRIES,
};
use crate::tvl::{
    nil_bytes, out_nil, out_str, text_bytes, DataType, ResponseCode, DATA_TYPE_SIZE,
    RESPONSE_CODE_SIZE,
};
use crate::common::MSG_HEADER_SIZE;

pub use crate::hashtable::Entry;

verus! {

broadcast use vstd::multiset::group_multiset_axioms;

/// Largest number of bytes of a stored value: its `get` response fits in a
/// message.
pub const MAX_VALUE_SIZE: usize = MAX_MSG_SIZE - (DATA_TYPE_SIZE + RESPONSE_CODE_SIZE
    + MSG_HEADER_SIZE);

/// What a store keeps of its entries: each is placed by the hash of its
/// key's bytes, no two share a key, and every value fits in a response.
pub open spec fn store_ok(c: Multiset<Entry>) -> bool {
    &&& forall|e: Entry| #[trigger] c.count(e) > 0 ==> e.node.hcode == fnv_hash(encode_utf8(e.key@))
    &&& forall|e: Entry| #[trigger] c.count(e) > 0 ==> encode_utf8(e.val@).len() <= MAX_VALUE_SIZE
    &&& forall|a: Entry, b: Entry|
        #[trigger] c.count(a) > 0 && #[trigger] c.count(b) > 0 && a.key@ == b.key@ ==> a == b
            && c.count(a) == 1
}

/// The entry of the store for key `k`.
pub open spec fn entry_for(c: Multiset<Entry>, k: Seq<char>) -> Entry {
    choose|e: Entry| #[trigger] c.count(e) > 0 && e.key@ == k
}

/// The store as a dictionary from keys to values.
pub open spec fn store_view(c: Multiset<Entry>) -> Map<Seq<char>, Seq<char>> {
    Map::new(
        |k: Seq<char>| exists|e: Entry| #[trigger] c.count(e) > 0 && e.key@ == k,
        |k: Seq<char>| entry_for(c, k).val@,
    )
}

/// The dictionary a map holds.
pub open spec fn table_view(m: HMapModel) -> Map<Seq<char>, Seq<char>> {
    store_view(map_contents(m))
}

/// A map usable as a store.
pub open spec fn table_ok(m: HMapModel) -> bool {
    store_ok(map_contents(m))
}

/// The probe that finds the entry of key `k`.
pub open spec fn key_probe(k: Seq<char>) -> Probe {
    Probe { hcode: fnv_hash(encode_utf8(k)), key: k, val: Seq::empty() }
}

/// The response to `get k`.
pub open spec fn get_response(order: ByteOrder, v: Map<Seq<char>, Seq<char>>, k: Seq<char>) -> Seq<
    u8,
> {
    if v.contains_key(k) {
        text_bytes(order, DataType::STR, ResponseCode::GetExisting, encode_utf8(v[k]))
    } else {
        nil_bytes(order, ResponseCode::GetNothing)
    }
}

/// The response to `set k v`.
pub open spec fn set_response(order: ByteOrder, v: Map<Seq<char>, Seq<char>>, k: Seq<char>) -> Seq<
    u8,
> {
    if v.contains_key(k) {
        nil_bytes(order, ResponseCode::SetExisting)
    } else {
        nil_bytes(order, ResponseCode::SetNew)
    }
}

/// The response to `del k`.
pub open spec fn del_response(order: ByteOrder, v: Map<Seq<char>, Seq<char>>, k: Seq<char>) -> Seq<
    u8,
> {
    if v.contains_key(k) {
        nil_bytes(order, ResponseCode::DelOk)
    } else {
        nil_bytes(order, ResponseCode::DelNothing)
    }
}

/// In a store, an entry is the entry of its key.
proof fn lemma_entry_for(c: Multiset<Entry>, e: Entry)
    requires
        store_ok(c),
        c.count(e) > 0,
    ensures
        store_view(c).contains_key(e.key@),
        entry_for(c, e.key@) == e,
        store_view(c)[e.key@] == e.val@,
{
    let x = entry_for(c, e.key@);
    assert(c.count(x) > 0 && x.key@ == e.key@);
}

/// A key absent from the store, added with a new entry.
proof fn lemma_store_add(c: Multiset<Entry>, e: Entry)
    requires
        store_ok(c),
        !store_view(c).contains_key(e.key@),
        e.node.hcode == fnv_hash(encode_utf8(e.key@)),
        encode_utf8(e.val@).len() <= MAX_VALUE_SIZE,
    ensures
        store_ok(c.insert(e)),
        store_view(c.insert(e)) == store_view(c).insert(e.key@, e.val@),
{
    let c2 = c.insert(e);
    assert forall|a: Entry| c.count(a) > 0 implies a.key@ != e.key@ by {
        if a.key@ == e.key@ {
            assert(store_view(c).contains_key(e.key@));
        }
    }
    assert(c.count(e) == 0);
    assert forall|k: Seq<char>| #[trigger] store_view(c2).contains_key(k) implies store_view(
        c,
    ).insert(e.key@, e.val@).contains_key(k) && store_view(c2)[k] == store_view(c).insert(
        e.key@,
        e.val@,
    )[k] by {
        let x = entry_for(c2, k);
        assert(c2.count(x) > 0 && x.key@ == k);
        lemma_entry_for(c2, x);
        if x != e {
            lemma_entry_for(c, x);
        }
    }
    assert forall|k: Seq<char>| #[trigger] store_view(c).insert(e.key@, e.val@).contains_key(
        k,
    ) implies store_view(c2).contains_key(k) by {
        if k != e.key@ {
            let x = entry_for(c, k);
            assert(c.count(x) > 0 && x.key@ == k);
            assert(c2.count(x) > 0);
        } else {
            assert(c2.count(e) > 0);
        }
    }
    assert(store_view(c2) =~= store_view(c).insert(e.key@, e.val@));
}

/// An entry of the store taken out, with its key.
proof fn lemma_store_remove(c: Multiset<Entry>, e: Entry)
    requires
        store_ok(c),
        c.count(e) > 0,
    ensures
        store_ok(c.remove(e)),
        store_view(c.remove(e)) == store_view(c).remove(e.key@),
{
    let c2 = c.remove(e);
    assert(c.count(e) == 1);
    assert(c2.count(e) == 0);
    assert forall|k: Seq<char>| #[trigger] store_view(c2).contains_key(k) implies store_view(
        c,
    ).remove(e.key@).contains_key(k) && store_view(c2)[k] == store_view(c).remove(e.key@)[k] by {
        let x = entry_for(c2, k);
        assert(c2.count(x) > 0 && x.key@ == k);
        assert(c.count(x) > 0);
        lemma_entry_for(c2, x);
        lemma_entry_for(c, x);
        if k == e.key@ {
            assert(x == e);
        }
    }
    assert forall|k: Seq<char>| #[trigger] store_view(c).remove(e.key@).contains_key(k)
        implies store_view(c2).contains_key(k) by {
        let x = entry_for(c, k);
        assert(c.count(x) > 0 && x.key@ == k);
        assert(x != e);
        assert(c2.count(x) > 0);
    }
    assert(store_view(c2) =~= store_view(c).remove(e.key@));
}

/// Looks `cmd[1]` up and appends its value as a string response, or an
/// empty response if the key is absent.
pub fn do_get(table: &mut HMap, cmd: &[String], out: &mut Vec<u8>, order: ByteOrder)
    requires
        old(table).wf(),
        table_ok(old(table)@),
        cmd@.len() >= 2,
    ensures
        final(table).wf(),
        table_ok(final(table)@),
        final(table)@ == help_rehashing(old(table)@),
        table_view(final(table)@) == table_view(old(table)@),
        map_len(final(table)@) == map_len(old(table)@),
        final(out)@ == old(out)@ + get_response(order, table_view(old(table)@), cmd@[1]@),
{
    let key = &cmd[1];
    let v = String::new();
    let entry = create_node(key.as_str(), v.as_str());
    proof {
        reveal_strlit("");
        table.lemma_wf_model();
        law_help_rehashing_keeps(table@);
        assert(probe_of(entry) == key_probe(key@));
    }
    let lookup = table.lookup(&entry, LookUpFunction::EntryEq);
    proof {
        table.lemma_wf_model();
        law_lookup_finds(table@, key_probe(key@), LookUpFunction::EntryEq);
    }
    match lookup {
        Some(slot) => {
            let found = table.get(slot);
            proof {
                lemma_entry_for(map_contents(table@), *found);
            }
            out_str(out, found.val.as_str(), ResponseCode::GetExisting, order);
        },
        None => {
            proof {
                if table_view(table@).contains_key(key@) {
                    let x = entry_for(map_contents(table@), key@);
                    assert(map_contents(table@).count(x) > 0);
                }
            }
            out_nil(out, ResponseCode::GetNothing, order);
        },
    }
    free_entry(entry);
}

/// Gives key `cmd[1]` the value `cmd[2]`, creating its entry if absent, and
/// appends an empty response that says which.
pub fn do_set(table: &mut HMap, cmd: &[String], out: &mut Vec<u8>, order: ByteOrder)
    requires
        old(table).wf(),
        table_ok(old(table)@),
        map_len(old(table)@) < MAX_ENTRIES,
        cmd@.len() >= 3,
        encode_utf8(cmd@[2]@).len() <= MAX_VALUE_SIZE,
    ensures
        final(table).wf(),
        table_ok(final(table)@),
        map_len(final(table)@) == if table_view(old(table)@).contains_key(cmd@[1]@) {
            map_len(old(table)@)
        } else {
            map_len(old(table)@) + 1
        },
        table_view(final(table)@) == table_view(old(table)@).insert(cmd@[1]@, cmd@[2]@),
        final(out)@ == old(out)@ + set_response(order, table_view(old(table)@), cmd@[1]@),
{
    let key = &cmd[1];
    let v = String::new();
    let entry = create_node(key.as_str(), v.as_str());
    proof {
        reveal_strlit("");
        table.lemma_wf_model();
        law_help_rehashing_keeps(table@);
        assert(probe_of(entry) == key_probe(key@));
    }
    let lookup = table.lookup(&entry, LookUpFunction::EntryEq);
    proof {
        table.lemma_wf_model();
        law_lookup_finds(table@, key_probe(key@), LookUpFunction::EntryEq);
    }
    match lookup {
        Some(slot) => {
            let ghost before = table@;
            let ghost old_entry = map_entry(table@, slot);
            let val = cmd[2].clone();
            proof {
                table.lemma_wf_model();
                lemma_entry_for(map_contents(table@), old_entry);
                law_set_val(table@, slot, val);
                let c = map_contents(before);
                lemma_store_remove(c, old_entry);
                lemma_store_add(c.remove(old_entry), with_val(old_entry, val));
            }
            table.set_val(slot, val);
            out_nil(out, ResponseCode::SetExisting, order);
        },
        None => {
            proof {
                if table_view(table@).contains_key(key@) {
                    let x = entry_for(map_contents(table@), key@);
                    assert(map_contents(table@).count(x) > 0);
                }
            }
            let new_entry = create_node(key.as_str(), cmd[2].as_str());
            proof {
                table.lemma_wf_model();
                law_insert_adds(table@, new_entry);
                lemma_store_add(map_contents(table@), new_entry);
            }
            table.insert(new_entry);
            out_nil(out, ResponseCode::SetNew, order);
        },
    }
    free_entry(entry);
}

/// Deletes the entry of key `cmd[1]` and appends an empty response that
/// says whether there was one.
pub fn do_del(table: &mut HMap, cmd: &[String], out: &mut Vec<u8>, order: ByteOrder)
    requires
        old(table).wf(),
        table_ok(old(table)@),
        cmd@.len() >= 2,
    ensures
        final(table).wf(),
        table_ok(final(table)@),
        final(table)@ == map_delete(old(table)@, key_probe(cmd@[1]@), LookUpFunction::EntryEq).0,
        map_len(final(table)@) <= map_len(old(table)@),
        table_view(final(table)@) == table_view(old(table)@).remove(cmd@[1]@),
        final(out)@ == old(out)@ + del_response(order, table_view(old(table)@), cmd@[1]@),
{
    let key = &cmd[1];
    let v = String::new();
    let entry = create_node(key.as_str(), v.as_str());
    let ghost m0 = table@;
    proof {
        reveal_strlit("");
        table.lemma_wf_model();
        assert(probe_of(entry) == key_probe(key@));
        law_delete_removes(table@, key_probe(key@), LookUpFunction::EntryEq);
        law_help_rehashing_keeps(table@);
    }
    let node = table.delete(&entry, LookUpFunction::EntryEq);
    proof {
        lemma_len_is_contents(m0);
        lemma_len_is_contents(table@);
    }
    match node {
        Some(ptr) => {
            proof {
                lemma_entry_for(map_contents(m0), ptr);
                lemma_store_remove(map_contents(m0), ptr);
            }
            out_nil(out, ResponseCode::DelOk, order);
            free_entry(ptr);
        },
        None => {
            proof {
                if table_view(m0).contains_key(key@) {
                    let x = entry_for(map_contents(m0), key@);
                    assert(map_contents(m0).count(x) > 0);
                }
                assert(table_view(m0).remove(key@) =~= table_view(m0));
            }
            out_nil(out, ResponseCode::DelNothing, order);
        },
    }
    free_entry(entry);
}

/// Every value of a store fits in a response.
pub proof fn lemma_values_fit(m: HMapModel, k: Seq<char>)
    requires
        table_ok(m),
        table_view(m).contains_key(k),
    ensures
        encode_utf8(table_view(m)[k]).len() <= MAX_VALUE_SIZE,
{
    let c = map_contents(m);
    let x = entry_for(c, k);
    assert(c.count(x) > 0 && x.key@ == k);
}

/// Law: a map with no entries is an empty store.
pub proof fn law_new_store(m: HMapModel)
    requires
        map_contents(m) == Multiset::<Entry>::empty(),
    ensures
        table_ok(m),
        table_view(m) == Map::<Seq<char>, Seq<char>>::empty(),
{
    assert(table_view(m) =~= Map::<Seq<char>, Seq<char>>::empty());
}

/// Law: after `set k val`, `get k` answers `val`.
pub proof fn law_set_then_get(
    order: ByteOrder,
    v: Map<Seq<char>, Seq<char>>,
    k: Seq<char>,
    val: Seq<char>,
)
    ensures
        get_response(order, v.insert(k, val), k) == text_bytes(
            order,
            DataType::STR,
            ResponseCode::GetExisting,
            encode_utf8(val),
        ),
{
}

/// Law: after `del k`, `get k` answers that there is nothing.
pub proof fn law_del_then_get(order: ByteOrder, v: Map<Seq<char>, Seq<char>>, k: Seq<char>)
    ensures
        get_response(order, v.remove(k), k) == nil_bytes(order, ResponseCode::GetNothing),
{
}

/// Law: `set k` answers whether `k` had a value, and after a `set k` a
/// second one answers that it had.
pub proof fn law_set_reports(
    order: ByteOrder,
    v: Map<Seq<char>, Seq<char>>,
    k: Seq<char>,
    val: Seq<char>,
)
    ensures
        set_response(order, v, k) == (if v.contains_key(k) {
            nil_bytes(order, ResponseCode::SetExisting)
        } else {
            nil_bytes(order, ResponseCode::SetNew)
        }),
        set_response(order, v.insert(k, val), k) == nil_bytes(order, ResponseCode::SetExisting),
{
}

/// Law: `del k` answers whether `k` had a value, and after a `del k` a
/// second one answers that it had not; after a `set k` it answers that it
/// had.
pub proof fn law_del_reports(
    order: ByteOrder,
    v: Map<Seq<char>, Seq<char>>,
    k: Seq<char>,
    val: Seq<char>,
)
    ensures
        del_response(order, v.remove(k), k) == nil_bytes(order, ResponseCode::DelNothing),
        del_response(order, v.insert(k, val), k) == nil_bytes(order, ResponseCode::DelOk),
{
}

/// Law: commands on one key leave every other key as it was.
pub proof fn law_other_keys(
    order: ByteOrder,
    v: Map<Seq<char>, Seq<char>>,
    k: Seq<char>,
    j: Seq<char>,
    val: Seq<char>,
)
    requires
        k != j,
    ensures
        get_response(order, v.insert(k, val), j) == get_response(order, v, j),
        get_response(order, v.remove(k), j) == get_response(order, v, j),
{
}

} // verus!
