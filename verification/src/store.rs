//! The entries the cache holds, their JSON form, and the store that shares
//! them between connections.
use vstd::prelude::*;
use std::sync::Arc;
use dashmap::DashMap;
use crate::json::{
    base64_encodable, base64_standard, json_escaped, json_string, lemma_base64_injective,
    lemma_base64_plain, lemma_json_escaped_parse, lemma_json_plain_text, lemma_uuid_text_injective,
    lemma_uuid_text_plain, new_v4_id, to_base64, to_json_string,
    lemma_v4_text, uuid_hyphenated, uuid_nibble, uuid_text,
};

verus! {

/// `dashmap::DashMap`, the concurrent map the store is kept in.
#[verifier::external_type_specification]
#[verifier::external_body]
#[verifier::reject_recursive_types(K)]
#[verifier::reject_recursive_types(V)]
#[verifier::reject_recursive_types(S)]
pub struct ExDashMap<K, V, S>(DashMap<K, V, S>);

/// Why an entry could not be written as JSON.
#[derive(Debug)]
pub enum JsonError {
    /// The serializer failed.
    Serialize,
}

/// One stored value: a random version-4 UUID, the key and the bytes.
#[derive(Clone)]
pub struct Entry {
    pub id: u128,
    pub key: String,
    pub value: Vec<u8>,
}

/// `{"id":`
pub open spec fn json_open_id() -> Seq<char> {
    seq!['{', '"', 'i', 'd', '"', ':']
}

/// `,"key":`
pub open spec fn json_key_field() -> Seq<char> {
    seq![',', '"', 'k', 'e', 'y', '"', ':']
}

/// `,"value":`
pub open spec fn json_value_field() -> Seq<char> {
    seq![',', '"', 'v', 'a', 'l', 'u', 'e', '"', ':']
}

/// Calls `Vec::len` on a byte vector.
/// Claimed: the length, and that it is at most `isize::MAX`, since a `Vec`
/// never allocates more than `isize::MAX` bytes, as its documentation says.
#[verifier::external_body]
fn byte_len(v: &Vec<u8>) -> (n: usize)
    ensures
        n == v@.len(),
        n <= isize::MAX,
{
    v.len()
}

impl Entry {
    /// The JSON object for this entry, fields in the order `id`, `key`,
    /// `value`: the id as its hyphenated UUID text, the key as text, and the
    /// value as standard base64 text.
    pub open spec fn json(self) -> Seq<char> {
        json_open_id() + json_string(uuid_text(self.id)) + json_key_field() + json_string(self.key@)
            + json_value_field() + json_string(base64_standard(self.value@)) + seq!['}']
    }

    /// A new entry for `key` and `value` with a fresh random version-4 id.
    pub fn new(key: String, value: Vec<u8>) -> (entry: Entry)
        ensures
            entry.key == key,
            entry.value == value,
            uuid_nibble(entry.id, 12) == 4,
            8 <= uuid_nibble(entry.id, 16) < 12,
            uuid_text(entry.id)[14] == '4',
    {
        let id = new_v4_id();
        proof {
            lemma_v4_text(id);
        }
        Entry { id, key, value }
    }

    /// This entry as a JSON object (see `json`).
    pub fn to_json(&self) -> (r: Result<String, JsonError>)
        ensures
            r is Ok,
            r.unwrap()@ == self.json(),
    {
        let n = byte_len(&self.value);
        assert(base64_encodable(n as int)) by {
            assert(usize::MAX == 0xffff_ffff || usize::MAX == 0xffff_ffff_ffff_ffff);
            assert(isize::MAX == 0x7fff_ffff || isize::MAX == 0x7fff_ffff_ffff_ffff);
            assert(usize::MAX == 0xffff_ffff <==> isize::MAX == 0x7fff_ffff);
        }
        let id_text = uuid_hyphenated(self.id);
        let value_text = to_base64(self.value.as_slice());
        let id_json = match to_json_string(id_text.as_str()) {
            Ok(t) => t,
            Err(_) => return Err(JsonError::Serialize),
        };
        let key_json = match to_json_string(self.key.as_str()) {
            Ok(t) => t,
            Err(_) => return Err(JsonError::Serialize),
        };
        let value_json = match to_json_string(value_text.as_str()) {
            Ok(t) => t,
            Err(_) => return Err(JsonError::Serialize),
        };
        let mut out = "{\"id\":".to_owned();
        out.append(id_json.as_str());
        out.append(",\"key\":");
        out.append(key_json.as_str());
        out.append(",\"value\":");
        out.append(value_json.as_str());
        out.append("}");
        proof {
            reveal_strlit("{\"id\":");
            reveal_strlit(",\"key\":");
            reveal_strlit(",\"value\":");
            reveal_strlit("}");
            assert(out@ =~= self.json());
        }
        Ok(out)
    }
}

/// Law: an entry's JSON text gives the entry back: two entries with one
/// JSON text have one id, one key and one value.
pub proof fn lemma_entry_json_injective(e1: Entry, e2: Entry)
    requires
        e1.json() == e2.json(),
    ensures
        e1.id == e2.id,
        e1.key@ == e2.key@,
        e1.value@ == e2.value@,
{
    let u1 = uuid_text(e1.id);
    let u2 = uuid_text(e2.id);
    let b1 = base64_standard(e1.value@);
    let b2 = base64_standard(e2.value@);
    lemma_uuid_text_plain(e1.id);
    lemma_uuid_text_plain(e2.id);
    lemma_json_plain_text(u1);
    lemma_json_plain_text(u2);
    lemma_base64_plain(e1.value@);
    lemma_base64_plain(e2.value@);
    lemma_json_plain_text(b1);
    lemma_json_plain_text(b2);
    let head1 = json_open_id() + json_string(u1) + json_key_field();
    let head2 = json_open_id() + json_string(u2) + json_key_field();
    let tail1 = seq!['"'] + json_value_field() + seq!['"'] + b1 + seq!['"', '}'];
    let tail2 = seq!['"'] + json_value_field() + seq!['"'] + b2 + seq!['"', '}'];
    let j = e1.json();
    assert(j =~= head1 + (seq!['"'] + json_escaped(e1.key@) + tail1));
    assert(e2.json() =~= head2 + (seq!['"'] + json_escaped(e2.key@) + tail2));
    assert(head1.len() == 51 && head2.len() == 51);
    assert(head1 =~= j.subrange(0, 51));
    assert(head2 =~= j.subrange(0, 51));
    assert(u1 =~= head1.subrange(7, 43));
    assert(u2 =~= head2.subrange(7, 43));
    lemma_uuid_text_injective(e1.id, e2.id);
    let r = j.skip(52);
    assert(r =~= json_escaped(e1.key@) + tail1);
    assert(r =~= json_escaped(e2.key@) + tail2);
    lemma_json_escaped_parse(e1.key@, e2.key@, tail1, tail2);
    assert(b1 =~= tail1.subrange(11, tail1.len() - 2));
    assert(b2 =~= tail2.subrange(11, tail2.len() - 2));
    lemma_base64_injective(e1.value@, e2.value@);
}

/// Calls `DashMap::new`.
/// Claimed: nothing; the map is empty, but its contents are shared state that
/// no value here holds.
#[verifier::external_body]
fn new_map() -> (map: DashMap<String, Entry>) {
    DashMap::new()
}

/// Calls `DashMap::insert` and hands back the value it replaced.
/// Claimed: nothing; the map is shared between clones of the store and
/// between connections, so what it held before is not a function of anything
/// here.
#[verifier::external_body]
fn map_insert(map: &Arc<DashMap<String, Entry>>, key: String, entry: Entry) -> (old: Option<Entry>) {
    map.insert(key, entry)
}

/// Calls `DashMap::get` and clones the entry found.
/// Claimed: nothing, for the reason given at `map_insert`.
#[verifier::external_body]
fn map_get(map: &Arc<DashMap<String, Entry>>, key: &str) -> (found: Option<Entry>) {
    map.get(key).map(|e| e.value().clone())
}

/// Calls `DashMap::remove`.
/// Claimed: a removed pair has the key that was asked for; whether there was
/// one depends on the shared contents and is not stated.
#[verifier::external_body]
fn map_remove(map: &Arc<DashMap<String, Entry>>, key: &str) -> (removed: Option<(String, Entry)>)
    ensures
        removed matches Some(pair) ==> pair.0@ == key@,
{
    map.remove(key)
}

/// The cache: a map from keys to entries, shared by every clone of the
/// store. Its contents live outside any one value: a clone, or another
/// connection, may change what a later call finds.
#[derive(Clone)]
pub struct Store {
    data: Arc<DashMap<String, Entry>>,
}

impl Store {
    /// An empty store.
    pub fn new() -> (store: Store) {
        Store { data: Arc::new(new_map()) }
    }

    /// Stores `value` under `key` in a fresh entry, replacing any entry that
    /// was there.
    pub fn set(&self, key: String, value: Vec<u8>) {
        let entry = Entry::new(key.clone(), value);
        let _replaced = map_insert(&self.data, key, entry);
    }

    /// The value stored under `key`, if any.
    pub fn get(&self, key: &str) -> (value: Option<Vec<u8>>) {
        Store::value_found(map_get(&self.data, key))
    }

    /// Removes the entry under `key`; true when there was one.
    pub fn delete(&self, key: &str) -> (removed: bool) {
        Store::removal_found(map_remove(&self.data, key))
    }

    /// The entry under `key` as JSON, if there is one.
    pub fn get_as_json(&self, key: &str) -> (json: Option<Result<String, JsonError>>)
        ensures
            json matches Some(r) ==> (r is Ok && exists|e: Entry| r.unwrap()@ == e.json()),
    {
        Store::json_found(map_get(&self.data, key))
    }

    /// What `get` answers once the map has been searched: the value of the
    /// entry found, or `None` when there was none.
    pub fn value_found(found: Option<Entry>) -> (value: Option<Vec<u8>>)
        ensures
            value == (match found {
                Some(e) => Some(e.value),
                None => None::<Vec<u8>>,
            }),
    {
        match found {
            Some(entry) => Some(entry.value),
            None => None,
        }
    }

    /// What `delete` answers once the map has been asked to remove the key:
    /// true exactly when a pair was removed.
    pub fn removal_found(removed: Option<(String, Entry)>) -> (any: bool)
        ensures
            any == removed is Some,
    {
        removed.is_some()
    }

    /// What `get_as_json` answers once the map has been searched: the JSON
    /// of the entry found, or `None` when there was none.
    pub fn json_found(found: Option<Entry>) -> (json: Option<Result<String, JsonError>>)
        ensures
            json is Some <==> found is Some,
            found matches Some(e) ==> json.unwrap() is Ok && json.unwrap().unwrap()@ == e.json(),
    {
        match found {
            Some(entry) => Some(entry.to_json()),
            None => None,
        }
    }
}

} // verus!
