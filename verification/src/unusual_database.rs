//! The key-value store answered over datagrams. A datagram holding `=`
//! sets the key before the first `=` to the value after it; any other
//! datagram asks for the key it holds, and is answered `key=value`. The
//! key `version` is fixed.
use vstd::prelude::*;
use vstd::hash_map::StringHashMap;
use vstd::string::StringExecFns;
use vstd::utf8::{valid_utf8, decode_utf8};
use crate::tcp::string_from_utf8;

verus! {

/// The byte `=`.
pub const EQUALS: u8 = 0x3d;

/// The key whose value the store reports and never changes.
pub open spec fn version_key() -> Seq<char> {
    "version"@
}

/// The value stored under [`version_key`].
pub open spec fn version_value() -> Seq<char> {
    "x kv store"@
}

/// Index of the first `b` in `s`, or `s.len()` when `s` holds no `b`.
pub open spec fn first_index_of(s: Seq<u8>, b: u8) -> nat
    decreases s.len(),
{
    if s.len() == 0 {
        0
    } else if s[0] == b {
        0
    } else {
        1 + first_index_of(s.drop_first(), b)
    }
}

/// The text that `bytes` hold, or the empty text when they are not valid
/// UTF-8.
pub open spec fn text_or_empty(bytes: Seq<u8>) -> Seq<char> {
    if valid_utf8(bytes) {
        decode_utf8(bytes)
    } else {
        Seq::empty()
    }
}

/// The store after a datagram `s` reached it, starting from `m`.
pub open spec fn apply_datagram(m: Map<Seq<char>, Seq<char>>, s: Seq<u8>) -> Map<Seq<char>, Seq<char>> {
    let eq = first_index_of(s, EQUALS);
    if eq == s.len() {
        m
    } else {
        let key = text_or_empty(s.subrange(0, eq as int));
        let value = text_or_empty(s.subrange(eq as int + 1, s.len() as int));
        if key == version_key() {
            m
        } else {
            m.insert(key, value)
        }
    }
}

/// The answer to a datagram `s` reaching the store `m`: `key=value` for a
/// retrieval (`key=` for an absent key), nothing for an insertion.
pub open spec fn reply_to(m: Map<Seq<char>, Seq<char>>, s: Seq<u8>) -> Option<Seq<char>> {
    if first_index_of(s, EQUALS) == s.len() {
        let key = decode_utf8(s);
        Some(key + "="@ + if m.contains_key(key) { m[key] } else { Seq::empty() })
    } else {
        None
    }
}

/// Position of the first `byte` in `buf`, if any.
pub fn find_char_index(buf: &[u8], byte: u8) -> (res: Option<usize>)
    ensures
        match res {
            Some(i) => i < buf@.len() && i == first_index_of(buf@, byte),
            None => first_index_of(buf@, byte) == buf@.len(),
        },
{
    let n = buf.len();
    let mut i: usize = 0;
    assert(buf@.skip(0) == buf@);
    while i < n
        invariant
            n == buf@.len(),
            i <= n,
            first_index_of(buf@, byte) == i + first_index_of(buf@.skip(i as int), byte),
        decreases n - i,
    {
        assert(buf@.skip(i as int)[0] == buf@[i as int]);
        assert(buf@.skip(i as int).drop_first() == buf@.skip(i as int + 1));
        if buf[i] == byte {
            return Some(i);
        }
        i = i + 1;
    }
    assert(buf@.skip(n as int).len() == 0);
    None
}

/// The text that `bytes` hold, or the empty text when they are not valid
/// UTF-8.
fn string_or_empty(bytes: &[u8]) -> (res: String)
    ensures
        res@ == text_or_empty(bytes@),
{
    match string_from_utf8(vstd::slice::slice_to_vec(bytes)) {
        Ok(s) => s,
        Err(_) => String::new(),
    }
}

/// The store: a map from keys to values, both text.
pub struct UnusualDatabase {
    key_store: StringHashMap<String>,
}

impl View for UnusualDatabase {
    type V = Map<Seq<char>, Seq<char>>;

    closed spec fn view(&self) -> Map<Seq<char>, Seq<char>> {
        self.key_store@.map_values(|v: String| v@)
    }
}

impl UnusualDatabase {
    /// A store that holds only the version.
    pub fn new() -> (res: UnusualDatabase)
        ensures
            res@ == Map::<Seq<char>, Seq<char>>::empty().insert(version_key(), version_value()),
    {
        let mut key_store = StringHashMap::new();
        key_store.insert("version".to_owned(), "x kv store".to_owned());
        let res = UnusualDatabase { key_store };
        assert(res@ =~= Map::<Seq<char>, Seq<char>>::empty().insert(version_key(), version_value()));
        res
    }

    /// Sets `key` to `value`, replacing any earlier value.
    pub fn insert_key(&mut self, key: String, value: String)
        ensures
            final(self)@ == old(self)@.insert(key@, value@),
    {
        let ghost k = key@;
        let ghost v = value@;
        self.key_store.insert(key, value);
        assert(self@ =~= old(self)@.insert(k, v));
    }

    /// The value stored under `key`, if any.
    pub fn retrieve_key(&self, key: &str) -> (res: Option<&String>)
        ensures
            match res {
                Some(v) => self@.contains_key(key@) && v@ == self@[key@],
                None => !self@.contains_key(key@),
            },
    {
        self.key_store.get(key)
    }

    /// Handles one datagram: applies it to the store and gives the answer
    /// to send back, if any (see [`apply_datagram`] and [`reply_to`]). A
    /// retrieval must be valid UTF-8.
    pub fn handle_datagram(&mut self, datagram: &[u8]) -> (res: Option<String>)
        requires
            first_index_of(datagram@, EQUALS) == datagram@.len() ==> valid_utf8(datagram@),
        ensures
            final(self)@ == apply_datagram(old(self)@, datagram@),
            match res {
                Some(r) => reply_to(old(self)@, datagram@) == Some(r@),
                None => reply_to(old(self)@, datagram@) is None,
            },
    {
        let n = datagram.len();
        let equals_index = match find_char_index(datagram, EQUALS) {
            Some(i) => i,
            None => n,
        };
        if equals_index == n {
            let key = string_or_empty(datagram);
            let response = match self.retrieve_key(key.as_str()) {
                Some(value) => key.concat("=").concat(value.as_str()),
                None => key.concat("="),
            };
            return Some(response);
        }
        let key = string_or_empty(&datagram[0..equals_index]);
        let value = string_or_empty(&datagram[equals_index + 1..n]);
        let is_version = key == "version".to_owned();
        if !is_version {
            self.insert_key(key, value);
        }
        None
    }
}

/// Where `=` first occurs in `key + [=] + value` when `key` holds none.
proof fn lemma_first_index_after_key(key: Seq<u8>, value: Seq<u8>)
    requires
        first_index_of(key, EQUALS) == key.len(),
    ensures
        first_index_of(key + seq![EQUALS] + value, EQUALS) == key.len(),
    decreases key.len(),
{
    let s = key + seq![EQUALS] + value;
    if key.len() == 0 {
        assert(s[0] == EQUALS);
    } else {
        assert(key[0] != EQUALS);
        assert(first_index_of(key.drop_first(), EQUALS) == key.drop_first().len());
        lemma_first_index_after_key(key.drop_first(), value);
        assert(s.drop_first() == key.drop_first() + seq![EQUALS] + value);
    }
}

/// A retrieval leaves the store as it was.
pub proof fn law_retrieval_keeps_store(m: Map<Seq<char>, Seq<char>>, s: Seq<u8>)
    requires
        first_index_of(s, EQUALS) == s.len(),
    ensures
        apply_datagram(m, s) == m,
{
}

/// The version survives every datagram.
pub proof fn law_version_is_fixed(m: Map<Seq<char>, Seq<char>>, s: Seq<u8>)
    requires
        m.contains_key(version_key()),
        m[version_key()] == version_value(),
    ensures
        apply_datagram(m, s).contains_key(version_key()),
        apply_datagram(m, s)[version_key()] == version_value(),
{
}

/// After `key=value` is sent, a retrieval of `key` is answered
/// `key=value`, for any key without `=` other than the version, and any
/// value.
pub proof fn law_read_after_write(m: Map<Seq<char>, Seq<char>>, key: Seq<u8>, value: Seq<u8>)
    requires
        first_index_of(key, EQUALS) == key.len(),
        valid_utf8(key),
        decode_utf8(key) != version_key(),
        valid_utf8(value),
    ensures
        reply_to(apply_datagram(m, key + seq![EQUALS] + value), key)
            == Some(decode_utf8(key) + "="@ + decode_utf8(value)),
{
    let s = key + seq![EQUALS] + value;
    lemma_first_index_after_key(key, value);
    assert(s.subrange(0, key.len() as int) == key);
    assert(s.subrange(key.len() as int + 1, s.len() as int) == value);
}

/// An insertion of `key=value` touches no other key: every key `j` other
/// than the inserted one is present afterwards exactly when it was before,
/// with the same value.
pub proof fn law_insertion_keeps_other_keys(
    m: Map<Seq<char>, Seq<char>>,
    key: Seq<u8>,
    value: Seq<u8>,
    j: Seq<char>,
)
    requires
        first_index_of(key, EQUALS) == key.len(),
        j != text_or_empty(key),
    ensures
        apply_datagram(m, key + seq![EQUALS] + value).contains_key(j) == m.contains_key(j),
        m.contains_key(j) ==> apply_datagram(m, key + seq![EQUALS] + value)[j] == m[j],
{
    let s = key + seq![EQUALS] + value;
    lemma_first_index_after_key(key, value);
    assert(s.subrange(0, key.len() as int) == key);
}

} // verus!
