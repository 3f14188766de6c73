//! Vocabulary cache: the token IDs of words that were tokenized in advance.
//!
//! The binary format is the magic bytes, a version, the number of entries, and the entries. Each
//! entry is the length of the word in bytes, the word in UTF-8, the number of token IDs, and the
//! token IDs. All numbers are little-endian; the number of entries takes eight bytes, every other
//! number four.

use std::sync::Arc;

use vstd::hash_map::StringHashMap;
use vstd::prelude::*;
use vstd::slice::{slice_subrange, slice_to_vec};
use vstd::string::StringExecFns;
use vstd::utf8::{decode_utf8, encode_utf8, valid_utf8};

use crate::little_endian::{
    le_bytes, le_reads_back, le_value, pow256_values, push_le, read_le,
};
use crate::number::{decimal, to_decimal};
use crate::text::texts;
use crate::utf8::byte_len;

verus! {

/// The version of the format that is read and written.
pub const CACHE_VERSION: u32 = 1;

/// The bytes that every cache begins with: `IMSVCACH`.
pub open spec fn magic() -> Seq<u8> {
    seq![0x49u8, 0x4d, 0x53, 0x56, 0x43, 0x41, 0x43, 0x48]
}

fn magic_bytes() -> (r: Vec<u8>)
    ensures
        r@ == magic(),
{
    let v: Vec<u8> = vec![0x49u8, 0x4d, 0x53, 0x56, 0x43, 0x41, 0x43, 0x48];
    assert(v@ == magic());
    v
}

/// A word and its token IDs.
pub type Entry = (Seq<char>, Seq<u32>);

/// The words of a vocabulary with their token IDs.
pub struct VocabCache {
    map: StringHashMap<Vec<u32>>,
    words: Vec<String>,
}

impl View for VocabCache {
    type V = Map<Seq<char>, Seq<u32>>;

    closed spec fn view(&self) -> Map<Seq<char>, Seq<u32>> {
        self.map@.map_values(|v: Vec<u32>| v@)
    }
}

/// A vocabulary cache that is shared and only read.
pub type SharedCache = Arc<VocabCache>;

impl VocabCache {
    #[verifier::type_invariant]
    spec fn well_formed(self) -> bool {
        &&& texts(self.words@).no_duplicates()
        &&& forall|w: Seq<char>|
            #[trigger] self.map@.contains_key(w) <==> texts(self.words@).contains(w)
    }

    /// The words in the order in which they first came in.
    pub closed spec fn word_order(self) -> Seq<Seq<char>> {
        texts(self.words@)
    }

    /// The entries in the order in which their words first came in.
    pub open spec fn entries(self) -> Seq<Entry> {
        self.word_order().map_values(|w: Seq<char>| (w, self@[w]))
    }

    /// An empty cache.
    pub fn new() -> (r: Self)
        ensures
            r@ == Map::<Seq<char>, Seq<u32>>::empty(),
            r.word_order() == Seq::<Seq<char>>::empty(),
    {
        let r = VocabCache { map: StringHashMap::new(), words: Vec::new() };
        assert(r@ == Map::<Seq<char>, Seq<u32>>::empty());
        assert(r.word_order() == Seq::<Seq<char>>::empty());
        r
    }

    /// The number of words.
    pub fn len(&self) -> (r: usize)
        ensures
            r == self@.len(),
            r == self.word_order().len(),
    {
        proof {
            use_type_invariant(self);
            assert(self@.dom() == self.word_order().to_set());
            self.word_order().unique_seq_to_set();
        }
        self.words.len()
    }

    /// The token IDs of a word, if the word is known.
    pub fn get(&self, word: &str) -> (r: Option<Vec<u32>>)
        ensures
            match r {
                Some(ids) => self@.contains_key(word@) && ids@ == self@[word@],
                None => !self@.contains_key(word@),
            },
    {
        match self.map.get(word) {
            Some(ids) => {
                let copy = ids.clone();
                assert(copy@ == ids@);
                Some(copy)
            },
            None => None,
        }
    }
}

/// The bytes of token IDs.
pub open spec fn id_bytes(ids: Seq<u32>) -> Seq<u8>
    decreases ids.len(),
{
    if ids.len() == 0 {
        Seq::empty()
    } else {
        id_bytes(ids.drop_last()) + le_bytes(ids.last() as nat, 4)
    }
}

/// The bytes of one entry.
pub open spec fn entry_bytes(entry: Entry) -> Seq<u8> {
    le_bytes(byte_len(entry.0), 4) + encode_utf8(entry.0) + le_bytes(entry.1.len(), 4) + id_bytes(
        entry.1,
    )
}

/// The bytes of entries, one after the other.
pub open spec fn entries_bytes(entries: Seq<Entry>) -> Seq<u8>
    decreases entries.len(),
{
    if entries.len() == 0 {
        Seq::empty()
    } else {
        entries_bytes(entries.drop_last()) + entry_bytes(entries.last())
    }
}

/// The bytes of a cache that holds the given entries.
pub open spec fn cache_bytes(entries: Seq<Entry>) -> Seq<u8> {
    magic() + le_bytes(CACHE_VERSION as nat, 4) + le_bytes(entries.len(), 8) + entries_bytes(entries)
}

/// The part of a cache that was being read.
#[derive(Clone, Copy)]
pub enum Field {
    Magic,
    Version,
    Count,
    KeyLen,
    Key,
    NumIds,
    Id,
}

/// What is wrong with the bytes of a cache.
pub enum CacheError {
    /// The data ends inside the given part.
    Truncated(Field),
    /// The data does not begin with the magic bytes.
    Magic,
    /// The data has another version than the one that can be read.
    Version(u32),
    /// A word is not UTF-8. Holds the bytes of the word.
    KeyUtf8(Seq<u8>),
}

/// The text that describes why bytes are not UTF-8.
pub uninterp spec fn utf8_error_text(bytes: Seq<u8>) -> Seq<char>;

/// Calls `String::from_utf8`: gives the text that the bytes encode if they are UTF-8, and else
/// the message of the error. The message depends on the bytes alone; nothing more is said of it.
#[verifier::external_body]
fn string_from_utf8(bytes: Vec<u8>) -> (r: Result<String, String>)
    ensures
        match r {
            Ok(s) => valid_utf8(bytes@) && s@ == decode_utf8(bytes@),
            Err(e) => !valid_utf8(bytes@) && e@ == utf8_error_text(bytes@),
        },
{
    String::from_utf8(bytes).map_err(|e| e.to_string())
}

impl Field {
    /// How messages name the part.
    pub open spec fn name(self) -> Seq<char> {
        match self {
            Field::Magic => "magic"@,
            Field::Version => "version"@,
            Field::Count => "count"@,
            Field::KeyLen => "key_len"@,
            Field::Key => "key"@,
            Field::NumIds => "num_ids"@,
            Field::Id => "id"@,
        }
    }
}

impl CacheError {
    /// The message for the error.
    pub open spec fn text(self) -> Seq<char> {
        match self {
            CacheError::Truncated(field) => "read "@ + field.name() + ": failed to fill whole buffer"@,
            CacheError::Magic => "invalid cache file magic bytes"@,
            CacheError::Version(v) => "unsupported cache version: "@ + decimal(v as nat)
                + " (expected "@ + decimal(CACHE_VERSION as nat) + ")"@,
            CacheError::KeyUtf8(bytes) => "utf8 key: "@ + utf8_error_text(bytes),
        }
    }
}

fn truncated_message(field: Field) -> (r: String)
    ensures
        r@ == CacheError::Truncated(field).text(),
{
    let mut s: String = "read ".to_owned();
    let name: &str = match field {
        Field::Magic => "magic",
        Field::Version => "version",
        Field::Count => "count",
        Field::KeyLen => "key_len",
        Field::Key => "key",
        Field::NumIds => "num_ids",
        Field::Id => "id",
    };
    s.append(name);
    s.append(": failed to fill whole buffer");
    s
}

fn version_message(version: u32) -> (r: String)
    ensures
        r@ == CacheError::Version(version).text(),
{
    let mut s: String = "unsupported cache version: ".to_owned();
    s.append(to_decimal(version as u64).as_str());
    s.append(" (expected ");
    s.append(to_decimal(CACHE_VERSION as u64).as_str());
    s.append(")");
    s
}

/// The token IDs in the first `4 * n` bytes.
pub open spec fn ids_in(s: Seq<u8>, n: nat) -> Seq<u32> {
    Seq::new(n, |i: int| le_value(s.subrange(4 * i, 4 * i + 4)) as u32)
}

/// The first entry in `s` and the bytes behind it.
pub open spec fn first_entry(s: Seq<u8>) -> Result<(Entry, Seq<u8>), CacheError> {
    let key_len = le_value(s.take(4));
    let key = s.subrange(4, 4 + key_len as int);
    let s1 = s.skip(4 + key_len as int);
    let num_ids = le_value(s1.take(4));
    let s2 = s1.skip(4);
    if s.len() < 4 {
        Err(CacheError::Truncated(Field::KeyLen))
    } else if s.len() < 4 + key_len {
        Err(CacheError::Truncated(Field::Key))
    } else if !valid_utf8(key) {
        Err(CacheError::KeyUtf8(key))
    } else if s1.len() < 4 {
        Err(CacheError::Truncated(Field::NumIds))
    } else if s2.len() < 4 * num_ids {
        Err(CacheError::Truncated(Field::Id))
    } else {
        Ok(((decode_utf8(key), ids_in(s2, num_ids)), s2.skip(4 * num_ids as int)))
    }
}

/// The words of the first `n` entries in `s`, on top of `known`. Of the entries with the same
/// word the last one counts.
pub open spec fn parsed_entries(s: Seq<u8>, n: nat, known: Map<Seq<char>, Seq<u32>>) -> Result<
    Map<Seq<char>, Seq<u32>>,
    CacheError,
>
    decreases n,
{
    if n == 0 {
        Ok(known)
    } else {
        match first_entry(s) {
            Err(e) => Err(e),
            Ok((entry, rest)) => parsed_entries(
                rest,
                (n - 1) as nat,
                known.insert(entry.0, entry.1),
            ),
        }
    }
}

/// The words in the bytes of a cache. Bytes behind the last entry do not count.
pub open spec fn parsed(s: Seq<u8>) -> Result<Map<Seq<char>, Seq<u32>>, CacheError> {
    if s.len() < 8 {
        Err(CacheError::Truncated(Field::Magic))
    } else if s.take(8) != magic() {
        Err(CacheError::Magic)
    } else if s.len() < 12 {
        Err(CacheError::Truncated(Field::Version))
    } else if le_value(s.subrange(8, 12)) != CACHE_VERSION {
        Err(CacheError::Version(le_value(s.subrange(8, 12)) as u32))
    } else if s.len() < 20 {
        Err(CacheError::Truncated(Field::Count))
    } else {
        parsed_entries(s.skip(20), le_value(s.subrange(12, 20)), Map::empty())
    }
}

impl VocabCache {
    /// Sets the token IDs of a word.
    pub fn insert(&mut self, word: String, ids: Vec<u32>)
        ensures
            final(self)@ == old(self)@.insert(word@, ids@),
            final(self).word_order() == if old(self)@.contains_key(word@) {
                old(self).word_order()
            } else {
                old(self).word_order().push(word@)
            },
    {
        proof {
            use_type_invariant(&*self);
        }
        let mut words: Vec<String> = Vec::new();
        let mut map: StringHashMap<Vec<u32>> = StringHashMap::new();
        let ghost old_words = self.words@;
        let ghost old_map = self.map@;
        proof {
            assert(texts(words@) == Seq::<Seq<char>>::empty());
        }
        let mut taken = VocabCache { map, words };
        std::mem::swap(self, &mut taken);
        map = taken.map;
        words = taken.words;
        let ghost key = word@;
        if !map.contains_key(word.as_str()) {
            words.push(word.clone());
            proof {
                assert(texts(words@) == texts(old_words).push(key));
                assert(!texts(old_words).contains(key));
                let all = texts(words@);
                assert forall|i: int, j: int| 0 <= i < j < all.len() implies all[i] != all[j] by {
                    if j == all.len() - 1 {
                        assert(texts(old_words).contains(all[i]));
                    }
                }
                assert forall|w: Seq<char>| all.contains(w) <==> (texts(old_words).contains(w) || w
                    == key) by {
                    if texts(old_words).contains(w) {
                        let k = choose|k: int|
                            0 <= k < texts(old_words).len() && texts(old_words)[k] == w;
                        assert(all[k] == w);
                    }
                    if w == key {
                        assert(all[all.len() - 1] == w);
                    }
                }
            }
        }
        map.insert(word, ids);
        *self = VocabCache { map, words };
        assert(self@ == old(self)@.insert(key, ids@));
    }
}

/// Reads the token IDs in the `4 * n` bytes that begin at `at`.
fn read_ids(data: &[u8], at: usize, n: usize) -> (r: Vec<u32>)
    requires
        at + 4 * n <= data@.len(),
    ensures
        r@ == ids_in(data@.skip(at as int), n as nat),
{
    let len: usize = data.len();
    let mut ids: Vec<u32> = Vec::with_capacity(n);
    for i in 0..n
        invariant
            at + 4 * n <= len == data@.len(),
            ids@ == ids_in(data@.skip(at as int), i as nat),
    {
        proof {
            pow256_values();
        }
        let id: u64 = read_le(data, at + 4 * i, 4);
        assert(data@.skip(at as int).subrange(4 * i, 4 * i + 4) == data@.subrange(
            at + 4 * i,
            at + 4 * i + 4,
        ));
        let ghost before = ids@;
        ids.push(id as u32);
        assert(ids@ == ids_in(data@.skip(at as int), (i + 1) as nat));
    }
    ids
}

/// Reads the entry that begins at `at`. Returns the word, its token IDs, and where the next entry
/// begins.
fn read_entry(data: &[u8], at: usize) -> (r: Result<(String, Vec<u32>, usize), String>)
    requires
        at <= data@.len(),
    ensures
        match (first_entry(data@.skip(at as int)), r) {
            (Ok((entry, rest)), Ok((word, ids, next))) => {
                &&& at <= next <= data@.len()
                &&& word@ == entry.0
                &&& ids@ == entry.1
                &&& rest == data@.skip(next as int)
            },
            (Err(e), Err(message)) => message@ == e.text(),
            _ => false,
        },
{
    let len: usize = data.len();
    let ghost s = data@.skip(at as int);
    proof {
        pow256_values();
    }
    if len - at < 4 {
        return Err(truncated_message(Field::KeyLen));
    }
    let key_len: u64 = read_le(data, at, 4);
    assert(s.take(4) == data@.subrange(at as int, at + 4));
    let key_at: usize = at + 4;
    if ((len - key_at) as u64) < key_len {
        return Err(truncated_message(Field::Key));
    }
    let key_end: usize = key_at + key_len as usize;
    let key_bytes = slice_to_vec(slice_subrange(data, key_at, key_end));
    assert(s.subrange(4, 4 + key_len as int) == key_bytes@);
    let word = match string_from_utf8(key_bytes) {
        Ok(word) => word,
        Err(e) => {
            let mut message: String = "utf8 key: ".to_owned();
            message.append(e.as_str());
            return Err(message);
        },
    };
    let ghost s1 = s.skip(4 + key_len as int);
    assert(s1 == data@.skip(key_end as int));
    if len - key_end < 4 {
        return Err(truncated_message(Field::NumIds));
    }
    let num_ids: u64 = read_le(data, key_end, 4);
    assert(s1.take(4) == data@.subrange(key_end as int, key_end + 4));
    let ids_at: usize = key_end + 4;
    assert(s1.skip(4) == data@.skip(ids_at as int));
    if ((len - ids_at) as u64) / 4 < num_ids {
        return Err(truncated_message(Field::Id));
    }
    let ids = read_ids(data, ids_at, num_ids as usize);
    let next: usize = ids_at + 4 * num_ids as usize;
    assert(data@.skip(ids_at as int).skip(4 * num_ids as int) == data@.skip(next as int));
    Ok((word, ids, next))
}

/// Reads a cache from its bytes.
pub fn load_raw(data: &[u8]) -> (r: Result<VocabCache, String>)
    ensures
        match (parsed(data@), r) {
            (Ok(map), Ok(cache)) => cache@ == map,
            (Err(e), Err(message)) => message@ == e.text(),
            _ => false,
        },
{
    let len: usize = data.len();
    proof {
        pow256_values();
    }
    if len < 8 {
        return Err(truncated_message(Field::Magic));
    }
    let expected = magic_bytes();
    assert(data@.take(8) == data@.subrange(0, 8));
    for i in 0..8usize
        invariant
            len == data@.len(),
            8 <= len,
            expected@ == magic(),
            data@.take(8) == data@.subrange(0, 8),
            forall|j: int| 0 <= j < i ==> data@[j] == magic()[j],
    {
        if data[i] != expected[i] {
            assert(data@.take(8)[i as int] != magic()[i as int]);
            return Err("invalid cache file magic bytes".to_owned());
        }
    }
    assert(data@.take(8) == magic());
    if len < 12 {
        return Err(truncated_message(Field::Version));
    }
    let version: u64 = read_le(data, 8, 4);
    if version != CACHE_VERSION as u64 {
        return Err(version_message(version as u32));
    }
    if len < 20 {
        return Err(truncated_message(Field::Count));
    }
    let count: u64 = read_le(data, 12, 8);
    let mut cache = VocabCache::new();
    let mut at: usize = 20;
    let mut left: u64 = count;
    while left > 0
        invariant
            at <= len == data@.len(),
            parsed(data@) == parsed_entries(data@.skip(at as int), left as nat, cache@),
        decreases left,
    {
        match read_entry(data, at) {
            Err(message) => {
                return Err(message);
            },
            Ok((word, ids, next)) => {
                cache.insert(word, ids);
                at = next;
                left -= 1;
            },
        }
    }
    Ok(cache)
}

/// Reads a cache from its bytes, ready to be shared.
pub fn load(data: &[u8]) -> (r: Result<SharedCache, String>)
    ensures
        match (parsed(data@), r) {
            (Ok(map), Ok(cache)) => cache@ == map,
            (Err(e), Err(message)) => message@ == e.text(),
            _ => false,
        },
{
    match load_raw(data) {
        Ok(cache) => Ok(Arc::new(cache)),
        Err(message) => Err(message),
    }
}

/// Writes a cache as bytes.
pub fn save(cache: &VocabCache) -> (r: Vec<u8>)
    ensures
        r@ == cache_bytes(cache.entries()),
        cache.entries_fit() ==> parsed(r@) == Ok::<_, CacheError>(cache@),
{
    proof {
        use_type_invariant(cache);
    }
    let ghost entries = cache.entries();
    let mut out = magic_bytes();
    push_le(&mut out, CACHE_VERSION as u64, 4);
    push_le(&mut out, cache.words.len() as u64, 8);
    let ghost header = out@;
    assert(entries.take(0) == Seq::<Entry>::empty());
    for i in 0..cache.words.len()
        invariant
            cache.well_formed(),
            entries == cache.entries(),
            entries.len() == cache.words@.len(),
            out@ == header + entries_bytes(entries.take(i as int)),
    {
        let ghost before = out@;
        let word = &cache.words[i];
        assert(texts(cache.words@)[i as int] == word@);
        assert(texts(cache.words@).contains(word@));
        let ids = cache.map.get(word.as_str()).unwrap();
        assert(entries[i as int] == (word@, ids@));
        let key_bytes = word.as_str().as_bytes();
        push_le(&mut out, key_bytes.len() as u64, 4);
        let mut key: Vec<u8> = slice_to_vec(key_bytes);
        out.append(&mut key);
        push_le(&mut out, ids.len() as u64, 4);
        let ghost middle = out@;
        for k in 0..ids.len()
            invariant
                out@ == middle + id_bytes(ids@.take(k as int)),
        {
            assert(ids@.take(k + 1).drop_last() == ids@.take(k as int));
            push_le(&mut out, ids[k] as u64, 4);
        }
        assert(ids@.take(ids@.len() as int) == ids@);
        assert(out@ == before + entry_bytes(entries[i as int]));
        assert(entries.take(i + 1).drop_last() == entries.take(i as int));
    }
    assert(entries.take(entries.len() as int) == entries);
    proof {
        if cache.entries_fit() {
            saved_entries_load(entries);
            assert forall|w: Seq<char>| #[trigger] cache@.contains_key(w) implies exists|i: int|
                0 <= i < entries.len() && #[trigger] entries[i].0 == w by {
                assert(cache.map@.contains_key(w));
                let i = choose|i: int|
                    0 <= i < texts(cache.words@).len() && texts(cache.words@)[i] == w;
                assert(entries[i].0 == w);
            }
            assert forall|i: int| 0 <= i < entries.len() implies cache@.contains_key(
                #[trigger] entries[i].0,
            ) && cache@[entries[i].0] == entries[i].1 by {
                assert(texts(cache.words@).contains(entries[i].0));
                assert(cache.map@.contains_key(entries[i].0));
            }
            entries_make_map(entries, cache@);
        }
    }
    out
}

impl VocabCache {
    /// Whether every word, and every list of token IDs, is short enough for its length to be
    /// written in four bytes.
    pub open spec fn entries_fit(self) -> bool {
        entries_fit(self.entries())
    }
}

/// Whether the length of every word and of every list of token IDs fits into four bytes, and the
/// number of entries into eight.
pub open spec fn entries_fit(entries: Seq<Entry>) -> bool {
    &&& entries.len() < 0x1_0000_0000_0000_0000
    &&& forall|i: int|
        0 <= i < entries.len() ==> byte_len(#[trigger] entries[i].0) < 0x1_0000_0000
            && entries[i].1.len() < 0x1_0000_0000
}

/// The map that the entries make, each on top of those before it.
pub open spec fn map_of(entries: Seq<Entry>, known: Map<Seq<char>, Seq<u32>>) -> Map<
    Seq<char>,
    Seq<u32>,
>
    decreases entries.len(),
{
    if entries.len() == 0 {
        known
    } else {
        map_of(entries.drop_first(), known.insert(entries[0].0, entries[0].1))
    }
}

proof fn id_bytes_read_back(ids: Seq<u32>, rest: Seq<u8>)
    ensures
        id_bytes(ids).len() == 4 * ids.len(),
        ids_in(id_bytes(ids) + rest, ids.len()) == ids,
    decreases ids.len(),
{
    if ids.len() > 0 {
        let last = le_bytes(ids.last() as nat, 4);
        pow256_values();
        le_reads_back(ids.last() as nat, 4);
        id_bytes_read_back(ids.drop_last(), last + rest);
        let s = id_bytes(ids) + rest;
        assert(s == id_bytes(ids.drop_last()) + (last + rest));
        let n = (ids.len() - 1) as nat;
        assert(s.subrange(4 * n as int, 4 * n as int + 4) == last);
        assert forall|i: int| 0 <= i < ids.len() implies ids_in(s, ids.len())[i] == ids[i] by {
            if i < n {
                assert(ids_in(s, n)[i] == ids.drop_last()[i]);
            }
        }
    }
}

proof fn entry_reads_back(entry: Entry, rest: Seq<u8>)
    requires
        byte_len(entry.0) < 0x1_0000_0000,
        entry.1.len() < 0x1_0000_0000,
    ensures
        first_entry(entry_bytes(entry) + rest) == Ok::<_, CacheError>((entry, rest)),
{
    let s = entry_bytes(entry) + rest;
    let key = encode_utf8(entry.0);
    pow256_values();
    le_reads_back(byte_len(entry.0), 4);
    le_reads_back(entry.1.len(), 4);
    id_bytes_read_back(entry.1, rest);
    vstd::utf8::encode_utf8_valid_utf8(entry.0);
    vstd::utf8::encode_utf8_decode_utf8(entry.0);
    assert(s.take(4) == le_bytes(byte_len(entry.0), 4));
    assert(s.subrange(4, 4 + key.len() as int) == key);
    let s1 = s.skip(4 + key.len() as int);
    assert(s1 == le_bytes(entry.1.len(), 4) + (id_bytes(entry.1) + rest));
    assert(s1.take(4) == le_bytes(entry.1.len(), 4));
    assert(s1.skip(4) == id_bytes(entry.1) + rest);
    assert(s1.skip(4).skip(4 * entry.1.len() as int) == rest);
}

proof fn entries_bytes_from_front(entries: Seq<Entry>)
    requires
        entries.len() > 0,
    ensures
        entries_bytes(entries) == entry_bytes(entries[0]) + entries_bytes(entries.drop_first()),
    decreases entries.len(),
{
    if entries.len() == 1 {
        assert(entries_bytes(entries.drop_last()) == Seq::<u8>::empty());
        assert(entries_bytes(entries.drop_first()) == Seq::<u8>::empty());
    } else {
        entries_bytes_from_front(entries.drop_last());
        assert(entries.drop_last().drop_first() == entries.drop_first().drop_last());
        assert(entries.drop_first().last() == entries.last());
    }
}

proof fn entries_read_back(entries: Seq<Entry>, known: Map<Seq<char>, Seq<u32>>)
    requires
        entries_fit(entries),
    ensures
        parsed_entries(entries_bytes(entries), entries.len(), known) == Ok::<_, CacheError>(
            map_of(entries, known),
        ),
    decreases entries.len(),
{
    if entries.len() > 0 {
        let rest = entries.drop_first();
        entries_bytes_from_front(entries);
        assert(byte_len(entries[0].0) < 0x1_0000_0000);
        entry_reads_back(entries[0], entries_bytes(rest));
        assert forall|i: int| 0 <= i < rest.len() implies byte_len(#[trigger] rest[i].0)
            < 0x1_0000_0000 && rest[i].1.len() < 0x1_0000_0000 by {
            assert(rest[i] == entries[i + 1]);
            assert(byte_len(entries[i + 1].0) < 0x1_0000_0000);
        }
        entries_read_back(rest, known.insert(entries[0].0, entries[0].1));
    }
}

/// Loading the bytes of a saved cache gives back its entries; of those with the same word the
/// last one.
pub proof fn saved_entries_load(entries: Seq<Entry>)
    requires
        entries_fit(entries),
    ensures
        parsed(cache_bytes(entries)) == Ok::<_, CacheError>(map_of(entries, Map::empty())),
{
    let s = cache_bytes(entries);
    pow256_values();
    le_reads_back(CACHE_VERSION as nat, 4);
    le_reads_back(entries.len(), 8);
    assert(s.take(8) == magic());
    assert(s.subrange(8, 12) == le_bytes(CACHE_VERSION as nat, 4));
    assert(s.subrange(12, 20) == le_bytes(entries.len(), 8));
    assert(s.skip(20) == entries_bytes(entries));
    entries_read_back(entries, Map::empty());
}

proof fn entries_make_map_over(
    entries: Seq<Entry>,
    known: Map<Seq<char>, Seq<u32>>,
    all: Map<Seq<char>, Seq<u32>>,
)
    requires
        forall|i: int|
            0 <= i < entries.len() ==> all.contains_key(#[trigger] entries[i].0) && all[entries[i].0]
                == entries[i].1,
        forall|w: Seq<char>| #[trigger]
            known.contains_key(w) ==> all.contains_key(w) && all[w] == known[w],
        forall|w: Seq<char>| #[trigger]
            all.contains_key(w) ==> known.contains_key(w) || exists|i: int|
                0 <= i < entries.len() && #[trigger] entries[i].0 == w,
    ensures
        map_of(entries, known) == all,
    decreases entries.len(),
{
    if entries.len() == 0 {
        assert(known == all);
    } else {
        let rest = entries.drop_first();
        let next = known.insert(entries[0].0, entries[0].1);
        assert(all.contains_key(entries[0].0));
        assert forall|i: int| 0 <= i < rest.len() implies all.contains_key(#[trigger] rest[i].0)
            && all[rest[i].0] == rest[i].1 by {
            assert(rest[i] == entries[i + 1]);
            assert(all.contains_key(entries[i + 1].0));
        }
        assert forall|w: Seq<char>| #[trigger] all.contains_key(w) implies next.contains_key(w)
            || exists|i: int| 0 <= i < rest.len() && #[trigger] rest[i].0 == w by {
            if !known.contains_key(w) {
                let i = choose|i: int| 0 <= i < entries.len() && #[trigger] entries[i].0 == w;
                if i > 0 {
                    assert(rest[i - 1].0 == w);
                }
            }
        }
        entries_make_map_over(rest, next, all);
    }
}

/// The entries of a map, each word once, make the map.
pub proof fn entries_make_map(entries: Seq<Entry>, all: Map<Seq<char>, Seq<u32>>)
    requires
        forall|i: int|
            0 <= i < entries.len() ==> all.contains_key(#[trigger] entries[i].0) && all[entries[i].0]
                == entries[i].1,
        forall|w: Seq<char>| #[trigger]
            all.contains_key(w) ==> exists|i: int|
                0 <= i < entries.len() && #[trigger] entries[i].0 == w,
    ensures
        map_of(entries, Map::empty()) == all,
{
    entries_make_map_over(entries, Map::empty(), all);
}

// Laws.

/// The layout of a saved cache: eight magic bytes, the version in four bytes, the number of entries
/// in eight, then the entries. Each is the length of the word in bytes, the word in UTF-8, the
/// number of its token IDs, and these in four bytes each, all numbers with the lowest byte first.
pub proof fn saved_cache_has_its_layout(entries: Seq<Entry>, word: Seq<char>, ids: Seq<u32>, i: int)
    requires
        entries_fit(entries.push((word, ids))),
        0 <= i < ids.len(),
    ensures
        ({
            let s = cache_bytes(entries);
            let more = cache_bytes(entries.push((word, ids)));
            let key = encode_utf8(word);
            let at = s.len() as int;
            let behind = at + 4 + key.len() as int;
            &&& s.len() >= 20
            &&& s.take(8) == seq![0x49u8, 0x4d, 0x53, 0x56, 0x43, 0x41, 0x43, 0x48]
            &&& le_value(s.subrange(8, 12)) == 1
            &&& le_value(s.subrange(12, 20)) == entries.len()
            &&& more.len() == behind + 4 + 4 * ids.len()
            &&& more.subrange(20, at) == s.subrange(20, at)
            &&& le_value(more.subrange(at, at + 4)) == key.len()
            &&& more.subrange(at + 4, behind) == key
            &&& le_value(more.subrange(behind, behind + 4)) == ids.len()
            &&& le_value(more.subrange(behind + 4 + 4 * i, behind + 8 + 4 * i)) == ids[i]
        }),
{
    let s = cache_bytes(entries);
    let all = entries.push((word, ids));
    let more = cache_bytes(all);
    let key = encode_utf8(word);
    assert(all.drop_last() =~= entries);
    assert(all[entries.len() as int] == (word, ids));
    assert(byte_len(all[entries.len() as int].0) < 0x1_0000_0000);
    pow256_values();
    le_reads_back(CACHE_VERSION as nat, 4);
    le_reads_back(entries.len(), 8);
    le_reads_back(all.len(), 8);
    le_reads_back(key.len(), 4);
    le_reads_back(ids.len(), 4);
    id_bytes_read_back(ids, Seq::empty());
    let at = s.len() as int;
    let behind = at + 4 + key.len() as int;
    assert(s.take(8) =~= magic());
    assert(s.subrange(8, 12) =~= le_bytes(CACHE_VERSION as nat, 4));
    assert(s.subrange(12, 20) =~= le_bytes(entries.len(), 8));
    assert(more.subrange(20, at) =~= s.subrange(20, at));
    assert(more.subrange(at, at + 4) =~= le_bytes(key.len(), 4));
    assert(more.subrange(at + 4, behind) =~= key);
    assert(more.subrange(behind, behind + 4) =~= le_bytes(ids.len(), 4));
    let tail = id_bytes(ids);
    assert(tail + Seq::<u8>::empty() =~= tail);
    assert(ids_in(tail, ids.len())[i] == ids[i]);
    id_reads_back_exactly(ids, i);
    assert(more.subrange(behind + 4 + 4 * i, behind + 8 + 4 * i) =~= tail.subrange(
        4 * i,
        4 * i + 4,
    ));
}

proof fn id_reads_back_exactly(ids: Seq<u32>, i: int)
    requires
        0 <= i < ids.len(),
    ensures
        id_bytes(ids).len() == 4 * ids.len(),
        le_value(id_bytes(ids).subrange(4 * i, 4 * i + 4)) == ids[i],
    decreases ids.len(),
{
    id_bytes_read_back(ids, Seq::empty());
    let front = ids.drop_last();
    id_bytes_read_back(front, Seq::empty());
    let last = le_bytes(ids.last() as nat, 4);
    pow256_values();
    le_reads_back(ids.last() as nat, 4);
    if i < front.len() {
        id_reads_back_exactly(front, i);
        assert(id_bytes(ids).subrange(4 * i, 4 * i + 4) =~= id_bytes(front).subrange(
            4 * i,
            4 * i + 4,
        ));
    } else {
        assert(id_bytes(ids).subrange(4 * i, 4 * i + 4) =~= last);
    }
}

/// Every entry counts, and of those with the same word the last one: one more entry sets the token
/// IDs of its word and changes no other word.
pub proof fn last_entry_of_a_word_counts(
    entries: Seq<Entry>,
    word: Seq<char>,
    ids: Seq<u32>,
    other: Seq<char>,
)
    ensures
        ({
            let before = map_of(entries, Map::empty());
            let after = map_of(entries.push((word, ids)), Map::empty());
            &&& after.contains_key(word) && after[word] == ids
            &&& other != word ==> after.contains_key(other) == before.contains_key(other)
            &&& other != word && before.contains_key(other) ==> after[other] == before[other]
            &&& map_of(Seq::empty(), Map::empty()) == Map::<Seq<char>, Seq<u32>>::empty()
        }),
{
    map_with_one_more(entries, (word, ids), Map::empty());
}

proof fn map_with_one_more(entries: Seq<Entry>, e: Entry, known: Map<Seq<char>, Seq<u32>>)
    ensures
        map_of(entries.push(e), known) == map_of(entries, known).insert(e.0, e.1),
    decreases entries.len(),
{
    let all = entries.push(e);
    if entries.len() == 0 {
        assert(all.drop_first() =~= Seq::<Entry>::empty());
        assert(map_of(all.drop_first(), known.insert(e.0, e.1)) == known.insert(e.0, e.1));
    } else {
        assert(all.drop_first() =~= entries.drop_first().push(e));
        map_with_one_more(
            entries.drop_first(),
            e,
            known.insert(entries[0].0, entries[0].1),
        );
    }
}

/// A cache can be saved unless a word, a list of token IDs or the list of words is too long for its
/// length to be written.
pub proof fn only_what_is_too_long_cannot_be_saved(entries: Seq<Entry>)
    requires
        entries.len() <= u64::MAX,
        forall|i: int|
            0 <= i < entries.len() ==> encode_utf8(#[trigger] entries[i].0).len() <= u32::MAX
                && entries[i].1.len() <= u32::MAX,
    ensures
        entries_fit(entries),
{
    assert forall|i: int| 0 <= i < entries.len() implies byte_len(#[trigger] entries[i].0)
        < 0x1_0000_0000 && entries[i].1.len() < 0x1_0000_0000 by {
        assert(encode_utf8(entries[i].0).len() <= u32::MAX);
    }
}

/// Only data that begins with the magic bytes and the version is read. Anything else is refused,
/// and what is missing or wrong first is named.
pub proof fn only_this_format_is_read(s: Seq<u8>)
    ensures
        s.len() < 8 ==> parsed(s) == Err::<Map<Seq<char>, Seq<u32>>, _>(
            CacheError::Truncated(Field::Magic),
        ),
        s.len() >= 8 && s.take(8) != seq![0x49u8, 0x4d, 0x53, 0x56, 0x43, 0x41, 0x43, 0x48]
            ==> parsed(s) == Err::<Map<Seq<char>, Seq<u32>>, _>(CacheError::Magic),
        parsed(s) is Ok ==> {
            &&& s.len() >= 20
            &&& s.take(8) == seq![0x49u8, 0x4d, 0x53, 0x56, 0x43, 0x41, 0x43, 0x48]
            &&& le_value(s.subrange(8, 12)) == 1
        },
        s.len() >= 12 && s.take(8) == seq![0x49u8, 0x4d, 0x53, 0x56, 0x43, 0x41, 0x43, 0x48]
            && le_value(s.subrange(8, 12)) != 1 ==> parsed(s) == Err::<
            Map<Seq<char>, Seq<u32>>,
            _,
        >(CacheError::Version(le_value(s.subrange(8, 12)) as u32)),
{
}

/// A saved cache of which bytes are missing at the end is refused, and bytes behind its last entry
/// do not count.
pub proof fn cut_cache_is_refused(entries: Seq<Entry>, k: int, behind: Seq<u8>)
    requires
        entries_fit(entries),
        0 <= k < cache_bytes(entries).len(),
    ensures
        parsed(cache_bytes(entries).take(k)) is Err,
        parsed(cache_bytes(entries) + behind) == Ok::<_, CacheError>(
            map_of(entries, Map::empty()),
        ),
{
    let s = cache_bytes(entries);
    pow256_values();
    le_reads_back(CACHE_VERSION as nat, 4);
    le_reads_back(entries.len(), 8);
    let cut = s.take(k);
    if k >= 20 {
        assert(cut.take(8) =~= magic());
        assert(cut.subrange(8, 12) =~= le_bytes(CACHE_VERSION as nat, 4));
        assert(cut.subrange(12, 20) =~= le_bytes(entries.len(), 8));
        assert(cut.skip(20) =~= entries_bytes(entries).take(k - 20));
        cut_entries_are_refused(entries, k - 20, Map::empty());
    }
    let more = s + behind;
    assert(more.take(8) =~= magic());
    assert(more.subrange(8, 12) =~= le_bytes(CACHE_VERSION as nat, 4));
    assert(more.subrange(12, 20) =~= le_bytes(entries.len(), 8));
    assert(more.skip(20) =~= entries_bytes(entries) + behind);
    bytes_behind_entries_do_not_count(entries, behind, Map::empty());
}

proof fn cut_entry_is_refused(entry: Entry, k: int)
    requires
        byte_len(entry.0) < 0x1_0000_0000,
        entry.1.len() < 0x1_0000_0000,
        0 <= k < entry_bytes(entry).len(),
    ensures
        first_entry(entry_bytes(entry).take(k)) is Err,
{
    let key = encode_utf8(entry.0);
    let s = entry_bytes(entry).take(k);
    pow256_values();
    le_reads_back(key.len(), 4);
    le_reads_back(entry.1.len(), 4);
    id_bytes_read_back(entry.1, Seq::empty());
    if k >= 4 {
        assert(s.take(4) =~= le_bytes(key.len(), 4));
        if k >= 4 + key.len() {
            let s1 = s.skip(4 + key.len() as int);
            if s1.len() >= 4 {
                assert(s1.take(4) =~= le_bytes(entry.1.len(), 4));
            }
        }
    }
}

proof fn cut_entries_are_refused(entries: Seq<Entry>, k: int, known: Map<Seq<char>, Seq<u32>>)
    requires
        entries_fit(entries),
        0 <= k < entries_bytes(entries).len(),
    ensures
        parsed_entries(entries_bytes(entries).take(k), entries.len(), known) is Err,
    decreases entries.len(),
{
    let all = entries_bytes(entries);
    let first = entry_bytes(entries[0]);
    let rest = entries.drop_first();
    entries_bytes_from_front(entries);
    assert(byte_len(entries[0].0) < 0x1_0000_0000);
    if k < first.len() {
        assert(all.take(k) =~= first.take(k));
        cut_entry_is_refused(entries[0], k);
    } else {
        let left = entries_bytes(rest).take(k - first.len());
        assert(all.take(k) =~= first + left);
        entry_reads_back(entries[0], left);
        assert forall|i: int| 0 <= i < rest.len() implies byte_len(#[trigger] rest[i].0)
            < 0x1_0000_0000 && rest[i].1.len() < 0x1_0000_0000 by {
            assert(rest[i] == entries[i + 1]);
            assert(byte_len(entries[i + 1].0) < 0x1_0000_0000);
        }
        cut_entries_are_refused(
            rest,
            k - first.len(),
            known.insert(entries[0].0, entries[0].1),
        );
    }
}

proof fn bytes_behind_entries_do_not_count(
    entries: Seq<Entry>,
    behind: Seq<u8>,
    known: Map<Seq<char>, Seq<u32>>,
)
    requires
        entries_fit(entries),
    ensures
        parsed_entries(entries_bytes(entries) + behind, entries.len(), known) == Ok::<
            _,
            CacheError,
        >(map_of(entries, known)),
    decreases entries.len(),
{
    if entries.len() > 0 {
        let first = entry_bytes(entries[0]);
        let rest = entries.drop_first();
        entries_bytes_from_front(entries);
        assert(byte_len(entries[0].0) < 0x1_0000_0000);
        assert(entries_bytes(entries) + behind =~= first + (entries_bytes(rest) + behind));
        entry_reads_back(entries[0], entries_bytes(rest) + behind);
        assert forall|i: int| 0 <= i < rest.len() implies byte_len(#[trigger] rest[i].0)
            < 0x1_0000_0000 && rest[i].1.len() < 0x1_0000_0000 by {
            assert(rest[i] == entries[i + 1]);
            assert(byte_len(entries[i + 1].0) < 0x1_0000_0000);
        }
        bytes_behind_entries_do_not_count(
            rest,
            behind,
            known.insert(entries[0].0, entries[0].1),
        );
    }
}

/// A word that is no UTF-8 is refused, with its bytes.
pub proof fn word_must_be_utf8(count: nat, key: Seq<u8>, behind: Seq<u8>)
    requires
        0 < count <= u64::MAX,
        key.len() <= u32::MAX,
        !valid_utf8(key),
    ensures
        parsed(
            cache_bytes(Seq::empty()).take(12) + le_bytes(count, 8) + le_bytes(key.len(), 4) + key
                + behind,
        ) == Err::<Map<Seq<char>, Seq<u32>>, _>(CacheError::KeyUtf8(key)),
{
    let head = cache_bytes(Seq::empty()).take(12);
    let s = head + le_bytes(count, 8) + le_bytes(key.len(), 4) + key + behind;
    pow256_values();
    le_reads_back(CACHE_VERSION as nat, 4);
    le_reads_back(0, 8);
    le_reads_back(count, 8);
    le_reads_back(key.len(), 4);
    assert(s.take(8) =~= magic());
    assert(s.subrange(8, 12) =~= le_bytes(CACHE_VERSION as nat, 4));
    assert(s.subrange(12, 20) =~= le_bytes(count, 8));
    let rest = s.skip(20);
    assert(rest.take(4) =~= le_bytes(key.len(), 4));
    assert(rest.subrange(4, 4 + key.len() as int) =~= key);
}

/// What is said of a cache that is refused.
pub proof fn refused_cache_is_told(v: u32, bytes: Seq<u8>)
    ensures
        CacheError::Magic.text() == "invalid cache file magic bytes"@,
        CacheError::Version(v).text() == "unsupported cache version: "@ + decimal(v as nat)
            + " (expected "@ + decimal(1) + ")"@,
        CacheError::KeyUtf8(bytes).text() == "utf8 key: "@ + utf8_error_text(bytes),
        CacheError::Truncated(Field::Magic).text() == "read magic: failed to fill whole buffer"@,
        CacheError::Truncated(Field::Version).text()
            == "read version: failed to fill whole buffer"@,
        CacheError::Truncated(Field::Count).text() == "read count: failed to fill whole buffer"@,
        CacheError::Truncated(Field::KeyLen).text()
            == "read key_len: failed to fill whole buffer"@,
        CacheError::Truncated(Field::Key).text() == "read key: failed to fill whole buffer"@,
        CacheError::Truncated(Field::NumIds).text()
            == "read num_ids: failed to fill whole buffer"@,
        CacheError::Truncated(Field::Id).text() == "read id: failed to fill whole buffer"@,
{
    reveal_strlit("read ");
    reveal_strlit(": failed to fill whole buffer");
    reveal_strlit("magic");
    reveal_strlit("read magic: failed to fill whole buffer");
    assert("read "@ + "magic"@ + ": failed to fill whole buffer"@
        =~= "read magic: failed to fill whole buffer"@);
    reveal_strlit("version");
    reveal_strlit("read version: failed to fill whole buffer");
    assert("read "@ + "version"@ + ": failed to fill whole buffer"@
        =~= "read version: failed to fill whole buffer"@);
    reveal_strlit("count");
    reveal_strlit("read count: failed to fill whole buffer");
    assert("read "@ + "count"@ + ": failed to fill whole buffer"@
        =~= "read count: failed to fill whole buffer"@);
    reveal_strlit("key_len");
    reveal_strlit("read key_len: failed to fill whole buffer");
    assert("read "@ + "key_len"@ + ": failed to fill whole buffer"@
        =~= "read key_len: failed to fill whole buffer"@);
    reveal_strlit("key");
    reveal_strlit("read key: failed to fill whole buffer");
    assert("read "@ + "key"@ + ": failed to fill whole buffer"@
        =~= "read key: failed to fill whole buffer"@);
    reveal_strlit("num_ids");
    reveal_strlit("read num_ids: failed to fill whole buffer");
    assert("read "@ + "num_ids"@ + ": failed to fill whole buffer"@
        =~= "read num_ids: failed to fill whole buffer"@);
    reveal_strlit("id");
    reveal_strlit("read id: failed to fill whole buffer");
    assert("read "@ + "id"@ + ": failed to fill whole buffer"@
        =~= "read id: failed to fill whole buffer"@);
}

}
