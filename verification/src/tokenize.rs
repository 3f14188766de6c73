//! Vocabulary-cached tokenizer: looks words up before it encodes them.
//!
//! A text is split on white space. Each word is looked up in the shared cache, which was built in
//! advance, then among the words learned in this run. Only a word that neither knows is encoded by
//! the tokenizer itself, and then learned.

use std::sync::Arc;

use serde_json::Value;
use tokenizers::models::ModelWrapper;
use tokenizers::normalizers::NormalizerWrapper;
use tokenizers::{OffsetReferential, OffsetType, PaddingStrategy, Tokenizer};
use vstd::hash_map::StringHashMap;
use vstd::prelude::*;
use vstd::string::StringExecFns;

use crate::cache::SharedCache;
use crate::components::{
    check_added_tokens, check_normalizer, check_pre_tokenizer, normalizer_is_sound,
    pre_tokenizer_is_sound, strip_one_side,
};
use crate::postprocess::{can_take_one, takes_one, MAX_NESTING};
use crate::text::{is_white, split_whitespace, texts, words, words_hold_every_character};
use crate::utf8::byte_len;

verus! {

/// How many words are learned at most.
pub const RUNTIME_CACHE_MAX: usize = 500_000;

/// A text to try added tokens on: no token should be found in it.
pub const TRIAL: &'static str = "\u{1}\u{1}";

/// The longest word, in bytes, that is learned.
pub const LEARNED_WORD_MAX: usize = 45;

/// A tokenized message: token IDs and their real length.
pub struct TokenizedMessage {
    pub ids: Vec<u32>,
    pub len: usize,
}

impl Clone for TokenizedMessage {
    fn clone(&self) -> (r: Self)
        ensures
            r.ids@ == self.ids@,
            r.len == self.len,
    {
        let ids = self.ids.clone();
        assert(ids@ == self.ids@);
        TokenizedMessage { ids, len: self.len }
    }
}

/// The tokenizer of the `tokenizers` crate.
#[verifier::external_type_specification]
#[verifier::external_body]
pub struct ExTokenizer(Tokenizer);

/// The ID that a tokenizer's vocabulary gives to a token.
pub uninterp spec fn token_id(tokenizer: Tokenizer, token: Seq<char>) -> Option<u32>;

/// What encoding a text without special tokens gives if the tokenizer draws nothing at random: the
/// token IDs, or nothing if the encoding fails.
pub uninterp spec fn encoding_of(tokenizer: Tokenizer, text: Seq<char>) -> Option<Seq<u32>>;

/// Whether a tokenizer's model drops merges at random.
pub uninterp spec fn draws(tokenizer: Tokenizer) -> bool;

/// Whether `reply` is an outcome of encoding `text` without special tokens. Only a tokenizer that
/// draws at random can have several for one text; of these nothing is said.
pub open spec fn possible_encoding(
    tokenizer: Tokenizer,
    text: Seq<char>,
    reply: Option<Seq<u32>>,
) -> bool {
    draws(tokenizer) || reply == encoding_of(tokenizer, text)
}

/// The maximal length and the stride of a tokenizer's truncation, if it truncates.
pub uninterp spec fn truncation_of(tokenizer: Tokenizer) -> Option<(usize, usize)>;

/// The fixed length and the multiple that a tokenizer pads to, each if there is one, if it pads.
pub uninterp spec fn padding_of(tokenizer: Tokenizer) -> Option<(Option<usize>, Option<usize>)>;

/// The post-processor of a tokenizer as JSON, if it has one and this can be written as JSON.
pub uninterp spec fn post_processor_of(tokenizer: Tokenizer) -> Option<Option<Value>>;

/// The normalizer of a tokenizer as JSON, if it has one and this can be written as JSON.
pub uninterp spec fn normalizer_of(tokenizer: Tokenizer) -> Option<Option<Value>>;

/// The pre-tokenizer of a tokenizer as JSON, if it has one and this can be written as JSON.
pub uninterp spec fn pre_tokenizer_of(tokenizer: Tokenizer) -> Option<Option<Value>>;

/// The added tokens of a tokenizer as JSON, if they can be written as JSON.
pub uninterp spec fn added_tokens_of(tokenizer: Tokenizer) -> Option<Value>;

/// The pieces that a text is cut into at the added tokens of a tokenizer: for each whether it is an
/// added token.
pub uninterp spec fn cut_at_tokens(tokenizer: Tokenizer, text: Seq<char>) -> Seq<bool>;

/// Whether the truncation of a tokenizer, if it has one, makes progress: its stride is below its
/// maximal length, or nothing is kept at all.
pub open spec fn truncates_soundly(tokenizer: Tokenizer) -> bool {
    truncation_of(tokenizer) matches Some((max_length, stride)) ==> max_length == 0 || stride
        < max_length
}

/// Whether a length, if there is one, can be held.
pub open spec fn can_be_held(length: Option<usize>) -> bool {
    length matches Some(n) ==> n <= u32::MAX
}

/// Whether the lengths that a tokenizer pads to, if it pads, can be held.
pub open spec fn pads_soundly(tokenizer: Tokenizer) -> bool {
    padding_of(tokenizer) matches Some((length, multiple)) ==> can_be_held(length) && can_be_held(
        multiple,
    )
}

/// Whether the post-processor of a tokenizer, if it has one, can take a single text.
pub open spec fn processes_soundly(tokenizer: Tokenizer) -> bool {
    match post_processor_of(tokenizer) {
        None => true,
        Some(None) => false,
        Some(Some(processor)) => takes_one(processor),
    }
}

/// Whether the normalizer of a tokenizer, if it has one, is sound.
pub open spec fn normalizes_soundly(tokenizer: Tokenizer) -> bool {
    match normalizer_of(tokenizer) {
        None => true,
        Some(None) => false,
        Some(Some(normalizer)) => normalizer_is_sound(normalizer, MAX_NESTING as nat),
    }
}

/// Whether the pre-tokenizer of a tokenizer, if it has one, is sound.
pub open spec fn splits_soundly(tokenizer: Tokenizer) -> bool {
    match pre_tokenizer_of(tokenizer) {
        None => true,
        Some(None) => false,
        Some(Some(pre_tokenizer)) => pre_tokenizer_is_sound(pre_tokenizer, MAX_NESTING as nat),
    }
}

/// Whether the added tokens of a tokenizer lay no claim to the same blanks, and none of them is
/// found where there is nothing: that would be found inside of characters too. A text is whole if
/// none is, and is cut between any two characters if one is.
pub open spec fn finds_tokens_soundly(tokenizer: Tokenizer) -> bool {
    &&& added_tokens_of(tokenizer) matches Some(tokens) && strip_one_side(tokens)
    &&& cut_at_tokens(tokenizer, TRIAL@) == seq![false]
}

/// Whether a tokenizer can encode a single text whatever it is.
pub open spec fn encodes_soundly(tokenizer: Tokenizer) -> bool {
    &&& truncates_soundly(tokenizer)
    &&& pads_soundly(tokenizer)
    &&& processes_soundly(tokenizer)
    &&& normalizes_soundly(tokenizer)
    &&& splits_soundly(tokenizer)
    &&& finds_tokens_soundly(tokenizer)
}

/// Calls `Tokenizer::get_truncation`, and takes the maximal length and the stride of it.
#[verifier::external_body]
fn get_truncation(tokenizer: &Tokenizer) -> (r: Option<(usize, usize)>)
    ensures
        r == truncation_of(*tokenizer),
{
    tokenizer.get_truncation().map(|t| (t.max_length, t.stride))
}

/// Calls `Tokenizer::get_padding`, and takes the fixed length and the multiple of it.
#[verifier::external_body]
fn get_padding(tokenizer: &Tokenizer) -> (r: Option<(Option<usize>, Option<usize>)>)
    ensures
        r == padding_of(*tokenizer),
{
    let padding = tokenizer.get_padding()?;
    let length = match padding.strategy {
        PaddingStrategy::Fixed(length) => Some(length),
        PaddingStrategy::BatchLongest => None,
    };
    Some((length, padding.pad_to_multiple_of))
}

/// Calls `serde_json::to_value` on what `Tokenizer::get_post_processor` gives. The value is a
/// function of the tokenizer.
#[verifier::external_body]
fn get_post_processor(tokenizer: &Tokenizer) -> (r: Option<Option<Value>>)
    ensures
        r == post_processor_of(*tokenizer),
{
    tokenizer.get_post_processor().map(|p| serde_json::to_value(p).ok())
}

/// Calls `serde_json::to_value` on what `Tokenizer::get_normalizer` gives. The value is a function
/// of the tokenizer.
#[verifier::external_body]
fn get_normalizer(tokenizer: &Tokenizer) -> (r: Option<Option<Value>>)
    ensures
        r == normalizer_of(*tokenizer),
{
    tokenizer.get_normalizer().map(|n| serde_json::to_value(n).ok())
}

/// Calls `serde_json::to_value` on what `Tokenizer::get_pre_tokenizer` gives. The value is a
/// function of the tokenizer.
#[verifier::external_body]
fn get_pre_tokenizer(tokenizer: &Tokenizer) -> (r: Option<Option<Value>>)
    ensures
        r == pre_tokenizer_of(*tokenizer),
{
    tokenizer.get_pre_tokenizer().map(|p| serde_json::to_value(p).ok())
}

/// Calls `serde_json::to_value` on what `Tokenizer::get_added_vocabulary` gives, which is written
/// in the order of the IDs. The value is a function of the tokenizer.
#[verifier::external_body]
fn get_added_tokens(tokenizer: &Tokenizer) -> (r: Option<Value>)
    ensures
        r == added_tokens_of(*tokenizer),
{
    serde_json::to_value(tokenizer.get_added_vocabulary()).ok()
}

/// Calls `AddedVocabulary::extract_and_normalize` on a text without a normalizer, and takes of each
/// piece whether it is a token. The pieces are a function of the tokenizer and the text. Left out
/// are texts with other characters than one that is a single byte, no blank and no part of a word:
/// in some of them a piece can begin inside of a character, on which the call panics.
#[verifier::external_body]
fn cut_text(tokenizer: &Tokenizer, text: &str) -> (r: Vec<bool>)
    requires
        forall|i: int| 0 <= i < text@.len() ==> #[trigger] text@[i] == '\u{1}',
    ensures
        r@ == cut_at_tokens(*tokenizer, text@),
{
    let none: Option<&NormalizerWrapper> = None;
    let pieces = tokenizer.get_added_vocabulary().extract_and_normalize(none, text);
    pieces
        .get_splits(OffsetReferential::Original, OffsetType::Byte)
        .iter()
        .map(|piece| piece.2.is_some())
        .collect()
}

/// Calls `Tokenizer::get_model`, and tells whether it is a model with dropout.
#[verifier::external_body]
fn get_draws(tokenizer: &Tokenizer) -> (r: bool)
    ensures
        r == draws(*tokenizer),
{
    match tokenizer.get_model() {
        ModelWrapper::BPE(model) => model.dropout.is_some(),
        ModelWrapper::WordPiece(_) => false,
        ModelWrapper::WordLevel(_) => false,
        ModelWrapper::Unigram(_) => false,
    }
}

fn is_held(length: Option<usize>) -> (r: bool)
    ensures
        r == can_be_held(length),
{
    match length {
        Some(n) => n <= u32::MAX as usize,
        None => true,
    }
}

/// Whether no added token is found where there is nothing.
fn check_trial(tokenizer: &Tokenizer) -> (r: bool)
    ensures
        r == (cut_at_tokens(*tokenizer, TRIAL@) == seq![false]),
{
    proof {
        reveal_strlit("\u{1}\u{1}");
    }
    let pieces = cut_text(tokenizer, TRIAL);
    let r = pieces.len() == 1 && !pieces[0];
    assert(r ==> pieces@ =~= seq![false]);
    r
}

/// Whether a tokenizer draws at random.
pub fn draws_at_random(tokenizer: &Tokenizer) -> (r: bool)
    ensures
        r == draws(*tokenizer),
{
    get_draws(tokenizer)
}

/// Whether a tokenizer can encode a single text whatever it is.
pub fn can_encode(tokenizer: &Tokenizer) -> (r: bool)
    ensures
        r == encodes_soundly(*tokenizer),
{
    if let Some((max_length, stride)) = get_truncation(tokenizer) {
        if max_length > 0 && stride >= max_length {
            return false;
        }
    }
    if let Some((length, multiple)) = get_padding(tokenizer) {
        if !is_held(length) || !is_held(multiple) {
            return false;
        }
    }
    let processes = match get_post_processor(tokenizer) {
        None => true,
        Some(None) => false,
        Some(Some(processor)) => can_take_one(&processor),
    };
    let normalizes = match get_normalizer(tokenizer) {
        None => true,
        Some(None) => false,
        Some(Some(normalizer)) => check_normalizer(&normalizer, MAX_NESTING),
    };
    let splits = match get_pre_tokenizer(tokenizer) {
        None => true,
        Some(None) => false,
        Some(Some(pre_tokenizer)) => check_pre_tokenizer(&pre_tokenizer, MAX_NESTING),
    };
    let strips = match get_added_tokens(tokenizer) {
        None => false,
        Some(tokens) => check_added_tokens(&tokens),
    };
    processes && normalizes && splits && strips && check_trial(tokenizer)
}

/// Calls `Tokenizer::token_to_id`, which looks a token up in the vocabulary.
#[verifier::external_body]
fn token_to_id(tokenizer: &Tokenizer, token: &str) -> (r: Option<u32>)
    ensures
        r == token_id(*tokenizer, token@),
{
    tokenizer.token_to_id(token)
}

/// Calls `Tokenizer::encode` without special tokens. The result is a function of the tokenizer and
/// the text, unless the tokenizer draws at random: nothing is said of the result then. Left out are
/// tokenizers on which the call panics for some text:
///
/// - a truncation whose stride is not below its length
/// - a padding to a length that cannot be held
/// - a post-processor that asks for a second text
/// - a normalizer that puts something in place of nothing, or whose character map leads out of the
///   map
/// - a normalizer or pre-tokenizer with a pattern on which the matcher can give up
/// - added tokens that lay claim to the same blanks, or that are found where there is nothing, as
///   they are if normalization leaves nothing of them
#[verifier::external_body]
fn encode(tokenizer: &Tokenizer, text: &str) -> (r: Option<Vec<u32>>)
    requires
        encodes_soundly(*tokenizer),
    ensures
        !draws(*tokenizer) ==> reply_view(r) == encoding_of(*tokenizer, text@),
{
    tokenizer.encode(text, false).ok().map(|e| e.get_ids().to_vec())
}

/// The token IDs of a reply.
pub open spec fn reply_view(reply: Option<Vec<u32>>) -> Option<Seq<u32>> {
    match reply {
        Some(ids) => Some(ids@),
        None => None,
    }
}

/// What a [`CachedTokenizer`] knows and has counted.
pub struct TokenizerView {
    pub tokenizer: Tokenizer,
    pub known: Map<Seq<char>, Seq<u32>>,
    pub learned: Map<Seq<char>, Seq<u32>>,
    pub cls_id: u32,
    pub sep_id: u32,
    pub max_len: nat,
    pub hits: nat,
    pub misses: nat,
    pub runtime_hits: nat,
}

/// A tokenizer that has learned nothing yet. Messages open with the token `<s>` and close with
/// `</s>`; where the vocabulary lacks them, with the IDs 0 and 2.
pub open spec fn fresh_tokenizer(
    tokenizer: Tokenizer,
    max_len: nat,
    known: Map<Seq<char>, Seq<u32>>,
) -> TokenizerView {
    TokenizerView {
        tokenizer,
        known,
        learned: Map::empty(),
        cls_id: match token_id(tokenizer, "<s>"@) {
            Some(id) => id,
            None => 0,
        },
        sep_id: match token_id(tokenizer, "</s>"@) {
            Some(id) => id,
            None => 2,
        },
        max_len,
        hits: 0,
        misses: 0,
        runtime_hits: 0,
    }
}

/// The key of a word: the word behind the mark of a word start.
pub open spec fn word_key(word: Seq<char>) -> Seq<char> {
    seq!['\u{2581}'] + word
}

/// The token IDs of a word that is known or was learned.
pub open spec fn cached(s: TokenizerView, word: Seq<char>) -> Option<Seq<u32>> {
    let key = word_key(word);
    if s.known.contains_key(key) {
        Some(s.known[key])
    } else if s.learned.contains_key(key) {
        Some(s.learned[key])
    } else {
        None
    }
}

/// The token IDs for what the tokenizer replied: the unknown token if it failed.
pub open spec fn reply_ids(reply: Option<Seq<u32>>) -> Seq<u32> {
    match reply {
        Some(ids) => ids,
        None => seq![3u32],
    }
}

/// The state after a lookup that found the word.
pub open spec fn after_hit(s: TokenizerView, word: Seq<char>) -> TokenizerView {
    if s.known.contains_key(word_key(word)) {
        TokenizerView { hits: s.hits + 1, ..s }
    } else {
        TokenizerView { hits: s.hits + 1, runtime_hits: s.runtime_hits + 1, ..s }
    }
}

/// The state after a word was encoded as `ids`: the word is learned if there is room for it and it
/// is not too long.
pub open spec fn after_miss(s: TokenizerView, word: Seq<char>, ids: Seq<u32>) -> TokenizerView {
    TokenizerView {
        misses: s.misses + 1,
        learned: if s.learned.len() < RUNTIME_CACHE_MAX && byte_len(word) <= LEARNED_WORD_MAX {
            s.learned.insert(word_key(word), ids)
        } else {
            s.learned
        },
        ..s
    }
}

/// The state after a word was looked up, and the token IDs found. `reply` is what the tokenizer
/// says of the word if it is asked.
pub open spec fn looked_up(s: TokenizerView, word: Seq<char>, reply: Option<Seq<u32>>) -> (
    TokenizerView,
    Seq<u32>,
) {
    match cached(s, word) {
        Some(ids) => (after_hit(s, word), ids),
        None => (after_miss(s, word, reply_ids(reply)), reply_ids(reply)),
    }
}

/// The state and the token IDs after the first `n` words, of which each adds its token IDs as far
/// as there is room for them and for the closing token. Words for which there is no room at all
/// are not looked up.
pub open spec fn run(
    s: TokenizerView,
    words: Seq<Seq<char>>,
    replies: Seq<Option<Seq<u32>>>,
    n: nat,
) -> (TokenizerView, Seq<u32>)
    decreases n,
{
    if n == 0 {
        (s, seq![s.cls_id])
    } else {
        let (s1, ids) = run(s, words, replies, (n - 1) as nat);
        if ids.len() >= s.max_len - 1 {
            (s1, ids)
        } else {
            let (s2, found) = looked_up(s1, words[n - 1], replies[n - 1]);
            let room = s.max_len - 1 - ids.len();
            (
                s2,
                ids + if found.len() <= room {
                    found
                } else {
                    found.take(room)
                },
            )
        }
    }
}

/// Whether the tokenizer is asked for word `i`.
pub open spec fn asked(
    s: TokenizerView,
    words: Seq<Seq<char>>,
    replies: Seq<Option<Seq<u32>>>,
    i: int,
) -> bool {
    let (s1, ids) = run(s, words, replies, i as nat);
    ids.len() < s.max_len - 1 && cached(s1, words[i]) is None
}

/// Whether `replies` holds a possible reply for every word for which the tokenizer is asked.
pub open spec fn possible_replies(
    s: TokenizerView,
    words: Seq<Seq<char>>,
    replies: Seq<Option<Seq<u32>>>,
) -> bool {
    &&& replies.len() == words.len()
    &&& forall|i: int|
        0 <= i < words.len() && #[trigger] asked(s, words, replies, i) ==> possible_encoding(
            s.tokenizer,
            word_key(words[i]),
            replies[i],
        )
}

/// A run does not depend on replies for later words.
proof fn run_looks_back_only(
    s: TokenizerView,
    words: Seq<Seq<char>>,
    a: Seq<Option<Seq<u32>>>,
    b: Seq<Option<Seq<u32>>>,
    n: nat,
)
    requires
        forall|i: int| 0 <= i < n ==> a[i] == b[i],
    ensures
        run(s, words, a, n) == run(s, words, b, n),
    decreases n,
{
    if n > 0 {
        run_looks_back_only(s, words, a, b, (n - 1) as nat);
    }
}

/// A run keeps the settings, counts at most one lookup for each word, and fills at most the room
/// that there is.
pub proof fn run_keeps(
    s: TokenizerView,
    words: Seq<Seq<char>>,
    replies: Seq<Option<Seq<u32>>>,
    n: nat,
)
    ensures
        ({
            let (s1, ids) = run(s, words, replies, n);
            &&& s1.tokenizer == s.tokenizer
            &&& s1.known == s.known
            &&& s1.cls_id == s.cls_id
            &&& s1.sep_id == s.sep_id
            &&& s1.max_len == s.max_len
            &&& s1.hits + s1.misses <= s.hits + s.misses + n
            &&& s.hits <= s1.hits
            &&& s.misses <= s1.misses
            &&& s.runtime_hits <= s1.runtime_hits <= s.runtime_hits + n
            &&& ids.len() >= 1
            &&& ids[0] == s.cls_id
            &&& ids.len() <= s.max_len - 1 || ids.len() == 1
        }),
    decreases n,
{
    if n > 0 {
        run_keeps(s, words, replies, (n - 1) as nat);
    }
}

// What was learned, and what it changes.

/// Whether token IDs are those of a possible reply to a key.
pub open spec fn possible_ids(tokenizer: Tokenizer, key: Seq<char>, ids: Seq<u32>) -> bool {
    exists|reply: Option<Seq<u32>>| #[trigger]
        possible_encoding(tokenizer, key, reply) && ids == reply_ids(reply)
}

/// Whether every learned word was learned from a possible reply.
pub open spec fn learned_soundly(s: TokenizerView) -> bool {
    forall|key: Seq<char>| #[trigger]
        s.learned.contains_key(key) ==> possible_ids(s.tokenizer, key, s.learned[key])
}

/// Whether token IDs are those of a word with no word learned: the ones in the shared cache if it
/// has the word, and else those of a possible reply.
pub open spec fn unlearned_ids(s: TokenizerView, word: Seq<char>, ids: Seq<u32>) -> bool {
    let key = word_key(word);
    if s.known.contains_key(key) {
        ids == s.known[key]
    } else {
        possible_ids(s.tokenizer, key, ids)
    }
}

/// The token IDs of words one after the other.
pub open spec fn strung(parts: Seq<Seq<u32>>) -> Seq<u32>
    decreases parts.len(),
{
    if parts.len() == 0 {
        Seq::empty()
    } else {
        strung(parts.drop_last()) + parts.last()
    }
}

/// How many token IDs of words have room between the opening and the closing token.
pub open spec fn content_room(s: TokenizerView) -> nat {
    if s.max_len >= 2 {
        (s.max_len - 2) as nat
    } else {
        0
    }
}

/// The first token IDs, as far as there is room.
pub open spec fn as_far_as(ids: Seq<u32>, room: nat) -> Seq<u32> {
    if ids.len() <= room {
        ids
    } else {
        ids.take(room as int)
    }
}

/// Whether `parts` are the token IDs of the first words with no word learned: of all words, or of
/// so many that they fill the room.
pub open spec fn unlearned_parts(
    s: TokenizerView,
    words: Seq<Seq<char>>,
    parts: Seq<Seq<u32>>,
) -> bool {
    &&& parts.len() <= words.len()
    &&& forall|i: int| 0 <= i < parts.len() ==> unlearned_ids(s, words[i], #[trigger] parts[i])
    &&& parts.len() == words.len() || strung(parts).len() >= content_room(s)
}

/// Whether a message is one that the words have with no word learned.
pub open spec fn unlearned_message(
    s: TokenizerView,
    words: Seq<Seq<char>>,
    message: Seq<u32>,
) -> bool {
    exists|parts: Seq<Seq<u32>>| #[trigger]
        unlearned_parts(s, words, parts) && message == seq![s.cls_id] + as_far_as(
            strung(parts),
            content_room(s),
        ) + seq![s.sep_id]
}

proof fn run_without_learning(
    s: TokenizerView,
    words: Seq<Seq<char>>,
    replies: Seq<Option<Seq<u32>>>,
    n: nat,
) -> (parts: Seq<Seq<u32>>)
    requires
        n <= words.len(),
        learned_soundly(s),
        possible_replies(s, words, replies),
    ensures
        learned_soundly(run(s, words, replies, n).0),
        unlearned_parts(s, words.take(n as int), parts),
        run(s, words, replies, n).1 == seq![s.cls_id] + as_far_as(strung(parts), content_room(s)),
    decreases n,
{
    if n == 0 {
        let none = Seq::<Seq<u32>>::empty();
        assert(seq![s.cls_id] + as_far_as(strung(none), content_room(s)) =~= seq![s.cls_id]);
        none
    } else {
        let m = (n - 1) as nat;
        let parts = run_without_learning(s, words, replies, m);
        let (s1, ids) = run(s, words, replies, m);
        let room = content_room(s);
        run_keeps(s, words, replies, m);
        assert forall|i: int| 0 <= i < parts.len() implies unlearned_ids(
            s,
            words.take(n as int)[i],
            #[trigger] parts[i],
        ) by {
            assert(words.take(n as int)[i] == words.take(m as int)[i]);
        }
        if ids.len() >= s.max_len - 1 {
            assert(strung(parts).len() >= room);
            parts
        } else {
            let word = words[m as int];
            let (s2, found) = looked_up(s1, word, replies[m as int]);
            assert(strung(parts).len() < room);
            assert(ids == seq![s.cls_id] + strung(parts));
            if cached(s1, word) is None {
                assert(asked(s, words, replies, m as int));
                assert(possible_ids(s.tokenizer, word_key(word), found));
            }
            assert(unlearned_ids(s, word, found));
            let longer = parts.push(found);
            assert(longer.drop_last() == parts);
            assert(strung(longer) == strung(parts) + found);
            let space = s.max_len - 1 - ids.len();
            assert(space == room - strung(parts).len());
            let added = if found.len() <= space {
                found
            } else {
                found.take(space)
            };
            assert(strung(parts) + added =~= as_far_as(strung(longer), room));
            assert(ids + added =~= seq![s.cls_id] + (strung(parts) + added));
            assert forall|i: int| 0 <= i < longer.len() implies unlearned_ids(
                s,
                words.take(n as int)[i],
                #[trigger] longer[i],
            ) by {
                if i < parts.len() {
                    assert(longer[i] == parts[i]);
                }
            }
            longer
        }
    }
}

/// Learning words changes no token IDs: whatever was tokenized before, a message is one that its
/// words have with no word learned. Every word that is learned is learned from a possible reply.
pub proof fn learning_changes_no_ids(
    s: TokenizerView,
    words: Seq<Seq<char>>,
    replies: Seq<Option<Seq<u32>>>,
)
    requires
        learned_soundly(s),
        possible_replies(s, words, replies),
    ensures
        ({
            let (s1, ids) = run(s, words, replies, words.len());
            &&& learned_soundly(s1)
            &&& unlearned_message(s, words, ids.push(s1.sep_id))
        }),
{
    let parts = run_without_learning(s, words, replies, words.len());
    run_keeps(s, words, replies, words.len());
    assert(words.take(words.len() as int) == words);
    let (s1, ids) = run(s, words, replies, words.len());
    assert(ids.push(s1.sep_id) =~= seq![s.cls_id] + as_far_as(strung(parts), content_room(s))
        + seq![s.sep_id]);
}

/// The token IDs of a word with no word learned, where the tokenizer draws nothing at random: the
/// ones in the shared cache if it has the word, and else those of the tokenizer.
pub open spec fn ids_of_word(s: TokenizerView, word: Seq<char>) -> Seq<u32> {
    let key = word_key(word);
    if s.known.contains_key(key) {
        s.known[key]
    } else {
        reply_ids(encoding_of(s.tokenizer, key))
    }
}

/// The token IDs of words one after the other, with no word learned, where the tokenizer draws
/// nothing at random.
pub open spec fn ids_of_words(s: TokenizerView, words: Seq<Seq<char>>) -> Seq<u32> {
    strung(words.map_values(|w: Seq<char>| ids_of_word(s, w)))
}

/// The message that words make where the tokenizer draws nothing at random: the opening token, the
/// token IDs of the words as far as they fit, and the closing token.
pub open spec fn message_of(s: TokenizerView, words: Seq<Seq<char>>) -> Seq<u32> {
    seq![s.cls_id] + as_far_as(ids_of_words(s, words), content_room(s)) + seq![s.sep_id]
}

proof fn strung_begins(all: Seq<Seq<u32>>, n: int)
    requires
        0 <= n <= all.len(),
    ensures
        strung(all.take(n)).is_prefix_of(strung(all)),
    decreases all.len(),
{
    if n == all.len() {
        assert(all.take(n) == all);
    } else {
        strung_begins(all.drop_last(), n);
        assert(all.drop_last().take(n) == all.take(n));
    }
}

/// Where the tokenizer draws nothing at random, words make one message.
pub proof fn unlearned_message_is_one(
    s: TokenizerView,
    words: Seq<Seq<char>>,
    message: Seq<u32>,
)
    requires
        !draws(s.tokenizer),
        unlearned_message(s, words, message),
    ensures
        message == message_of(s, words),
{
    let parts = choose|parts: Seq<Seq<u32>>| #[trigger]
        unlearned_parts(s, words, parts) && message == seq![s.cls_id] + as_far_as(
            strung(parts),
            content_room(s),
        ) + seq![s.sep_id];
    let all = words.map_values(|w: Seq<char>| ids_of_word(s, w));
    let n = parts.len() as int;
    assert forall|i: int| 0 <= i < n implies #[trigger] parts[i] == all[i] by {
        assert(unlearned_ids(s, words[i], parts[i]));
    }
    assert(parts =~= all.take(n));
    strung_begins(all, n);
    if n == words.len() {
        assert(all.take(n) == all);
    } else {
        assert(as_far_as(strung(parts), content_room(s)) =~= as_far_as(
            strung(all),
            content_room(s),
        ));
    }
}

/// What was tokenized before changes no token IDs: two tokenizers that differ only in what they
/// have learned and counted make the same message of the same words, if nothing is drawn at random.
pub proof fn message_does_not_depend_on_the_past(
    a: TokenizerView,
    b: TokenizerView,
    words: Seq<Seq<char>>,
    replies_a: Seq<Option<Seq<u32>>>,
    replies_b: Seq<Option<Seq<u32>>>,
)
    requires
        learned_soundly(a),
        learned_soundly(b),
        !draws(a.tokenizer),
        a.tokenizer == b.tokenizer,
        a.known == b.known,
        a.cls_id == b.cls_id,
        a.sep_id == b.sep_id,
        a.max_len == b.max_len,
        possible_replies(a, words, replies_a),
        possible_replies(b, words, replies_b),
    ensures
        ({
            let (a1, ids_a) = run(a, words, replies_a, words.len());
            let (b1, ids_b) = run(b, words, replies_b, words.len());
            &&& ids_a.push(a1.sep_id) == message_of(a, words)
            &&& ids_a.push(a1.sep_id) == ids_b.push(b1.sep_id)
        }),
{
    let (a1, ids_a) = run(a, words, replies_a, words.len());
    let (b1, ids_b) = run(b, words, replies_b, words.len());
    learning_changes_no_ids(a, words, replies_a);
    learning_changes_no_ids(b, words, replies_b);
    unlearned_message_is_one(a, words, ids_a.push(a1.sep_id));
    unlearned_message_is_one(b, words, ids_b.push(b1.sep_id));
    assert(words.map_values(|w: Seq<char>| ids_of_word(a, w)) =~= words.map_values(
        |w: Seq<char>| ids_of_word(b, w),
    ));
}

/// Whether every word is known or was learned.
pub open spec fn all_cached(s: TokenizerView, words: Seq<Seq<char>>) -> bool {
    forall|i: int| 0 <= i < words.len() ==> cached(s, #[trigger] words[i]) is Some
}

/// Whether words can be tokenized: the tokenizer can encode any text, or is not needed.
pub open spec fn can_tokenize(s: TokenizerView, words: Seq<Seq<char>>) -> bool {
    encodes_soundly(s.tokenizer) || all_cached(s, words)
}

/// Tokenizer with a shared cache of known words and a cache of words learned in this run.
pub struct CachedTokenizer {
    tokenizer: Arc<Tokenizer>,
    static_cache: SharedCache,
    runtime_cache: StringHashMap<Vec<u32>>,
    sound: bool,
    cls_id: u32,
    sep_id: u32,
    max_len: usize,
    pub hits: u64,
    pub misses: u64,
    pub runtime_hits: u64,
}

impl View for CachedTokenizer {
    type V = TokenizerView;

    closed spec fn view(&self) -> TokenizerView {
        TokenizerView {
            tokenizer: *self.tokenizer,
            known: self.static_cache@,
            learned: self.runtime_cache@.map_values(|v: Vec<u32>| v@),
            cls_id: self.cls_id,
            sep_id: self.sep_id,
            max_len: self.max_len as nat,
            hits: self.hits as nat,
            misses: self.misses as nat,
            runtime_hits: self.runtime_hits as nat,
        }
    }
}

impl CachedTokenizer {
    /// It is known whether the tokenizer can encode any text.
    pub closed spec fn valid(self) -> bool {
        self.sound == encodes_soundly(self@.tokenizer)
    }

    /// The counted hits, misses, and hits among the learned words.
    pub fn counters(&self) -> (r: (u64, u64, u64))
        ensures
            r.0 == self@.hits,
            r.1 == self@.misses,
            r.2 == self@.runtime_hits,
    {
        (self.hits, self.misses, self.runtime_hits)
    }

    /// The hits and all lookups, of which the first is a share, or none where there were no lookups
    /// or too many to count.
    pub fn hit_share(&self) -> (r: Option<(u64, u64)>)
        ensures
            r == (if 0 < self@.hits + self@.misses <= u64::MAX {
                Some((self@.hits as u64, (self@.hits + self@.misses) as u64))
            } else {
                None::<(u64, u64)>
            }),
    {
        match self.hits.checked_add(self.misses) {
            Some(total) if total > 0 => Some((self.hits, total)),
            _ => None,
        }
    }

    /// Whether the counters have room for `n` more words.
    pub open spec fn room_for(self, n: nat) -> bool {
        &&& self@.hits + n <= u64::MAX
        &&& self@.misses + n <= u64::MAX
        &&& self@.runtime_hits + n <= u64::MAX
    }

    /// A tokenizer that has learned nothing yet. Messages open with the token `<s>` and close with
    /// `</s>`; where the vocabulary lacks them, with the IDs 0 and 2.
    pub fn new(tokenizer: Arc<Tokenizer>, max_len: usize, cache: SharedCache) -> (r: Self)
        ensures
            r.valid(),
            r@ == fresh_tokenizer(*tokenizer, max_len as nat, cache@),
            learned_soundly(r@),
    {
        let sound = can_encode(&tokenizer);
        let cls_id: u32 = token_to_id(&tokenizer, "<s>").unwrap_or(0);
        let sep_id: u32 = token_to_id(&tokenizer, "</s>").unwrap_or(2);
        let r = CachedTokenizer {
            tokenizer,
            static_cache: cache,
            runtime_cache: StringHashMap::new(),
            sound,
            cls_id,
            sep_id,
            max_len,
            hits: 0,
            misses: 0,
            runtime_hits: 0,
        };
        assert(r@.learned == Map::<Seq<char>, Seq<u32>>::empty());
        r
    }

    /// Counts a word that had to be encoded, and learns it if there is room for it and it is not
    /// too long. `reply` is what the tokenizer said of it. Returns the token IDs.
    pub fn record_miss(&mut self, word: &str, reply: Option<Vec<u32>>) -> (r: Vec<u32>)
        requires
            old(self).room_for(1),
        ensures
            old(self).valid() ==> final(self).valid(),
            r@ == reply_ids(reply_view(reply)),
            final(self)@ == after_miss(old(self)@, word@, r@),
    {
        self.misses += 1;
        let result: Vec<u32> = match reply {
            Some(ids) => ids,
            None => {
                let unknown: Vec<u32> = vec![3u32];
                assert(unknown@ == seq![3u32]);
                unknown
            },
        };
        proof {
            assert(self@.learned.dom() == self.runtime_cache@.dom());
        }
        let ghost learned0 = self@.learned;
        let word_len: usize = word.as_bytes().len();
        if self.runtime_cache.len() < RUNTIME_CACHE_MAX && word_len <= LEARNED_WORD_MAX {
            let mut key: String = String::new();
            key.push('\u{2581}');
            key.append(word);
            assert(key@ == word_key(word@));
            let copy = result.clone();
            assert(copy@ == result@);
            self.runtime_cache.insert(key, copy);
            assert(self@.learned == learned0.insert(word_key(word@), result@));
        }
        result
    }

    /// The token IDs of a word. Asks the tokenizer for a word that is neither known nor learned.
    pub fn lookup_word(&mut self, word: &str) -> (r: Vec<u32>)
        requires
            old(self).room_for(1),
            encodes_soundly(old(self)@.tokenizer) || cached(old(self)@, word@) is Some,
        ensures
            old(self).valid() ==> final(self).valid(),
            exists|reply: Option<Seq<u32>>|
                (cached(old(self)@, word@) is None ==> possible_encoding(
                    old(self)@.tokenizer,
                    word_key(word@),
                    reply,
                )) && #[trigger] looked_up(old(self)@, word@, reply) == (final(self)@, r@),
    {
        let mut key: String = String::new();
        key.push('\u{2581}');
        key.append(word);
        assert(key@ == word_key(word@));
        let ghost nothing: Option<Seq<u32>> = None;
        if let Some(ids) = self.static_cache.get(key.as_str()) {
            self.hits += 1;
            assert(looked_up(old(self)@, word@, nothing) == (self@, ids@));
            return ids;
        }
        if let Some(ids) = self.runtime_cache.get(key.as_str()) {
            let copy = ids.clone();
            assert(copy@ == ids@);
            self.runtime_hits += 1;
            self.hits += 1;
            assert(looked_up(old(self)@, word@, nothing) == (self@, copy@));
            return copy;
        }
        let reply = encode(&self.tokenizer, key.as_str());
        let ghost said = reply_view(reply);
        let ids = self.record_miss(word, reply);
        assert(looked_up(old(self)@, word@, said) == (self@, ids@));
        ids
    }

    /// Whether a text can be tokenized: the tokenizer can encode any text, or every word is known or
    /// was learned.
    pub fn takes(&self, text: &str) -> (r: bool)
        requires
            self.valid(),
        ensures
            r == can_tokenize(self@, words(text@)),
    {
        if self.sound {
            return true;
        }
        let ghost ws = words(text@);
        let all = split_whitespace(text);
        let n: usize = all.len();
        for i in 0..n
            invariant
                n == all@.len(),
                n == ws.len(),
                ws == words(text@),
                texts(all@) == ws,
                !encodes_soundly(self@.tokenizer),
                forall|k: int| 0 <= k < i ==> cached(self@, #[trigger] ws[k]) is Some,
        {
            assert(ws[i as int] == all@[i as int]@);
            let mut key: String = String::new();
            key.push('\u{2581}');
            key.append(all[i].as_str());
            assert(key@ == word_key(ws[i as int]));
            if self.static_cache.get(key.as_str()).is_none() && self.runtime_cache.get(
                key.as_str(),
            ).is_none() {
                assert(cached(self@, ws[i as int]) is None);
                return false;
            }
        }
        true
    }

    /// Tokenizes a text: the opening token, the token IDs of the words as far as they fit, and the
    /// closing token.
    pub fn tokenize_one(&mut self, text: &str) -> (r: TokenizedMessage)
        requires
            old(self)@.max_len >= 1,
            old(self).room_for(words(text@).len()),
            can_tokenize(old(self)@, words(text@)),
        ensures
            old(self).valid() ==> final(self).valid(),
            r.len == r.ids@.len(),
            exists|replies: Seq<Option<Seq<u32>>>|
                #[trigger] possible_replies(old(self)@, words(text@), replies) && ({
                    let (s, ids) = run(old(self)@, words(text@), replies, words(text@).len());
                    final(self)@ == s && r.ids@ == ids.push(s.sep_id)
                }),
            learned_soundly(old(self)@) ==> {
                &&& learned_soundly(final(self)@)
                &&& unlearned_message(old(self)@, words(text@), r.ids@)
                &&& !draws(old(self)@.tokenizer) ==> r.ids@ == message_of(
                    old(self)@,
                    words(text@),
                )
            },
    {
        let ghost s0 = self@;
        let ghost ws = words(text@);
        let mut ids: Vec<u32> = Vec::new();
        ids.push(self.cls_id);
        let content_limit: usize = self.max_len - 1;
        let all = split_whitespace(text);
        let ghost mut replies: Seq<Option<Seq<u32>>> = Seq::empty();
        assert(ids@ == seq![s0.cls_id]);
        for i in 0..all.len()
            invariant
                texts(all@) == ws,
                all@.len() == ws.len(),
                s0 == old(self)@,
                old(self).room_for(ws.len()),
                s0.max_len >= 1,
                can_tokenize(s0, ws),
                self@.learned == s0.learned || encodes_soundly(s0.tokenizer),
                old(self).valid() ==> self.valid(),
                content_limit == s0.max_len - 1,
                replies.len() == i,
                run(s0, ws, replies, i as nat) == (self@, ids@),
                forall|k: int|
                    0 <= k < i && #[trigger] asked(s0, ws, replies, k) ==> possible_encoding(
                        s0.tokenizer,
                        word_key(ws[k]),
                        replies[k],
                    ),
        {
            let ghost replies0 = replies;
            proof {
                run_keeps(s0, ws, replies, i as nat);
            }
            if ids.len() >= content_limit {
                proof {
                    let nothing: Option<Seq<u32>> = None;
                    replies = replies.push(nothing);
                }
            } else {
                let ghost s1 = self@;
                let word = all[i].as_str();
                assert(word@ == ws[i as int]);
                assert(cached(s0, ws[i as int]) is Some || encodes_soundly(s0.tokenizer));
                let word_ids = self.lookup_word(word);
                proof {
                    let reply = choose|reply: Option<Seq<u32>>|
                        (cached(s1, word@) is None ==> possible_encoding(
                            s1.tokenizer,
                            word_key(word@),
                            reply,
                        )) && #[trigger] looked_up(s1, word@, reply) == (self@, word_ids@);
                    replies = replies.push(reply);
                }
                let remaining: usize = content_limit - ids.len();
                let take: usize = if word_ids.len() < remaining {
                    word_ids.len()
                } else {
                    remaining
                };
                let ghost ids0 = ids@;
                for k in 0..take
                    invariant
                        take <= word_ids@.len(),
                        ids@ == ids0 + word_ids@.take(k as int),
                {
                    ids.push(word_ids[k]);
                    assert(word_ids@.take(k + 1) == word_ids@.take(k as int).push(
                        word_ids@[k as int],
                    ));
                }
                assert(word_ids@.take(word_ids@.len() as int) == word_ids@);
            }
            proof {
                run_looks_back_only(s0, ws, replies0, replies, i as nat);
                assert forall|k: int|
                    0 <= k < i + 1 && #[trigger] asked(
                        s0,
                        ws,
                        replies,
                        k,
                    ) implies possible_encoding(s0.tokenizer, word_key(ws[k]), replies[k]) by {
                    run_looks_back_only(s0, ws, replies0, replies, k as nat);
                    if k < i {
                        assert(asked(s0, ws, replies0, k));
                    }
                }
            }
        }
        proof {
            run_keeps(s0, ws, replies, ws.len());
            assert(possible_replies(s0, ws, replies));
            if learned_soundly(s0) {
                learning_changes_no_ids(s0, ws, replies);
                if !draws(s0.tokenizer) {
                    unlearned_message_is_one(s0, ws, ids@.push(self@.sep_id));
                }
            }
        }
        ids.push(self.sep_id);
        let len: usize = ids.len();
        TokenizedMessage { ids, len }
    }

    /// How many words were learned.
    pub fn runtime_cache_size(&self) -> (r: usize)
        ensures
            r == self@.learned.len(),
    {
        assert(self@.learned.dom() == self.runtime_cache@.dom());
        self.runtime_cache.len()
    }
}

/// A tokenized message opens with the opening token, closes with the closing token, and takes at
/// most `max_len` token IDs, or two where `max_len` is below two.
pub proof fn message_fits(
    s: TokenizerView,
    words: Seq<Seq<char>>,
    replies: Seq<Option<Seq<u32>>>,
)
    ensures
        ({
            let (s1, ids) = run(s, words, replies, words.len());
            let message = ids.push(s1.sep_id);
            &&& message.len() >= 2
            &&& message[0] == s.cls_id
            &&& message.last() == s.sep_id
            &&& message.len() <= s.max_len || message.len() == 2
        }),
{
    run_keeps(s, words, replies, words.len());
}

/// A text of known words is tokenized without the tokenizer: whatever it would reply, the outcome
/// is the same, nothing is learned, and no miss is counted.
pub proof fn known_words_need_no_reply(
    s: TokenizerView,
    words: Seq<Seq<char>>,
    a: Seq<Option<Seq<u32>>>,
    b: Seq<Option<Seq<u32>>>,
    n: nat,
)
    requires
        n <= words.len(),
        forall|i: int| 0 <= i < n ==> s.known.contains_key(word_key(#[trigger] words[i])),
    ensures
        run(s, words, a, n) == run(s, words, b, n),
        run(s, words, a, n).0.learned == s.learned,
        run(s, words, a, n).0.misses == s.misses,
    decreases n,
{
    if n > 0 {
        known_words_need_no_reply(s, words, a, b, (n - 1) as nat);
        run_keeps(s, words, a, (n - 1) as nat);
        assert(s.known.contains_key(word_key(words[n - 1])));
    }
}

/// A word that was learned is found from then on, with the token IDs that it was encoded as.
pub proof fn learned_word_is_found(s: TokenizerView, word: Seq<char>, reply: Option<Seq<u32>>)
    requires
        cached(s, word) is None,
        s.learned.len() < RUNTIME_CACHE_MAX,
        byte_len(word) <= LEARNED_WORD_MAX,
    ensures
        cached(looked_up(s, word, reply).0, word) == Some(reply_ids(reply)),
{
}

/// No more than the largest number of words is ever learned.
pub proof fn learning_is_bounded(s: TokenizerView, word: Seq<char>, reply: Option<Seq<u32>>)
    requires
        s.learned.dom().finite(),
        s.learned.len() <= RUNTIME_CACHE_MAX,
    ensures
        looked_up(s, word, reply).0.learned.dom().finite(),
        looked_up(s, word, reply).0.learned.len() <= RUNTIME_CACHE_MAX,
{
}

// Laws.

/// The key of a word is the mark of a word start and the whole word behind it: it has one character
/// more than the word, the word is read back from it character for character, and different words
/// have different keys.
pub proof fn key_is_the_whole_word(word: Seq<char>, other: Seq<char>)
    ensures
        word_key(word).len() == word.len() + 1,
        word_key(word)[0] == '\u{2581}',
        forall|i: int| 0 <= i < word.len() ==> word_key(word)[i + 1] == #[trigger] word[i],
        word != other ==> word_key(word) != word_key(other),
{
    if word != other && word_key(word) == word_key(other) {
        assert(word =~= word_key(word).skip(1));
        assert(other =~= word_key(other).skip(1));
    }
}

/// The keys of the words of a text, without their marks, hold every character of the text but white
/// space, in order.
pub proof fn keys_hold_every_character(text: Seq<char>)
    ensures
        words(text).map_values(|w: Seq<char>| word_key(w).skip(1)).flatten() == text.filter(
            |c: char| !is_white(c),
        ),
{
    let all = words(text);
    assert forall|i: int| 0 <= i < all.len() implies #[trigger] word_key(all[i]).skip(1)
        == all[i] by {
        assert(word_key(all[i]).skip(1) =~= all[i]);
    }
    assert(all.map_values(|w: Seq<char>| word_key(w).skip(1)) =~= all);
    words_hold_every_character(text);
}

/// A word is looked up as the mark of a word start and the word itself. What the shared cache has
/// for that goes before what was learned, and both go before what the tokenizer says, which is the
/// unknown token where it fails.
pub proof fn word_is_looked_up_as_it_is(s: TokenizerView, word: Seq<char>, reply: Option<Seq<u32>>)
    ensures
        ({
            let key = seq!['\u{2581}'] + word;
            let (after, ids) = looked_up(s, word, reply);
            if s.known.contains_key(key) {
                ids == s.known[key] && after.learned == s.learned && after.misses == s.misses
                    && after.hits == s.hits + 1 && after.runtime_hits == s.runtime_hits
            } else if s.learned.contains_key(key) {
                ids == s.learned[key] && after.learned == s.learned && after.misses == s.misses
                    && after.hits == s.hits + 1 && after.runtime_hits == s.runtime_hits + 1
            } else {
                &&& reply matches Some(said) ==> ids == said
                &&& reply is None ==> ids == seq![3u32]
                &&& after.misses == s.misses + 1 && after.hits == s.hits
                &&& after.runtime_hits == s.runtime_hits
                &&& after.learned == s.learned || after.learned == s.learned.insert(key, ids)
                &&& s.learned.len() < 500_000 && byte_len(word) <= 45 ==> after.learned
                    == s.learned.insert(key, ids)
            }
        }),
        looked_up(s, word, reply).0.known == s.known,
        looked_up(s, word, reply).0.tokenizer == s.tokenizer,
        looked_up(s, word, reply).0.max_len == s.max_len,
        looked_up(s, word, reply).0.cls_id == s.cls_id,
        looked_up(s, word, reply).0.sep_id == s.sep_id,
{
    assert(word_key(word) =~= seq!['\u{2581}'] + word);
}

proof fn strung_is_flat(parts: Seq<Seq<u32>>)
    ensures
        strung(parts) == parts.flatten(),
    decreases parts.len(),
{
    if parts.len() == 0 {
        assert(strung(parts) =~= parts.flatten());
    } else {
        strung_is_flat(parts.drop_last());
        flat_with_one_more(parts.drop_last(), parts.last());
        assert(parts.drop_last().push(parts.last()) == parts);
    }
}

proof fn flat_with_one_more(a: Seq<Seq<u32>>, w: Seq<u32>)
    ensures
        a.push(w).flatten() == a.flatten() + w,
    decreases a.len(),
{
    if a.len() == 0 {
        let none = Seq::<Seq<u32>>::empty();
        assert(none.flatten() =~= Seq::<u32>::empty());
        assert(a =~= none);
        assert(a.push(w).drop_first() =~= none);
        assert(a.push(w).first() == w);
        assert(a.push(w).flatten() =~= a.flatten() + w);
    } else {
        flat_with_one_more(a.drop_first(), w);
        assert(a.push(w).drop_first() =~= a.drop_first().push(w));
        assert(a.push(w).flatten() =~= a.flatten() + w);
    }
}

/// The token IDs of a message go word by word, in the order of the words, and none is left out: one
/// word more adds the token IDs of that word behind all others.
pub proof fn message_goes_word_by_word(s: TokenizerView, words: Seq<Seq<char>>, word: Seq<char>)
    ensures
        ({
            let key = seq!['\u{2581}'] + word;
            let ids = if s.known.contains_key(key) {
                s.known[key]
            } else {
                match encoding_of(s.tokenizer, key) {
                    Some(ids) => ids,
                    None => seq![3u32],
                }
            };
            ids_of_words(s, words.push(word)) == ids_of_words(s, words) + ids
        }),
        ids_of_words(s, Seq::empty()) == Seq::<u32>::empty(),
{
    let f = |w: Seq<char>| ids_of_word(s, w);
    assert(word_key(word) =~= seq!['\u{2581}'] + word);
    assert(words.push(word).map_values(f) =~= words.map_values(f).push(f(word)));
    assert(words.map_values(f).push(f(word)).drop_last() =~= words.map_values(f));
    assert(Seq::<Seq<char>>::empty().map_values(f) =~= Seq::<Seq<u32>>::empty());
}

/// A message opens and closes with its tokens, holds between them the first token IDs of its words
/// and leaves one out only where all the room is taken.
pub proof fn message_holds_all_that_fits(s: TokenizerView, words: Seq<Seq<char>>)
    requires
        s.max_len >= 2,
    ensures
        ({
            let message = message_of(s, words);
            let ids = ids_of_words(s, words);
            &&& message.len() == if ids.len() + 2 <= s.max_len {
                ids.len() + 2
            } else {
                s.max_len
            }
            &&& message[0] == s.cls_id
            &&& message.last() == s.sep_id
            &&& forall|i: int| 0 <= i < message.len() - 2 ==> message[i + 1] == #[trigger] ids[i]
        }),
{
}

/// What is said of the message of a tokenizer that may draw at random: between its opening and its
/// closing token stand the first of the token IDs that its words have one after the other.
pub proof fn unlearned_message_holds_all_that_fits(
    s: TokenizerView,
    words: Seq<Seq<char>>,
    message: Seq<u32>,
) -> (parts: Seq<Seq<u32>>)
    requires
        s.max_len >= 2,
        unlearned_message(s, words, message),
    ensures
        parts.len() <= words.len(),
        forall|i: int|
            0 <= i < parts.len() && s.known.contains_key(seq!['\u{2581}'] + words[i])
                ==> #[trigger] parts[i] == s.known[seq!['\u{2581}'] + words[i]],
        parts.len() < words.len() ==> message.len() == s.max_len,
        message.len() <= s.max_len,
        message.len() == s.max_len || message.len() == parts.flatten().len() + 2,
        message.len() >= 2 && message[0] == s.cls_id && message.last() == s.sep_id,
        forall|i: int|
            0 <= i < message.len() - 2 ==> message[i + 1] == #[trigger] parts.flatten()[i],
{
    let parts = choose|parts: Seq<Seq<u32>>| #[trigger]
        unlearned_parts(s, words, parts) && message == seq![s.cls_id] + as_far_as(
            strung(parts),
            content_room(s),
        ) + seq![s.sep_id];
    strung_is_flat(parts);
    assert forall|i: int|
        0 <= i < parts.len() && s.known.contains_key(
            seq!['\u{2581}'] + words[i],
        ) implies #[trigger] parts[i] == s.known[seq!['\u{2581}'] + words[i]] by {
        assert(unlearned_ids(s, words[i], parts[i]));
        assert(word_key(words[i]) =~= seq!['\u{2581}'] + words[i]);
    }
    parts
}

/// A new tokenizer opens messages with the ID of `<s>` and closes them with that of `</s>`, where
/// the vocabulary has them, and has learned and counted nothing.
pub proof fn new_tokenizer_has_learned_nothing(
    tokenizer: Tokenizer,
    max_len: nat,
    known: Map<Seq<char>, Seq<u32>>,
)
    ensures
        ({
            let s = fresh_tokenizer(tokenizer, max_len, known);
            &&& s.tokenizer == tokenizer && s.known == known && s.max_len == max_len
            &&& s.learned.dom() =~= Set::<Seq<char>>::empty()
            &&& s.hits == 0 && s.misses == 0 && s.runtime_hits == 0
            &&& token_id(tokenizer, "<s>"@) matches Some(id) ==> s.cls_id == id
            &&& token_id(tokenizer, "<s>"@) is None ==> s.cls_id == 0
            &&& token_id(tokenizer, "</s>"@) matches Some(id) ==> s.sep_id == id
            &&& token_id(tokenizer, "</s>"@) is None ==> s.sep_id == 2
        }),
{
}

/// A tokenizer can encode any text if its parts can: if it cuts texts to a length, no more than
/// that is repeated, if it fills them up, then to a length that can be held, each of its parts is
/// sound, and no token is found in a text that has none.
pub proof fn tokenizer_of_sound_parts_is_sound(tokenizer: Tokenizer)
    ensures
        encodes_soundly(tokenizer) <==> {
            &&& truncation_of(tokenizer) matches Some((max_length, stride)) ==> max_length == 0
                || stride < max_length
            &&& padding_of(tokenizer) matches Some((length, multiple)) ==> (length matches Some(n)
                ==> n <= u32::MAX) && (multiple matches Some(n) ==> n <= u32::MAX)
            &&& post_processor_of(tokenizer) matches Some(part) ==> (part matches Some(processor)
                && takes_one(processor))
            &&& normalizer_of(tokenizer) matches Some(part) ==> (part matches Some(normalizer)
                && normalizer_is_sound(normalizer, 64))
            &&& pre_tokenizer_of(tokenizer) matches Some(part) ==> (part matches Some(pre_tokenizer)
                && pre_tokenizer_is_sound(pre_tokenizer, 64))
            &&& added_tokens_of(tokenizer) matches Some(tokens) && strip_one_side(tokens)
            &&& cut_at_tokens(tokenizer, TRIAL@) == seq![false]
        },
{
}

/// A text can be tokenized by any tokenizer that encodes soundly, and by any other if each of its
/// words is known or learned.
pub proof fn known_words_can_always_be_tokenized(s: TokenizerView, words: Seq<Seq<char>>)
    ensures
        encodes_soundly(s.tokenizer) ==> can_tokenize(s, words),
        !encodes_soundly(s.tokenizer) ==> (can_tokenize(s, words) <==> forall|i: int|
            0 <= i < words.len() ==> s.known.contains_key(
                seq!['\u{2581}'] + #[trigger] words[i],
            ) || s.learned.contains_key(seq!['\u{2581}'] + words[i])),
{
    if !encodes_soundly(s.tokenizer) {
        if can_tokenize(s, words) {
            assert forall|i: int| 0 <= i < words.len() implies s.known.contains_key(
                seq!['\u{2581}'] + #[trigger] words[i],
            ) || s.learned.contains_key(seq!['\u{2581}'] + words[i]) by {
                assert(cached(s, words[i]) is Some);
            }
        }
    }
}

}
