//! The parts of a tokenizer, as its file has them: which normalizers, pre-tokenizers and added
//! tokens can take any text.
//!
//! Only kinds that are known to be safe are admitted:
//!
//! - A normalizer keeps track of where each character comes from. That breaks where a text is put
//!   before the first character in place of nothing. So what is put in front must not be empty, and
//!   what is replaced must not be.
//! - A pattern is either a plain text or one of a few regular expressions, none of which makes its
//!   matcher go back over the text again and again.
//! - An added token can take the blanks on its left or on its right with it. If some take those on
//!   the left and others those on the right, two of them can lay claim to the same blanks.

use serde_json::Value;
use vstd::prelude::*;

use crate::charsmap::{check_text, text_is_sound};
use crate::json::{
    flag_at, items_at, items_of, json_items, json_member, member_flag, member_items, member_text,
    text_at, value_at,
};
use crate::text::same_text;

verus! {

// Patterns.

/// Two blanks or more.
pub const BLANKS: &'static str = " {2,}";

/// White space.
pub const WHITE_SPACE: &'static str = r"\s+";

/// Words with the blank before them, as byte-level models split them.
pub const BYTE_LEVEL_WORDS: &'static str =
    r"'s|'t|'re|'ve|'m|'ll|'d| ?\p{L}+| ?\p{N}+| ?[^\s\p{L}\p{N}]+|\s+(?!\S)|\s+";

/// Words without blanks, and digits one by one.
pub const PLAIN_WORDS: &'static str =
    r"'s|'t|'re|'ve|'m|'ll|'d|[\p{L}]+|[\p{N}]|[^\s\p{L}\p{N}]+";

/// Whether a regular expression is one of those that are admitted. None of them matches an empty
/// text, and in none does anything but a look at the next character follow a repetition.
pub open spec fn is_admitted(pattern: Seq<char>) -> bool {
    ||| pattern == BLANKS@
    ||| pattern == WHITE_SPACE@
    ||| pattern == BYTE_LEVEL_WORDS@
    ||| pattern == PLAIN_WORDS@
}

/// Whether the pattern of a part is sound: a text that is not empty, or a regular expression that
/// is admitted.
pub open spec fn pattern_is_sound(part: Value) -> bool {
    match json_member(part, "pattern"@) {
        Some(pattern) => match (member_text(pattern, "String"@), member_text(pattern, "Regex"@)) {
            (Some(text), None) => text.len() > 0,
            (None, Some(regex)) => is_admitted(regex),
            _ => false,
        },
        None => false,
    }
}

fn check_pattern(part: &Value) -> (r: bool)
    ensures
        r == pattern_is_sound(*part),
{
    let pattern = match value_at(part, "pattern") {
        Some(pattern) => pattern,
        None => {
            return false;
        },
    };
    match (text_at(pattern, "String"), text_at(pattern, "Regex")) {
        (Some(text), None) => !text.is_empty(),
        (None, Some(regex)) => {
            same_text(regex, BLANKS) || same_text(regex, WHITE_SPACE) || same_text(
                regex,
                BYTE_LEVEL_WORDS,
            ) || same_text(regex, PLAIN_WORDS)
        },
        _ => false,
    }
}

// Normalizers.

/// Whether normalizers of a kind are sound whatever else they say.
pub open spec fn is_plain_normalizer(kind: Seq<char>) -> bool {
    ||| kind == "BertNormalizer"@
    ||| kind == "Strip"@
    ||| kind == "StripAccents"@
    ||| kind == "NFC"@
    ||| kind == "NFD"@
    ||| kind == "NFKC"@
    ||| kind == "NFKD"@
    ||| kind == "Lowercase"@
    ||| kind == "Nmt"@
    ||| kind == "ByteLevel"@
}

fn check_plain_normalizer(kind: &str) -> (r: bool)
    ensures
        r == is_plain_normalizer(kind@),
{
    same_text(kind, "BertNormalizer") || same_text(kind, "Strip") || same_text(
        kind,
        "StripAccents",
    ) || same_text(kind, "NFC") || same_text(kind, "NFD") || same_text(kind, "NFKC") || same_text(
        kind,
        "NFKD",
    ) || same_text(kind, "Lowercase") || same_text(kind, "Nmt") || same_text(kind, "ByteLevel")
}

/// Whether a normalizer, given as JSON and nested at most `depth` deep, is sound: it is of a kind
/// that is known, stays within its character maps, and puts nothing in place of nothing.
pub open spec fn normalizer_is_sound(normalizer: Value, depth: nat) -> bool
    decreases depth, 0nat,
{
    match member_text(normalizer, "type"@) {
        Some(kind) => if kind == "Sequence"@ {
            match member_items(normalizer, "normalizers"@) {
                Some(items) => depth > 0 && normalizers_are_sound(
                    items,
                    items.len(),
                    (depth - 1) as nat,
                ),
                None => false,
            }
        } else if kind == "Precompiled"@ {
            member_text(normalizer, "precompiled_charsmap"@) matches Some(text) && text_is_sound(
                text,
            )
        } else if kind == "Prepend"@ {
            member_text(normalizer, "prepend"@) matches Some(text) && text.len() > 0
        } else if kind == "Replace"@ {
            pattern_is_sound(normalizer)
        } else {
            is_plain_normalizer(kind)
        },
        None => false,
    }
}

/// Whether the first `n` of normalizers are sound.
pub open spec fn normalizers_are_sound(normalizers: Seq<Value>, n: nat, depth: nat) -> bool
    decreases depth, n,
{
    n == 0 || (normalizers_are_sound(normalizers, (n - 1) as nat, depth) && normalizer_is_sound(
        normalizers[n - 1],
        depth,
    ))
}

proof fn unsound_normalizer_stays(normalizers: Seq<Value>, i: nat, n: nat, depth: nat)
    requires
        i <= n,
        !normalizers_are_sound(normalizers, i, depth),
    ensures
        !normalizers_are_sound(normalizers, n, depth),
    decreases n,
{
    if i < n {
        unsound_normalizer_stays(normalizers, i, (n - 1) as nat, depth);
    }
}

/// Whether a normalizer, given as JSON and nested at most `depth` deep, is sound.
pub fn check_normalizer(normalizer: &Value, depth: usize) -> (r: bool)
    ensures
        r == normalizer_is_sound(*normalizer, depth as nat),
    decreases depth,
{
    let kind = match text_at(normalizer, "type") {
        Some(kind) => kind,
        None => {
            return false;
        },
    };
    if same_text(kind, "Sequence") {
        let items = match items_at(normalizer, "normalizers") {
            Some(items) => items,
            None => {
                return false;
            },
        };
        if depth == 0 {
            return false;
        }
        let n: usize = items.len();
        for i in 0..n
            invariant
                n == items@.len(),
                depth > 0,
                member_text(*normalizer, "type"@) == Some("Sequence"@),
                member_items(*normalizer, "normalizers"@) == Some(items@),
                normalizers_are_sound(items@, i as nat, (depth - 1) as nat),
        {
            if !check_normalizer(&items[i], depth - 1) {
                proof {
                    unsound_normalizer_stays(
                        items@,
                        (i + 1) as nat,
                        items@.len(),
                        (depth - 1) as nat,
                    );
                }
                return false;
            }
        }
        true
    } else if same_text(kind, "Precompiled") {
        match text_at(normalizer, "precompiled_charsmap") {
            Some(text) => check_text(text),
            None => false,
        }
    } else if same_text(kind, "Prepend") {
        match text_at(normalizer, "prepend") {
            Some(text) => !text.is_empty(),
            None => false,
        }
    } else if same_text(kind, "Replace") {
        check_pattern(normalizer)
    } else {
        check_plain_normalizer(kind)
    }
}

// Pre-tokenizers.

/// Whether pre-tokenizers of a kind are sound whatever else they say.
pub open spec fn is_plain_pre_tokenizer(kind: Seq<char>) -> bool {
    ||| kind == "BertPreTokenizer"@
    ||| kind == "ByteLevel"@
    ||| kind == "CharDelimiterSplit"@
    ||| kind == "Metaspace"@
    ||| kind == "Whitespace"@
    ||| kind == "Punctuation"@
    ||| kind == "WhitespaceSplit"@
    ||| kind == "Digits"@
    ||| kind == "UnicodeScripts"@
}

fn check_plain_pre_tokenizer(kind: &str) -> (r: bool)
    ensures
        r == is_plain_pre_tokenizer(kind@),
{
    same_text(kind, "BertPreTokenizer") || same_text(kind, "ByteLevel") || same_text(
        kind,
        "CharDelimiterSplit",
    ) || same_text(kind, "Metaspace") || same_text(kind, "Whitespace") || same_text(
        kind,
        "Punctuation",
    ) || same_text(kind, "WhitespaceSplit") || same_text(kind, "Digits") || same_text(
        kind,
        "UnicodeScripts",
    )
}

/// Whether a pre-tokenizer, given as JSON and nested at most `depth` deep, is sound: it is of a
/// kind that is known, and splits at sound patterns.
pub open spec fn pre_tokenizer_is_sound(pre_tokenizer: Value, depth: nat) -> bool
    decreases depth, 0nat,
{
    match member_text(pre_tokenizer, "type"@) {
        Some(kind) => if kind == "Sequence"@ {
            match member_items(pre_tokenizer, "pretokenizers"@) {
                Some(items) => depth > 0 && pre_tokenizers_are_sound(
                    items,
                    items.len(),
                    (depth - 1) as nat,
                ),
                None => false,
            }
        } else if kind == "Split"@ {
            pattern_is_sound(pre_tokenizer)
        } else {
            is_plain_pre_tokenizer(kind)
        },
        None => false,
    }
}

/// Whether the first `n` of pre-tokenizers are sound.
pub open spec fn pre_tokenizers_are_sound(pre_tokenizers: Seq<Value>, n: nat, depth: nat) -> bool
    decreases depth, n,
{
    n == 0 || (pre_tokenizers_are_sound(pre_tokenizers, (n - 1) as nat, depth)
        && pre_tokenizer_is_sound(pre_tokenizers[n - 1], depth))
}

proof fn unsound_pre_tokenizer_stays(pre_tokenizers: Seq<Value>, i: nat, n: nat, depth: nat)
    requires
        i <= n,
        !pre_tokenizers_are_sound(pre_tokenizers, i, depth),
    ensures
        !pre_tokenizers_are_sound(pre_tokenizers, n, depth),
    decreases n,
{
    if i < n {
        unsound_pre_tokenizer_stays(pre_tokenizers, i, (n - 1) as nat, depth);
    }
}

/// Whether a pre-tokenizer, given as JSON and nested at most `depth` deep, is sound.
pub fn check_pre_tokenizer(pre_tokenizer: &Value, depth: usize) -> (r: bool)
    ensures
        r == pre_tokenizer_is_sound(*pre_tokenizer, depth as nat),
    decreases depth,
{
    let kind = match text_at(pre_tokenizer, "type") {
        Some(kind) => kind,
        None => {
            return false;
        },
    };
    if same_text(kind, "Sequence") {
        let items = match items_at(pre_tokenizer, "pretokenizers") {
            Some(items) => items,
            None => {
                return false;
            },
        };
        if depth == 0 {
            return false;
        }
        let n: usize = items.len();
        for i in 0..n
            invariant
                n == items@.len(),
                depth > 0,
                member_text(*pre_tokenizer, "type"@) == Some("Sequence"@),
                member_items(*pre_tokenizer, "pretokenizers"@) == Some(items@),
                pre_tokenizers_are_sound(items@, i as nat, (depth - 1) as nat),
        {
            if !check_pre_tokenizer(&items[i], depth - 1) {
                proof {
                    unsound_pre_tokenizer_stays(
                        items@,
                        (i + 1) as nat,
                        items@.len(),
                        (depth - 1) as nat,
                    );
                }
                return false;
            }
        }
        true
    } else if same_text(kind, "Split") {
        check_pattern(pre_tokenizer)
    } else {
        check_plain_pre_tokenizer(kind)
    }
}

// Added tokens.

/// Whether a flag is off in every one of some tokens.
pub open spec fn is_off(tokens: Seq<Value>, flag: Seq<char>) -> bool {
    forall|i: int| 0 <= i < tokens.len() ==> member_flag(#[trigger] tokens[i], flag) == Some(false)
}

/// Whether added tokens, given as JSON, take no blanks on their left, or none on their right.
pub open spec fn strip_one_side(tokens: Value) -> bool {
    json_items(tokens) matches Some(items) && (is_off(items, "lstrip"@) || is_off(items, "rstrip"@))
}

fn check_off(tokens: &Vec<Value>, flag: &str) -> (r: bool)
    ensures
        r == is_off(tokens@, flag@),
{
    let n: usize = tokens.len();
    for i in 0..n
        invariant
            n == tokens@.len(),
            forall|k: int|
                0 <= k < i ==> member_flag(#[trigger] tokens@[k], flag@) == Some(false),
    {
        match flag_at(&tokens[i], flag) {
            Some(false) => {},
            _ => {
                assert(member_flag(tokens@[i as int], flag@) != Some(false));
                return false;
            },
        }
    }
    true
}

/// Whether added tokens, given as JSON, take no blanks on their left, or none on their right.
pub fn check_added_tokens(tokens: &Value) -> (r: bool)
    ensures
        r == strip_one_side(*tokens),
{
    match items_of(tokens) {
        Some(items) => check_off(items, "lstrip") || check_off(items, "rstrip"),
        None => false,
    }
}

/// Normalizers that only change characters are admitted, a map of characters if looking a text up
/// in it stays within the map, and what is put in front or replaced if it is not empty. A sequence
/// of normalizers is admitted if and only if each of them is.
pub proof fn usual_normalizers_are_sound(part: Value, kind: Seq<char>, items: Seq<Value>, depth: nat)
    requires
        member_text(part, "type"@) == Some(kind),
    ensures
        kind == "BertNormalizer"@
            || kind == "Strip"@
            || kind == "StripAccents"@
            || kind == "NFC"@
            || kind == "NFD"@
            || kind == "NFKC"@
            || kind == "NFKD"@
            || kind == "Lowercase"@
            || kind == "Nmt"@
            || kind == "ByteLevel"@
            ==> normalizer_is_sound(part, depth),
        kind == "Precompiled"@ ==> (normalizer_is_sound(part, depth) <==> (member_text(
            part,
            "precompiled_charsmap"@,
        ) matches Some(text) && text_is_sound(text))),
        kind == "Prepend"@ ==> (normalizer_is_sound(part, depth) <==> (member_text(
            part,
            "prepend"@,
        ) matches Some(text) && text.len() > 0)),
        kind == "Replace"@ ==> (normalizer_is_sound(part, depth) <==> pattern_is_sound(part)),
        kind == "Sequence"@ && member_items(part, "normalizers"@) == Some(items) ==> (
        normalizer_is_sound(part, depth + 1) <==> forall|i: int|
            0 <= i < items.len() ==> normalizer_is_sound(#[trigger] items[i], depth)),
{
    reveal_strlit("BertNormalizer");
    assert("BertNormalizer"@.len() == 14);
    reveal_strlit("Strip");
    assert("Strip"@.len() == 5);
    reveal_strlit("StripAccents");
    assert("StripAccents"@.len() == 12);
    reveal_strlit("NFC");
    assert("NFC"@.len() == 3);
    reveal_strlit("NFD");
    assert("NFD"@.len() == 3);
    reveal_strlit("NFKC");
    assert("NFKC"@.len() == 4);
    reveal_strlit("NFKD");
    assert("NFKD"@.len() == 4);
    reveal_strlit("Lowercase");
    assert("Lowercase"@.len() == 9);
    reveal_strlit("Nmt");
    assert("Nmt"@.len() == 3);
    reveal_strlit("ByteLevel");
    assert("ByteLevel"@.len() == 9);
    reveal_strlit("Precompiled");
    assert("Precompiled"@.len() == 11);
    reveal_strlit("Prepend");
    assert("Prepend"@.len() == 7 && "Prepend"@[0] == 'P');
    reveal_strlit("Replace");
    assert("Replace"@.len() == 7 && "Replace"@[0] == 'R');
    reveal_strlit("Sequence");
    assert("Sequence"@.len() == 8);
    all_normalizers_are_sound(items, items.len(), depth);
}

proof fn all_normalizers_are_sound(items: Seq<Value>, n: nat, depth: nat)
    requires
        n <= items.len(),
    ensures
        normalizers_are_sound(items, n, depth) <==> forall|i: int|
            0 <= i < n ==> normalizer_is_sound(#[trigger] items[i], depth),
    decreases n,
{
    if n > 0 {
        all_normalizers_are_sound(items, (n - 1) as nat, depth);
    }
}

/// Pre-tokenizers that split at fixed kinds of characters are admitted, and those that split at a
/// pattern if the pattern is. A sequence of them is admitted if and only if each of them is.
pub proof fn usual_pre_tokenizers_are_sound(
    part: Value,
    kind: Seq<char>,
    items: Seq<Value>,
    depth: nat,
)
    requires
        member_text(part, "type"@) == Some(kind),
    ensures
        kind == "BertPreTokenizer"@
            || kind == "ByteLevel"@
            || kind == "CharDelimiterSplit"@
            || kind == "Metaspace"@
            || kind == "Whitespace"@
            || kind == "Punctuation"@
            || kind == "WhitespaceSplit"@
            || kind == "Digits"@
            || kind == "UnicodeScripts"@
            ==> pre_tokenizer_is_sound(part, depth),
        kind == "Split"@ ==> (pre_tokenizer_is_sound(part, depth) <==> pattern_is_sound(part)),
        kind == "Sequence"@ && member_items(part, "pretokenizers"@) == Some(items) ==> (
        pre_tokenizer_is_sound(part, depth + 1) <==> forall|i: int|
            0 <= i < items.len() ==> pre_tokenizer_is_sound(#[trigger] items[i], depth)),
{
    reveal_strlit("BertPreTokenizer");
    assert("BertPreTokenizer"@.len() == 16);
    reveal_strlit("ByteLevel");
    assert("ByteLevel"@.len() == 9);
    reveal_strlit("CharDelimiterSplit");
    assert("CharDelimiterSplit"@.len() == 18);
    reveal_strlit("Metaspace");
    assert("Metaspace"@.len() == 9);
    reveal_strlit("Whitespace");
    assert("Whitespace"@.len() == 10);
    reveal_strlit("Punctuation");
    assert("Punctuation"@.len() == 11);
    reveal_strlit("WhitespaceSplit");
    assert("WhitespaceSplit"@.len() == 15);
    reveal_strlit("Digits");
    assert("Digits"@.len() == 6);
    reveal_strlit("UnicodeScripts");
    assert("UnicodeScripts"@.len() == 14);
    reveal_strlit("Split");
    assert("Split"@.len() == 5);
    reveal_strlit("Sequence");
    assert("Sequence"@.len() == 8);
    all_pre_tokenizers_are_sound(items, items.len(), depth);
}

proof fn all_pre_tokenizers_are_sound(items: Seq<Value>, n: nat, depth: nat)
    requires
        n <= items.len(),
    ensures
        pre_tokenizers_are_sound(items, n, depth) <==> forall|i: int|
            0 <= i < n ==> pre_tokenizer_is_sound(#[trigger] items[i], depth),
    decreases n,
{
    if n > 0 {
        all_pre_tokenizers_are_sound(items, (n - 1) as nat, depth);
    }
}

/// A plain text is a sound pattern unless it is empty, and so are the regular expressions for
/// blanks, for white space, and for words.
pub proof fn usual_patterns_are_sound(part: Value, pattern: Value, text: Seq<char>)
    requires
        json_member(part, "pattern"@) == Some(pattern),
    ensures
        member_text(pattern, "String"@) == Some(text) && member_text(pattern, "Regex"@) is None ==> (
        pattern_is_sound(part) <==> text.len() > 0),
        member_text(pattern, "String"@) is None && member_text(pattern, "Regex"@) == Some(text) && (
        text == " {2,}"@ || text == r"\s+"@ || text
            == r"'s|'t|'re|'ve|'m|'ll|'d| ?\p{L}+| ?\p{N}+| ?[^\s\p{L}\p{N}]+|\s+(?!\S)|\s+"@
            || text == r"'s|'t|'re|'ve|'m|'ll|'d|[\p{L}]+|[\p{N}]|[^\s\p{L}\p{N}]+"@)
            ==> pattern_is_sound(part),
{
}

/// Added tokens are sound if none takes the blanks on its left with it, or none those on its right,
/// and so if there are none.
pub proof fn tokens_that_strip_one_side_are_sound(tokens: Value, items: Seq<Value>)
    requires
        json_items(tokens) == Some(items),
    ensures
        strip_one_side(tokens) <==> (forall|i: int|
            0 <= i < items.len() ==> member_flag(#[trigger] items[i], "lstrip"@) == Some(false)) || (
        forall|i: int|
            0 <= i < items.len() ==> member_flag(#[trigger] items[i], "rstrip"@) == Some(false)),
        items.len() == 0 ==> strip_one_side(tokens),
{
}

}
