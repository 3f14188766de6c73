//! Text normalization: strips noise, lowercases, truncates.
//!
//! Links, addresses, hashes and the like make every text look new. Without them the words of a
//! text are mostly found in the vocabulary cache.

use regex::Regex;
use vstd::prelude::*;
use vstd::string::StringExecFns;
use vstd::utf8::{
    decode_utf8, encode_utf8, encode_utf8_decode_utf8, encode_utf8_valid_utf8, is_char_boundary,
    is_char_boundary_iff_not_is_continuation_byte, is_char_boundary_start_end_of_seq,
    valid_utf8_split,
};

use crate::text::{
    chars_of, is_solid, is_white, join, joined, joined_words_split, kept_is_in, split_whitespace,
    string_of, texts, trim, trimmed, trimming_takes_only_white_space, words, words_are_solid,
    words_lie_between_white_space,
};
use crate::utf8::{byte_len, encode_concat};

verus! {

/// Markdown links, of which the first group is the link text.
pub const MARKDOWN_LINK: &'static str = r"\[([^\]]*)\]\([^)]*\)";

/// Web addresses.
pub const URL: &'static str = r"(?i)\[?https?://\S+\]?";

/// Mail addresses.
pub const EMAIL: &'static str = r"\S+@\S+\.\S+";

/// Long runs of hexadecimal digits.
pub const HEX_HASH: &'static str = r"(?-u:\b)[0-9a-fA-F]{32,}(?-u:\b)";

/// Hexadecimal numbers.
pub const HEX_PREFIX: &'static str = r"0x[0-9a-fA-F]+";

/// Long decimal numbers.
pub const NUMBER: &'static str = r"(?-u:\b)\d{6,}(?-u:\b)";

/// Version numbers of three parts or more.
pub const VERSION: &'static str = r"(?-u:\b)v?\d+\.\d+(?:\.\d+)+(?-u:\b)";

/// References to issues.
pub const ISSUE_REF: &'static str = r"#\d+";

/// Names of users.
pub const REDDIT_USER: &'static str = r"/?u/\S+";

/// Names of communities.
pub const REDDIT_SUB: &'static str = r"/?r/\S+";

/// Paths of files with two parts or more.
pub const FILE_PATH: &'static str = r"(?:/[\w.\-]+){2,}";

/// Runs of three or more of the same punctuation mark.
pub const REPEATED_PUNCT: &'static str = r"[!]{3,}|[?]{3,}|[.]{3,}|[,]{3,}|[:]{3,}|[;]{3,}";

/// Runs of white space.
pub const WHITESPACE: &'static str = r"\s+";

/// The patterns that texts are searched for.
pub open spec fn is_noise_pattern(p: Seq<char>) -> bool {
    ||| p == MARKDOWN_LINK@
    ||| p == URL@
    ||| p == EMAIL@
    ||| p == HEX_HASH@
    ||| p == HEX_PREFIX@
    ||| p == NUMBER@
    ||| p == VERSION@
    ||| p == ISSUE_REF@
    ||| p == REDDIT_USER@
    ||| p == REDDIT_SUB@
    ||| p == FILE_PATH@
    ||| p == REPEATED_PUNCT@
    ||| p == WHITESPACE@
}

/// A compiled regular expression of the `regex` crate.
#[verifier::external_type_specification]
#[verifier::external_body]
pub struct ExRegex(Regex);

/// The regular expression that a pattern compiles to.
pub uninterp spec fn compiled(pattern: Seq<char>) -> Regex;

/// Whether a regular expression matches somewhere in a text.
pub uninterp spec fn matched(re: Regex, text: Seq<char>) -> bool;

/// A text with every match replaced.
pub uninterp spec fn replaced(re: Regex, text: Seq<char>, rep: Seq<char>) -> Seq<char>;

/// Where the matches in a text begin and end, in bytes.
pub uninterp spec fn match_spans(re: Regex, text: Seq<char>) -> Seq<(usize, usize)>;

/// The text in lower case.
pub uninterp spec fn lowercased(text: Seq<char>) -> Seq<char>;

/// Whether a character is alphabetic.
pub uninterp spec fn alphabetic(c: char) -> bool;

/// Calls `Regex::new` on one of the patterns of this module, all of which are valid.
#[verifier::external_body]
fn compile(pattern: &str) -> (r: Regex)
    requires
        is_noise_pattern(pattern@),
    ensures
        r == compiled(pattern@),
{
    Regex::new(pattern).unwrap()
}

/// Calls `Regex::is_match`.
#[verifier::external_body]
fn is_match(re: &Regex, text: &str) -> (r: bool)
    ensures
        r == matched(*re, text@),
{
    re.is_match(text)
}

/// Calls `Regex::replace_all` with a text, in which `$1` stands for the first group of a match.
/// A text without a match comes back unchanged.
#[verifier::external_body]
fn replace_all(re: &Regex, text: &str, rep: &str) -> (r: String)
    ensures
        r@ == replaced(*re, text@, rep@),
        !matched(*re, text@) ==> r@ == text@,
{
    re.replace_all(text, rep).into_owned()
}

/// Calls `Regex::find_iter`: the matches from left to right. They do not overlap, and each begins
/// and ends at a character of the text.
#[verifier::external_body]
fn find_spans(re: &Regex, text: &str) -> (r: Vec<(usize, usize)>)
    ensures
        r@ == match_spans(*re, text@),
        spans_valid(text@, r@),
{
    re.find_iter(text).map(|m| (m.start(), m.end())).collect()
}

/// Calls `str::to_lowercase`. The result depends on the text alone; nothing more is said of it.
#[verifier::external_body]
fn to_lowercase(text: &str) -> (r: String)
    ensures
        r@ == lowercased(text@),
{
    text.to_lowercase()
}

/// `char::is_alphabetic` depends on the character alone: it has the `Alphabetic` property.
pub assume_specification[ char::is_alphabetic ](c: char) -> (r: bool)
    ensures
        r == alphabetic(c),
;

/// `Regex::clone` gives a copy of the regular expression.
pub assume_specification[ <Regex as Clone>::clone ](re: &Regex) -> (r: Regex)
    ensures
        r == *re,
;

/// Whether spans lie in a text one behind the other, and begin and end at characters.
pub open spec fn spans_valid(text: Seq<char>, spans: Seq<(usize, usize)>) -> bool {
    let bytes = encode_utf8(text);
    &&& forall|i: int|
        0 <= i < spans.len() ==> {
            &&& (#[trigger] spans[i]).0 <= spans[i].1 <= bytes.len()
            &&& is_char_boundary(bytes, spans[i].0 as int)
            &&& is_char_boundary(bytes, spans[i].1 as int)
        }
    &&& forall|i: int, j: int| 0 <= i < j < spans.len() ==> spans[i].1 <= spans[j].0
}

/// Configuration for the normalizer.
#[derive(Debug)]
pub struct NormalizerConfig {
    pub lowercase: bool,
    pub max_chars: usize,
    pub min_chars: usize,
    /// Put before the text after normalization (such as "passage: " for e5 models).
    pub prefix: String,
}

impl Clone for NormalizerConfig {
    fn clone(&self) -> (r: Self)
        ensures
            r == *self,
    {
        NormalizerConfig {
            lowercase: self.lowercase,
            max_chars: self.max_chars,
            min_chars: self.min_chars,
            prefix: self.prefix.clone(),
        }
    }
}

impl Default for NormalizerConfig {
    fn default() -> (r: Self)
        ensures
            r.lowercase,
            r.max_chars == 256,
            r.min_chars == 10,
            r.prefix@ == "passage: "@,
    {
        NormalizerConfig {
            lowercase: true,
            max_chars: 256,
            min_chars: 10,
            prefix: "passage: ".to_owned(),
        }
    }
}

/// The text between two byte positions.
pub open spec fn slice(text: Seq<char>, from: int, to: int) -> Seq<char> {
    decode_utf8(encode_utf8(text).subrange(from, to))
}

/// The first character twice.
pub open spec fn doubled(run: Seq<char>) -> Seq<char> {
    if run.len() == 0 {
        Seq::empty()
    } else {
        seq![run[0], run[0]]
    }
}

/// Where the first `n` spans end.
pub open spec fn spans_end(spans: Seq<(usize, usize)>, n: int) -> int {
    if n <= 0 {
        0
    } else {
        spans[n - 1].1 as int
    }
}

/// The text up to the end of span `n`, with the first character of each span twice in place of
/// the span.
pub open spec fn collapsed_upto(text: Seq<char>, spans: Seq<(usize, usize)>, n: int) -> Seq<char>
    decreases n,
{
    if n <= 0 {
        Seq::empty()
    } else {
        collapsed_upto(text, spans, n - 1) + slice(
            text,
            spans_end(spans, n - 1),
            spans[n - 1].0 as int,
        ) + doubled(slice(text, spans[n - 1].0 as int, spans[n - 1].1 as int))
    }
}

/// The text with the first character of each span twice in place of the span.
pub open spec fn collapsed(text: Seq<char>, spans: Seq<(usize, usize)>) -> Seq<char> {
    let n = spans.len() as int;
    collapsed_upto(text, spans, n) + slice(text, spans_end(spans, n), byte_len(text) as int)
}

/// Cuts out the text between two byte positions.
fn cut(s: &str, from: usize, to: usize) -> (r: &str)
    requires
        from <= to <= byte_len(s@),
        is_char_boundary(encode_utf8(s@), from as int),
        is_char_boundary(encode_utf8(s@), to as int),
    ensures
        r@ == slice(s@, from as int, to as int),
{
    let ghost bytes = encode_utf8(s@);
    proof {
        encode_utf8_valid_utf8(s@);
    }
    let (head, _tail) = s.split_at(to);
    proof {
        let front = bytes.subrange(0, to as int);
        valid_utf8_split(bytes, to as int);
        if from < to {
            assert(front[from as int] == bytes[from as int]);
            is_char_boundary_iff_not_is_continuation_byte(bytes, from as int);
            is_char_boundary_iff_not_is_continuation_byte(front, from as int);
        } else {
            is_char_boundary_start_end_of_seq(front);
        }
    }
    let (_front, mid) = head.split_at(from);
    proof {
        encode_utf8_decode_utf8(mid@);
        assert(bytes.subrange(0, to as int).subrange(from as int, to as int) == bytes.subrange(
            from as int,
            to as int,
        ));
    }
    mid
}

/// Puts the first character of each span twice in place of the span.
pub fn collapse_runs(text: &str, spans: &Vec<(usize, usize)>) -> (r: String)
    requires
        spans_valid(text@, spans@),
    ensures
        r@ == collapsed(text@, spans@),
{
    let len: usize = text.as_bytes().len();
    proof {
        encode_utf8_valid_utf8(text@);
        is_char_boundary_start_end_of_seq(encode_utf8(text@));
    }
    let mut out: String = String::new();
    let mut last: usize = 0;
    for i in 0..spans.len()
        invariant
            spans_valid(text@, spans@),
            last == spans_end(spans@, i as int),
            last <= byte_len(text@),
            is_char_boundary(encode_utf8(text@), last as int),
            out@ == collapsed_upto(text@, spans@, i as int),
    {
        let (start, end) = spans[i];
        assert(spans@[i as int].0 <= spans@[i as int].1 <= byte_len(text@));
        assert(last <= start);
        out.append(cut(text, last, start));
        let run = chars_of(cut(text, start, end));
        if run.len() > 0 {
            let ghost before = out@;
            out.push(run[0]);
            out.push(run[0]);
            assert(out@ == before + doubled(run@));
        } else {
            assert(out@ == out@ + doubled(run@));
        }
        last = end;
    }
    out.append(cut(text, last, len));
    out
}

/// Whether some character of a word is alphabetic.
pub open spec fn has_letter(word: Seq<char>) -> bool {
    exists|i: int| 0 <= i < word.len() && alphabetic(#[trigger] word[i])
}

/// The words of a text that have a letter, with one blank between each two. The text is trimmed
/// and, if asked for, put in lower case first.
pub open spec fn cleaned(lowercase: bool, text: Seq<char>) -> Seq<char> {
    let plain = if lowercase {
        lowercased(trimmed(text))
    } else {
        trimmed(text)
    };
    joined(words(plain).filter(|w: Seq<char>| has_letter(w)), seq![' '])
}

/// The text cut to `max_chars` characters; zero means that it is not cut.
pub open spec fn cut_to(text: Seq<char>, max_chars: nat) -> Seq<char> {
    if max_chars > 0 && text.len() > max_chars {
        text.take(max_chars as int)
    } else {
        text
    }
}

/// What is left of a text whose noise was stripped: nothing if too little, else the prefix and the
/// cleaned and cut text.
pub open spec fn finished(config: NormalizerConfig, text: Seq<char>) -> Option<Seq<char>> {
    let body = cut_to(cleaned(config.lowercase, text), config.max_chars as nat);
    if byte_len(body) < config.min_chars {
        None
    } else {
        Some(config.prefix@ + body)
    }
}

/// A text with the matches of a pattern replaced.
pub open spec fn swept(pattern: Seq<char>, text: Seq<char>, rep: Seq<char>) -> Seq<char> {
    let re = compiled(pattern);
    if matched(re, text) {
        replaced(re, text, rep)
    } else {
        text
    }
}

/// A text without links, addresses, hashes, paths, versions, references, names and long numbers,
/// removed in this order. Of a link its text stays.
pub open spec fn without_noise(text: Seq<char>) -> Seq<char> {
    let s = swept(MARKDOWN_LINK@, text, "$1"@);
    let s = swept(URL@, s, ""@);
    let s = swept(EMAIL@, s, ""@);
    let s = swept(HEX_HASH@, s, ""@);
    let s = swept(HEX_PREFIX@, s, ""@);
    let s = swept(FILE_PATH@, s, ""@);
    let s = swept(VERSION@, s, ""@);
    let s = swept(ISSUE_REF@, s, ""@);
    let s = swept(REDDIT_USER@, s, ""@);
    let s = swept(REDDIT_SUB@, s, ""@);
    swept(NUMBER@, s, ""@)
}

/// A text with runs of the same punctuation mark cut to two, and runs of white space to a blank.
pub open spec fn without_runs(text: Seq<char>) -> Seq<char> {
    let re = compiled(REPEATED_PUNCT@);
    let s = if matched(re, text) {
        collapsed(text, match_spans(re, text))
    } else {
        text
    };
    swept(WHITESPACE@, s, " "@)
}

/// What normalization makes of a text.
pub open spec fn normalized(config: NormalizerConfig, text: Seq<char>) -> Option<Seq<char>> {
    finished(config, without_runs(without_noise(text)))
}

/// Whether two configurations say the same.
pub open spec fn same_settings(a: NormalizerConfig, b: NormalizerConfig) -> bool {
    &&& a.lowercase == b.lowercase
    &&& a.max_chars == b.max_chars
    &&& a.min_chars == b.min_chars
    &&& a.prefix@ == b.prefix@
}

/// Configurations that say the same make the same of every text.
pub proof fn same_settings_normalize_alike(
    a: NormalizerConfig,
    b: NormalizerConfig,
    text: Seq<char>,
)
    requires
        same_settings(a, b),
    ensures
        normalized(a, text) == normalized(b, text),
{
}

/// Whether a text is the one that was expected, if one was.
pub open spec fn is_text(r: Option<String>, expected: Option<Seq<char>>) -> bool {
    match (r, expected) {
        (Some(s), Some(e)) => s@ == e,
        (None, None) => true,
        _ => false,
    }
}

fn contains_letter(word: &str) -> (r: bool)
    ensures
        r == has_letter(word@),
{
    let chars = chars_of(word);
    for i in 0..chars.len()
        invariant
            chars@ == word@,
            forall|j: int| 0 <= j < i ==> !alphabetic(#[trigger] word@[j]),
    {
        if chars[i].is_alphabetic() {
            assert(alphabetic(word@[i as int]));
            return true;
        }
    }
    false
}

/// The words of a text that have a letter, with one blank between each two.
fn keep_words(text: &str) -> (r: String)
    ensures
        r@ == joined(words(text@).filter(|w: Seq<char>| has_letter(w)), seq![' ']),
{
    let all = split_whitespace(text);
    let mut kept: Vec<String> = Vec::new();
    let ghost keep = |w: Seq<char>| has_letter(w);
    for i in 0..all.len()
        invariant
            keep == (|w: Seq<char>| has_letter(w)),
            texts(kept@) == texts(all@).take(i as int).filter(keep),
    {
        let ghost kept0 = kept@;
        assert(texts(all@).take(i + 1).drop_last() == texts(all@).take(i as int));
        reveal(Seq::filter);
        if contains_letter(all[i].as_str()) {
            kept.push(all[i].clone());
            assert(texts(kept@) == texts(kept0).push(all@[i as int]@));
        }
    }
    assert(texts(all@).take(all@.len() as int) == texts(all@));
    proof {
        reveal_strlit(" ");
        assert(" "@ == seq![' ']);
    }
    join(&kept, " ")
}

/// Cuts a text to `max_chars` characters; zero means that it is not cut.
fn cut_chars(text: String, max_chars: usize) -> (r: String)
    ensures
        r@ == cut_to(text@, max_chars as nat),
{
    if max_chars == 0 {
        return text;
    }
    let chars = chars_of(text.as_str());
    if chars.len() > max_chars {
        string_of(&chars, 0, max_chars)
    } else {
        text
    }
}

/// Trims and cleans a text whose noise was stripped, cuts it, and puts the prefix before it.
/// Returns nothing if the text is too short.
pub fn finish_text(config: &NormalizerConfig, text: &str) -> (r: Option<String>)
    ensures
        is_text(r, finished(*config, text@)),
{
    let plain = trim(text);
    let plain = if config.lowercase {
        to_lowercase(plain.as_str())
    } else {
        plain
    };
    let clean = keep_words(plain.as_str());
    let body = cut_chars(clean, config.max_chars);
    if body.as_str().as_bytes().len() < config.min_chars {
        return None;
    }
    let mut out: String = config.prefix.clone();
    out.append(body.as_str());
    Some(out)
}

/// Text normalizer with its patterns compiled.
pub struct Normalizer {
    config: NormalizerConfig,
    re_markdown_link: Regex,
    re_url: Regex,
    re_email: Regex,
    re_hex_hash: Regex,
    re_hex_prefix: Regex,
    re_number: Regex,
    re_version: Regex,
    re_issue_ref: Regex,
    re_reddit_user: Regex,
    re_reddit_sub: Regex,
    re_file_path: Regex,
    re_repeated_punct: Regex,
    re_whitespace: Regex,
}

impl Clone for Normalizer {
    fn clone(&self) -> (r: Self)
        ensures
            r.settings() == self.settings(),
    {
        proof {
            use_type_invariant(self);
        }
        Normalizer {
            config: self.config.clone(),
            re_markdown_link: self.re_markdown_link.clone(),
            re_url: self.re_url.clone(),
            re_email: self.re_email.clone(),
            re_hex_hash: self.re_hex_hash.clone(),
            re_hex_prefix: self.re_hex_prefix.clone(),
            re_number: self.re_number.clone(),
            re_version: self.re_version.clone(),
            re_issue_ref: self.re_issue_ref.clone(),
            re_reddit_user: self.re_reddit_user.clone(),
            re_reddit_sub: self.re_reddit_sub.clone(),
            re_file_path: self.re_file_path.clone(),
            re_repeated_punct: self.re_repeated_punct.clone(),
            re_whitespace: self.re_whitespace.clone(),
        }
    }
}

/// Replaces the matches of a pattern.
fn sweep(re: &Regex, s: String, rep: &str) -> (r: String)
    ensures
        forall|pattern: Seq<char>|
            *re == compiled(pattern) ==> r@ == #[trigger] swept(pattern, s@, rep@),
{
    if is_match(re, s.as_str()) {
        replace_all(re, s.as_str(), rep)
    } else {
        s
    }
}

impl Normalizer {
    #[verifier::type_invariant]
    spec fn well_formed(self) -> bool {
        &&& self.re_markdown_link == compiled(MARKDOWN_LINK@)
        &&& self.re_url == compiled(URL@)
        &&& self.re_email == compiled(EMAIL@)
        &&& self.re_hex_hash == compiled(HEX_HASH@)
        &&& self.re_hex_prefix == compiled(HEX_PREFIX@)
        &&& self.re_number == compiled(NUMBER@)
        &&& self.re_version == compiled(VERSION@)
        &&& self.re_issue_ref == compiled(ISSUE_REF@)
        &&& self.re_reddit_user == compiled(REDDIT_USER@)
        &&& self.re_reddit_sub == compiled(REDDIT_SUB@)
        &&& self.re_file_path == compiled(FILE_PATH@)
        &&& self.re_repeated_punct == compiled(REPEATED_PUNCT@)
        &&& self.re_whitespace == compiled(WHITESPACE@)
    }

    /// The configuration.
    pub closed spec fn settings(self) -> NormalizerConfig {
        self.config
    }

    /// Compiles the patterns.
    pub fn new(config: NormalizerConfig) -> (r: Self)
        ensures
            r.settings() == config,
    {
        Normalizer {
            config,
            re_markdown_link: compile(MARKDOWN_LINK),
            re_url: compile(URL),
            re_email: compile(EMAIL),
            re_hex_hash: compile(HEX_HASH),
            re_hex_prefix: compile(HEX_PREFIX),
            re_number: compile(NUMBER),
            re_version: compile(VERSION),
            re_issue_ref: compile(ISSUE_REF),
            re_reddit_user: compile(REDDIT_USER),
            re_reddit_sub: compile(REDDIT_SUB),
            re_file_path: compile(FILE_PATH),
            re_repeated_punct: compile(REPEATED_PUNCT),
            re_whitespace: compile(WHITESPACE),
        }
    }

    /// Normalizes a text. Returns nothing if it is too short after normalization.
    pub fn normalize(&self, text: &str) -> (r: Option<String>)
        ensures
            is_text(r, normalized(self.settings(), text@)),
    {
        proof {
            use_type_invariant(self);
        }
        // Links and addresses go first: what they hold would match other patterns.
        let s = sweep(&self.re_markdown_link, text.to_owned(), "$1");
        let s = sweep(&self.re_url, s, "");
        let s = sweep(&self.re_email, s, "");
        let s = sweep(&self.re_hex_hash, s, "");
        let s = sweep(&self.re_hex_prefix, s, "");
        let s = sweep(&self.re_file_path, s, "");
        let s = sweep(&self.re_version, s, "");
        let s = sweep(&self.re_issue_ref, s, "");
        let s = sweep(&self.re_reddit_user, s, "");
        let s = sweep(&self.re_reddit_sub, s, "");
        let s = sweep(&self.re_number, s, "");
        assert(s@ == without_noise(text@));
        let s = if is_match(&self.re_repeated_punct, s.as_str()) {
            let spans = find_spans(&self.re_repeated_punct, s.as_str());
            collapse_runs(s.as_str(), &spans)
        } else {
            s
        };
        let s = sweep(&self.re_whitespace, s, " ");
        finish_text(&self.config, s.as_str())
    }
}

/// The words of a cleaned text are the words of the text that have a letter, in their order.
pub proof fn cleaned_words_have_letters(lowercase: bool, text: Seq<char>)
    ensures
        ({
            let plain = if lowercase {
                lowercased(trimmed(text))
            } else {
                trimmed(text)
            };
            words(cleaned(lowercase, text)) == words(plain).filter(|w: Seq<char>| has_letter(w))
        }),
        forall|i: int|
            0 <= i < words(cleaned(lowercase, text)).len() ==> has_letter(
                #[trigger] words(cleaned(lowercase, text))[i],
            ),
{
    let plain = if lowercase {
        lowercased(trimmed(text))
    } else {
        trimmed(text)
    };
    let keep = |w: Seq<char>| has_letter(w);
    let kept = words(plain).filter(keep);
    words_are_solid(plain);
    kept_is_in(words(plain), keep);
    assert forall|i: int| 0 <= i < kept.len() implies is_solid(#[trigger] kept[i])
        && kept[i].len() > 0 by {
        assert(words(plain).contains(kept[i]));
    }
    joined_words_split(kept);
    assert forall|i: int| 0 <= i < kept.len() implies has_letter(#[trigger] kept[i]) by {
        assert(keep(kept[i]));
    }
}

/// A normalized text is the prefix followed by a start of the cleaned text that is neither shorter
/// than `min_chars` bytes nor, unless `max_chars` is zero, longer than `max_chars` characters. A
/// cleaned text that is not longer is kept whole.
pub proof fn normalized_text_is_in_bounds(config: NormalizerConfig, text: Seq<char>)
    ensures
        finished(config, text) matches Some(out) ==> {
            let body = out.skip(config.prefix@.len() as int);
            &&& config.prefix@.is_prefix_of(out)
            &&& body.is_prefix_of(cleaned(config.lowercase, text))
            &&& byte_len(body) >= config.min_chars
            &&& config.max_chars > 0 ==> body.len() <= config.max_chars
            &&& cleaned(config.lowercase, text).len() <= config.max_chars ==> body == cleaned(
                config.lowercase,
                text,
            )
        },
{
    let clean = cleaned(config.lowercase, text);
    let body = cut_to(clean, config.max_chars as nat);
    let out = config.prefix@ + body;
    assert(out.skip(config.prefix@.len() as int) == body);
}

// Laws.

/// A text is as expected if and only if both are there and hold the same characters, or neither is.
pub proof fn expected_text_is_the_same(r: Option<String>, expected: Option<Seq<char>>)
    ensures
        is_text(r, expected) <==> match r {
            Some(s) => expected == Some(s@),
            None => expected is None,
        },
{
}

/// The limit, the least length and the prefix come last: whatever the configuration, the normalized
/// text is made of what is left of the text without any of them. Of this the first `max_chars`
/// characters are kept, or all of it if there are not more or the limit is zero. It is dropped if
/// what is kept takes fewer bytes than `min_chars`, and else stands behind the prefix.
pub proof fn limits_count_what_is_left(
    config: NormalizerConfig,
    free: NormalizerConfig,
    text: Seq<char>,
)
    requires
        free.lowercase == config.lowercase,
        free.max_chars == 0,
        free.min_chars == 0,
        free.prefix@.len() == 0,
    ensures
        normalized(free, text) matches Some(whole) && ({
            let kept = if config.max_chars > 0 && whole.len() > config.max_chars {
                whole.take(config.max_chars as int)
            } else {
                whole
            };
            normalized(config, text) == if encode_utf8(kept).len() < config.min_chars {
                None
            } else {
                Some(config.prefix@ + kept)
            }
        }),
{
    let whole = normalized(free, text).unwrap();
    let body = cleaned(config.lowercase, without_runs(without_noise(text)));
    assert(free.prefix@ + body =~= body);
}

/// Configurations that differ only in the limit: where the text normalized without a limit has no
/// more characters than the limit allows, the limit changes nothing, and else the body is the first
/// characters of the body without a limit.
pub proof fn limit_cuts_only_what_is_too_long(
    config: NormalizerConfig,
    unlimited: NormalizerConfig,
    text: Seq<char>,
)
    requires
        unlimited.lowercase == config.lowercase,
        unlimited.max_chars == 0,
        unlimited.min_chars == config.min_chars,
        unlimited.prefix@ == config.prefix@,
        config.max_chars > 0,
    ensures
        normalized(unlimited, text) matches Some(all) ==> {
            let body = all.skip(config.prefix@.len() as int);
            &&& body.len() <= config.max_chars ==> normalized(config, text) == Some(all)
            &&& body.len() > config.max_chars ==> (normalized(config, text) matches Some(out)
                ==> out == config.prefix@ + body.take(config.max_chars as int))
        },
        normalized(config, text) matches Some(out) ==> (normalized(unlimited, text) matches Some(
            all,
        ) ==> out.is_prefix_of(all)),
{
    let body = cleaned(config.lowercase, without_runs(without_noise(text)));
    assert((config.prefix@ + body).skip(config.prefix@.len() as int) =~= body);
}

/// Noise of one kind is taken out, and nothing else: if a text holds just noise of kind `k`, of the
/// eleven kinds in their order, and none of it is left or comes about when it is gone, then exactly
/// its matches are replaced, by the link's text for a link and else by nothing.
pub proof fn each_kind_of_noise_is_taken_out(text: Seq<char>, k: int)
    requires
        0 <= k < 11,
    ensures
        ({
            let kinds = seq![
            r"\[([^\]]*)\]\([^)]*\)"@,
                r"(?i)\[?https?://\S+\]?"@,
                r"\S+@\S+\.\S+"@,
                r"(?-u:\b)[0-9a-fA-F]{32,}(?-u:\b)"@,
                r"0x[0-9a-fA-F]+"@,
                r"(?:/[\w.\-]+){2,}"@,
                r"(?-u:\b)v?\d+\.\d+(?:\.\d+)+(?-u:\b)"@,
                r"#\d+"@,
                r"/?u/\S+"@,
                r"/?r/\S+"@,
                r"(?-u:\b)\d{6,}(?-u:\b)"@,
            ];
            let rep = if k == 0 {
                "$1"@
            } else {
                ""@
            };
            let left = replaced(compiled(kinds[k]), text, rep);
            &&& matched(compiled(kinds[k]), text) && (forall|j: int|
                0 <= j < k ==> !matched(compiled(#[trigger] kinds[j]), text)) && (forall|j: int|
                k < j < 11 ==> !matched(compiled(#[trigger] kinds[j]), left)) ==> without_noise(text)
                == left
            &&& (forall|j: int| 0 <= j < 11 ==> !matched(compiled(#[trigger] kinds[j]), text))
                ==> without_noise(text) == text
        }),
{
    let kinds = seq![
            r"\[([^\]]*)\]\([^)]*\)"@,
        r"(?i)\[?https?://\S+\]?"@,
        r"\S+@\S+\.\S+"@,
        r"(?-u:\b)[0-9a-fA-F]{32,}(?-u:\b)"@,
        r"0x[0-9a-fA-F]+"@,
        r"(?:/[\w.\-]+){2,}"@,
        r"(?-u:\b)v?\d+\.\d+(?:\.\d+)+(?-u:\b)"@,
        r"#\d+"@,
        r"/?u/\S+"@,
        r"/?r/\S+"@,
        r"(?-u:\b)\d{6,}(?-u:\b)"@,
    ];
    let rep = if k == 0 {
        "$1"@
    } else {
        ""@
    };
    let left = replaced(compiled(kinds[k]), text, rep);
    assert(kinds[0] == MARKDOWN_LINK@ && kinds[1] == URL@ && kinds[2] == EMAIL@ && kinds[3]
        == HEX_HASH@ && kinds[4] == HEX_PREFIX@ && kinds[5] == FILE_PATH@ && kinds[6] == VERSION@
        && kinds[7] == ISSUE_REF@ && kinds[8] == REDDIT_USER@ && kinds[9] == REDDIT_SUB@
        && kinds[10] == NUMBER@);
}

/// Runs of white space become a blank each, and runs of punctuation are cut to two marks. A text
/// that has neither is left as it is.
pub proof fn only_runs_are_shortened(text: Seq<char>)
    ensures
        ({
            let marks = compiled(r"[!]{3,}|[?]{3,}|[.]{3,}|[,]{3,}|[:]{3,}|[;]{3,}"@);
            let white = compiled(r"\s+"@);
            let short = if matched(marks, text) {
                collapsed(text, match_spans(marks, text))
            } else {
                text
            };
            without_runs(text) == if matched(white, short) {
                replaced(white, short, " "@)
            } else {
                short
            }
        }),
{
    assert(r"[!]{3,}|[?]{3,}|[.]{3,}|[,]{3,}|[:]{3,}|[;]{3,}"@ == REPEATED_PUNCT@);
    assert(r"\s+"@ == WHITESPACE@);
}

proof fn slice_of_front(a: Seq<char>, b: Seq<char>, from: int, to: int)
    requires
        0 <= from <= to <= byte_len(a),
    ensures
        slice(a + b, from, to) == slice(a, from, to),
{
    encode_concat(a, b);
    assert(encode_utf8(a + b).subrange(from, to) =~= encode_utf8(a).subrange(from, to));
}

proof fn collapsed_in_front(
    a: Seq<char>,
    b: Seq<char>,
    spans: Seq<(usize, usize)>,
    more: Seq<(usize, usize)>,
    n: int,
)
    requires
        spans_valid(a, spans),
        0 <= n <= spans.len(),
    ensures
        collapsed_upto(a + b, spans + more, n) == collapsed_upto(a, spans, n),
        0 <= spans_end(spans, n) <= byte_len(a),
    decreases n,
{
    if n > 0 {
        collapsed_in_front(a, b, spans, more, n - 1);
        let i = n - 1;
        assert((spans + more)[i] == spans[i]);
        assert(spans[i].0 <= spans[i].1 <= byte_len(a));
        if i > 0 {
            assert(spans[i - 1].1 <= spans[i].0);
            assert((spans + more)[i - 1] == spans[i - 1]);
        }
        slice_of_front(a, b, spans_end(spans, i), spans[i].0 as int);
        slice_of_front(a, b, spans[i].0 as int, spans[i].1 as int);
    }
}

/// Collapsing goes run by run, from the left: whatever was collapsed in the text before a run, the
/// run becomes its first character twice, and what stands between and behind the runs is left as it
/// is.
pub proof fn runs_are_collapsed_one_by_one(
    a: Seq<char>,
    run: Seq<char>,
    b: Seq<char>,
    spans: Seq<(usize, usize)>,
    span: (usize, usize),
)
    requires
        run.len() > 0,
        spans_valid(a, spans),
        span.0 == encode_utf8(a).len(),
        span.1 == encode_utf8(a + run).len(),
    ensures
        collapsed(a + run + b, spans.push(span)) == collapsed(a, spans) + seq![run[0], run[0]] + b,
        collapsed(b, Seq::empty()) == b,
{
    let text = a + run + b;
    let n = spans.len() as int;
    let all = spans.push(span);
    assert(text =~= a + (run + b));
    assert(all =~= spans + seq![span]);
    collapsed_in_front(a, run + b, spans, seq![span], n);
    encode_concat(a, run);
    encode_concat(a + run, b);
    let bytes = encode_utf8(text);
    let end = spans_end(spans, n);
    slice_of_front(a, run + b, end, span.0 as int);
    assert(bytes.subrange(span.0 as int, span.1 as int) =~= encode_utf8(run));
    assert(bytes.subrange(span.1 as int, bytes.len() as int) =~= encode_utf8(b));
    encode_utf8_decode_utf8(run);
    encode_utf8_decode_utf8(b);
    assert(spans_end(all, n) == end) by {
        if n > 0 {
            assert(all[n - 1] == spans[n - 1]);
        }
    }
    assert(collapsed(text, all) =~= collapsed(a, spans) + seq![run[0], run[0]] + b);
    let none = Seq::<(usize, usize)>::empty();
    assert(encode_utf8(b).subrange(0, byte_len(b) as int) =~= encode_utf8(b));
    assert(collapsed(b, none) =~= b);
}

proof fn words_of_trimmed(s: Seq<char>)
    ensures
        words(trimmed(s)) == words(s),
{
    trimming_takes_only_white_space(s);
    let (i, j) = choose|i: int, j: int|
        0 <= i <= j <= s.len() && trimmed(s) == #[trigger] s.subrange(i, j) && (forall|k: int|
            0 <= k < i || j <= k < s.len() ==> is_white(#[trigger] s[k]));
    let a = s.take(i);
    let m = s.subrange(i, j);
    let b = s.skip(j);
    white_has_no_words(a);
    white_has_no_words(b);
    white_in_front(a, m);
    white_behind(a + m, b);
    assert(s =~= a + m + b);
}

proof fn white_has_no_words(a: Seq<char>)
    requires
        forall|k: int| 0 <= k < a.len() ==> is_white(#[trigger] a[k]),
    ensures
        words(a).len() == 0,
    decreases a.len(),
{
    if a.len() > 0 {
        let front = a.drop_last();
        assert forall|k: int| 0 <= k < front.len() implies is_white(#[trigger] front[k]) by {
            assert(front[k] == a[k]);
        }
        white_has_no_words(front);
        assert(is_white(a[a.len() - 1]));
        words_lie_between_white_space(front, a.last(), Seq::empty());
        words_lie_between_white_space(Seq::empty(), a.last(), Seq::empty());
        assert(a =~= front + seq![a.last()] + Seq::empty());
    } else {
        words_lie_between_white_space(a, ' ', a);
    }
}

proof fn white_in_front(a: Seq<char>, m: Seq<char>)
    requires
        forall|k: int| 0 <= k < a.len() ==> is_white(#[trigger] a[k]),
    ensures
        words(a + m) == words(m),
    decreases a.len(),
{
    if a.len() > 0 {
        let front = a.drop_last();
        assert forall|k: int| 0 <= k < front.len() implies is_white(#[trigger] front[k]) by {
            assert(front[k] == a[k]);
        }
        white_has_no_words(front);
        assert(is_white(a[a.len() - 1]));
        words_lie_between_white_space(front, a.last(), m);
        assert(a + m =~= front + seq![a.last()] + m);
        assert(words(front) + words(m) =~= words(m));
    } else {
        assert(a + m =~= m);
    }
}

proof fn white_behind(m: Seq<char>, b: Seq<char>)
    requires
        forall|k: int| 0 <= k < b.len() ==> is_white(#[trigger] b[k]),
    ensures
        words(m + b) == words(m),
{
    if b.len() > 0 {
        let rest = b.drop_first();
        assert forall|k: int| 0 <= k < rest.len() implies is_white(#[trigger] rest[k]) by {
            assert(rest[k] == b[k + 1]);
        }
        white_has_no_words(rest);
        assert(is_white(b[0]));
        words_lie_between_white_space(m, b[0], rest);
        assert(m + b =~= m + seq![b[0]] + rest);
        assert(words(m) + words(rest) =~= words(m));
    } else {
        assert(m + b =~= m);
    }
}

/// Cleaning keeps every word that has a letter, as it is and in its place, and no other, with one
/// blank between each two. In lower case it does so with the text in lower case.
pub proof fn cleaning_keeps_every_word_with_a_letter(lowercase: bool, text: Seq<char>)
    ensures
        ({
            let plain = if lowercase {
                lowercased(trimmed(text))
            } else {
                text
            };
            let kept = words(plain).filter(
                |w: Seq<char>| exists|i: int| 0 <= i < w.len() && alphabetic(#[trigger] w[i]),
            );
            &&& words(cleaned(lowercase, text)) == kept
            &&& cleaned(lowercase, text) == joined(kept, seq![' '])
        }),
{
    let plain = if lowercase {
        lowercased(trimmed(text))
    } else {
        trimmed(text)
    };
    cleaned_words_have_letters(lowercase, text);
    words_of_trimmed(text);
    let with_letter = |w: Seq<char>| exists|i: int| 0 <= i < w.len() && alphabetic(#[trigger] w[i]);
    let keep = |w: Seq<char>| has_letter(w);
    assert forall|w: Seq<char>| #[trigger] keep(w) == with_letter(w) by {}
    same_filter(words(plain), keep, with_letter);
}

proof fn same_filter(
    ws: Seq<Seq<char>>,
    f: spec_fn(Seq<char>) -> bool,
    g: spec_fn(Seq<char>) -> bool,
)
    requires
        forall|w: Seq<char>| #[trigger] f(w) == g(w),
    ensures
        ws.filter(f) == ws.filter(g),
    decreases ws.len(),
{
    reveal(Seq::filter);
    if ws.len() > 0 {
        same_filter(ws.drop_last(), f, g);
        assert(f(ws.last()) == g(ws.last()));
    }
}

/// Normalizing a text is stripping its noise, shortening its runs and cleaning it, in this order:
/// without limits and prefix the words of the outcome are the words with a letter of what stripping
/// and shortening leave.
pub proof fn normalizing_strips_then_cleans(free: NormalizerConfig, text: Seq<char>)
    requires
        free.max_chars == 0,
        free.min_chars == 0,
        free.prefix@.len() == 0,
    ensures
        normalized(free, text) matches Some(out) && out == cleaned(
            free.lowercase,
            without_runs(without_noise(text)),
        ),
{
    let body = cleaned(free.lowercase, without_runs(without_noise(text)));
    assert(free.prefix@ + body =~= body);
}

/// Noise is taken out kind by kind: what each kind leaves goes on to the next, and the last leaves
/// the text without noise. A kind that is not there leaves the text as it was.
pub proof fn noise_is_taken_out_kind_by_kind(text: Seq<char>, stages: Seq<Seq<char>>)
    requires
        stages.len() == 12,
        stages[0] == text,
        ({
            let kinds = seq![
                r"\[([^\]]*)\]\([^)]*\)"@,
                r"(?i)\[?https?://\S+\]?"@,
                r"\S+@\S+\.\S+"@,
                r"(?-u:\b)[0-9a-fA-F]{32,}(?-u:\b)"@,
                r"0x[0-9a-fA-F]+"@,
                r"(?:/[\w.\-]+){2,}"@,
                r"(?-u:\b)v?\d+\.\d+(?:\.\d+)+(?-u:\b)"@,
                r"#\d+"@,
                r"/?u/\S+"@,
                r"/?r/\S+"@,
                r"(?-u:\b)\d{6,}(?-u:\b)"@,
            ];
            forall|k: int|
                0 <= k < 11 ==> {
                    let re = compiled(#[trigger] kinds[k]);
                    stages[k + 1] == if matched(re, stages[k]) {
                        replaced(
                            re,
                            stages[k],
                            if k == 0 {
                                "$1"@
                            } else {
                                ""@
                            },
                        )
                    } else {
                        stages[k]
                    }
                }
        }),
    ensures
        without_noise(text) == stages[11],
{
    let kinds = seq![
        r"\[([^\]]*)\]\([^)]*\)"@,
        r"(?i)\[?https?://\S+\]?"@,
        r"\S+@\S+\.\S+"@,
        r"(?-u:\b)[0-9a-fA-F]{32,}(?-u:\b)"@,
        r"0x[0-9a-fA-F]+"@,
        r"(?:/[\w.\-]+){2,}"@,
        r"(?-u:\b)v?\d+\.\d+(?:\.\d+)+(?-u:\b)"@,
        r"#\d+"@,
        r"/?u/\S+"@,
        r"/?r/\S+"@,
        r"(?-u:\b)\d{6,}(?-u:\b)"@,
    ];
    assert(kinds[0] == MARKDOWN_LINK@ && kinds[1] == URL@ && kinds[2] == EMAIL@);
    assert(kinds[3] == HEX_HASH@ && kinds[4] == HEX_PREFIX@ && kinds[5] == FILE_PATH@);
    assert(kinds[6] == VERSION@ && kinds[7] == ISSUE_REF@ && kinds[8] == REDDIT_USER@);
    assert(kinds[9] == REDDIT_SUB@ && kinds[10] == NUMBER@);
    assert(stages[1] == swept(MARKDOWN_LINK@, stages[0], "$1"@));
    assert(stages[2] == swept(URL@, stages[1], ""@));
    assert(stages[3] == swept(EMAIL@, stages[2], ""@));
    assert(stages[4] == swept(HEX_HASH@, stages[3], ""@));
    assert(stages[5] == swept(HEX_PREFIX@, stages[4], ""@));
    assert(stages[6] == swept(FILE_PATH@, stages[5], ""@));
    assert(stages[7] == swept(VERSION@, stages[6], ""@));
    assert(stages[8] == swept(ISSUE_REF@, stages[7], ""@));
    assert(stages[9] == swept(REDDIT_USER@, stages[8], ""@));
    assert(stages[10] == swept(REDDIT_SUB@, stages[9], ""@));
    assert(stages[11] == swept(NUMBER@, stages[10], ""@));
}

}
