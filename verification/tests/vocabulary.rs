use std::str::FromStr;
use std::sync::Arc;

use ignite_ms::cache::{load, load_raw, save, VocabCache, CACHE_VERSION};
use ignite_ms::charsmap::{check_map, decode};
use ignite_ms::components::{BLANKS, BYTE_LEVEL_WORDS, PLAIN_WORDS, WHITE_SPACE};
use ignite_ms::engine::{
    choose_hidden_dim, detect_gpu_count, detect_hidden_dim, found_tokenizer, found_vocab_cache,
    prepare_tokenizer, resolve_gpus,
};
use ignite_ms::tokenize::{can_encode, draws_at_random, CachedTokenizer, LEARNED_WORD_MAX};
use ignite_ms::{Config, Engine, Error};
use tokenizers::normalizers::NormalizerWrapper;
use tokenizers::Tokenizer;

fn tokenizer_with(post_processor: &str) -> Tokenizer {
    let json = format!(
        "{}{}{}",
        r#"{"version":"1.0","truncation":null,"padding":{"strategy":{"Fixed":8},"direction":"Right","pad_to_multiple_of":null,"pad_id":0,"pad_type_id":0,"pad_token":"<pad>"},"added_tokens":[],"normalizer":null,"pre_tokenizer":{"type":"WhitespaceSplit"},"post_processor":"#,
        post_processor,
        r#","decoder":null,"model":{"type":"WordLevel","vocab":{"<s>":10,"</s>":12,"<unk>":3,"▁known":20,"▁other":21},"unk_token":"<unk>"}}"#
    );
    Tokenizer::from_str(&json).unwrap()
}

fn tokenizer() -> Tokenizer {
    prepare_tokenizer(tokenizer_with("null"), 16).unwrap()
}

fn cache_bytes() -> Vec<u8> {
    let mut cache = VocabCache::new();
    cache.insert("▁hello".to_string(), vec![7, 8]);
    cache.insert("▁world".to_string(), vec![9]);
    save(&cache)
}

#[test]
fn saved_cache_loads() {
    let bytes = cache_bytes();
    assert_eq!(&bytes[..8], b"IMSVCACH");
    assert_eq!(bytes[8..12], CACHE_VERSION.to_le_bytes());
    assert_eq!(bytes[12..20], 2u64.to_le_bytes());
    let cache = load(&bytes).unwrap();
    assert_eq!(cache.len(), 2);
    assert_eq!(cache.get("▁hello"), Some(vec![7, 8]));
    assert_eq!(cache.get("▁world"), Some(vec![9]));
    assert_eq!(cache.get("hello"), None);
}

#[test]
fn later_entry_of_a_word_wins() {
    let mut cache = VocabCache::new();
    cache.insert("a".to_string(), vec![1]);
    cache.insert("a".to_string(), vec![2, 3]);
    assert_eq!(cache.len(), 1);
    assert_eq!(load_raw(&save(&cache)).ok().unwrap().get("a"), Some(vec![2, 3]));
}

#[test]
fn empty_cache_loads() {
    assert_eq!(load(&save(&VocabCache::new())).unwrap().len(), 0);
}

#[test]
fn damaged_caches_are_refused() {
    let bytes = cache_bytes();
    let err = |b: &[u8]| load(b).err().unwrap();
    assert_eq!(err(&bytes[..4]), "read magic: failed to fill whole buffer");
    let mut bad = bytes.clone();
    bad[0] = b'X';
    assert_eq!(err(&bad), "invalid cache file magic bytes");
    assert_eq!(err(&bytes[..10]), "read version: failed to fill whole buffer");
    let mut bad = bytes.clone();
    bad[8] = 2;
    assert_eq!(err(&bad), "unsupported cache version: 2 (expected 1)");
    assert_eq!(err(&bytes[..15]), "read count: failed to fill whole buffer");
    assert_eq!(err(&bytes[..22]), "read key_len: failed to fill whole buffer");
    assert_eq!(err(&bytes[..26]), "read key: failed to fill whole buffer");
    assert_eq!(err(&bytes[..33]), "read num_ids: failed to fill whole buffer");
    assert_eq!(err(&bytes[..38]), "read id: failed to fill whole buffer");
    let mut bad = bytes.clone();
    bad[24] = 0xff;
    let expected = String::from_utf8(bad[24..32].to_vec()).unwrap_err().to_string();
    assert_eq!(err(&bad), format!("utf8 key: {}", expected));
}

#[test]
fn known_words_are_looked_up() {
    let cache = load(&cache_bytes()).unwrap();
    let mut t = CachedTokenizer::new(Arc::new(tokenizer()), 10, cache);
    let m = t.tokenize_one("hello world");
    assert_eq!(m.ids, vec![10, 7, 8, 9, 12]);
    assert_eq!(m.len, 5);
    assert_eq!(t.counters(), (2, 0, 0));
    assert_eq!(t.runtime_cache_size(), 0);
}

#[test]
fn unknown_words_are_encoded_and_learned() {
    let mut t = CachedTokenizer::new(Arc::new(tokenizer()), 10, Arc::new(VocabCache::new()));
    let m = t.tokenize_one("known strange known");
    assert_eq!(m.ids, vec![10, 20, 3, 20, 12]);
    assert_eq!(t.counters(), (1, 2, 1));
    assert_eq!(t.hit_share(), Some((1, 3)));
    assert_eq!(t.runtime_cache_size(), 2);
    assert_eq!(t.lookup_word("strange"), vec![3]);
    assert_eq!(t.counters(), (2, 2, 2));
}

#[test]
fn learning_changes_no_ids() {
    let texts = ["known other", "other strange known", "odd known other odd known other"];
    let fresh = |text: &str| {
        let cache = Arc::new(VocabCache::new());
        CachedTokenizer::new(Arc::new(tokenizer()), 6, cache).tokenize_one(text).ids
    };
    let mut used =
        CachedTokenizer::new(Arc::new(tokenizer()), 6, Arc::new(VocabCache::new()));
    for text in texts.iter().chain(texts.iter().rev()) {
        assert_eq!(used.tokenize_one(text).ids, fresh(text));
    }
    assert!(used.runtime_hits > 0);
}

#[test]
fn long_messages_are_cut_and_closed() {
    let cache = load(&cache_bytes()).unwrap();
    let mut t = CachedTokenizer::new(Arc::new(tokenizer()), 4, cache.clone());
    assert_eq!(t.tokenize_one("world hello world").ids, vec![10, 9, 7, 12]);
    assert_eq!(t.counters(), (2, 0, 0));
    let mut t = CachedTokenizer::new(Arc::new(tokenizer()), 1, cache);
    assert_eq!(t.tokenize_one("world").ids, vec![10, 12]);
}

#[test]
fn long_words_are_not_learned() {
    let mut t = CachedTokenizer::new(Arc::new(tokenizer()), 10, Arc::new(VocabCache::new()));
    let long = "x".repeat(LEARNED_WORD_MAX + 1);
    assert_eq!(t.record_miss(&long, Some(vec![1, 2])), vec![1, 2]);
    assert_eq!(t.runtime_cache_size(), 0);
    assert_eq!(t.record_miss(&long[1..], None), vec![3]);
    assert_eq!(t.runtime_cache_size(), 1);
    assert_eq!(t.counters(), (0, 2, 0));
}

#[test]
fn missing_special_tokens_have_default_ids() {
    let json = r#"{"version":"1.0","truncation":null,"padding":null,"added_tokens":[],"normalizer":null,"pre_tokenizer":null,"post_processor":null,"decoder":null,"model":{"type":"WordLevel","vocab":{"<unk>":3},"unk_token":"<unk>"}}"#;
    let tok = Tokenizer::from_str(json).unwrap();
    let mut t = CachedTokenizer::new(Arc::new(tok), 10, Arc::new(VocabCache::new()));
    assert_eq!(t.tokenize_one("").ids, vec![0, 2]);
    assert_eq!(t.hit_share(), None);
}

#[test]
fn prepared_tokenizer_truncates_and_does_not_pad() {
    let raw = tokenizer_with("null");
    assert_eq!(raw.encode("▁known", false).unwrap().get_ids().len(), 8);
    let tok = prepare_tokenizer(raw, 2).unwrap();
    assert_eq!(tok.encode("▁known", false).unwrap().get_ids(), &[20]);
    assert_eq!(tok.encode("▁known ▁other ▁known", false).unwrap().get_ids(), &[20, 21]);
}

#[test]
fn stride_must_leave_progress() {
    let mut tok = tokenizer();
    assert!(can_encode(&tok));
    tok.get_truncation_mut().unwrap().stride = 16;
    assert!(!can_encode(&tok));
    tok.get_truncation_mut().unwrap().max_length = 0;
    assert!(can_encode(&tok));
    let _ = tok.with_truncation(None);
    assert!(can_encode(&tok));
}

#[test]
fn engine_needs_room_for_added_tokens() {
    let post = r#"{"type":"BertProcessing","sep":["</s>",12],"cls":["<s>",10]}"#;
    let engine = |len: usize| {
        let config =
            Config { buckets: vec![len], batch_sizes: vec![4], ..Default::default() };
        let cache = Arc::new(VocabCache::new());
        Engine::new(config, 1024, vec![3], tokenizer_with(post), cache)
    };
    assert!(engine(1).ok().unwrap().is_none());
    let e = engine(2).ok().unwrap().unwrap();
    assert_eq!(e.config().batch_sizes, vec![64]);
    let bad = Config { truncation: 0, ..Default::default() };
    let cache = Arc::new(VocabCache::new());
    let r = Engine::new(bad, 384, Vec::new(), tokenizer(), cache);
    assert_eq!(r.err().unwrap().message(), "config: truncation must be > 0");
}

fn template(single: &str, pair: &str) -> String {
    format!(
        r#"{{"type":"TemplateProcessing","single":[{}],"pair":[{}],"special_tokens":{{}}}}"#,
        single, pair
    )
}

const A: &str = r#"{"Sequence":{"id":"A","type_id":0}}"#;
const B: &str = r#"{"Sequence":{"id":"B","type_id":0}}"#;

#[test]
fn post_processor_must_take_a_single_text() {
    let both = format!("{},{}", A, B);
    let sound = template(A, &both);
    let twice = template(&format!("{},{}", A, A), &both);
    let takes = |post: &str| {
        let tok = tokenizer_with(post);
        let can = can_encode(&tok);
        if can {
            assert!(tok.encode("▁known", false).is_ok());
        }
        can
    };
    assert!(takes("null"));
    assert!(takes(&sound));
    assert!(takes(&twice));
    assert!(!takes(&template(B, &both)));
    let sequence = |items: &[&str]| {
        format!(r#"{{"type":"Sequence","processors":[{}]}}"#, items.join(","))
    };
    let bytes =
        r#"{"type":"ByteLevel","add_prefix_space":true,"trim_offsets":true,"use_regex":true}"#;
    assert!(takes(&sequence(&[bytes, &sound])));
    assert!(takes(&sequence(&[&twice, &sound])));
    let three = template(A, &format!("{},{}", both, A));
    assert!(takes(&sequence(&[&twice, &three])));
    assert!(!takes(&sequence(&[&twice, &three, &sound])));
    assert!(takes(r#"{"type":"RobertaProcessing","sep":["</s>",12],"cls":["<s>",10],"trim_offsets":true,"add_prefix_space":true}"#));
}

fn base64(bytes: &[u8]) -> String {
    let digits: Vec<char> =
        ('A'..='Z').chain('a'..='z').chain('0'..='9').chain(['+', '/']).collect();
    let mut out = String::new();
    for chunk in bytes.chunks(3) {
        let b = [chunk[0], *chunk.get(1).unwrap_or(&0), *chunk.get(2).unwrap_or(&0)];
        let n = (b[0] as usize) << 16 | (b[1] as usize) << 8 | b[2] as usize;
        for k in 0..4 {
            out.push(if k <= chunk.len() { digits[n >> (18 - 6 * k) & 63] } else { '=' });
        }
    }
    out
}

/// A character map of one block of units, of which some are given, and its texts.
fn map(units: &[(usize, u32)], texts: &[u8]) -> Vec<u8> {
    let mut trie = vec![0u32; 256];
    for &(at, unit) in units {
        trie[at] = unit;
    }
    let mut out = 1024u32.to_le_bytes().to_vec();
    for unit in trie {
        out.extend(unit.to_le_bytes());
    }
    out.extend(texts);
    out
}

#[test]
fn base64_is_decoded() {
    assert_eq!(decode("TWFu"), Some(b"Man".to_vec()));
    assert_eq!(decode("TWE="), Some(b"Ma".to_vec()));
    assert_eq!(decode("TQ=="), Some(b"M".to_vec()));
    assert_eq!(decode("+/+/"), Some(vec![0xfb, 0xff, 0xbf]));
    assert_eq!(decode(""), Some(vec![]));
    assert_eq!(decode("T*=="), None);
    let all: Vec<u8> = (0..=255).collect();
    assert_eq!(decode(&base64(&all)), Some(all));
}

#[test]
fn character_map_must_not_lead_out_of_itself() {
    // The key "k" ends at its unit, whose value lies in the unit before it.
    let key = |offset: u32| 107 | 0x100 | offset << 10;
    let with = |map: Vec<u8>| {
        let mut normalizer = serde_json::Map::new();
        normalizer.insert("type".to_string(), "Precompiled".into());
        normalizer.insert("precompiled_charsmap".to_string(), base64(&map).into());
        let mut json = serde_json::to_value(tokenizer_with("null")).unwrap();
        json["normalizer"] = normalizer.into();
        Tokenizer::from_str(&json.to_string()).unwrap()
    };
    let sound = map(&[(107, key(1)), (106, 0)], "q\u{0}é".as_bytes());
    assert!(check_map(&sound));
    let tok = with(sound);
    assert!(can_encode(&tok));
    assert_eq!(tok.encode("k", false).unwrap().get_ids()[0], 3);
    let texts = "q\u{0}é".as_bytes();
    for broken in [
        map(&[(107, key(256)), (106, 0)], texts),
        map(&[(107, key(1)), (106, 5)], texts),
        map(&[(107, key(1)), (106, 3)], texts),
        map(&[(0, 256 << 10)], texts),
        vec![0, 0, 0, 0],
    ] {
        assert!(!check_map(&broken));
        assert!(!can_encode(&with(broken)));
    }
    assert!(!check_map(&vec![4, 0, 0]));
    assert!(!check_map(&vec![4, 0, 0, 0]));
    // A value just behind the texts is an empty text.
    assert!(check_map(&map(&[(107, key(1)), (106, 4)], texts)));
}

fn parse(text: &str) -> serde_json::Value {
    serde_json::from_str(text).unwrap()
}

/// A tokenizer with the given normalizer, pre-tokenizer and added tokens.
fn with_parts(normalizer: &str, pre_tokenizer: &str, added: &str) -> Tokenizer {
    let mut json = serde_json::to_value(tokenizer_with("null")).unwrap();
    json["padding"] = parse("null");
    json["normalizer"] = parse(normalizer);
    json["pre_tokenizer"] = parse(pre_tokenizer);
    json["added_tokens"] = parse(added);
    Tokenizer::from_str(&json.to_string()).unwrap()
}

const TEXTS: [&str; 10] = [
    "▁a",
    "▁Ünïcode",
    "▁中文字",
    "▁\u{301}x\u{323}\u{344}",
    "▁ﬁne¼",
    "▁<a>__b",
    "▁a  b",
    "  ",
    "▁\u{0}\u{7f}\u{fffd}",
    "▁don't stop 123 !!",
];

/// Whether a tokenizer is admitted. One that is encodes all texts.
fn admitted(tok: &Tokenizer) -> bool {
    let can = can_encode(tok);
    if can {
        for text in TEXTS {
            assert!(tok.encode(text, false).is_ok());
        }
    }
    can
}

fn sequence(key: &str, items: &[&str]) -> String {
    format!(r#"{{"type":"Sequence","{}":[{}]}}"#, key, items.join(","))
}

#[test]
fn normalizers_must_be_known_to_be_sound() {
    let with = |normalizer: &str| admitted(&with_parts(normalizer, "null", "[]"));
    let plain = [
        r#"{"type":"BertNormalizer","clean_text":true,"handle_chinese_chars":true,"strip_accents":null,"lowercase":true}"#,
        r#"{"type":"Strip","strip_left":true,"strip_right":true}"#,
        r#"{"type":"StripAccents"}"#,
        r#"{"type":"NFC"}"#,
        r#"{"type":"NFD"}"#,
        r#"{"type":"NFKC"}"#,
        r#"{"type":"NFKD"}"#,
        r#"{"type":"Lowercase"}"#,
        r#"{"type":"Nmt"}"#,
        r#"{"type":"ByteLevel"}"#,
        r#"{"type":"Prepend","prepend":"▁"}"#,
        r#"{"type":"Replace","pattern":{"String":"``"},"content":"\""}"#,
        r#"{"type":"Replace","pattern":{"String":"▁"},"content":""}"#,
        r#"{"type":"Replace","pattern":{"Regex":" {2,}"},"content":" "}"#,
        r#"{"type":"Replace","pattern":{"Regex":"\\s+"},"content":" "}"#,
    ];
    assert!(with("null"));
    for a in plain {
        assert!(with(a), "{}", a);
        for b in plain {
            assert!(with(&sequence("normalizers", &[a, b])), "{} {}", a, b);
            let nested = sequence("normalizers", &[b, a, plain[0], plain[7], b]);
            assert!(with(&sequence("normalizers", &[&nested])));
        }
    }
    for broken in [
        r#"{"type":"Prepend","prepend":""}"#,
        r#"{"type":"Replace","pattern":{"String":""},"content":"x"}"#,
        r#"{"type":"Replace","pattern":{"Regex":"(a+)+b"},"content":"x"}"#,
        r#"{"type":"Replace","pattern":{"Regex":"x*"},"content":"x"}"#,
    ] {
        assert!(!with(broken));
        assert!(!with(&sequence("normalizers", &[broken, r#"{"type":"Lowercase"}"#])));
    }
}

#[test]
fn pre_tokenizers_must_be_known_to_be_sound() {
    let with = |pre_tokenizer: &str| admitted(&with_parts("null", pre_tokenizer, "[]"));
    let split = |pattern: &str| {
        format!(
            r#"{{"type":"Split","pattern":{},"behavior":"Isolated","invert":false}}"#,
            pattern
        )
    };
    let regex = |pattern: &str| {
        let text = serde_json::Value::from(pattern).to_string();
        split(&format!(r#"{{"Regex":{}}}"#, text))
    };
    let mut plain: Vec<String> = [
        r#"{"type":"BertPreTokenizer"}"#,
        r#"{"type":"ByteLevel","add_prefix_space":true,"trim_offsets":true,"use_regex":true}"#,
        r#"{"type":"CharDelimiterSplit","delimiter":"-"}"#,
        r#"{"type":"Metaspace","replacement":"▁","prepend_scheme":"always","split":true}"#,
        r#"{"type":"Whitespace"}"#,
        r#"{"type":"Punctuation","behavior":"Isolated"}"#,
        r#"{"type":"WhitespaceSplit"}"#,
        r#"{"type":"Digits","individual_digits":true}"#,
        r#"{"type":"UnicodeScripts"}"#,
    ]
    .iter()
    .map(|s| s.to_string())
    .collect();
    plain.push(split(r#"{"String":" "}"#));
    for pattern in [BLANKS, WHITE_SPACE, BYTE_LEVEL_WORDS, PLAIN_WORDS] {
        plain.push(regex(pattern));
    }
    assert!(with("null"));
    for a in &plain {
        assert!(with(a), "{}", a);
        for b in &plain {
            assert!(with(&sequence("pretokenizers", &[a, b])), "{} {}", a, b);
        }
    }
    assert!(!with(&regex("(a+)+b")));
    assert!(!with(&split(r#"{"String":""}"#)));
    assert!(!with(&sequence("pretokenizers", &[&plain[0], &regex("(x*)*y")])));
}

fn added(content: &str, lstrip: bool, rstrip: bool, normalized: bool) -> String {
    format!(
        r#"{{"id":30,"content":"{}","single_word":false,"lstrip":{},"rstrip":{},"normalized":{},"special":false}}"#,
        content, lstrip, rstrip, normalized
    )
}

#[test]
fn added_tokens_must_not_claim_the_same_blanks() {
    let blank = r#"{"type":"Replace","pattern":{"String":"_"},"content":" "}"#;
    let with = |normalizer: &str, tokens: &[String]| {
        admitted(&with_parts(normalizer, "null", &format!("[{}]", tokens.join(","))))
    };
    let a = |l: bool, r: bool| added("<a>", l, r, true).replace("30", "31");
    let b = |l: bool, r: bool| added("_", l, r, true);
    assert!(with(blank, &[a(false, true), b(false, false)]));
    assert!(with(blank, &[a(false, true), b(false, true)]));
    assert!(with(blank, &[a(true, false), b(true, false)]));
    assert!(!with(blank, &[a(false, true), b(true, false)]));
    assert!(!with("null", &[a(true, true)]));
    // Of a lone accent nothing is left.
    let accent = added("\u{301}", false, false, true);
    assert!(with("null", &[accent.clone()]));
    assert!(!with(r#"{"type":"StripAccents"}"#, &[accent.clone()]));
    // What is looked for does not change with the normalizer.
    let strip = r#"{"type":"StripAccents"}"#;
    let mut tok = with_parts(strip, "null", &format!("[{}]", accent));
    tok.with_normalizer(None::<NormalizerWrapper>);
    assert!(!can_encode(&tok));
}

#[test]
fn usual_tokenizers_are_admitted() {
    let mask = added("<mask>", true, false, false);
    let sound = map(&[(107, 107 | 0x100 | 1 << 10), (106, 0)], "q\u{0}".as_bytes());
    let charsmap =
        format!(r#"{{"type":"Precompiled","precompiled_charsmap":"{}"}}"#, base64(&sound));
    let blanks = r#"{"type":"Replace","pattern":{"Regex":" {2,}"},"content":"▁"}"#;
    let strip = r#"{"type":"Strip","strip_left":false,"strip_right":true}"#;
    let metaspace = sequence(
        "pretokenizers",
        &[
            r#"{"type":"WhitespaceSplit"}"#,
            r#"{"type":"Metaspace","replacement":"▁","prepend_scheme":"always","split":true}"#,
        ],
    );
    let tokens = format!("[{}]", mask);
    let normalizer = sequence("normalizers", &[&charsmap, strip, blanks]);
    assert!(admitted(&with_parts(&normalizer, &metaspace, &tokens)));
    assert!(admitted(&with_parts(
        r#"{"type":"BertNormalizer","clean_text":true,"handle_chinese_chars":true,"strip_accents":null,"lowercase":true}"#,
        r#"{"type":"BertPreTokenizer"}"#,
        &format!("[{}]", added("[CLS]", false, false, false)),
    )));
}

#[test]
fn unsound_tokenizer_is_not_asked() {
    let tok = with_parts(r#"{"type":"Prepend","prepend":""}"#, "null", "[]");
    let mut t = CachedTokenizer::new(Arc::new(tok), 10, load(&cache_bytes()).unwrap());
    assert!(t.takes("hello world"));
    assert_eq!(t.tokenize_one("hello world").len, 5);
    assert!(!t.takes("hello stranger"));
    let sound = CachedTokenizer::new(Arc::new(tokenizer()), 10, load(&cache_bytes()).unwrap());
    assert!(sound.takes("hello stranger"));
}

#[test]
fn only_dropout_draws_at_random() {
    assert!(!draws_at_random(&tokenizer()));
    let bpe = |dropout: &str| {
        let mut json = serde_json::to_value(tokenizer()).unwrap();
        json["model"] = parse(&format!(
            r#"{{"type":"BPE","dropout":{},"unk_token":null,"continuing_subword_prefix":null,"end_of_word_suffix":null,"fuse_unk":false,"byte_fallback":false,"vocab":{{"a":0,"b":1,"ab":2}},"merges":["a b"]}}"#,
            dropout
        ));
        Tokenizer::from_str(&json.to_string()).unwrap()
    };
    assert!(!draws_at_random(&bpe("null")));
    assert!(draws_at_random(&bpe("0.5")));
}

#[test]
fn added_tokens_need_room() {
    let post = r#"{"type":"BertProcessing","sep":["</s>",12],"cls":["<s>",10]}"#;
    assert!(prepare_tokenizer(tokenizer_with(post), 1).is_none());
    assert!(prepare_tokenizer(tokenizer_with(post), 2).is_some());
}

#[test]
fn tokenizer_is_found_or_missed() {
    assert!(found_tokenizer("/m", Some(Ok(tokenizer()))).is_ok());
    let e = found_tokenizer("/m", None).err().unwrap();
    assert_eq!(e.message(), "model: tokenizer.json not found in /m");
    let e = found_tokenizer("/m", Some(Err("broken".to_string()))).err().unwrap();
    assert_eq!(e.message(), "tokenizer: broken");
}

#[test]
fn vocabulary_is_found_or_missed() {
    assert_eq!(found_vocab_cache(None).unwrap().len(), 0);
    assert_eq!(found_vocab_cache(Some(Ok(cache_bytes()))).unwrap().len(), 2);
    let e = found_vocab_cache(Some(Ok(Vec::new()))).err().unwrap();
    assert_eq!(e.message(), "model: vocab cache: read magic: failed to fill whole buffer");
    let e = found_vocab_cache(Some(Err("open /m: no".to_string()))).err().unwrap();
    assert_eq!(e.message(), "model: vocab cache: open /m: no");
}

fn dim(content: &str) -> usize {
    detect_hidden_dim(Some(Ok(content.to_string()))).ok().unwrap()
}

#[test]
fn hidden_dim_comes_from_the_configuration() {
    assert_eq!(dim(r#"{"hidden_size": 768, "d_model": 512}"#), 768);
    assert_eq!(dim(r#"{"d_model": 512}"#), 512);
    assert_eq!(dim(r#"{"hidden_size": "768", "d_model": 512}"#), 512);
    assert_eq!(dim(r#"{"hidden_size": -1}"#), 384);
    assert_eq!(dim("[]"), 384);
    assert_eq!(dim("not json"), 384);
    assert!(matches!(detect_hidden_dim(None), Ok(384)));
    let e = detect_hidden_dim(Some(Err("denied".to_string()))).err().unwrap();
    assert!(matches!(e, Error::Model(ref m) if m == "reading config.json: denied"));
    assert_eq!(choose_hidden_dim(Some(5), Some(6)), 5);
    assert_eq!(choose_hidden_dim(None, Some(6)), 6);
    assert_eq!(choose_hidden_dim(None, None), 384);
}

#[test]
fn gpus_are_counted_and_resolved() {
    assert_eq!(detect_gpu_count(Some("0\n1\n 2 \r\n\n  \n")), 3);
    assert_eq!(detect_gpu_count(Some("")), 0);
    assert_eq!(detect_gpu_count(None), 1);
    assert_eq!(resolve_gpus(&None, 3), vec![0, 1, 2]);
    assert_eq!(resolve_gpus(&Some(vec![4, 2]), 8), vec![4, 2]);
}
