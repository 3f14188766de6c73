use ignite_ms::normalize::{collapse_runs, finish_text, Normalizer, NormalizerConfig};

fn plain(min_chars: usize, max_chars: usize) -> NormalizerConfig {
    NormalizerConfig { lowercase: true, max_chars, min_chars, prefix: String::new() }
}

fn normal(text: &str) -> Option<String> {
    Normalizer::new(plain(0, 0)).normalize(text)
}

fn some(text: &str) -> Option<String> {
    Some(text.to_string())
}

#[test]
fn defaults_are_for_e5() {
    let d = NormalizerConfig::default();
    assert!(d.lowercase);
    assert_eq!(d.max_chars, 256);
    assert_eq!(d.min_chars, 10);
    assert_eq!(d.prefix, "passage: ");
    let n = Normalizer::new(d);
    assert_eq!(n.normalize("Hello brave new World"), some("passage: hello brave new world"));
    assert_eq!(n.normalize("too short"), None);
}

#[test]
fn noise_is_removed() {
    assert_eq!(normal("see [the docs](http://x.y/z) now"), some("see the docs now"));
    assert_eq!(normal("go HTTPS://Example.com/a?b=1 there"), some("go there"));
    assert_eq!(normal("mail me@example.com please"), some("mail please"));
    assert_eq!(normal("hash 0123456789abcdef0123456789abcdef end"), some("hash end"));
    assert_eq!(normal("at 0xDEADbeef here"), some("at here"));
    assert_eq!(normal("in /usr/local/bin folder"), some("in folder"));
    assert_eq!(normal("on v1.2.3 now"), some("on now"));
    assert_eq!(normal("fixes #123 bug"), some("fixes bug"));
    assert_eq!(normal("ask u/someone or r/rust ok"), some("ask or ok"));
    assert_eq!(normal("id 1234567 gone"), some("id gone"));
}

#[test]
fn runs_of_punctuation_collapse() {
    assert_eq!(normal("wow!!!! what????? ok..."), some("wow!! what?? ok.."));
    assert_eq!(normal("a!! b"), some("a!! b"));
}

#[test]
fn spans_collapse_one_by_one() {
    assert_eq!(collapse_runs("a!!!b", &vec![(1, 4)]), "a!!b");
    assert_eq!(collapse_runs("!!!é???", &vec![(0, 3), (5, 8)]), "!!é??");
    assert_eq!(collapse_runs("abc", &vec![]), "abc");
}

#[test]
fn white_space_and_case() {
    assert_eq!(normal("  Mixed \t CASE\nText "), some("mixed case text"));
    let mut config = plain(0, 0);
    config.lowercase = false;
    assert_eq!(finish_text(&config, " Keep Case "), some("Keep Case"));
    assert_eq!(normal("ÀÉ ß"), some("àé ß"));
}

#[test]
fn words_without_letters_are_dropped() {
    assert_eq!(normal("a 1 b2 -- 日本 42"), some("a b2 日本"));
    assert_eq!(finish_text(&plain(0, 0), "1 2 3"), some(""));
}

#[test]
fn normalized_text_is_in_bounds() {
    assert_eq!(finish_text(&plain(0, 5), "hello world"), some("hello"));
    assert_eq!(finish_text(&plain(0, 2), "aé"), some("aé"));
    assert_eq!(finish_text(&plain(0, 2), "éaé"), some("éa"));
    assert_eq!(Normalizer::new(plain(0, 4)).normalize("éééé"), some("éééé"));
    assert_eq!(Normalizer::new(plain(0, 4)).normalize("ééééé"), some("éééé"));
    assert_eq!(finish_text(&plain(5, 0), "four"), None);
    assert_eq!(finish_text(&plain(4, 0), "four"), some("four"));
    let mut config = plain(0, 3);
    config.prefix = "query: ".to_string();
    assert_eq!(finish_text(&config, "abcdef"), some("query: abc"));
}

#[test]
fn clone_normalizes_alike() {
    let n = Normalizer::new(NormalizerConfig::default());
    let text = "The #1 QUESTION: what is http://a.b ??? Answer me";
    assert_eq!(n.clone().normalize(text), n.normalize(text));
}
