use red_leicester_string::report::FlagFilter;
use red_leicester_string::stride::{pile_plan, substride};
use red_leicester_string::searcher::{expand_patterns, expand_search, flag_bytes, postprocess_match, MatchDirection, PatternMatch, Searcher};

#[test]
fn postprocess_cuts_at_the_closing_brace_or_invalid_utf8() {
    assert_eq!(postprocess_match(b"flag{abc}def".to_vec()), "flag{abc}");
    assert_eq!(postprocess_match(b"flag{ab\xFFc}".to_vec()), "flag{ab");
    assert_eq!(postprocess_match(b"flag{\xC3\xA9}".to_vec()), "flag{\u{e9}}");
    assert_eq!(postprocess_match(b"abc".to_vec()), "abc");
    assert_eq!(postprocess_match(b"flag{a\xE2\x82".to_vec()), "flag{a");
    assert_eq!(flag_bytes(b"}}".to_vec()), b"}".to_vec());
}

#[test]
fn expand_search_forwards_and_backwards() {
    let hay = b"xxflag{abc}yy";
    let m = PatternMatch { pattern: 0, start: 2, end: 7 };
    assert_eq!(expand_search(hay, m, MatchDirection::Forward), b"flag{abc}yy".to_vec());
    let hay = b"yy}cba{galfxx";
    let m = PatternMatch { pattern: 1, start: 6, end: 11 };
    assert_eq!(expand_search(hay, m, MatchDirection::Backward), b"flag{abc}yy".to_vec());
    let long = vec![b'a'; 5000];
    let m = PatternMatch { pattern: 0, start: 10, end: 15 };
    assert_eq!(expand_search(&long, m, MatchDirection::Forward).len(), 2005);
    let m = PatternMatch { pattern: 0, start: 4000, end: 4005 };
    assert_eq!(expand_search(&long, m, MatchDirection::Backward).len(), 2005);
}

#[test]
fn expanded_patterns_come_in_forward_backward_pairs() {
    let (patterns, contexts) = expand_patterns(&vec!["ab".to_string()], false);
    assert_eq!(patterns.len(), contexts.len());
    assert_eq!(patterns[0], b"ab".to_vec());
    assert_eq!(patterns[1], b"ba".to_vec());
    assert_eq!(contexts[0].direction, MatchDirection::Forward);
    assert_eq!(contexts[1].direction, MatchDirection::Backward);
    assert_eq!(contexts[0].name, "UTF8");
    let (two, _) = expand_patterns(&vec!["ab".to_string(), "cd".to_string()], false);
    assert_eq!(two.len(), 2 * patterns.len());
    assert_eq!(two[patterns.len()], b"cd".to_vec());
}

#[test]
fn search_keeps_only_flags_with_a_pattern_prefix() {
    let searcher = Searcher::new(vec!["flag{".to_string(), "CTF{".to_string()], false).ok().unwrap();
    let found = searcher.search(b"..CTF{two}..flag{one}..");
    assert!(found.iter().any(|(f, n, d)| f == "CTF{two}" && n == "UTF8" && *d == MatchDirection::Forward));
    assert!(found.iter().any(|(f, n, d)| f == "flag{one}" && n == "UTF8" && *d == MatchDirection::Forward));
    assert!(found.iter().all(|(f, _, _)| f.starts_with("flag{") || f.starts_with("CTF{")));
    assert!(searcher.search(b"nothing to see here").is_empty());
}

#[test]
fn search_finds_xor_and_rot13_flags() {
    let searcher = Searcher::new(vec!["flag{".to_string()], false).ok().unwrap();
    let xored: Vec<u8> = b"flag{xor}".iter().map(|b| b ^ 0x20).collect();
    let found = searcher.search(&xored);
    assert!(found.iter().any(|(f, n, _)| f == "flag{xor}" && n == "XOR_32"));
    let found = searcher.search(b"synt{ebg}");
    assert!(found.iter().any(|(f, n, _)| f == "flag{rot}" && n == "ROT-13-rot=13"));
}

/// The text of the project's README, whose examples the search must find.
const README: &str = "# red-leicester-string
It's stringcheese in Rust :)

For example it should find flag{in_the_readme :)} when run on this file
It can also find flags backwards: }!sdrawkcab m'i{galf
Strides of the file are also supported:
  - 2: ufrlmaPgA{GsgtCrdiSpLerdG}
  - 5: }qSgvySyhbeOYqNpNGwsiuFOmrVrSAtJdqpsLrWO{qJJQgSRnLaLVuolnRRrfFfja

By default strides up to 32 are searched.

All of the encodings of the original stringcheese tool are now suppored.
Some examples:
- base64: ZmxhZ3t3ZSBkbyBhIGxpdHRsZSBlbmNvZGluZ30=
- ROT47: MSHNb0lT PU 96; y|fffd

Additionally there is `--strict` which will prevent partial flags from being output,
i.e. flag{ should not be output on its own
";

fn search_readme() -> Vec<(String, String, MatchDirection)> {
    let searcher = Searcher::new(vec!["flag{".to_string()], false).ok().unwrap();
    let bytes = README.as_bytes();
    let mut found = Vec::new();
    for (offset, stride) in pile_plan(32) {
        found.extend(searcher.search(&substride(bytes, offset, stride)));
    }
    found
}

#[test]
fn readme_examples_are_found() {
    let found = search_readme();
    let has = |flag: &str, name: &str, direction: MatchDirection| {
        found.iter().any(|(f, n, d)| f == flag && n == name && *d == direction)
    };
    assert!(has("flag{in_the_readme :)}", "UTF8", MatchDirection::Forward));
    assert!(has("flag{i'm backwards!}", "UTF8", MatchDirection::Backward));
    assert!(has("flag{striped}", "UTF8", MatchDirection::Forward));
    assert!(has("flag{stripey}", "UTF8", MatchDirection::Backward));
    assert!(has("flag{we do a little encoding}", "base64", MatchDirection::Forward));
    assert!(has("flag{I'm in ROT 47!!!}", "ROT-47-rot=69", MatchDirection::Forward));
}

#[test]
fn readme_partial_flag_is_dropped_in_strict_mode() {
    let found = search_readme();
    let partial = found
        .iter()
        .map(|(f, _, _)| f.clone())
        .find(|f| f.starts_with("flag{ should not be output"))
        .unwrap();
    assert!(!partial.ends_with('}'));
    let mut strict = FlagFilter::new(true, false, "}".to_string());
    assert!(!strict.should_report(&partial));
    let mut lenient = FlagFilter::new(false, false, "}".to_string());
    assert!(lenient.should_report(&partial));
}
