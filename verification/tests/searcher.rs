use red_leicester_string::searcher::{MatchDirection, Searcher};
use red_leicester_string::stride::substride;

fn search_all(haystack: &[u8], stride: usize) -> Vec<(String, String, MatchDirection)> {
    let searcher = Searcher::new(vec!["flag{".to_string()], false).ok().unwrap();
    let mut all_found = Vec::new();
    for offset in 0..stride {
        let pile = substride(haystack, offset, stride);
        all_found.extend(searcher.search(&pile));
    }
    all_found
}

fn check_identity_match(
    haystack: &[u8],
    stride_length: usize,
    correct: &[&str],
    correct_direction: MatchDirection,
) {
    let all_found = search_all(haystack, stride_length);
    for correct_flag in correct {
        let mut found = false;
        for (flag, decoder_name, match_direction) in &all_found {
            if flag == correct_flag && decoder_name == "UTF8" && *match_direction == correct_direction
            {
                found = true;
                break;
            }
        }
        assert!(found, "Failed to find {correct_flag} in input")
    }
}

#[test]
fn test_identity_match_whole_flag() {
    check_identity_match(b"flag{gimme_the_whole_flag}", 1, &["flag{gimme_the_whole_flag}"], MatchDirection::Forward);
}

#[test]
fn test_identity_match_garbage_after() {
    check_identity_match(b"flag{short} with some garbage after", 1, &["flag{short}"], MatchDirection::Forward);
}

#[test]
fn test_identity_match_trash_before() {
    check_identity_match(b"and some trash before flag{short}", 1, &["flag{short}"], MatchDirection::Forward);
}

#[test]
fn test_identity_match_invalid_utf8_around() {
    check_identity_match(b"\xFF\xFF\xFFflag{short}\xFF\xFF\xFF", 1, &["flag{short}"], MatchDirection::Forward);
}

#[test]
fn test_identity_match_backwards_whole_flag() {
    check_identity_match(b"}galf_elohw_eht_emmig{galf", 1, &["flag{gimme_the_whole_flag}"], MatchDirection::Backward);
}

#[test]
fn test_identity_match_backwards_garbage_after() {
    check_identity_match(b"}trohs{galf with some garbage after", 1, &["flag{short}"], MatchDirection::Backward);
}

#[test]
fn test_identity_match_backwards_trash_before() {
    check_identity_match(b"and some trash before }trohs{galf", 1, &["flag{short}"], MatchDirection::Backward);
}

#[test]
fn test_identity_match_backwards_invalid_utf8_around() {
    check_identity_match(b"\xFF\xFF\xFF}trohs{galf\xFF\xFF\xFF", 1, &["flag{short}"], MatchDirection::Backward);
}

#[test]
fn test_identity_match_stride_2() {
    check_identity_match(b"ffllaagg{{ffllaagg12}}", 2, &["flag{flag1}", "flag{flag2}"], MatchDirection::Forward);
}

#[test]
fn test_identity_match_stride_2_offset() {
    check_identity_match(b"ffffllaagg{{ffllaagg12}}", 2, &["flag{flag1}", "flag{flag2}"], MatchDirection::Forward);
}

#[test]
fn test_identity_match_stride_3() {
    check_identity_match(
        b"ffflllaaaggg{{{ffflllaaaggg123}}}",
        3,
        &["flag{flag1}", "flag{flag2}", "flag{flag3}"],
        MatchDirection::Forward,
    );
}

#[test]
fn test_identity_match_stride_3_backwards() {
    check_identity_match(
        b"}}}321gggaaalllfff{{{gggaaalllfff",
        3,
        &["flag{flag3}", "flag{flag2}", "flag{flag1}"],
        MatchDirection::Backward,
    );
}

#[test]
fn test_identity_match_stride_4() {
    check_identity_match(b"fAAAlAAAaAAAgAAA{AAAfAAAlAAAaAAAgAAA1AAA}AAA", 4, &["flag{flag1}"], MatchDirection::Forward);
}

#[test]
fn test_identity_match_stride_4_offset() {
    check_identity_match(b"AAAAfAAAlAAAaAAAgAAA{AAAfAAAlAAAaAAAgAAA1AAA}AAA", 4, &["flag{flag1}"], MatchDirection::Forward);
}

fn check_codecs(haystack: &[u8], correct: &[(&str, &str)]) {
    let searcher = Searcher::new(vec!["flag{".to_string()], false).ok().unwrap();
    let found = searcher.search(haystack);
    assert_eq!(found.len(), correct.len(), "Found: {found:?}");
    for ((flag, decoder_name, match_direction), (correct, decoder)) in found.into_iter().zip(correct) {
        assert_eq!(&flag, correct);
        assert_eq!(&decoder_name, decoder);
        assert_eq!(match_direction, MatchDirection::Forward);
    }
}

#[test]
fn test_codecs_base64_all_alphabets() {
    check_codecs(
        b"ZmxhZ3tnaW1tZV90aGVfd2hvbGVfZmxhZ30=",
        &[
            ("flag{gimme_the_whole_flag}", "base64"),
            ("flag{gimme_the_whole_flag}", "base64-URL-safe"),
            ("flag{gimme_the_whole_flag}", "base64-IMAP-modified-UTF7"),
        ],
    );
}

#[test]
fn test_codecs_base64_url_safe_only() {
    check_codecs(
        b"ZmxhZ3s-dWhTKiR9",
        &[
            ("flag{", "base64"),
            ("flag{>uhS*$}", "base64-URL-safe"),
            ("flag{", "base64-IMAP-modified-UTF7"),
        ],
    );
}

#[test]
fn test_codecs_base32() {
    check_codecs(b"MZWGCZ33M5UW23LFL52GQZK7O5UG63DFL5TGYYLHPU", &[("flag{gimme_the_whole_flag}", "base32-RFC-4648")]);
}
