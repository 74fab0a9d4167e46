//! The searcher: expands the search patterns through every codec (forwards
//! and backwards), finds all of them at once in a pile of bytes, and decodes
//! what follows each hit into a candidate flag.

use vstd::prelude::*;
use vstd::string::*;
use vstd::utf8::*;
use crate::codecs::{
    all_codecs, codec_views, decode, decoder_wf, lemma_all_codecs_wf, opt_bytes, spec_all_codecs,
    spec_decode, Codec, CodecView, Decoder,
};
use crate::text::{pattern_fits, string_from_utf8, utf8_valid_prefix_len, valid_utf8_prefix_len};

verus! {

broadcast use vstd::utf8::group_utf8_lib;

/// How far past a match (in the direction of the match) a flag is looked for.
pub const MAX_FLAG_LENGTH: usize = 2000;

/// The byte that ends a flag.
pub const CLOSING_CHAR: u8 = 125u8;

/// Whether a pattern was found as written or reversed (the haystack read backwards).
#[derive(Clone, Copy, PartialEq, Eq, Debug, Structural)]
pub enum MatchDirection {
    Forward,
    Backward,
}

/// What a hit on one expanded pattern is decoded with.
pub struct DecodingContext {
    pub decoder: Decoder,
    pub name: String,
    pub direction: MatchDirection,
}

/// The mathematical value of a `DecodingContext`.
pub struct ContextView {
    pub decoder: Decoder,
    pub name: Seq<char>,
    pub direction: MatchDirection,
}

impl View for DecodingContext {
    type V = ContextView;

    open spec fn view(&self) -> ContextView {
        ContextView { decoder: self.decoder, name: self.name@, direction: self.direction }
    }
}

pub open spec fn context_views(v: Seq<DecodingContext>) -> Seq<ContextView> {
    v.map_values(|c: DecodingContext| c@)
}

/// The codecs of all patterns, pattern after pattern.
pub open spec fn spec_codec_list(patterns: Seq<Seq<char>>, gamble: bool) -> Seq<CodecView>
    decreases patterns.len(),
{
    if patterns.len() == 0 {
        seq![]
    } else {
        spec_codec_list(patterns.drop_last(), gamble) + spec_all_codecs(patterns.last(), gamble)
    }
}

/// Each codec's encoding, followed by the same encoding reversed.
pub open spec fn expanded_patterns(codecs: Seq<CodecView>) -> Seq<Seq<u8>> {
    Seq::new(
        2 * codecs.len(),
        |j: int|
            if j % 2 == 0 {
                codecs[j / 2].encoded
            } else {
                codecs[j / 2].encoded.reverse()
            },
    )
}

/// The decoding context of each expanded pattern.
pub open spec fn expanded_contexts(codecs: Seq<CodecView>) -> Seq<ContextView> {
    Seq::new(
        2 * codecs.len(),
        |j: int|
            ContextView {
                decoder: codecs[j / 2].decoder,
                name: codecs[j / 2].name,
                direction: if j % 2 == 0 {
                    MatchDirection::Forward
                } else {
                    MatchDirection::Backward
                },
            },
    )
}

/// The values of a sequence of strings.
pub open spec fn string_views(v: Seq<String>) -> Seq<Seq<char>> {
    v.map_values(|s: String| s@)
}

/// The values of a sequence of byte buffers.
pub open spec fn byte_views(v: Seq<Vec<u8>>) -> Seq<Seq<u8>> {
    v.map_values(|b: Vec<u8>| b@)
}

/// Every pattern can be encoded without a length overflowing.
pub open spec fn patterns_fit(patterns: Seq<Seq<char>>) -> bool {
    forall|i: int| 0 <= i < patterns.len() ==> pattern_fits(#[trigger] patterns[i])
}

fn reversed(v: &Vec<u8>) -> (res: Vec<u8>)
    ensures
        res@ == v@.reverse(),
{
    let mut out: Vec<u8> = Vec::new();
    let mut i: usize = v.len();
    while i > 0
        invariant
            i <= v@.len(),
            out@.len() == v@.len() - i,
            forall|j: int| 0 <= j < out@.len() ==> #[trigger] out@[j] == v@[v@.len() - 1 - j],
        decreases i,
    {
        i = i - 1;
        out.push(v[i]);
    }
    proof {
        assert(out@ =~= v@.reverse());
    }
    out
}

/// Expands the patterns: for every codec of every pattern, the encoded
/// pattern (matched forwards) and the encoded pattern reversed (matched
/// backwards), each with the decoding context for a hit on it.
pub fn expand_patterns(patterns: &Vec<String>, gamble: bool) -> (res: (Vec<Vec<u8>>, Vec<DecodingContext>))
    requires
        patterns_fit(string_views(patterns@)),
    ensures
        byte_views(res.0@) == expanded_patterns(spec_codec_list(string_views(patterns@), gamble)),
        context_views(res.1@) == expanded_contexts(spec_codec_list(string_views(patterns@), gamble)),
        res.0@.len() == res.1@.len(),
{
    let mut encoded_patterns: Vec<Vec<u8>> = Vec::new();
    let mut decoders: Vec<DecodingContext> = Vec::new();
    let mut p: usize = 0;
    while p < patterns.len()
        invariant
            p <= patterns@.len(),
            patterns_fit(string_views(patterns@)),
            byte_views(encoded_patterns@) == expanded_patterns(
                spec_codec_list(string_views(patterns@.take(p as int)), gamble),
            ),
            context_views(decoders@) == expanded_contexts(
                spec_codec_list(string_views(patterns@.take(p as int)), gamble),
            ),
        decreases patterns@.len() - p,
    {
        let pat = patterns[p].as_str();
        assert(pattern_fits(string_views(patterns@)[p as int]));
        let codecs = all_codecs(pat, gamble);
        let ghost before = spec_codec_list(string_views(patterns@.take(p as int)), gamble);
        proof {
            assert(string_views(patterns@.take(p + 1)).drop_last() =~= string_views(
                patterns@.take(p as int),
            ));
            assert(string_views(patterns@.take(p + 1)).last() == pat@);
        }
        let mut c: usize = 0;
        while c < codecs.len()
            invariant
                c <= codecs@.len(),
                byte_views(encoded_patterns@) == expanded_patterns(
                    before + codec_views(codecs@).take(c as int),
                ),
                context_views(decoders@) == expanded_contexts(
                    before + codec_views(codecs@).take(c as int),
                ),
            decreases codecs@.len() - c,
        {
            let codec = &codecs[c];
            let ghost list = before + codec_views(codecs@).take(c as int);
            let ghost next = before + codec_views(codecs@).take(c + 1);
            let reverse_encoded = reversed(&codec.encoded);
            let ghost old_pats = byte_views(encoded_patterns@);
            let ghost old_ctxs = context_views(decoders@);
            encoded_patterns.push(vstd::slice::slice_to_vec(codec.encoded.as_slice()));
            decoders.push(
                DecodingContext {
                    decoder: codec.decoder,
                    name: codec.name.clone(),
                    direction: MatchDirection::Forward,
                },
            );
            encoded_patterns.push(reverse_encoded);
            decoders.push(
                DecodingContext {
                    decoder: codec.decoder,
                    name: codec.name.clone(),
                    direction: MatchDirection::Backward,
                },
            );
            proof {
                assert(next =~= list.push(codecs@[c as int]@));
                assert(byte_views(encoded_patterns@) =~= old_pats.push(codec.encoded@).push(
                    codec.encoded@.reverse(),
                ));
                assert(byte_views(encoded_patterns@) =~= expanded_patterns(next));
                assert(context_views(decoders@) =~= old_ctxs.push(
                    ContextView {
                        decoder: codec.decoder,
                        name: codec.name@,
                        direction: MatchDirection::Forward,
                    },
                ).push(
                    ContextView {
                        decoder: codec.decoder,
                        name: codec.name@,
                        direction: MatchDirection::Backward,
                    },
                ));
                assert(context_views(decoders@) =~= expanded_contexts(next));
            }
            c = c + 1;
        }
        proof {
            assert(codec_views(codecs@).take(codecs@.len() as int) =~= codec_views(codecs@));
        }
        p = p + 1;
    }
    proof {
        assert(patterns@.take(patterns@.len() as int) =~= patterns@);
    }
    (encoded_patterns, decoders)
}

// ---------------------------------------------------------------------------
// Finding the expanded patterns
// ---------------------------------------------------------------------------

/// A hit: the expanded pattern with index `pattern` occurs at `start..end`.
#[derive(Clone, Copy, PartialEq, Eq, Debug, Structural)]
pub struct PatternMatch {
    pub pattern: usize,
    pub start: usize,
    pub end: usize,
}

/// `m` is an occurrence of one of the patterns in the haystack.
pub open spec fn is_occurrence(patterns: Seq<Seq<u8>>, haystack: Seq<u8>, m: PatternMatch) -> bool {
    &&& m.pattern < patterns.len()
    &&& m.start <= m.end <= haystack.len()
    &&& haystack.subrange(m.start as int, m.end as int) == patterns[m.pattern as int]
}

#[verifier::external_type_specification]
#[verifier::external_body]
pub struct ExAhoCorasick(aho_corasick::AhoCorasick);

#[verifier::external_type_specification]
#[verifier::external_body]
pub struct ExBuildError(aho_corasick::BuildError);

/// The patterns that an automaton was built from, in order (pattern `i` of
/// the automaton is `ac_patterns(..)[i]`).
pub uninterp spec fn ac_patterns(matcher: aho_corasick::AhoCorasick) -> Seq<Seq<u8>>;

/// The overlapping matches, in the order reported, that an automaton built
/// from `patterns` (with standard match semantics) finds in `haystack`.
pub uninterp spec fn ac_overlapping_matches(patterns: Seq<Seq<u8>>, haystack: Seq<u8>) -> Seq<
    PatternMatch,
>;

/// Whether an automaton (default options, no prefilter) can be built from
/// the patterns: it cannot when there are too many patterns or states.
pub uninterp spec fn ac_builds(patterns: Seq<Seq<u8>>) -> bool;

/// `AhoCorasickBuilder::build` with default options (standard match
/// semantics) and no prefilter: it succeeds exactly when `ac_builds` holds of
/// the patterns, with an automaton whose pattern `i` is `patterns[i]`. Which
/// pattern sets are too large is left to the name `ac_builds`.
#[verifier::external_body]
fn build_matcher(patterns: &Vec<Vec<u8>>) -> (res: Result<aho_corasick::AhoCorasick, aho_corasick::BuildError>)
    ensures
        res is Ok <==> ac_builds(byte_views(patterns@)),
        res matches Ok(m) ==> ac_patterns(m) == byte_views(patterns@),
{
    aho_corasick::AhoCorasick::builder().prefilter(false).build(patterns)
}

/// `AhoCorasick::find_overlapping_iter`, collected: "all possible matches at
/// every position". Every match reported is an occurrence of its pattern, and
/// every occurrence of every pattern is reported; the order is left to the
/// name `ac_overlapping_matches`. The automata here all come from
/// `build_matcher`, whose standard match semantics this iterator needs.
#[verifier::external_body]
fn find_overlapping(matcher: &aho_corasick::AhoCorasick, haystack: &[u8]) -> (res: Vec<PatternMatch>)
    ensures
        res@ == ac_overlapping_matches(ac_patterns(*matcher), haystack@),
        forall|i: int| 0 <= i < res@.len() ==> is_occurrence(ac_patterns(*matcher), haystack@, #[trigger] res@[i]),
        forall|m: PatternMatch| is_occurrence(ac_patterns(*matcher), haystack@, m) ==> res@.contains(m),
{
    matcher.find_overlapping_iter(haystack).map(|m| PatternMatch {
        pattern: m.pattern().as_usize(),
        start: m.start(),
        end: m.end(),
    }).collect()
}

// ---------------------------------------------------------------------------
// From a hit to a flag
// ---------------------------------------------------------------------------

/// The bytes to decode for a hit: from the start of the match up to
/// `MAX_FLAG_LENGTH` bytes past its end (forwards), or from `MAX_FLAG_LENGTH`
/// bytes before its start up to its end, reversed (backwards).
pub open spec fn spec_expand_search(haystack: Seq<u8>, m: PatternMatch, direction: MatchDirection) -> Seq<u8> {
    match direction {
        MatchDirection::Forward => {
            let end = if haystack.len() < m.end + MAX_FLAG_LENGTH {
                haystack.len() as int
            } else {
                m.end + MAX_FLAG_LENGTH
            };
            haystack.subrange(m.start as int, end)
        },
        MatchDirection::Backward => {
            let start = if m.start < MAX_FLAG_LENGTH {
                0
            } else {
                m.start - MAX_FLAG_LENGTH
            };
            haystack.subrange(start, m.end as int).reverse()
        },
    }
}

/// Takes the bytes that may hold the rest of the flag, in reading order.
pub fn expand_search(haystack: &[u8], m: PatternMatch, direction: MatchDirection) -> (res: Vec<u8>)
    requires
        m.start <= m.end <= haystack@.len(),
        haystack@.len() + MAX_FLAG_LENGTH <= usize::MAX,
    ensures
        res@ == spec_expand_search(haystack@, m, direction),
{
    match direction {
        MatchDirection::Forward => {
            let start = m.start;
            let end = if haystack.len() < m.end + MAX_FLAG_LENGTH {
                haystack.len()
            } else {
                m.end + MAX_FLAG_LENGTH
            };
            vstd::slice::slice_to_vec(vstd::slice::slice_subrange(haystack, start, end))
        },
        MatchDirection::Backward => {
            let start = m.start.saturating_sub(MAX_FLAG_LENGTH);
            let end = m.end;
            let slice = vstd::slice::slice_subrange(haystack, start, end);
            let mut out: Vec<u8> = Vec::new();
            let mut i: usize = slice.len();
            while i > 0
                invariant
                    i <= slice@.len(),
                    out@.len() == slice@.len() - i,
                    forall|j: int| 0 <= j < out@.len() ==> #[trigger] out@[j] == slice@[slice@.len() - 1 - j],
                decreases i,
            {
                i = i - 1;
                out.push(slice[i]);
            }
            proof {
                assert(out@ =~= slice@.reverse());
            }
            out
        },
    }
}

/// The index of the first `b` in `s`, or its length if there is none.
pub open spec fn index_of_first(s: Seq<u8>, b: u8) -> int
    decreases s.len(),
{
    if s.len() == 0 {
        0
    } else if s[0] == b {
        0
    } else {
        1 + index_of_first(s.drop_first(), b)
    }
}

pub proof fn lemma_index_of_first(s: Seq<u8>, b: u8)
    ensures
        0 <= index_of_first(s, b) <= s.len(),
        index_of_first(s, b) < s.len() ==> s[index_of_first(s, b)] == b,
        forall|j: int| 0 <= j < index_of_first(s, b) ==> s[j] != b,
    decreases s.len(),
{
    if s.len() > 0 && s[0] != b {
        lemma_index_of_first(s.drop_first(), b);
        assert forall|j: int| 0 <= j < index_of_first(s, b) implies s[j] != b by {
            if j > 0 {
                assert(s[j] == s.drop_first()[j - 1]);
            }
        }
    }
}

/// `memchr::memchr`: the index of the first occurrence of the byte, if any.
#[verifier::external_body]
fn memchr(needle: u8, haystack: &[u8]) -> (res: Option<usize>)
    ensures
        res matches Some(i) ==> i < haystack@.len() && haystack@[i as int] == needle && forall|j: int|
            0 <= j < i ==> haystack@[j] != needle,
        res is None ==> forall|j: int| 0 <= j < haystack@.len() ==> haystack@[j] != needle,
{
    memchr::memchr(needle, haystack)
}

/// How many bytes of decoded data form the flag: the valid UTF-8 prefix, cut
/// right after the first closing brace when that brace lies within it.
pub open spec fn flag_len(data: Seq<u8>) -> int {
    let valid_end = utf8_valid_prefix_len(data);
    let closing = index_of_first(data, CLOSING_CHAR);
    if closing < valid_end {
        closing + 1
    } else {
        valid_end
    }
}

/// The bytes of the flag in decoded data.
pub open spec fn spec_flag_bytes(data: Seq<u8>) -> Seq<u8> {
    data.take(flag_len(data))
}

/// The flag in decoded data.
pub open spec fn spec_postprocess(data: Seq<u8>) -> Seq<char> {
    decode_utf8(spec_flag_bytes(data))
}

proof fn lemma_flag_bytes_valid(data: Seq<u8>, valid_end: int, closing: int)
    requires
        0 <= closing < valid_end <= data.len(),
        valid_utf8(data.take(valid_end)),
        data[closing] == CLOSING_CHAR,
    ensures
        valid_utf8(data.take(closing + 1)),
{
    let t = data.take(valid_end);
    assert(t[closing] == CLOSING_CHAR);
    is_char_boundary_iff_not_is_continuation_byte(t, closing);
    assert(is_char_boundary(t, closing));
    valid_utf8_split(t, closing);
    assert(t.subrange(0, closing) =~= data.take(closing));
    reveal_with_fuel(valid_utf8, 2);
    assert(valid_utf8(seq![CLOSING_CHAR]));
    valid_utf8_concat(data.take(closing), seq![CLOSING_CHAR]);
    assert(data.take(closing) + seq![CLOSING_CHAR] =~= data.take(closing + 1));
}

/// Cuts decoded data down to its flag.
pub fn flag_bytes(data: Vec<u8>) -> (res: Vec<u8>)
    ensures
        res@ == spec_flag_bytes(data@),
        valid_utf8(res@),
        res@.len() <= data@.len(),
        forall|j: int| 0 <= j < res@.len() - 1 ==> #[trigger] res@[j] != CLOSING_CHAR,
{
    let utf8_valid_end = valid_utf8_prefix_len(data.as_slice());
    proof {
        lemma_index_of_first(data@, CLOSING_CHAR);
    }
    let closing_pos = match memchr(CLOSING_CHAR, data.as_slice()) {
        Some(pos) => pos,
        None => utf8_valid_end,
    };
    let truncate_to = if closing_pos < utf8_valid_end {
        closing_pos + 1
    } else {
        utf8_valid_end
    };
    proof {
        if closing_pos < utf8_valid_end {
            assert(closing_pos == index_of_first(data@, CLOSING_CHAR));
            lemma_flag_bytes_valid(data@, utf8_valid_end as int, closing_pos as int);
        } else {
            assert(index_of_first(data@, CLOSING_CHAR) >= utf8_valid_end);
        }
    }
    let mut owned = data;
    owned.truncate(truncate_to);
    proof {
        assert(owned@ =~= spec_flag_bytes(data@));
    }
    owned
}

/// Turns decoded data into a flag: the valid UTF-8 prefix, up to and
/// including the first closing brace.
pub fn postprocess_match(extended_match_data: Vec<u8>) -> (res: String)
    ensures
        res@ == spec_postprocess(extended_match_data@),
{
    string_from_utf8(flag_bytes(extended_match_data))
}

// ---------------------------------------------------------------------------
// The searcher
// ---------------------------------------------------------------------------

/// The bytes start with the prefix.
pub open spec fn has_prefix(bytes: Seq<u8>, prefix: Seq<u8>) -> bool {
    prefix.len() <= bytes.len() && bytes.take(prefix.len() as int) == prefix
}

/// The flag starts with one of the patterns.
pub open spec fn starts_with_any(patterns: Seq<Seq<char>>, flag: Seq<char>) -> bool {
    exists|j: int| 0 <= j < patterns.len() && has_prefix(encode_utf8(flag), encode_utf8(#[trigger] patterns[j]))
}

/// A finding: the flag, the name of the codec that decoded it, and the direction.
pub type FindingView = (Seq<char>, Seq<char>, MatchDirection);

pub open spec fn finding_views(v: Seq<(String, String, MatchDirection)>) -> Seq<FindingView> {
    v.map_values(|f: (String, String, MatchDirection)| (f.0@, f.1@, f.2))
}

/// What a hit gives: its bytes decoded with the decoder of its pattern and cut
/// down to a flag, kept if the flag starts with one of the search patterns.
pub open spec fn spec_candidate(
    contexts: Seq<ContextView>,
    patterns: Seq<Seq<char>>,
    haystack: Seq<u8>,
    m: PatternMatch,
) -> Option<FindingView> {
    let ctx = contexts[m.pattern as int];
    match spec_decode(ctx.decoder, spec_expand_search(haystack, m, ctx.direction)) {
        Some(decoded) => {
            let flag = spec_postprocess(decoded);
            if starts_with_any(patterns, flag) {
                Some((flag, ctx.name, ctx.direction))
            } else {
                None
            }
        },
        None => None,
    }
}

/// A hit on a codec's encoding, as written or reversed, is decoded with that
/// codec's own decoder in both directions: forwards from the start of the hit
/// to at most `MAX_FLAG_LENGTH` bytes past its end; backwards from its end
/// down to at most `MAX_FLAG_LENGTH` bytes before its start, read in reverse.
/// The finding is the flag cut from the decoding, the codec's name and the
/// direction, and it is kept exactly when the flag starts with a pattern.
pub proof fn lemma_hits_use_their_codec(
    codecs: Seq<CodecView>,
    patterns: Seq<Seq<char>>,
    haystack: Seq<u8>,
    m: PatternMatch,
)
    requires
        m.pattern < 2 * codecs.len(),
    ensures
        ({
            let c = codecs[m.pattern as int / 2];
            let backward = m.pattern % 2 == 1;
            let lo: int = if m.start < MAX_FLAG_LENGTH { 0 } else { m.start - MAX_FLAG_LENGTH };
            let hi: int = if haystack.len() < m.end + MAX_FLAG_LENGTH {
                haystack.len() as int
            } else {
                m.end + MAX_FLAG_LENGTH
            };
            let bytes = if backward {
                haystack.subrange(lo, m.end as int).reverse()
            } else {
                haystack.subrange(m.start as int, hi)
            };
            let direction = if backward { MatchDirection::Backward } else { MatchDirection::Forward };
            spec_candidate(expanded_contexts(codecs), patterns, haystack, m) == match spec_decode(
                c.decoder,
                bytes,
            ) {
                Some(d) => if starts_with_any(patterns, spec_postprocess(d)) {
                    Some((spec_postprocess(d), c.name, direction))
                } else {
                    None
                },
                None => None,
            }
        }),
{
    let ctx = expanded_contexts(codecs)[m.pattern as int];
    assert(ctx.decoder == codecs[m.pattern as int / 2].decoder);
    assert(ctx.name == codecs[m.pattern as int / 2].name);
}

/// The findings of a sequence of hits, in order.
pub open spec fn spec_findings(
    contexts: Seq<ContextView>,
    patterns: Seq<Seq<char>>,
    haystack: Seq<u8>,
    matches: Seq<PatternMatch>,
) -> Seq<FindingView>
    decreases matches.len(),
{
    if matches.len() == 0 {
        seq![]
    } else {
        let prev = spec_findings(contexts, patterns, haystack, matches.drop_last());
        match spec_candidate(contexts, patterns, haystack, matches.last()) {
            Some(f) => prev.push(f),
            None => prev,
        }
    }
}

/// Why a searcher could not be built.
pub enum SearcherError {
    /// The automaton of the expanded patterns could not be built.
    Automaton(aho_corasick::BuildError),
}

/// Searches piles of bytes for flags that start with one of its patterns,
/// under every codec, forwards and backwards.
pub struct Searcher {
    matcher: aho_corasick::AhoCorasick,
    decoder_mapping: Vec<DecodingContext>,
    unexpanded: Vec<String>,
    gamble: bool,
}

/// The codecs of a searcher's patterns.
pub open spec fn searcher_codecs(s: Searcher) -> Seq<CodecView> {
    spec_codec_list(s.patterns(), s.gamble())
}

/// What a search of `haystack` gives: the findings of all overlapping hits on
/// the expanded patterns.
pub open spec fn spec_search(s: Searcher, haystack: Seq<u8>) -> Seq<FindingView> {
    let codecs = searcher_codecs(s);
    spec_findings(
        expanded_contexts(codecs),
        s.patterns(),
        haystack,
        ac_overlapping_matches(expanded_patterns(codecs), haystack),
    )
}

proof fn lemma_codec_list_wf(patterns: Seq<Seq<char>>, gamble: bool)
    ensures
        forall|i: int|
            0 <= i < spec_codec_list(patterns, gamble).len() ==> decoder_wf(
                #[trigger] spec_codec_list(patterns, gamble)[i].decoder,
            ),
    decreases patterns.len(),
{
    if patterns.len() > 0 {
        lemma_codec_list_wf(patterns.drop_last(), gamble);
        lemma_all_codecs_wf(patterns.last(), gamble);
        let a = spec_codec_list(patterns.drop_last(), gamble);
        let b = spec_all_codecs(patterns.last(), gamble);
        assert forall|i: int| 0 <= i < (a + b).len() implies decoder_wf(#[trigger] (a + b)[i].decoder) by {
            if i >= a.len() {
                assert((a + b)[i] == b[i - a.len()]);
            }
        }
    }
}

/// Every finding's flag starts with one of the patterns.
pub proof fn lemma_findings_start_with_pattern(
    contexts: Seq<ContextView>,
    patterns: Seq<Seq<char>>,
    haystack: Seq<u8>,
    matches: Seq<PatternMatch>,
)
    ensures
        forall|k: int|
            0 <= k < spec_findings(contexts, patterns, haystack, matches).len() ==> starts_with_any(
                patterns,
                (#[trigger] spec_findings(contexts, patterns, haystack, matches)[k]).0,
            ),
    decreases matches.len(),
{
    if matches.len() > 0 {
        lemma_findings_start_with_pattern(contexts, patterns, haystack, matches.drop_last());
        let prev = spec_findings(contexts, patterns, haystack, matches.drop_last());
        let all = spec_findings(contexts, patterns, haystack, matches);
        match spec_candidate(contexts, patterns, haystack, matches.last()) {
            Some(f) => {
                assert(starts_with_any(patterns, f.0));
                assert forall|k: int| 0 <= k < all.len() implies starts_with_any(
                    patterns,
                    (#[trigger] all[k]).0,
                ) by {
                    if k < prev.len() {
                        assert(all[k] == prev[k]);
                    }
                }
            },
            None => {},
        }
    }
}

/// Every finding is what one of the hits gives.
pub proof fn lemma_findings_from_matches(
    contexts: Seq<ContextView>,
    patterns: Seq<Seq<char>>,
    haystack: Seq<u8>,
    matches: Seq<PatternMatch>,
)
    ensures
        forall|k: int|
            #![trigger spec_findings(contexts, patterns, haystack, matches)[k]]
            0 <= k < spec_findings(contexts, patterns, haystack, matches).len() ==> exists|i: int|
                0 <= i < matches.len() && spec_candidate(contexts, patterns, haystack, #[trigger] matches[i])
                    == Some(spec_findings(contexts, patterns, haystack, matches)[k]),
    decreases matches.len(),
{
    if matches.len() > 0 {
        let init = matches.drop_last();
        lemma_findings_from_matches(contexts, patterns, haystack, init);
        let prev = spec_findings(contexts, patterns, haystack, init);
        let all = spec_findings(contexts, patterns, haystack, matches);
        assert forall|k: int| #![trigger all[k]] 0 <= k < all.len() implies exists|i: int|
            0 <= i < matches.len() && spec_candidate(contexts, patterns, haystack, #[trigger] matches[i])
                == Some(all[k]) by {
            if k < prev.len() {
                assert(all[k] == prev[k]);
                let i = choose|i: int|
                    0 <= i < init.len() && spec_candidate(contexts, patterns, haystack, #[trigger] init[i])
                        == Some(prev[k]);
                assert(matches[i] == init[i]);
            } else {
                assert(matches[matches.len() - 1] == matches.last());
            }
        }
    }
}

/// Every hit that gives a finding has its finding among the findings.
pub proof fn lemma_findings_complete(
    contexts: Seq<ContextView>,
    patterns: Seq<Seq<char>>,
    haystack: Seq<u8>,
    matches: Seq<PatternMatch>,
    i: int,
)
    requires
        0 <= i < matches.len(),
        spec_candidate(contexts, patterns, haystack, matches[i]) is Some,
    ensures
        spec_findings(contexts, patterns, haystack, matches).contains(
            spec_candidate(contexts, patterns, haystack, matches[i])->0,
        ),
    decreases matches.len(),
{
    let prev = spec_findings(contexts, patterns, haystack, matches.drop_last());
    let all = spec_findings(contexts, patterns, haystack, matches);
    let f = spec_candidate(contexts, patterns, haystack, matches[i])->0;
    if i == matches.len() - 1 {
        assert(matches.last() == matches[i]);
        assert(all == prev.push(f));
        assert(all[prev.len() as int] == f);
    } else {
        assert(matches.drop_last()[i] == matches[i]);
        lemma_findings_complete(contexts, patterns, haystack, matches.drop_last(), i);
        let k = choose|k: int| 0 <= k < prev.len() && prev[k] == f;
        match spec_candidate(contexts, patterns, haystack, matches.last()) {
            Some(g) => {
                assert(all == prev.push(g));
                assert(all[k] == f);
            },
            None => {},
        }
    }
}

/// When the hits include every occurrence of the patterns, every occurrence
/// that gives a finding has its finding among the findings.
pub proof fn lemma_findings_cover_occurrences(
    contexts: Seq<ContextView>,
    patterns: Seq<Seq<char>>,
    haystack: Seq<u8>,
    encoded: Seq<Seq<u8>>,
    matches: Seq<PatternMatch>,
)
    requires
        forall|m: PatternMatch| is_occurrence(encoded, haystack, m) ==> matches.contains(m),
    ensures
        forall|m: PatternMatch|
            is_occurrence(encoded, haystack, m) ==> (#[trigger] spec_candidate(
                contexts,
                patterns,
                haystack,
                m,
            ) matches Some(f) ==> spec_findings(contexts, patterns, haystack, matches).contains(f)),
{
    assert forall|m: PatternMatch| is_occurrence(encoded, haystack, m) implies (
    #[trigger] spec_candidate(contexts, patterns, haystack, m) matches Some(f)
        ==> spec_findings(contexts, patterns, haystack, matches).contains(f)) by {
        if spec_candidate(contexts, patterns, haystack, m) is Some {
            assert(matches.contains(m));
            let i = choose|i: int| 0 <= i < matches.len() && matches[i] == m;
            lemma_findings_complete(contexts, patterns, haystack, matches, i);
        }
    }
}

fn has_byte_prefix(bytes: &[u8], prefix: &[u8]) -> (res: bool)
    ensures
        res == has_prefix(bytes@, prefix@),
{
    if prefix.len() > bytes.len() {
        return false;
    }
    let mut i: usize = 0;
    while i < prefix.len()
        invariant
            prefix@.len() <= bytes@.len(),
            i <= prefix@.len(),
            forall|j: int| 0 <= j < i ==> bytes@[j] == prefix@[j],
        decreases prefix@.len() - i,
    {
        if bytes[i] != prefix[i] {
            proof {
                assert(bytes@.take(prefix@.len() as int)[i as int] != prefix@[i as int]);
            }
            return false;
        }
        i = i + 1;
    }
    proof {
        assert(bytes@.take(prefix@.len() as int) =~= prefix@);
    }
    true
}

impl Searcher {
    #[verifier::type_invariant]
    closed spec fn inv(self) -> bool {
        let codecs = spec_codec_list(string_views(self.unexpanded@), self.gamble);
        &&& ac_patterns(self.matcher) == expanded_patterns(codecs)
        &&& context_views(self.decoder_mapping@) == expanded_contexts(codecs)
    }

    /// The search patterns, as given.
    pub closed spec fn patterns(self) -> Seq<Seq<char>> {
        string_views(self.unexpanded@)
    }

    /// Whether every bytewise binary codec is used.
    pub closed spec fn gamble(self) -> bool {
        self.gamble
    }

    /// Builds a searcher for the patterns: every codec of every pattern,
    /// forwards and backwards, in one automaton.
    pub fn new(patterns: Vec<String>, gamble: bool) -> (res: Result<Searcher, SearcherError>)
        requires
            patterns_fit(string_views(patterns@)),
        ensures
            res is Ok <==> ac_builds(
                expanded_patterns(spec_codec_list(string_views(patterns@), gamble)),
            ),
            res matches Ok(s) ==> s.patterns() == string_views(patterns@) && s.gamble() == gamble,
    {
        let (encoded, decoder_mapping) = expand_patterns(&patterns, gamble);
        match build_matcher(&encoded) {
            Ok(matcher) => Ok(Searcher { matcher, decoder_mapping, unexpanded: patterns, gamble }),
            Err(e) => Err(SearcherError::Automaton(e)),
        }
    }

    fn starts_with_pattern(&self, flag: &str) -> (res: bool)
        ensures
            res == starts_with_any(self.patterns(), flag@),
    {
        let bytes = flag.as_bytes();
        let mut k: usize = 0;
        while k < self.unexpanded.len()
            invariant
                k <= self.unexpanded@.len(),
                bytes@ == encode_utf8(flag@),
                forall|j: int| 0 <= j < k ==> !has_prefix(encode_utf8(flag@), encode_utf8(#[trigger] self.patterns()[j])),
            decreases self.unexpanded@.len() - k,
        {
            let prefix = self.unexpanded[k].as_str().as_bytes();
            if has_byte_prefix(bytes, prefix) {
                assert(self.patterns()[k as int] == self.unexpanded@[k as int]@);
                return true;
            }
            assert(self.patterns()[k as int] == self.unexpanded@[k as int]@);
            k = k + 1;
        }
        false
    }

    /// Searches one pile of bytes: every overlapping hit on an expanded
    /// pattern is decoded into a flag, and the flags that start with one of
    /// the patterns are returned with the codec's name and the direction.
    pub fn search(&self, haystack: &[u8]) -> (res: Vec<(String, String, MatchDirection)>)
        requires
            haystack@.len() + MAX_FLAG_LENGTH <= usize::MAX,
        ensures
            finding_views(res@) == spec_search(*self, haystack@),
            forall|k: int| 0 <= k < res@.len() ==> starts_with_any(self.patterns(), (#[trigger] res@[k]).0@),
            forall|k: int|
                #![trigger finding_views(res@)[k]]
                0 <= k < res@.len() ==> exists|m: PatternMatch|
                is_occurrence(expanded_patterns(searcher_codecs(*self)), haystack@, m)
                    && #[trigger] spec_candidate(
                    expanded_contexts(searcher_codecs(*self)),
                    self.patterns(),
                    haystack@,
                    m,
                ) == Some(finding_views(res@)[k]),
            forall|m: PatternMatch|
                is_occurrence(expanded_patterns(searcher_codecs(*self)), haystack@, m) ==> (
                #[trigger] spec_candidate(
                    expanded_contexts(searcher_codecs(*self)),
                    self.patterns(),
                    haystack@,
                    m,
                ) matches Some(f) ==> finding_views(res@).contains(f)),
    {
        proof {
            use_type_invariant(self);
            lemma_codec_list_wf(self.patterns(), self.gamble);
        }
        let ghost codecs = searcher_codecs(*self);
        let ghost contexts = expanded_contexts(codecs);
        let matches = find_overlapping(&self.matcher, haystack);
        let mut out: Vec<(String, String, MatchDirection)> = Vec::new();
        let mut i: usize = 0;
        while i < matches.len()
            invariant
                i <= matches@.len(),
                haystack@.len() + MAX_FLAG_LENGTH <= usize::MAX,
                codecs == searcher_codecs(*self),
                contexts == expanded_contexts(codecs),
                context_views(self.decoder_mapping@) == contexts,
                ac_patterns(self.matcher) == expanded_patterns(codecs),
                matches@ == ac_overlapping_matches(expanded_patterns(codecs), haystack@),
                forall|k: int| 0 <= k < matches@.len() ==> is_occurrence(expanded_patterns(codecs), haystack@, #[trigger] matches@[k]),
                forall|m: PatternMatch| is_occurrence(expanded_patterns(codecs), haystack@, m) ==> matches@.contains(m),
                forall|k: int| 0 <= k < codecs.len() ==> decoder_wf(#[trigger] codecs[k].decoder),
                finding_views(out@) == spec_findings(contexts, self.patterns(), haystack@, matches@.take(i as int)),
            decreases matches@.len() - i,
        {
            let m = matches[i];
            assert(is_occurrence(expanded_patterns(codecs), haystack@, matches@[i as int]));
            assert(self.decoder_mapping@.len() == context_views(self.decoder_mapping@).len());
            assert(m.pattern < contexts.len());
            let ctx = &self.decoder_mapping[m.pattern];
            assert(ctx@ == context_views(self.decoder_mapping@)[m.pattern as int]);
            assert(ctx@ == contexts[m.pattern as int]);
            assert(decoder_wf(codecs[m.pattern as int / 2].decoder));
            let to_decode = expand_search(haystack, m, ctx.direction);
            let ghost before = out@;
            proof {
                assert(matches@.take(i + 1).drop_last() =~= matches@.take(i as int));
                assert(matches@.take(i + 1).last() == m);
            }
            match decode(ctx.decoder, to_decode) {
                Some(decoded) => {
                    let flag = postprocess_match(decoded);
                    if self.starts_with_pattern(flag.as_str()) {
                        out.push((flag, ctx.name.clone(), ctx.direction));
                        proof {
                            assert(finding_views(out@) =~= finding_views(before).push(
                                (flag@, ctx.name@, ctx.direction),
                            ));
                        }
                    }
                },
                None => {},
            }
            i = i + 1;
        }
        proof {
            assert(matches@.take(matches@.len() as int) =~= matches@);
            lemma_findings_start_with_pattern(contexts, self.patterns(), haystack@, matches@);
            lemma_findings_from_matches(contexts, self.patterns(), haystack@, matches@);
            assert forall|k: int| #![trigger finding_views(out@)[k]] 0 <= k < out@.len() implies exists|m: PatternMatch|
                is_occurrence(expanded_patterns(codecs), haystack@, m)
                    && #[trigger] spec_candidate(contexts, self.patterns(), haystack@, m)
                    == Some(finding_views(out@)[k]) by {
                let i = choose|i: int|
                    0 <= i < matches@.len() && spec_candidate(contexts, self.patterns(), haystack@, #[trigger] matches@[i])
                        == Some(finding_views(out@)[k]);
                assert(is_occurrence(expanded_patterns(codecs), haystack@, matches@[i]));
            }
            assert forall|k: int| 0 <= k < out@.len() implies starts_with_any(self.patterns(), (#[trigger] out@[k]).0@) by {
                assert(finding_views(out@)[k].0 == out@[k].0@);
            }
            lemma_findings_cover_occurrences(
                contexts,
                self.patterns(),
                haystack@,
                expanded_patterns(codecs),
                matches@,
            );
        }
        out
    }
}

} // verus!
