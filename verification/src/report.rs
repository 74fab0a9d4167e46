//! What becomes of a finding: which findings are reported (strict mode,
//! recently seen flags) and how a finding's context is described.

use vstd::prelude::*;
use vstd::string::*;
use vstd::utf8::encode_utf8;
use crate::searcher::MatchDirection;
use crate::text::{ascii_chars, decimal_digits, push_decimal_chars};

verus! {

#[verifier::external_type_specification]
#[verifier::external_body]
#[verifier::reject_recursive_types(K)]
#[verifier::reject_recursive_types(V)]
#[verifier::reject_recursive_types(S)]
pub struct ExLruCache<K, V, S>(lru::LruCache<K, V, S>);

#[verifier::external_type_specification]
#[verifier::external_body]
pub struct ExDefaultHasher(lru::DefaultHasher);

/// The flags that a cache holds, the most recently used first.
pub uninterp spec fn lru_flags(cache: lru::LruCache<String, ()>) -> Seq<Seq<char>>;

/// The number of flags that a cache holds at most.
pub uninterp spec fn lru_capacity(cache: lru::LruCache<String, ()>) -> nat;

/// `LruCache::new` with a capacity of `cap` (made non-zero): an empty cache.
#[verifier::external_body]
fn new_flag_cache(cap: usize) -> (res: lru::LruCache<String, ()>)
    requires
        cap > 0,
    ensures
        lru_flags(res) == Seq::<Seq<char>>::empty(),
        lru_capacity(res) == cap,
{
    lru::LruCache::new(std::num::NonZeroUsize::new(cap).unwrap())
}

/// Whether a flag differs from `flag`.
pub open spec fn other_than(flag: Seq<char>) -> spec_fn(Seq<char>) -> bool {
    |k: Seq<char>| k != flag
}

/// The flags after a flag is put into a cache that holds at most `capacity`:
/// the flag comes first; a flag held already moves there, and a new one
/// pushes out the least recently used when the cache is full.
pub open spec fn lru_put(flags: Seq<Seq<char>>, capacity: nat, flag: Seq<char>) -> Seq<Seq<char>> {
    if flags.contains(flag) {
        seq![flag] + flags.filter(other_than(flag))
    } else if flags.len() >= capacity {
        seq![flag] + flags.drop_last()
    } else {
        seq![flag] + flags
    }
}

/// `LruCache::put` of the flag with `()`, answering whether it returned an
/// old value, that is whether the cache held the flag. A held flag moves to
/// the front (most recently used); a new one is put in front and, when the
/// cache is full, the least recently used one leaves. The cache holds no flag
/// twice and no more than its capacity.
#[verifier::external_body]
fn remember_flag(cache: &mut lru::LruCache<String, ()>, flag: String) -> (was_held: bool)
    ensures
        was_held == lru_flags(*old(cache)).contains(flag@),
        lru_capacity(*final(cache)) == lru_capacity(*old(cache)),
        lru_flags(*final(cache)) == lru_put(
            lru_flags(*old(cache)),
            lru_capacity(*old(cache)),
            flag@,
        ),
{
    cache.put(flag, ()).is_some()
}

/// The bytes end with the suffix.
pub open spec fn has_suffix(bytes: Seq<u8>, suffix: Seq<u8>) -> bool {
    suffix.len() <= bytes.len() && bytes.subrange(bytes.len() - suffix.len(), bytes.len() as int)
        == suffix
}

fn ends_with_str(s: &str, suffix: &str) -> (res: bool)
    ensures
        res == has_suffix(s.spec_bytes(), suffix.spec_bytes()),
{
    let bytes = s.as_bytes();
    let tail = suffix.as_bytes();
    if tail.len() > bytes.len() {
        return false;
    }
    let start = bytes.len() - tail.len();
    let mut i: usize = 0;
    while i < tail.len()
        invariant
            bytes@ == s.spec_bytes(),
            tail@ == suffix.spec_bytes(),
            start == bytes@.len() - tail@.len(),
            tail@.len() <= bytes@.len() <= usize::MAX,
            i <= tail@.len(),
            forall|j: int| 0 <= j < i ==> bytes@[start + j] == tail@[j],
        decreases tail@.len() - i,
    {
        if bytes[start + i] != tail[i] {
            proof {
                assert(bytes@.subrange(start as int, bytes@.len() as int)[i as int] != tail@[i as int]);
            }
            return false;
        }
        i = i + 1;
    }
    proof {
        assert(bytes@.subrange(start as int, bytes@.len() as int) =~= tail@);
    }
    true
}

/// Decides which findings are reported: in strict mode only flags that end
/// with the closing string, and (unless verbose) only flags that the cache of
/// recently reported flags does not hold.
pub struct FlagFilter {
    strict: bool,
    verbose: bool,
    closing: String,
    seen: lru::LruCache<String, ()>,
}

/// The mathematical value of a `FlagFilter`.
pub struct FilterView {
    pub strict: bool,
    pub verbose: bool,
    pub closing: Seq<char>,
    pub flags: Seq<Seq<char>>,
    pub capacity: nat,
}

impl View for FlagFilter {
    type V = FilterView;

    closed spec fn view(&self) -> FilterView {
        FilterView {
            strict: self.strict,
            verbose: self.verbose,
            closing: self.closing@,
            flags: lru_flags(self.seen),
            capacity: lru_capacity(self.seen),
        }
    }
}

/// How many recent flags are remembered: none but the last when verbose
/// (where nothing is looked up), ten thousand otherwise.
pub open spec fn cache_size(verbose: bool) -> nat {
    if verbose {
        1
    } else {
        10000
    }
}

/// Whether the strict test lets the flag through (outside strict mode it
/// always does): in strict mode the flag must end with the closing string.
pub open spec fn passes_strict(f: FilterView, flag: Seq<char>) -> bool {
    !(f.strict && !has_suffix(encode_utf8(flag), encode_utf8(f.closing)))
}

/// Whether a finding's flag is reported, and the filter after it.
pub open spec fn spec_should_report(f: FilterView, flag: Seq<char>) -> (FilterView, bool) {
    if !passes_strict(f, flag) {
        (f, false)
    } else if f.verbose {
        (f, true)
    } else {
        (FilterView { flags: lru_put(f.flags, f.capacity, flag), ..f }, !f.flags.contains(flag))
    }
}

impl FlagFilter {
    /// A filter that remembers no flag yet.
    pub fn new(strict: bool, verbose: bool, closing: String) -> (res: FlagFilter)
        ensures
            res@ == (FilterView {
                strict,
                verbose,
                closing: closing@,
                flags: Seq::empty(),
                capacity: cache_size(verbose),
            }),
    {
        let cap: usize = if verbose { 1 } else { 10000 };
        FlagFilter { strict, verbose, closing, seen: new_flag_cache(cap) }
    }

    /// Decides whether a finding's flag is reported, remembering it.
    pub fn should_report(&mut self, flag: &String) -> (report: bool)
        ensures
            (final(self)@, report) == spec_should_report(old(self)@, flag@),
    {
        if self.strict && !ends_with_str(flag.as_str(), self.closing.as_str()) {
            return false;
        }
        if self.verbose {
            return true;
        }
        let was_held = remember_flag(&mut self.seen, flag.clone());
        !was_held
    }
}

/// Unless verbose, a flag that has just been let through (or turned away) is
/// turned away when it comes again.
pub proof fn lemma_reported_once(f: FilterView, flag: Seq<char>)
    requires
        !f.verbose,
    ensures
        !spec_should_report(spec_should_report(f, flag).0, flag).1,
{
    let g = spec_should_report(f, flag).0;
    if passes_strict(f, flag) {
        let put = lru_put(f.flags, f.capacity, flag);
        assert(put[0] == flag);
        assert(g.flags.contains(flag));
    }
}

/// The decisions of a filter on flags that come one after the other, and the
/// filter after them.
pub open spec fn filter_run(f: FilterView, flags: Seq<Seq<char>>) -> (FilterView, Seq<bool>)
    decreases flags.len(),
{
    if flags.len() == 0 {
        (f, seq![])
    } else {
        let prev = filter_run(f, flags.drop_last());
        let next = spec_should_report(prev.0, flags.last());
        (next.0, prev.1.push(next.1))
    }
}

proof fn lemma_without_flag(s: Seq<Seq<char>>, x: Seq<char>)
    requires
        s.no_duplicates(),
    ensures
        s.filter(other_than(x)).no_duplicates(),
        forall|y: Seq<char>| #[trigger] s.filter(other_than(x)).contains(y) <==> (s.contains(y) && y != x),
    decreases s.len(),
{
    reveal(Seq::filter);
    if s.len() > 0 {
        let init = s.drop_last();
        let last = s.last();
        assert forall|i: int, j: int| 0 <= i < init.len() && 0 <= j < init.len() && i != j implies init[i] != init[j] by {
            assert(init[i] == s[i] && init[j] == s[j]);
        }
        lemma_without_flag(init, x);
        let sub = init.filter(other_than(x));
        assert(s.filter(other_than(x)) == (if other_than(x)(last) { sub.push(last) } else { sub }));
        assert(!init.contains(last)) by {
            if init.contains(last) {
                let i = choose|i: int| 0 <= i < init.len() && init[i] == last;
                assert(s[i] == s[s.len() - 1]);
            }
        }
        assert forall|y: Seq<char>| s.contains(y) <==> (init.contains(y) || y == last) by {
            if s.contains(y) {
                let i = choose|i: int| 0 <= i < s.len() && s[i] == y;
                if i < s.len() - 1 {
                    assert(init[i] == y);
                }
            }
            if init.contains(y) {
                let i = choose|i: int| 0 <= i < init.len() && init[i] == y;
                assert(s[i] == y);
            }
            if y == last {
                assert(s[s.len() - 1] == y);
            }
        }
        if other_than(x)(last) {
            let out = sub.push(last);
            assert(!sub.contains(last));
            assert forall|i: int, j: int| 0 <= i < out.len() && 0 <= j < out.len() && i != j implies out[i] != out[j] by {
                if i == sub.len() {
                    assert(sub[j] == out[j]);
                } else if j == sub.len() {
                    assert(sub[i] == out[i]);
                } else {
                    assert(out[i] == sub[i] && out[j] == sub[j]);
                }
            }
            assert forall|y: Seq<char>| out.contains(y) <==> (sub.contains(y) || y == last) by {
                if out.contains(y) {
                    let i = choose|i: int| 0 <= i < out.len() && out[i] == y;
                    if i < sub.len() {
                        assert(sub[i] == y);
                    }
                }
                if sub.contains(y) {
                    let i = choose|i: int| 0 <= i < sub.len() && sub[i] == y;
                    assert(out[i] == y);
                }
                if y == last {
                    assert(out[sub.len() as int] == y);
                }
            }
        }
    }
}

proof fn lemma_put_front(x: Seq<char>, s: Seq<Seq<char>>)
    requires
        s.no_duplicates(),
        !s.contains(x),
    ensures
        (seq![x] + s).no_duplicates(),
        forall|y: Seq<char>| #[trigger] (seq![x] + s).contains(y) <==> (s.contains(y) || y == x),
{
    let out = seq![x] + s;
    assert forall|i: int, j: int| 0 <= i < out.len() && 0 <= j < out.len() && i != j implies out[i] != out[j] by {
        if i == 0 {
            assert(out[j] == s[j - 1]);
        } else if j == 0 {
            assert(out[i] == s[i - 1]);
        } else {
            assert(out[i] == s[i - 1] && out[j] == s[j - 1]);
        }
    }
    assert forall|y: Seq<char>| out.contains(y) <==> (s.contains(y) || y == x) by {
        if out.contains(y) {
            let i = choose|i: int| 0 <= i < out.len() && out[i] == y;
            if i > 0 {
                assert(s[i - 1] == y);
            }
        }
        if s.contains(y) {
            let i = choose|i: int| 0 <= i < s.len() && s[i] == y;
            assert(out[i + 1] == y);
        }
        if y == x {
            assert(out[0] == y);
        }
    }
}

proof fn lemma_filter_run(f: FilterView, flags: Seq<Seq<char>>)
    requires
        !f.verbose,
        f.flags.no_duplicates(),
        (f.flags.to_set() + flags.to_set()).len() <= f.capacity,
    ensures
        filter_run(f, flags).0.strict == f.strict,
        filter_run(f, flags).0.verbose == f.verbose,
        filter_run(f, flags).0.closing == f.closing,
        filter_run(f, flags).0.capacity == f.capacity,
        filter_run(f, flags).0.flags.no_duplicates(),
        filter_run(f, flags).0.flags.to_set().subset_of(f.flags.to_set() + flags.to_set()),
        forall|y: Seq<char>| f.flags.contains(y) ==> #[trigger] filter_run(f, flags).0.flags.contains(y),
        forall|j: int|
            0 <= j < flags.len() && passes_strict(f, #[trigger] flags[j]) ==> filter_run(f, flags).0.flags.contains(flags[j]),
        filter_run(f, flags).1.len() == flags.len(),
        forall|j: int|
            0 <= j < flags.len() && #[trigger] filter_run(f, flags).1[j] ==> !f.flags.contains(flags[j])
                && forall|i: int| 0 <= i < j ==> flags[i] != flags[j],
    decreases flags.len(),
{
    broadcast use vstd::seq_lib::seq_to_set_is_finite;
    if flags.len() == 0 {
        return;
    }
    let init = flags.drop_last();
    let x = flags.last();
    let whole = f.flags.to_set() + flags.to_set();
    assert(x == flags[flags.len() - 1]);
    assert(flags.to_set().contains(x));
    assert((f.flags.to_set() + init.to_set()).subset_of(whole)) by {
        assert forall|y: Seq<char>| init.to_set().contains(y) implies flags.to_set().contains(y) by {
            let i = choose|i: int| 0 <= i < init.len() && init[i] == y;
            assert(flags[i] == y);
        }
    }
    vstd::set_lib::lemma_len_subset(f.flags.to_set() + init.to_set(), whole);
    lemma_filter_run(f, init);
    let g = filter_run(f, init).0;
    let reps = filter_run(f, init).1;
    let h = spec_should_report(g, x);
    assert(filter_run(f, flags) == (h.0, reps.push(h.1)));
    assert(passes_strict(g, x) == passes_strict(f, x));
    assert forall|j: int| 0 <= j < init.len() implies flags[j] == #[trigger] init[j] by {}
    if passes_strict(f, x) {
        if g.flags.contains(x) {
            lemma_without_flag(g.flags, x);
            lemma_put_front(x, g.flags.filter(other_than(x)));
            assert(h.0.flags == seq![x] + g.flags.filter(other_than(x)));
        } else {
            g.flags.unique_seq_to_set();
            assert(g.flags.to_set().insert(x).subset_of(whole));
            vstd::set_lib::lemma_len_subset(g.flags.to_set().insert(x), whole);
            assert(g.flags.len() < f.capacity);
            lemma_put_front(x, g.flags);
            assert(h.0.flags == seq![x] + g.flags);
        }
    }
    let out = filter_run(f, flags).1;
    assert forall|j: int| 0 <= j < flags.len() && #[trigger] out[j] implies !f.flags.contains(flags[j])
        && forall|i: int| 0 <= i < j ==> flags[i] != flags[j] by {
        if j < init.len() {
            assert(out[j] == reps[j]);
            assert forall|i: int| 0 <= i < j implies flags[i] != flags[j] by {
                assert(init[i] == flags[i] && init[j] == flags[j]);
            }
        } else {
            assert(out[j] == h.1);
            assert(passes_strict(f, x) && !g.flags.contains(x));
            if f.flags.contains(x) {
                assert(filter_run(f, init).0.flags.contains(x));
            }
            assert forall|i: int| 0 <= i < j implies flags[i] != flags[j] by {
                if flags[i] == flags[j] {
                    assert(init[i] == x);
                    assert(passes_strict(f, init[i]));
                }
            }
        }
    }
    assert forall|j: int| 0 <= j < flags.len() && passes_strict(f, #[trigger] flags[j]) implies filter_run(f, flags).0.flags.contains(flags[j]) by {
        if j < init.len() {
            assert(g.flags.contains(init[j]));
        }
    }
    assert(filter_run(f, flags).0.flags.to_set().subset_of(whole)) by {
        assert forall|y: Seq<char>| filter_run(f, flags).0.flags.to_set().contains(y) implies whole.contains(y) by {
            assert(filter_run(f, flags).0.flags.contains(y));
            if y != x {
                assert(g.flags.contains(y));
                assert(g.flags.to_set().contains(y));
            }
        }
    }
}

/// Unless verbose, no flag is reported twice while the flags that the filter
/// holds and the flags that come, each counted once, fit in its capacity: a
/// flag that is reported is neither held by the filter already nor equal to
/// one that came before it. The filter keeps holding no flag twice.
pub proof fn lemma_no_flag_reported_twice(f: FilterView, flags: Seq<Seq<char>>)
    requires
        !f.verbose,
        f.flags.no_duplicates(),
        (f.flags.to_set() + flags.to_set()).len() <= f.capacity,
    ensures
        filter_run(f, flags).0.flags.no_duplicates(),
        forall|j: int|
            0 <= j < flags.len() && #[trigger] filter_run(f, flags).1[j] ==> !f.flags.contains(flags[j])
                && forall|i: int| 0 <= i < j ==> flags[i] != flags[j],
{
    lemma_filter_run(f, flags);
}

/// When verbose, every flag that passes the strict test is reported, repeats
/// included.
pub proof fn lemma_verbose_reports_all(f: FilterView, flags: Seq<Seq<char>>)
    requires
        f.verbose,
    ensures
        filter_run(f, flags).0 == f,
        filter_run(f, flags).1.len() == flags.len(),
        forall|j: int| 0 <= j < flags.len() ==> #[trigger] filter_run(f, flags).1[j] == passes_strict(f, flags[j]),
    decreases flags.len(),
{
    if flags.len() > 0 {
        lemma_verbose_reports_all(f, flags.drop_last());
        let out = filter_run(f, flags).1;
        let prev = filter_run(f, flags.drop_last()).1;
        assert forall|j: int| 0 <= j < flags.len() implies #[trigger] out[j] == passes_strict(f, flags[j]) by {
            if j < flags.len() - 1 {
                assert(out[j] == prev[j]);
                assert(flags.drop_last()[j] == flags[j]);
            }
        }
    }
}

/// Where a finding was made: the decoder, the direction, and the pile.
pub struct FlagContext {
    pub decoder_name: String,
    pub match_direction: MatchDirection,
    pub offset: usize,
    pub stride: usize,
}

/// The description of a finding's context: the pile (when strided), the
/// direction (when backwards) and the decoder.
pub open spec fn spec_describe(name: Seq<char>, direction: MatchDirection, offset: usize, stride: usize) -> Seq<char> {
    let pile = if stride != 1 {
        "["@ + ascii_chars(decimal_digits(offset as nat)) + "::"@ + ascii_chars(
            decimal_digits(stride as nat),
        ) + "]"@
    } else {
        Seq::empty()
    };
    let reversed = if direction == MatchDirection::Backward {
        "[::-1]"@
    } else {
        Seq::empty()
    };
    "Match found in stream"@ + pile + reversed + " with decoder "@ + name
}

/// Whatever the pile, a backwards finding is described as the forwards one
/// with `[::-1]` put right before ` with decoder ` and the decoder's name,
/// with which every description ends; an unstrided forwards finding is
/// described with nothing between `Match found in stream` and that ending.
pub proof fn lemma_describe_marks_backwards(name: Seq<char>, offset: usize, stride: usize)
    ensures
        ({
            let suffix = " with decoder "@ + name;
            let fwd = spec_describe(name, MatchDirection::Forward, offset, stride);
            let bwd = spec_describe(name, MatchDirection::Backward, offset, stride);
            &&& suffix.len() <= fwd.len()
            &&& fwd.skip(fwd.len() - suffix.len()) == suffix
            &&& bwd == fwd.take(fwd.len() - suffix.len()) + "[::-1]"@ + suffix
            &&& bwd.len() == fwd.len() + 6
            &&& stride == 1 ==> fwd == "Match found in stream"@ + suffix
        }),
{
    reveal_strlit("[::-1]");
    let suffix = " with decoder "@ + name;
    let fwd = spec_describe(name, MatchDirection::Forward, offset, stride);
    let pile = if stride != 1 {
        "["@ + ascii_chars(decimal_digits(offset as nat)) + "::"@ + ascii_chars(decimal_digits(stride as nat))
            + "]"@
    } else {
        Seq::empty()
    };
    let head = "Match found in stream"@ + pile;
    assert(fwd =~= head + suffix);
    assert(fwd.skip(fwd.len() - suffix.len()) =~= suffix);
    assert(fwd.take(fwd.len() - suffix.len()) =~= head);
    assert(spec_describe(name, MatchDirection::Backward, offset, stride) =~= head + "[::-1]"@ + suffix);
    if stride == 1 {
        assert(head =~= "Match found in stream"@);
    }
}

impl FlagContext {
    /// Describes where the finding was made.
    pub fn describe(&self) -> (res: String)
        ensures
            res@ == spec_describe(self.decoder_name@, self.match_direction, self.offset, self.stride),
    {
        let mut out = String::from_str("Match found in stream");
        let ghost start = out@;
        if self.stride != 1 {
            out.append("[");
            push_decimal_chars(&mut out, self.offset as u64);
            out.append("::");
            push_decimal_chars(&mut out, self.stride as u64);
            out.append("]");
        }
        let ghost after_pile = out@;
        if self.match_direction == MatchDirection::Backward {
            out.append("[::-1]");
        }
        out.append(" with decoder ");
        out.append(self.decoder_name.as_str());
        proof {
            assert(out@ =~= spec_describe(self.decoder_name@, self.match_direction, self.offset, self.stride));
        }
        out
    }
}

} // verus!
