//! Exact substring search over raw bytes: Rabin-Karp, Knuth-Morris-Pratt and Boyer-Moore.
//!
//! All three functions return the same thing, [`occurrences`]: every byte offset at which the
//! pattern occurs in the text, overlapping occurrences included, in ascending order.

use vstd::prelude::*;
use vstd::arithmetic::div_mod::lemma_mul_mod_noop_right;
use vstd::string::StringSliceAdditionalSpecFns;

verus! {

/// `pattern` occurs in `text` starting at byte offset `at`.
pub open spec fn occurs_at(text: Seq<u8>, pattern: Seq<u8>, at: int) -> bool {
    &&& 0 <= at
    &&& at + pattern.len() <= text.len()
    &&& text.subrange(at, at + pattern.len()) == pattern
}

/// The offsets below `bound` at which `pattern` occurs in `text`, in ascending order.
pub open spec fn occurrences_before(text: Seq<u8>, pattern: Seq<u8>, bound: nat) -> Seq<usize>
    decreases bound,
{
    if bound == 0 {
        Seq::empty()
    } else {
        let earlier = occurrences_before(text, pattern, (bound - 1) as nat);
        if occurs_at(text, pattern, bound - 1) {
            earlier.push((bound - 1) as usize)
        } else {
            earlier
        }
    }
}

/// Every offset at which a non-empty `pattern` occurs in `text`, in ascending order;
/// empty when `pattern` is empty or longer than `text`.
pub open spec fn occurrences(text: Seq<u8>, pattern: Seq<u8>) -> Seq<usize> {
    if pattern.len() == 0 || pattern.len() > text.len() {
        Seq::empty()
    } else {
        occurrences_before(text, pattern, (text.len() - pattern.len() + 1) as nat)
    }
}

/// An occurrence at `at` means the two sequences agree byte by byte, and conversely.
pub proof fn lemma_occurs_at_pointwise(text: Seq<u8>, pattern: Seq<u8>, at: int)
    ensures
        occurs_at(text, pattern, at) <==> (0 <= at && at + pattern.len() <= text.len()
            && forall|k: int| 0 <= k < pattern.len() ==> text[at + k] == #[trigger] pattern[k]),
{
    if 0 <= at && at + pattern.len() <= text.len() {
        let window = text.subrange(at, at + pattern.len());
        if window == pattern {
            assert forall|k: int| 0 <= k < pattern.len() implies text[at + k]
                == #[trigger] pattern[k] by {
                assert(window[k] == text[at + k]);
            }
        }
        if forall|k: int| 0 <= k < pattern.len() ==> text[at + k] == #[trigger] pattern[k] {
            assert(window =~= pattern);
        }
    }
}

/// Offsets in `[from, to)` that hold no occurrence add nothing to the list.
pub proof fn lemma_occurrences_skip(text: Seq<u8>, pattern: Seq<u8>, from: nat, to: nat)
    requires
        from <= to,
        forall|at: int| from <= at < to ==> !occurs_at(text, pattern, at),
    ensures
        occurrences_before(text, pattern, to) == occurrences_before(text, pattern, from),
    decreases to,
{
    if from < to {
        lemma_occurrences_skip(text, pattern, from, (to - 1) as nat);
    }
}

/// The list holds exactly the occurrences below the bound, each once, in ascending order.
pub proof fn lemma_occurrences_before_exact(text: Seq<u8>, pattern: Seq<u8>, bound: nat)
    requires
        bound <= usize::MAX + 1,
    ensures
        forall|i: int|
            0 <= i < occurrences_before(text, pattern, bound).len() ==> {
                let at = #[trigger] occurrences_before(text, pattern, bound)[i];
                at < bound && occurs_at(text, pattern, at as int)
            },
        forall|i: int, j: int|
            0 <= i < j < occurrences_before(text, pattern, bound).len()
                ==> occurrences_before(text, pattern, bound)[i] < occurrences_before(
                text,
                pattern,
                bound,
            )[j],
        forall|at: int|
            0 <= at < bound && occurs_at(text, pattern, at) ==> occurrences_before(
                text,
                pattern,
                bound,
            ).contains(at as usize),
    decreases bound,
{
    let list = occurrences_before(text, pattern, bound);
    if bound > 0 {
        let earlier = occurrences_before(text, pattern, (bound - 1) as nat);
        lemma_occurrences_before_exact(text, pattern, (bound - 1) as nat);
        assert forall|at: int| 0 <= at < bound && occurs_at(text, pattern, at) implies list.contains(
            at as usize,
        ) by {
            if at == bound - 1 {
                assert(list[earlier.len() as int] == at as usize);
            } else {
                let i = choose|i: int| 0 <= i < earlier.len() && earlier[i] == at as usize;
                assert(list[i] == at as usize);
            }
        }
    }
}

/// Compares the window of `text` that starts at `at` with `pattern`, byte by byte.
fn window_equals(text: &[u8], pattern: &[u8], at: usize) -> (same: bool)
    requires
        at + pattern@.len() <= text@.len(),
    ensures
        same == occurs_at(text@, pattern@, at as int),
{
    let n = text.len();
    let m = pattern.len();
    let mut k: usize = 0;
    while k < m
        invariant
            m == pattern@.len(),
            n == text@.len(),
            at + m <= n,
            k <= m,
            forall|t: int| 0 <= t < k ==> text@[at + t] == #[trigger] pattern@[t],
        decreases m - k,
    {
        if text[at + k] != pattern[k] {
            proof {
                lemma_occurs_at_pointwise(text@, pattern@, at as int);
            }
            return false;
        }
        k += 1;
    }
    proof {
        lemma_occurs_at_pointwise(text@, pattern@, at as int);
    }
    true
}

/// The number that a byte string spells in base 256, most significant byte first.
spec fn radix_value(s: Seq<u8>) -> int
    decreases s.len(),
{
    if s.len() == 0 {
        0
    } else {
        256 * radix_value(s.drop_last()) + s.last() as int
    }
}

/// 256 to the power `k`.
spec fn radix_weight(k: nat) -> int
    decreases k,
{
    if k == 0 {
        1
    } else {
        256 * radix_weight((k - 1) as nat)
    }
}

/// The fingerprint that Rabin-Karp compares: the base-256 value modulo the prime 107.
spec fn fingerprint(s: Seq<u8>) -> int {
    radix_value(s) % 107
}

proof fn lemma_radix_value_split_first(s: Seq<u8>)
    requires
        s.len() > 0,
    ensures
        radix_value(s) == s[0] * radix_weight((s.len() - 1) as nat) + radix_value(
            s.subrange(1, s.len() as int),
        ),
    decreases s.len(),
{
    let rest = s.subrange(1, s.len() as int);
    if s.len() == 1 {
        assert(radix_value(s.drop_last()) == 0);
        assert(radix_value(rest) == 0);
    } else {
        lemma_radix_value_split_first(s.drop_last());
        assert(s.drop_last().subrange(1, s.len() - 1) =~= rest.drop_last());
        assert(rest.last() == s.last());
        assert(s.drop_last()[0] == s[0]);
        let w = radix_weight((s.len() - 2) as nat);
        assert(256 * (s[0] * w) == s[0] * (256 * w)) by (nonlinear_arith);
    }
}

proof fn lemma_append_arithmetic(value: int, incoming: int)
    ensures
        (256 * (value % 107) + incoming) % 107 == (256 * value + incoming) % 107,
{
}

proof fn lemma_roll_arithmetic(lead: int, rest: int, incoming: int)
    ensures
        (256 * rest + incoming) % 107 == (256 * ((lead + rest) % 107 + 107 - lead % 107)
            + incoming) % 107,
{
}

/// Sliding the window one byte to the right changes the fingerprint as the rolling update does.
proof fn lemma_fingerprint_roll(text: Seq<u8>, at: int, m: int, high: int)
    requires
        0 <= at,
        1 <= m,
        at + m < text.len(),
        high == radix_weight((m - 1) as nat) % 107,
    ensures
        fingerprint(text.subrange(at + 1, at + m + 1)) == (256 * (fingerprint(
            text.subrange(at, at + m),
        ) + 107 - (text[at] * high) % 107) + text[at + m]) % 107,
{
    let old_window = text.subrange(at, at + m);
    let new_window = text.subrange(at + 1, at + m + 1);
    let middle = old_window.subrange(1, m);
    lemma_radix_value_split_first(old_window);
    assert(new_window.drop_last() =~= middle);
    assert(new_window.last() == text[at + m]);
    assert(old_window[0] == text[at]);
    let weight = radix_weight((m - 1) as nat);
    lemma_mul_mod_noop_right(text[at] as int, weight, 107);
    lemma_roll_arithmetic(text[at] * weight, radix_value(middle), text[at + m] as int);
}

/// Rabin-Karp search: compares a rolling fingerprint of each window of `text` with that of
/// `pattern`, and confirms every fingerprint hit byte by byte.
pub fn rabin_karp(text: &str, pattern: &str) -> (found: Vec<usize>)
    ensures
        found@ == occurrences(text.spec_bytes(), pattern.spec_bytes()),
{
    let d: u64 = 256;
    let q: u64 = 107;
    let text_bytes = text.as_bytes();
    let pattern_bytes = pattern.as_bytes();
    let n = text_bytes.len();
    let m = pattern_bytes.len();

    let mut found: Vec<usize> = Vec::new();

    if m == 0 || m > n {
        return found;
    }
    let mut d_m: u64 = 1;
    let mut k: usize = 0;
    while k < m - 1
        invariant
            1 <= m,
            k <= m - 1,
            d == 256,
            q == 107,
            d_m == radix_weight(k as nat) % 107,
        decreases m - 1 - k,
    {
        proof {
            lemma_append_arithmetic(radix_weight(k as nat), 0);
        }
        d_m = (d_m * d) % q;
        k += 1;
    }

    let mut h: u64 = 0;
    let mut h_t: u64 = 0;
    let mut i: usize = 0;
    while i < m
        invariant
            i <= m <= n,
            n == text_bytes@.len(),
            m == pattern_bytes@.len(),
            d == 256,
            q == 107,
            h == fingerprint(pattern_bytes@.subrange(0, i as int)),
            h_t == fingerprint(text_bytes@.subrange(0, i as int)),
        decreases m - i,
    {
        proof {
            let pattern_prefix = pattern_bytes@.subrange(0, i as int);
            let text_prefix = text_bytes@.subrange(0, i as int);
            assert(pattern_bytes@.subrange(0, i + 1).drop_last() =~= pattern_prefix);
            assert(text_bytes@.subrange(0, i + 1).drop_last() =~= text_prefix);
            lemma_append_arithmetic(radix_value(pattern_prefix), pattern_bytes@[i as int] as int);
            lemma_append_arithmetic(radix_value(text_prefix), text_bytes@[i as int] as int);
        }
        h = (d * h + pattern_bytes[i] as u64) % q;
        h_t = (d * h_t + text_bytes[i] as u64) % q;
        i += 1;
    }
    assert(pattern_bytes@.subrange(0, m as int) =~= pattern_bytes@);

    let mut s: usize = 0;
    while s <= n - m
        invariant
            1 <= m <= n,
            n == text_bytes@.len(),
            m == pattern_bytes@.len(),
            s <= n - m + 1,
            d == 256,
            q == 107,
            d_m == radix_weight((m - 1) as nat) % 107,
            h == fingerprint(pattern_bytes@),
            s <= n - m ==> h_t == fingerprint(text_bytes@.subrange(s as int, s + m)),
            found@ == occurrences_before(text_bytes@, pattern_bytes@, s as nat),
        decreases n - m + 1 - s,
    {
        if h == h_t {
            if window_equals(text_bytes, pattern_bytes, s) {
                found.push(s);
            }
        }
        if s < n - m {
            proof {
                lemma_fingerprint_roll(text_bytes@, s as int, m as int, d_m as int);
            }
            assert(text_bytes@[s as int] * d_m <= 255 * 106) by (nonlinear_arith)
                requires
                    text_bytes@[s as int] <= 255,
                    d_m <= 106,
            ;
            let lead: u64 = (text_bytes[s] as u64 * d_m) % q;
            h_t = (d * (h_t + q - lead) + text_bytes[s + m] as u64) % q;
        }
        s += 1;
    }
    found
}

/// The first `len` bytes of `p` equal the `len` bytes that end just before `upto`.
spec fn is_border(p: Seq<u8>, upto: int, len: int) -> bool {
    &&& 0 <= len <= upto <= p.len()
    &&& forall|t: int| 0 <= t < len ==> #[trigger] p[t] == p[upto - len + t]
}

/// `len` is the length of the longest border of the first `upto` bytes of `p` that is shorter
/// than those `upto` bytes.
spec fn is_longest_proper_border(p: Seq<u8>, upto: int, len: int) -> bool {
    &&& len < upto
    &&& is_border(p, upto, len)
    &&& no_proper_border_above(p, upto, len)
}

/// The first `upto` bytes of `p` have no border longer than `len` and shorter than `upto`.
spec fn no_proper_border_above(p: Seq<u8>, upto: int, len: int) -> bool {
    forall|b: int| len < b < upto ==> !#[trigger] is_border(p, upto, b)
}

/// For every `k < count`, `table[k]` is the length of the longest proper border of the first
/// `k + 1` bytes of `p`.
spec fn is_failure_table(p: Seq<u8>, table: Seq<usize>, count: int) -> bool {
    forall|k: int|
        0 <= k < count ==> is_longest_proper_border(p, k + 1, #[trigger] table[k] as int)
}

proof fn lemma_border_shrink(p: Seq<u8>, upto: int, len: int)
    requires
        is_border(p, upto + 1, len),
        len >= 1,
    ensures
        is_border(p, upto, len - 1),
{
    assert forall|t: int| 0 <= t < len - 1 implies #[trigger] p[t] == p[upto - (len - 1) + t] by {
        assert(p[t] == p[upto + 1 - len + t]);
    }
}

proof fn lemma_border_of_border(p: Seq<u8>, upto: int, outer: int, inner: int)
    requires
        is_border(p, upto, outer),
        is_border(p, outer, inner),
    ensures
        is_border(p, upto, inner),
{
    assert forall|t: int| 0 <= t < inner implies #[trigger] p[t] == p[upto - inner + t] by {
        assert(p[t] == p[outer - inner + t]);
        assert(p[outer - inner + t] == p[upto - outer + (outer - inner + t)]);
    }
}

proof fn lemma_border_within_border(p: Seq<u8>, upto: int, outer: int, inner: int)
    requires
        is_border(p, upto, outer),
        is_border(p, upto, inner),
        inner <= outer,
    ensures
        is_border(p, outer, inner),
{
    assert forall|t: int| 0 <= t < inner implies #[trigger] p[t] == p[outer - inner + t] by {
        assert(p[t] == p[upto - inner + t]);
        assert(p[outer - inner + t] == p[upto - outer + (outer - inner + t)]);
    }
}

/// Builds the failure table of `pattern`: for each position, the length of the longest proper
/// prefix of the pattern up to that position that is also its suffix.
fn failure_table(pattern: &[u8]) -> (table: Vec<usize>)
    requires
        pattern@.len() >= 1,
    ensures
        table@.len() == pattern@.len(),
        is_failure_table(pattern@, table@, pattern@.len() as int),
{
    let m = pattern.len();
    let mut lps: Vec<usize> = vec![0usize; m];
    let mut len: usize = 0;
    let mut i: usize = 1;
    while i < m
        invariant
            1 <= i <= m,
            m == pattern@.len(),
            lps@.len() == m,
            is_failure_table(pattern@, lps@, i as int),
            forall|k: int| i <= k < m ==> lps@[k] == 0,
            len == lps@[i - 1],
        decreases m - i,
    {
        proof {
            let next = i + 1;
            assert forall|b: int| len + 1 < b < next implies !#[trigger] is_border(
                pattern@,
                next,
                b,
            ) by {
                if is_border(pattern@, next, b) {
                    lemma_border_shrink(pattern@, i as int, b);
                    assert(is_longest_proper_border(pattern@, i - 1 + 1, lps@[i - 1] as int));
                }
            }
        }
        while len > 0 && pattern[i] != pattern[len]
            invariant
                1 <= i < m,
                m == pattern@.len(),
                lps@.len() == m,
                len < i,
                is_failure_table(pattern@, lps@, i as int),
                is_border(pattern@, i as int, len as int),
                no_proper_border_above(pattern@, i + 1, len + 1),
            decreases len,
        {
            let shorter = lps[len - 1];
            proof {
                let p = pattern@;
                let next = i + 1;
                assert(is_longest_proper_border(p, len - 1 + 1, lps@[len - 1] as int));
                lemma_border_of_border(p, i as int, len as int, shorter as int);
                assert forall|b: int| shorter + 1 < b < next implies !#[trigger] is_border(
                    p,
                    next,
                    b,
                ) by {
                    if is_border(p, next, b) {
                        if b == len + 1 {
                            assert(p[len as int] == p[next - b + len]);
                        } else if b <= len {
                            lemma_border_shrink(p, i as int, b);
                            lemma_border_within_border(p, i as int, len as int, b - 1);
                        }
                    }
                }
            }
            len = shorter;
        }
        if pattern[i] == pattern[len] {
            len += 1;
            lps[i] = len;
            proof {
                let p = pattern@;
                assert forall|t: int| 0 <= t < len implies #[trigger] p[t] == p[i + 1 - len + t] by {
                    if t < len - 1 {
                        assert(p[t] == p[i - (len - 1) + t]);
                    }
                }
                assert(is_longest_proper_border(p, i + 1, len as int));
            }
        } else {
            proof {
                let p = pattern@;
                let next = i + 1;
                assert forall|b: int| 0 < b < next implies !#[trigger] is_border(p, next, b) by {
                    if is_border(p, next, b) && b == 1 {
                        assert(p[0] == p[next - 1 + 0]);
                    }
                }
                assert(is_longest_proper_border(p, next, 0));
            }
        }
        i += 1;
    }
    lps
}

/// While the last `matched` bytes of the text before `upto` spell the first `matched` bytes of
/// the pattern, no occurrence starts strictly between the start of that stretch and the start
/// of its longest border.
proof fn lemma_no_occurrence_between(
    text: Seq<u8>,
    pattern: Seq<u8>,
    table: Seq<usize>,
    upto: int,
    matched: int,
)
    requires
        1 <= matched <= pattern.len(),
        matched <= upto <= text.len(),
        table.len() == pattern.len(),
        is_failure_table(pattern, table, pattern.len() as int),
        forall|t: int| 0 <= t < matched ==> text[upto - matched + t] == #[trigger] pattern[t],
    ensures
        forall|at: int|
            upto - matched < at < upto - table[matched - 1] ==> !occurs_at(text, pattern, at),
{
    assert forall|at: int| upto - matched < at < upto - table[matched - 1] implies !occurs_at(
        text,
        pattern,
        at,
    ) by {
        if occurs_at(text, pattern, at) {
            lemma_occurs_at_pointwise(text, pattern, at);
            let b = upto - at;
            assert forall|t: int| 0 <= t < b implies #[trigger] pattern[t] == pattern[matched - b
                + t] by {
                assert(text[at + t] == pattern[t]);
                assert(text[upto - matched + (matched - b + t)] == pattern[matched - b + t]);
            }
            assert(is_border(pattern, matched, b));
            assert(is_longest_proper_border(pattern, matched - 1 + 1, table[matched - 1] as int));
        }
    }
}

/// Knuth-Morris-Pratt search: scans `text` once, falling back through the failure table of
/// `pattern` on a mismatch instead of rescanning.
pub fn kmp(text: &str, pattern: &str) -> (found: Vec<usize>)
    ensures
        found@ == occurrences(text.spec_bytes(), pattern.spec_bytes()),
{
    let text_bytes = text.as_bytes();
    let pattern_bytes = pattern.as_bytes();
    let n = text_bytes.len();
    let m = pattern_bytes.len();
    let mut found: Vec<usize> = Vec::new();

    if m == 0 || m > n {
        return found;
    }
    let lps = failure_table(pattern_bytes);

    let mut i: usize = 0;
    let mut j: usize = 0;
    while i < n
        invariant
            1 <= m <= n,
            n == text_bytes@.len(),
            m == pattern_bytes@.len(),
            lps@.len() == m,
            is_failure_table(pattern_bytes@, lps@, m as int),
            j < m,
            j <= i <= n,
            forall|t: int| 0 <= t < j ==> text_bytes@[i - j + t] == #[trigger] pattern_bytes@[t],
            found@ == occurrences_before(text_bytes@, pattern_bytes@, (i - j) as nat),
        decreases 2 * (n - i) + j,
    {
        let ghost t = text_bytes@;
        let ghost p = pattern_bytes@;
        if text_bytes[i] == pattern_bytes[j] {
            i += 1;
            j += 1;
        }
        if j == m {
            proof {
                lemma_occurs_at_pointwise(t, p, i - j);
                lemma_no_occurrence_between(t, p, lps@, i as int, j as int);
                lemma_occurrences_skip(t, p, (i - j + 1) as nat, (i - lps@[j - 1]) as nat);
            }
            found.push(i - j);
            j = lps[j - 1];
        } else if i < n && text_bytes[i] != pattern_bytes[j] {
            proof {
                lemma_occurs_at_pointwise(t, p, i - j);
                assert(!occurs_at(t, p, i - j)) by {
                    if occurs_at(t, p, i - j) {
                        assert(t[i - j + j] == p[j as int]);
                    }
                }
            }
            if j != 0 {
                proof {
                    lemma_no_occurrence_between(t, p, lps@, i as int, j as int);
                    lemma_occurrences_skip(t, p, (i - j) as nat, (i - lps@[j - 1]) as nat);
                }
                j = lps[j - 1];
            } else {
                i += 1;
            }
        }
    }
    proof {
        lemma_occurrences_skip(text_bytes@, pattern_bytes@, (n - m + 1) as nat, (n - j) as nat);
    }
    found
}

/// `shift` is the distance from the last byte of `p` back to the last of its first `seen`
/// bytes that equals `byte`, or the length of `p` when none of them does.
spec fn is_shift_for(p: Seq<u8>, seen: int, byte: int, shift: int) -> bool {
    let last = p.len() - 1 - shift;
    &&& 1 <= shift <= p.len()
    &&& shift < p.len() ==> last < seen && p[last] == byte
    &&& forall|k: int| last < k < seen ==> #[trigger] p[k] != byte
}

/// `table` gives, for every byte value, its shift with respect to the first `seen` bytes of `p`.
spec fn is_shift_table(p: Seq<u8>, seen: int, table: Seq<usize>) -> bool {
    &&& table.len() == 256
    &&& forall|byte: int| 0 <= byte < 256 ==> is_shift_for(p, seen, byte, #[trigger] table[byte] as int)
}

/// Builds the bad-character table of `pattern`: for every byte value, how far its last
/// occurrence before the final byte lies from the end, or the pattern's length if it has none.
fn bad_character_table(pattern: &[u8]) -> (table: Vec<usize>)
    requires
        pattern@.len() >= 1,
    ensures
        is_shift_table(pattern@, pattern@.len() - 1, table@),
{
    let m = pattern.len();
    let mut bad_char: Vec<usize> = vec![m; 256];
    let mut i: usize = 0;
    while i < m - 1
        invariant
            1 <= m == pattern@.len(),
            i <= m - 1,
            is_shift_table(pattern@, i as int, bad_char@),
        decreases m - 1 - i,
    {
        let byte = pattern[i];
        let ghost before = bad_char@;
        bad_char[byte as usize] = m - 1 - i;
        proof {
            assert forall|other: int| 0 <= other < 256 implies is_shift_for(
                pattern@,
                i + 1,
                other,
                #[trigger] bad_char@[other] as int,
            ) by {
                assert(is_shift_for(pattern@, i as int, other, before[other] as int));
            }
        }
        i += 1;
    }
    bad_char
}

/// Boyer-Moore search with the bad-character rule: compares each window right to left and, on
/// a mismatch, moves the window so that the last earlier occurrence of the offending text byte
/// in `pattern` comes to lie under it, by one position at least.
pub fn boyer_moore(text: &str, pattern: &str) -> (found: Vec<usize>)
    ensures
        found@ == occurrences(text.spec_bytes(), pattern.spec_bytes()),
{
    let text_bytes = text.as_bytes();
    let pattern_bytes = pattern.as_bytes();
    let n = text_bytes.len();
    let m = pattern_bytes.len();
    let mut found: Vec<usize> = Vec::new();

    if m == 0 || m > n {
        return found;
    }
    let bad_char = bad_character_table(pattern_bytes);

    let mut i: usize = 0;
    while i <= n - m
        invariant
            1 <= m <= n,
            n == text_bytes@.len(),
            m == pattern_bytes@.len(),
            i <= n,
            is_shift_table(pattern_bytes@, m - 1, bad_char@),
            found@ == occurrences_before(text_bytes@, pattern_bytes@, i as nat),
        decreases n - i,
    {
        let ghost t = text_bytes@;
        let ghost p = pattern_bytes@;
        let mut j: usize = m;
        while j > 0 && pattern_bytes[j - 1] == text_bytes[i + (j - 1)]
            invariant
                j <= m <= n,
                i <= n - m,
                n == text_bytes@.len(),
                m == pattern_bytes@.len(),
                forall|k: int| j <= k < m ==> text_bytes@[i + k] == #[trigger] pattern_bytes@[k],
            decreases j,
        {
            j -= 1;
        }
        proof {
            lemma_occurs_at_pointwise(t, p, i as int);
        }
        if j == 0 {
            found.push(i);
            i += 1;
        } else {
            let offending = text_bytes[i + (j - 1)];
            let shift = bad_char[offending as usize];
            let matched = m - j;
            let step = if shift > matched {
                shift - matched
            } else {
                1
            };
            proof {
                assert(is_shift_for(p, m - 1, offending as int, bad_char@[offending as int] as int));
                assert(!occurs_at(t, p, i as int)) by {
                    if occurs_at(t, p, i as int) {
                        assert(t[i + (j - 1)] == p[j - 1]);
                    }
                }
                assert forall|at: int| i <= at < i + step implies !occurs_at(t, p, at) by {
                    if at > i && occurs_at(t, p, at) {
                        lemma_occurs_at_pointwise(t, p, at);
                        let k = j - 1 - (at - i);
                        assert(t[at + k] == p[k]);
                    }
                }
                lemma_occurrences_skip(t, p, i as nat, (i + step) as nat);
            }
            i += step;
        }
    }
    proof {
        lemma_occurrences_skip(text_bytes@, pattern_bytes@, (n - m + 1) as nat, i as nat);
    }
    found
}

/// The three searches agree: whatever each of them returns for one text and one pattern is
/// the same list, which is strictly ascending and holds exactly the offsets of the occurrences.
pub proof fn lemma_searches_agree(
    text: Seq<u8>,
    pattern: Seq<u8>,
    by_rabin_karp: Seq<usize>,
    by_kmp: Seq<usize>,
    by_boyer_moore: Seq<usize>,
)
    requires
        text.len() <= usize::MAX,
        by_rabin_karp == occurrences(text, pattern),
        by_kmp == occurrences(text, pattern),
        by_boyer_moore == occurrences(text, pattern),
    ensures
        by_rabin_karp == by_kmp,
        by_kmp == by_boyer_moore,
        forall|i: int, j: int| 0 <= i < j < by_kmp.len() ==> by_kmp[i] < by_kmp[j],
        forall|i: int| 0 <= i < by_kmp.len() ==> occurs_at(text, pattern, #[trigger] by_kmp[i] as int),
        forall|at: int|
            pattern.len() > 0 && occurs_at(text, pattern, at) ==> by_kmp.contains(at as usize),
{
    if pattern.len() > 0 && pattern.len() <= text.len() {
        lemma_occurrences_before_exact(text, pattern, (text.len() - pattern.len() + 1) as nat);
    }
}

} // verus!
