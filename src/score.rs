//! The readability score of a candidate string.
use vstd::prelude::*;

verus! {

/// How many characters the reference alphabet holds.
pub const ALPHABET_LEN: usize = 95;

/// Strings longer than this many characters score zero.
pub const MAX_STRING_CHAR_LIMIT: usize = 2600;

/// The reference alphabet, from the character expected most often in text to
/// the one expected least often.
pub open spec fn alphabet() -> Seq<char> {
    seq![
        'e', ' ', 't', '1', '|', 'o', 'a', 'r', 'i', 'n', 's', 'l', '2', '3', 'd', 'c',
        '8', '7', '0', '6', '4', 'm', '9', 'u', '5', 'p', 'E', 'S', 'A', 'C', 'g', 'f',
        'T', 'h', 'b', 'y', '"', 'I', 'v', 'L', 'D', 'R', 'w', '-', '_', 'P', 'O', '.',
        'N', 'F', 'x', '\\', 'M', 'W', '%', 'V', 'U', 'k', 'G', 'H', 'B', ':', '@', ',',
        'q', '?', '=', ']', ';', '[', '(', '<', 'Q', '\'', 'j', 'X', '>', ')', 'Y', 'K',
        'z', '$', '/', 'Z', '*', 'J', '+', '`', '^', '!', '&', '#', '~', '}', '{',
    ]
}

fn alphabet_vec() -> (r: Vec<char>)
    ensures
        r@ == alphabet(),
{
    let r = vec![
        'e', ' ', 't', '1', '|', 'o', 'a', 'r', 'i', 'n', 's', 'l', '2', '3', 'd', 'c',
        '8', '7', '0', '6', '4', 'm', '9', 'u', '5', 'p', 'E', 'S', 'A', 'C', 'g', 'f',
        'T', 'h', 'b', 'y', '"', 'I', 'v', 'L', 'D', 'R', 'w', '-', '_', 'P', 'O', '.',
        'N', 'F', 'x', '\\', 'M', 'W', '%', 'V', 'U', 'k', 'G', 'H', 'B', ':', '@', ',',
        'q', '?', '=', ']', ';', '[', '(', '<', 'Q', '\'', 'j', 'X', '>', ')', 'Y', 'K',
        'z', '$', '/', 'Z', '*', 'J', '+', '`', '^', '!', '&', '#', '~', '}', '{',
    ];
    assert(r@ =~= alphabet());
    r
}

pub open spec fn ascii_text(b: Seq<u8>) -> Seq<char> {
    b.map_values(|x: u8| x as char)
}

/// How many times `c` occurs in `s`.
pub open spec fn occurrences(s: Seq<char>, c: char) -> nat
    decreases s.len(),
{
    if s.len() == 0 {
        0
    } else {
        occurrences(s.drop_last(), c) + if s.last() == c {
            1nat
        } else {
            0nat
        }
    }
}

/// The entry of the expected rank vector at index `i`: 95 for the first
/// character of the alphabet, down to 1 for the last.
pub open spec fn rank(i: int) -> int {
    ALPHABET_LEN - i
}

/// Dot product of the frequency vector of `s` with the rank vector, over the
/// first `k` entries.
pub open spec fn dot_upto(s: Seq<char>, k: int) -> int
    decreases k,
{
    if k <= 0 {
        0
    } else {
        dot_upto(s, k - 1) + occurrences(s, alphabet()[k - 1]) * rank(k - 1)
    }
}

/// Squared length of the frequency vector of `s`, over its first `k` entries.
pub open spec fn norm_sq_upto(s: Seq<char>, k: int) -> int
    decreases k,
{
    if k <= 0 {
        0
    } else {
        norm_sq_upto(s, k - 1) + occurrences(s, alphabet()[k - 1]) * occurrences(
            s,
            alphabet()[k - 1],
        )
    }
}

/// Squared length of the rank vector, over its first `k` entries.
pub open spec fn rank_sq_upto(k: int) -> int
    decreases k,
{
    if k <= 0 {
        0
    } else {
        rank_sq_upto(k - 1) + rank(k - 1) * rank(k - 1)
    }
}

/// How many distinct characters `s` holds.
pub open spec fn distinct(s: Seq<char>) -> int {
    s.to_set().len() as int
}

/// For a string of `n` characters, `d` of them distinct, whose frequency
/// vector has dot product `dot` with the rank vector, squared length `fsq`,
/// against a rank vector of squared length `rsq`: whether
/// `100 * (1 - dot / (sqrt(fsq) * sqrt(rsq))) + 50 * d / n >= k`.
/// Multiplied out by `n` and squared, so that it stays in integers.
pub open spec fn reaches_vals(n: int, d: int, dot: int, fsq: int, rsq: int, k: int) -> bool {
    let c = 100 * n + 50 * d - k * n;
    c >= 0 && c * c * fsq * rsq >= (100 * n * dot) * (100 * n * dot)
}

/// Whether the combined readability value of `s` is at least `k`.
pub open spec fn reaches(s: Seq<char>, k: int) -> bool {
    reaches_vals(
        s.len() as int,
        distinct(s),
        dot_upto(s, ALPHABET_LEN as int),
        norm_sq_upto(s, ALPHABET_LEN as int),
        rank_sq_upto(ALPHABET_LEN as int),
        k,
    )
}

/// The strings that score zero without further computation: empty, too long,
/// or with no character of the alphabet.
pub open spec fn degenerate(s: Seq<char>) -> bool {
    s.len() == 0 || s.len() > MAX_STRING_CHAR_LIMIT || norm_sq_upto(s, ALPHABET_LEN as int) == 0
}

/// The largest `j` in `1..=k` that `s` reaches, or 0.
pub open spec fn floor_from(s: Seq<char>, k: int) -> int
    decreases k,
{
    if k <= 0 {
        0
    } else if reaches(s, k) {
        k
    } else {
        floor_from(s, k - 1)
    }
}

/// The readability score of `s`: the combined value truncated to an integer,
/// or 0 for a degenerate string.
pub open spec fn score_of(s: Seq<char>) -> int {
    if degenerate(s) {
        0
    } else {
        floor_from(s, 150)
    }
}

proof fn lemma_occurrences_bound(s: Seq<char>, c: char)
    ensures
        occurrences(s, c) <= s.len(),
    decreases s.len(),
{
    if s.len() > 0 {
        lemma_occurrences_bound(s.drop_last(), c);
    }
}

/// How many times `c` occurs in `chars`.
fn count_of(chars: &Vec<char>, c: char) -> (r: u64)
    requires
        chars.len() <= MAX_STRING_CHAR_LIMIT,
    ensures
        r == occurrences(chars@, c),
        r <= chars.len(),
{
    let mut r: u64 = 0;
    for j in 0..chars.len()
        invariant
            chars.len() <= MAX_STRING_CHAR_LIMIT,
            r == occurrences(chars@.take(j as int), c),
    {
        assert(chars@.take(j + 1).drop_last() =~= chars@.take(j as int));
        proof {
            lemma_occurrences_bound(chars@.take(j as int), c);
        }
        if chars[j] == c {
            r = r + 1;
        }
    }
    assert(chars@.take(chars.len() as int) =~= chars@);
    proof {
        lemma_occurrences_bound(chars@, c);
    }
    r
}

/// Whether `c` occurs in `v`.
fn holds_char(v: &Vec<char>, c: char) -> (r: bool)
    ensures
        r == v@.contains(c),
{
    for j in 0..v.len()
        invariant
            forall|m: int| 0 <= m < j ==> v@[m] != c,
    {
        if v[j] == c {
            return true;
        }
    }
    false
}

/// How many distinct characters `chars` holds.
fn count_distinct(chars: &Vec<char>) -> (r: u64)
    requires
        chars.len() <= MAX_STRING_CHAR_LIMIT,
    ensures
        r == distinct(chars@),
        r <= chars.len(),
{
    let mut seen: Vec<char> = Vec::new();
    for j in 0..chars.len()
        invariant
            chars.len() <= MAX_STRING_CHAR_LIMIT,
            seen@.no_duplicates(),
            seen.len() <= j,
            forall|c: char| seen@.contains(c) <==> chars@.take(j as int).contains(c),
    {
        let c = chars[j];
        let ghost before = seen@;
        assert(forall|x: char| before.contains(x) <==> chars@.take(j as int).contains(x));
        if !holds_char(&seen, c) {
            seen.push(c);
            assert forall|x: char| seen@.contains(x) <==> (before.contains(x) || x == c) by {
                if before.contains(x) {
                    let m = choose|m: int| 0 <= m < before.len() && #[trigger] before[m] == x;
                    assert(seen@[m] == x);
                }
                if seen@.contains(x) {
                    let m = choose|m: int| 0 <= m < seen@.len() && #[trigger] seen@[m] == x;
                    if m < before.len() {
                        assert(before[m] == x);
                    }
                }
                assert(seen@[before.len() as int] == c);
            }
        }
        assert(forall|x: char| seen@.contains(x) <==> (before.contains(x) || x == c));
        assert forall|x: char| #[trigger] chars@.take(j + 1).contains(x) <==> (chars@.take(
            j as int,
        ).contains(x) || x == c) by {
            if chars@.take(j + 1).contains(x) {
                let m = choose|m: int| 0 <= m < j + 1 && #[trigger] chars@.take(j + 1)[m] == x;
                if m < j {
                    assert(chars@.take(j as int)[m] == x);
                }
            }
            if chars@.take(j as int).contains(x) {
                let m = choose|m: int| 0 <= m < j && #[trigger] chars@.take(j as int)[m] == x;
                assert(chars@.take(j + 1)[m] == x);
            }
            assert(chars@.take(j + 1)[j as int] == c);
        }
        assert forall|x: char| seen@.contains(x) <==> chars@.take(j + 1).contains(x) by {
            assert(chars@.take(j + 1).contains(x) <==> (chars@.take(j as int).contains(x) || x
                == c));
            assert(seen@.contains(x) <==> (before.contains(x) || x == c));
            assert(before.contains(x) <==> chars@.take(j as int).contains(x));
        }
    }
    assert(chars@.take(chars.len() as int) =~= chars@);
    proof {
        seen@.unique_seq_to_set();
        assert(seen@.to_set() =~= chars@.to_set());
    }
    seen.len() as u64
}

/// The frequency vector of `chars` against the rank vector: their dot product,
/// the squared length of the frequency vector and that of the rank vector.
fn vector_terms(chars: &Vec<char>) -> (r: (u64, u64, u64))
    requires
        chars.len() <= MAX_STRING_CHAR_LIMIT,
    ensures
        r.0 == dot_upto(chars@, ALPHABET_LEN as int),
        r.1 == norm_sq_upto(chars@, ALPHABET_LEN as int),
        r.2 == rank_sq_upto(ALPHABET_LEN as int),
        r.0 <= 95 * 95 * chars.len(),
        r.1 <= 95 * chars.len() * chars.len(),
        r.2 <= 95 * 95 * 95,
{
    let alpha = alphabet_vec();
    let n = chars.len() as u64;
    let mut dot: u64 = 0;
    let mut fsq: u64 = 0;
    let mut rsq: u64 = 0;
    for i in 0..ALPHABET_LEN
        invariant
            alpha@ == alphabet(),
            n == chars.len(),
            n <= MAX_STRING_CHAR_LIMIT,
            dot == dot_upto(chars@, i as int),
            fsq == norm_sq_upto(chars@, i as int),
            rsq == rank_sq_upto(i as int),
            dot <= i * 95 * n,
            fsq <= i * n * n,
            rsq <= i * 95 * 95,
    {
        let f = count_of(chars, alpha[i]);
        let w = (ALPHABET_LEN - i) as u64;
        assert(f * w <= 95 * n) by (nonlinear_arith)
            requires
                f <= n,
                w <= 95,
        ;
        assert(f * f <= n * n) by (nonlinear_arith)
            requires
                f <= n,
        ;
        assert(w * w <= 95 * 95) by (nonlinear_arith)
            requires
                w <= 95,
        ;
        assert((i + 1) * 95 * n == i * 95 * n + 95 * n) by (nonlinear_arith);
        assert((i + 1) * n * n == i * n * n + n * n) by (nonlinear_arith);
        assert(i * 95 * n <= 95 * 95 * 2600) by (nonlinear_arith)
            requires
                i < 95,
                n <= 2600,
        ;
        assert(i * n * n <= 95 * 2600 * 2600) by (nonlinear_arith)
            requires
                i < 95,
                n <= 2600,
        ;
        assert(n * n <= 2600 * 2600) by (nonlinear_arith)
            requires
                n <= 2600,
        ;
        dot = dot + f * w;
        fsq = fsq + f * f;
        rsq = rsq + w * w;
    }
    assert(95 * 95 * n == 95 * 95 * chars.len());
    (dot, fsq, rsq)
}

/// Whether the combined value given by these terms reaches `k`.
fn reaches_exec(n: u64, d: u64, dot: u64, fsq: u64, rsq: u64, k: u64) -> (r: bool)
    requires
        n <= MAX_STRING_CHAR_LIMIT,
        d <= n,
        dot <= 95 * 95 * n,
        fsq <= 95 * n * n,
        rsq <= 95 * 95 * 95,
        k <= 151,
    ensures
        r == reaches_vals(n as int, d as int, dot as int, fsq as int, rsq as int, k as int),
{
    let p = 100 * n + 50 * d;
    assert(k * n <= 151 * 2600) by (nonlinear_arith)
        requires
            k <= 151,
            n <= 2600,
    ;
    let kn = k * n;
    if p < kn {
        return false;
    }
    let c = (p - kn) as u128;
    assert(c <= 390000);
    assert(fsq <= 95 * 2600 * 2600) by (nonlinear_arith)
        requires
            fsq <= 95 * n * n,
            n <= 2600,
    ;
    assert(dot <= 95 * 95 * 2600) by (nonlinear_arith)
        requires
            dot <= 95 * 95 * n,
            n <= 2600,
    ;
    assert(c * c <= 390000 * 390000) by (nonlinear_arith)
        requires
            c <= 390000,
    ;
    let c2 = c * c;
    assert(c2 * (fsq as u128) <= 390000 * 390000 * (95 * 2600 * 2600)) by (nonlinear_arith)
        requires
            c2 <= 390000 * 390000,
            fsq <= 95 * 2600 * 2600,
    ;
    let c2f = c2 * (fsq as u128);
    assert(c2f <= 97678620000000000000);
    assert(c2f * (rsq as u128) <= 97678620000000000000 * 857375) by (nonlinear_arith)
        requires
            c2f <= 97678620000000000000,
            rsq <= 857375,
    ;
    assert(97678620000000000000 * 857375 == 83747206822500000000000000);
    let lhs = c2f * (rsq as u128);
    assert(100 * (n as u128) * (dot as u128) <= 100 * 2600 * (95 * 95 * 2600)) by (nonlinear_arith)
        requires
            n <= 2600,
            dot <= 95 * 95 * 2600,
    ;
    let q = 100 * (n as u128) * (dot as u128);
    assert(q <= 6100900000000);
    assert(q * q <= 6100900000000 * 6100900000000) by (nonlinear_arith)
        requires
            q <= 6100900000000,
    ;
    assert(6100900000000 * 6100900000000 == 37220980810000000000000000);
    lhs >= q * q
}

proof fn lemma_floor_from(s: Seq<char>, k: int)
    requires
        k >= 0,
    ensures
        0 <= floor_from(s, k) <= k,
        floor_from(s, k) == 0 || reaches(s, floor_from(s, k)),
        forall|j: int| floor_from(s, k) < j <= k ==> !#[trigger] reaches(s, j),
    decreases k,
{
    if k > 0 && !reaches(s, k) {
        lemma_floor_from(s, k - 1);
    }
}

/// The readability score of `text`: 0 for an empty string, for one longer than
/// the limit, or for one without any character of the alphabet; otherwise the
/// largest whole number that `100 * (1 - cos) + 50 * distinct / length` reaches,
/// where `cos` is the cosine similarity of the frequency vector of `text` with
/// the rank vector.
pub fn enhanced_human_readable(text: &str) -> (r: i32)
    ensures
        r == score_of(text@),
        0 <= r <= 150,
        degenerate(text@) ==> r == 0,
        !degenerate(text@) ==> (r == 0 || reaches(text@, r as int)) && !reaches(text@, r + 1),
{
    let n = text.unicode_len();
    if n > MAX_STRING_CHAR_LIMIT || n == 0 {
        return 0;
    }
    let mut chars: Vec<char> = Vec::new();
    for i in 0..n
        invariant
            n == text@.len(),
            chars@ == text@.take(i as int),
    {
        let c = text.get_char(i);
        chars.push(c);
        assert(chars@ =~= text@.take(i + 1));
    }
    assert(chars@ =~= text@);
    let (dot, fsq, rsq) = vector_terms(&chars);
    if fsq == 0 {
        return 0;
    }
    let d = count_distinct(&chars);
    let ghost s = text@;
    proof {
        lemma_floor_from(s, 150);
        assert(!reaches(s, 151)) by (nonlinear_arith)
            requires
                d <= n,
                n > 0,
                !reaches_vals(n as int, d as int, dot as int, fsq as int, rsq as int, 151) <== (100
                    * n + 50 * d - 151 * n < 0),
                reaches(s, 151) == reaches_vals(
                    n as int,
                    d as int,
                    dot as int,
                    fsq as int,
                    rsq as int,
                    151,
                ),
        ;
    }
    let mut k: u64 = 150;
    while k > 0
        invariant
            k <= 150,
            s == text@,
            !reaches(s, 151),
            n == s.len(),
            0 < n <= MAX_STRING_CHAR_LIMIT,
            !degenerate(s),
            d == distinct(s),
            d <= n,
            dot == dot_upto(s, ALPHABET_LEN as int),
            fsq == norm_sq_upto(s, ALPHABET_LEN as int),
            rsq == rank_sq_upto(ALPHABET_LEN as int),
            dot <= 95 * 95 * n,
            fsq <= 95 * n * n,
            rsq <= 95 * 95 * 95,
            floor_from(s, 150) == floor_from(s, k as int),
        decreases k,
    {
        if reaches_exec(n as u64, d, dot, fsq, rsq, k) {
            proof {
                lemma_floor_from(s, 150);
            }
            return k as i32;
        }
        k = k - 1;
    }
    proof {
        lemma_floor_from(s, 150);
    }
    0
}

/// The score depends on the string alone: equal strings score the same.
pub proof fn lemma_score_deterministic(a: Seq<char>, b: Seq<char>)
    requires
        a == b,
    ensures
        score_of(a) == score_of(b),
{
}

/// The empty string, and every string longer than the limit, scores 0.
pub proof fn lemma_degenerate_scores_zero(s: Seq<char>)
    requires
        s.len() == 0 || s.len() > MAX_STRING_CHAR_LIMIT,
    ensures
        score_of(s) == 0,
{
}

/// For a non-empty string within the limit the diversity term
/// `50 * distinct / length` lies in `(0, 50]`: the string holds at least one
/// distinct character and no more distinct characters than characters.
pub proof fn lemma_diversity_term_bounds(s: Seq<char>)
    requires
        0 < s.len() <= MAX_STRING_CHAR_LIMIT,
    ensures
        0 < 50 * distinct(s),
        50 * distinct(s) <= 50 * s.len(),
{
    s.lemma_cardinality_of_empty_set_is_0();
    s.lemma_cardinality_of_set();
}

} // verus!
