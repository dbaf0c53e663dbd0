//! Tokenizers: a closed set of variants built from a name string.
//! Stemming, case folding and Unicode segmentation come from outside
//! crates; the splitting and hashing around them is this crate's own.

use crate::docs::{count_in, lex_ids, Dict};
use std::collections::HashMap;
use vstd::prelude::*;

verus! {

broadcast use vstd::std_specs::hash::group_hash_axioms;

/// What `str::to_lowercase` returns: a function of the characters
/// alone.
pub uninterp spec fn lower_of(s: Seq<char>) -> Seq<char>;

/// What the Porter stemmer returns for a word.
pub uninterp spec fn stem_of(s: Seq<char>) -> Seq<char>;

/// What NFKC normalization returns for a string.
pub uninterp spec fn nfkc_of(s: Seq<char>) -> Seq<char>;

/// The extended grapheme clusters of a string, in order.
pub uninterp spec fn graphemes_of(s: Seq<char>) -> Seq<Seq<char>>;

/// Whether a character is alphanumeric.
pub uninterp spec fn char_alnum(c: char) -> bool;

/// Whether a character is alphabetic.
pub uninterp spec fn char_alpha(c: char) -> bool;

/// Relies on str::to_lowercase: the result depends on the characters
/// alone.
#[verifier::external_body]
fn lowercase(s: &str) -> (r: String)
    ensures
        r@ == lower_of(s@),
{
    s.to_lowercase()
}

/// Relies on porter_stemmer::stem: the result depends on the word
/// alone.
#[verifier::external_body]
fn stem_word(s: &str) -> (r: String)
    ensures
        r@ == stem_of(s@),
{
    porter_stemmer::stem(s)
}

/// Relies on unicode_normalization's nfkc: the result depends on the
/// characters alone.
#[verifier::external_body]
fn nfkc_string(s: &str) -> (r: String)
    ensures
        r@ == nfkc_of(s@),
{
    unicode_normalization::UnicodeNormalization::nfkc(s).collect::<String>()
}

/// Relies on unicode_segmentation's graphemes: the clusters depend on
/// the characters alone.
#[verifier::external_body]
fn grapheme_strings(s: &str) -> (r: Vec<String>)
    ensures
        r.deep_view() == graphemes_of(s@),
{
    unicode_segmentation::UnicodeSegmentation::graphemes(s, true).map(|g| g.to_string()).collect()
}

/// Relies on char::is_alphanumeric: a fixed property of the
/// character.
#[verifier::external_body]
fn is_alnum_char(c: char) -> (r: bool)
    ensures
        r == char_alnum(c),
{
    c.is_alphanumeric()
}

/// Relies on char::is_alphabetic: a fixed property of the character.
#[verifier::external_body]
fn is_alpha_char(c: char) -> (r: bool)
    ensures
        r == char_alpha(c),
{
    c.is_alphabetic()
}

/// Relies on String::push_str: appends the characters.
#[verifier::external_body]
fn append_str(r: &mut String, s: &str)
    ensures
        final(r)@ == old(r)@ + s@,
{
    r.push_str(s)
}

/// Relies on str::chars: the characters of the string, in order.
#[verifier::external_body]
pub(crate) fn chars_vec(s: &str) -> (r: Vec<char>)
    ensures
        r@ == s@,
{
    s.chars().collect()
}

/// Relies on String::from_iter over chars: the string with exactly
/// these characters.
#[verifier::external_body]
pub(crate) fn string_from_chars(v: &Vec<char>) -> (r: String)
    ensures
        r@ == v@,
{
    v.iter().collect()
}

/// Every character of the word is alphabetic.
pub open spec fn all_alpha(s: Seq<char>) -> bool {
    forall|i: int| 0 <= i < s.len() ==> char_alpha(#[trigger] s[i])
}

/// A finished token: alphabetic words are stemmed, others kept.
pub open spec fn finish_token(s: Seq<char>) -> Seq<char> {
    if all_alpha(s) {
        stem_of(s)
    } else {
        s
    }
}

/// The maximal alphanumeric runs of at least two characters, given
/// the run gathered so far.
pub open spec fn split_runs(s: Seq<char>, cur: Seq<char>) -> Seq<Seq<char>>
    decreases s.len(),
{
    if s.len() == 0 {
        if cur.len() >= 2 {
            seq![cur]
        } else {
            Seq::empty()
        }
    } else if char_alnum(s[0]) {
        split_runs(s.skip(1), cur.push(s[0]))
    } else {
        (if cur.len() >= 2 {
            seq![cur]
        } else {
            Seq::empty()
        }) + split_runs(s.skip(1), Seq::empty())
    }
}

/// What the English tokenizer yields: lowercase the text, split into
/// alphanumeric runs of at least two characters, stem the purely
/// alphabetic ones.
pub open spec fn english_tokens(text: Seq<char>) -> Seq<Seq<char>> {
    split_runs(lower_of(text), Seq::empty()).map_values(|r: Seq<char>| finish_token(r))
}

/// Split into alphanumeric runs of at least two characters and finish
/// each.
fn split_and_stem(chars: &Vec<char>) -> (out: Vec<String>)
    ensures
        out.deep_view() == split_runs(chars@, Seq::empty()).map_values(
            |r: Seq<char>| finish_token(r),
        ),
{
    let n = chars.len();
    let mut out: Vec<String> = Vec::new();
    let mut cur: Vec<char> = Vec::new();
    let mut i: usize = 0;
    proof {
        assert(chars@.skip(0) =~= chars@);
        assert(out.deep_view() =~= Seq::<Seq<char>>::empty());
    }
    while i < n
        invariant
            n == chars@.len(),
            0 <= i <= n,
            out.deep_view() + split_runs(chars@.skip(i as int), cur@).map_values(
                |r: Seq<char>| finish_token(r),
            ) =~= split_runs(chars@, Seq::empty()).map_values(|r: Seq<char>| finish_token(r)),
        decreases n - i,
    {
        let c = chars[i];
        let ghost rem = chars@.skip(i as int);
        proof {
            assert(rem[0] == chars@[i as int]);
            assert(rem.skip(1) =~= chars@.skip(i + 1));
        }
        if is_alnum_char(c) {
            cur.push(c);
            proof {
                assert(split_runs(rem, cur@.drop_last()) == split_runs(
                    rem.skip(1),
                    cur@.drop_last().push(rem[0]),
                ));
                assert(cur@.drop_last().push(rem[0]) =~= cur@);
            }
        } else {
            let ghost pre_out = out.deep_view();
            if cur.len() >= 2 {
                let tok = finish_run(&cur);
                out.push(tok);
                proof {
                    assert(out.deep_view() =~= pre_out.push(finish_token(cur@)));
                    assert(split_runs(rem, cur@) == seq![cur@] + split_runs(
                        rem.skip(1),
                        Seq::empty(),
                    ));
                    assert((seq![cur@] + split_runs(rem.skip(1), Seq::empty())).map_values(
                        |r: Seq<char>| finish_token(r),
                    ) =~= seq![finish_token(cur@)] + split_runs(
                        rem.skip(1),
                        Seq::empty(),
                    ).map_values(|r: Seq<char>| finish_token(r)));
                }
            } else {
                proof {
                    assert(split_runs(rem, cur@) == Seq::<Seq<char>>::empty() + split_runs(
                        rem.skip(1),
                        Seq::empty(),
                    ));
                    assert(split_runs(rem, cur@).map_values(|r: Seq<char>| finish_token(r))
                        =~= split_runs(rem.skip(1), Seq::empty()).map_values(
                        |r: Seq<char>| finish_token(r),
                    ));
                }
            }
            cur.clear();
        }
        i += 1;
    }
    let ghost rem = chars@.skip(n as int);
    proof {
        assert(rem =~= Seq::<char>::empty());
    }
    if cur.len() >= 2 {
        let tok = finish_run(&cur);
        let ghost pre_out = out.deep_view();
        out.push(tok);
        proof {
            assert(out.deep_view() =~= pre_out.push(finish_token(cur@)));
            assert(split_runs(rem, cur@) == seq![cur@]);
            assert(seq![cur@].map_values(|r: Seq<char>| finish_token(r)) =~= seq![
                finish_token(cur@),
            ]);
            assert(out.deep_view() =~= split_runs(chars@, Seq::empty()).map_values(
                |r: Seq<char>| finish_token(r),
            ));
        }
    } else {
        proof {
            assert(split_runs(rem, cur@) =~= Seq::<Seq<char>>::empty());
            assert(split_runs(rem, cur@).map_values(|r: Seq<char>| finish_token(r))
                =~= Seq::<Seq<char>>::empty());
            assert(out.deep_view() =~= split_runs(chars@, Seq::empty()).map_values(
                |r: Seq<char>| finish_token(r),
            ));
        }
    }
    out
}

/// Whether every character of the word is alphabetic.
pub fn is_alpha(s: &str) -> (r: bool)
    ensures
        r == all_alpha(s@),
{
    let chars = chars_vec(s);
    let n = chars.len();
    let mut i: usize = 0;
    let mut alpha = true;
    while i < n
        invariant
            n == chars@.len(),
            chars@ == s@,
            0 <= i <= n,
            alpha == (forall|j: int| 0 <= j < i ==> char_alpha(#[trigger] chars@[j])),
        decreases n - i,
    {
        let ghost pre_alpha = alpha;
        let c_alpha = is_alpha_char(chars[i]);
        alpha = alpha && c_alpha;
        proof {
            if !pre_alpha {
                let j = choose|j: int| 0 <= j < i && !char_alpha(#[trigger] chars@[j]);
                assert(!char_alpha(chars@[j]));
            }
        }
        i += 1;
    }
    alpha
}

/// Finish one gathered run.
fn finish_run(cur: &Vec<char>) -> (r: String)
    ensures
        r@ == finish_token(cur@),
{
    let s = string_from_chars(cur);
    if is_alpha(s.as_str()) {
        stem_word(s.as_str())
    } else {
        s
    }
}

// A tokenizer that assumes English: lowercase, split on
// non-alphanumerics, stem the alphabetic words.
#[derive(Clone, Copy)]
pub struct EnglishStemLowercase;

impl EnglishStemLowercase {
    pub fn name(&self) -> (r: String)
        ensures
            r@ == "englishstemlower"@,
    {
        "englishstemlower".to_string()
    }

    pub fn tokenize(&self, text: &str) -> (r: Vec<String>)
        ensures
            r.deep_view() == english_tokens(text@),
    {
        let lower = lowercase(text);
        let chars = chars_vec(lower.as_str());
        split_and_stem(&chars)
    }
}

/// Character n-grams over the NFKC-normalized, lowercased text.
#[derive(Clone, Copy)]
pub struct NGrams {
    pub n: usize,
}

impl NGrams {
    /// The n-grams are the joined windows of n grapheme clusters.
    pub fn tokenize(&self, text: &str) -> (r: Vec<String>)
        requires
            self.n >= 1,
        ensures
            ({
                let gs = graphemes_of(nfkc_of(lower_of(text@)));
                &&& gs.len() >= self.n ==> r@.len() == gs.len() - self.n + 1
                &&& gs.len() < self.n ==> r@.len() == 0
                &&& forall|i: int|
                    0 <= i < r@.len() ==> (#[trigger] r@[i])@ == gs.subrange(
                        i,
                        i + self.n,
                    ).flatten()
            }),
    {
        let lower = lowercase(text);
        let normalized = nfkc_string(lower.as_str());
        let graphemes = grapheme_strings(normalized.as_str());
        let ghost gs = graphemes_of(nfkc_of(lower_of(text@)));
        let g = graphemes.len();
        let mut r: Vec<String> = Vec::new();
        if g < self.n {
            return r;
        }
        let mut i: usize = 0;
        while i <= g - self.n
            invariant
                g == graphemes@.len() >= self.n,
                graphemes.deep_view() == gs,
                self.n >= 1,
                i <= g - self.n + 1,
                r@.len() == i,
                forall|k: int|
                    0 <= k < r@.len() ==> (#[trigger] r@[k])@ == gs.subrange(
                        k,
                        k + self.n,
                    ).flatten(),
            decreases g - i,
    {
            let joined = join_window(&graphemes, i, self.n);
            r.push(joined);
            i += 1;
        }
        r
    }
}

/// The concatenation of `n` grapheme strings starting at `from`.
fn join_window(graphemes: &Vec<String>, from: usize, n: usize) -> (r: String)
    requires
        from + n <= graphemes@.len(),
    ensures
        r@ == graphemes.deep_view().subrange(from as int, from + n).flatten(),
{
    let glen = graphemes.len();
    let mut r = String::new();
    let mut k: usize = 0;
    while k < n
        invariant
            glen == graphemes@.len(),
            from + n <= glen,
            0 <= k <= n,
            r@ == graphemes.deep_view().subrange(from as int, from + k as int).flatten(),
        decreases n - k,
    {
        let ghost pre = r@;
        append_str(&mut r, graphemes[from + k].as_str());
        proof {
            let dv = graphemes.deep_view();
            assert(dv.subrange(from as int, from + k + 1).drop_last() =~= dv.subrange(
                from as int,
                from + k as int,
            ));
            assert(dv.subrange(from as int, from + k + 1).last() == dv[from + k]);
            lemma_flatten_snoc(dv.subrange(from as int, from + k + 1));
            assert(dv[from + k] == graphemes@[from + k]@);
        }
        k += 1;
    }
    r
}

/// Flattening a sequence of runs appends the last run to the rest.
proof fn lemma_flatten_snoc(s: Seq<Seq<char>>)
    requires
        s.len() >= 1,
    ensures
        s.flatten() == s.drop_last().flatten() + s.last(),
    decreases s.len(),
{
    if s.len() == 1 {
        assert(s.drop_last() =~= Seq::<Seq<char>>::empty());
        assert(s.drop_last().flatten() =~= Seq::<char>::empty());
        assert(s.flatten() =~= s[0] + s.skip(1).flatten());
        assert(s.skip(1) =~= Seq::<Seq<char>>::empty());
        assert(s.flatten() =~= s.drop_last().flatten() + s.last());
    } else {
        lemma_flatten_snoc(s.skip(1));
        assert(s.skip(1).drop_last() =~= s.drop_last().skip(1));
        assert(s.flatten() == s[0] + s.skip(1).flatten());
        assert(s.drop_last().flatten() == s.drop_last()[0] + s.drop_last().skip(1).flatten());
        assert(s.drop_last()[0] == s[0]);
        assert(s.flatten() =~= s.drop_last().flatten() + s.last());
    }
}


/// The decimal digit characters of a value, most significant first.
pub open spec fn decimal_digits(v: nat) -> Seq<char>
    decreases v,
{
    if v < 10 {
        seq![digit_char(v)]
    } else {
        decimal_digits(v / 10) + seq![digit_char(v % 10)]
    }
}

/// The character for one decimal digit.
pub open spec fn digit_char(d: nat) -> char {
    if d == 0 {
        '0'
    } else if d == 1 {
        '1'
    } else if d == 2 {
        '2'
    } else if d == 3 {
        '3'
    } else if d == 4 {
        '4'
    } else if d == 5 {
        '5'
    } else if d == 6 {
        '6'
    } else if d == 7 {
        '7'
    } else if d == 8 {
        '8'
    } else {
        '9'
    }
}

fn digit_char_exec(d: u64) -> (r: char)
    requires
        d < 10,
    ensures
        r == digit_char(d as nat),
{
    if d == 0 {
        '0'
    } else if d == 1 {
        '1'
    } else if d == 2 {
        '2'
    } else if d == 3 {
        '3'
    } else if d == 4 {
        '4'
    } else if d == 5 {
        '5'
    } else if d == 6 {
        '6'
    } else if d == 7 {
        '7'
    } else if d == 8 {
        '8'
    } else {
        '9'
    }
}

/// Format a value in decimal.
fn u64_to_decimal(v: u64) -> (r: String)
    ensures
        r@ == decimal_digits(v as nat),
{
    let ghost v0 = v as nat;
    let mut digits: Vec<char> = Vec::new();
    digits.push(digit_char_exec(v % 10));
    let mut x = v / 10;
    proof {
        if v < 10 {
            assert(decimal_digits(v0) =~= Seq::<char>::empty() + digits@.reverse());
        } else {
            assert(decimal_digits(v0) == decimal_digits(v0 / 10) + seq![digit_char(v0 % 10)]);
            assert(decimal_digits(v0) =~= decimal_digits(x as nat) + digits@.reverse());
        }
    }
    while x > 0
        invariant
            decimal_digits(v0) =~= (if x > 0 {
                decimal_digits(x as nat)
            } else {
                Seq::<char>::empty()
            }) + digits@.reverse(),
        decreases x,
    {
        let ghost pre = digits@;
        let ghost xpre = x as nat;
        digits.push(digit_char_exec(x % 10));
        x = x / 10;
        proof {
            assert(digits@.reverse() =~= seq![digit_char((xpre % 10) as nat)] + pre.reverse());
            if xpre >= 10 {
                assert(decimal_digits(xpre) == decimal_digits(xpre / 10) + seq![
                    digit_char(xpre % 10),
                ]);
            }
            assert(decimal_digits(v0) =~= (if x > 0 {
                decimal_digits(x as nat)
            } else {
                Seq::<char>::empty()
            }) + digits@.reverse());
        }
    }
    proof {
        assert(decimal_digits(v0) =~= digits@.reverse());
    }
    let n = digits.len();
    let mut out: Vec<char> = Vec::new();
    let mut j: usize = 0;
    while j < n
        invariant
            n == digits@.len(),
            0 <= j <= n,
            out@.len() == j,
            forall|q: int| 0 <= q < j ==> #[trigger] out@[q] == digits@[n - 1 - q],
        decreases n - j,
    {
        out.push(digits[n - 1 - j]);
        j += 1;
    }
    proof {
        assert(out@ =~= digits@.reverse());
        assert(out@ =~= decimal_digits(v0));
    }
    string_from_chars(&out)
}

/// No number in [2, n) divides n, and n is at least 2.
pub open spec fn is_prime_spec(n: nat) -> bool {
    n > 1 && forall|d: nat| 2 <= d < n ==> #[trigger] (n % d) != 0
}

/// A proper divisor pairs with a proper cofactor no larger than the
/// trial bound.
proof fn lemma_divisor_pair(n: nat, d: nat, p: nat)
    by (nonlinear_arith)
    requires
        n >= 2,
        2 <= d < n,
        n % d == 0,
        p >= 2,
        p > n / p,
        d >= p,
    ensures
        2 <= n / d < p,
        n % (n / d) == 0,
{
}

/// If a divisor of n has a divisor k, then k divides n.
proof fn lemma_div_chain(n: nat, d: nat, k: nat)
    requires
        d > 0,
        k > 0,
        n % d == 0,
        d % k == 0,
    ensures
        n % k == 0,
{
    let q = n as int / d as int;
    let m = d as int / k as int;
    vstd::arithmetic::div_mod::lemma_fundamental_div_mod(n as int, d as int);
    vstd::arithmetic::div_mod::lemma_fundamental_div_mod(d as int, k as int);
    assert(n as int == (k as int * m) * q);
    vstd::arithmetic::mul::lemma_mul_is_associative(k as int, m, q);
    vstd::arithmetic::div_mod::lemma_mod_multiples_basic(m * q, k as int);
}

/// Deterministic primality by trial division.
pub fn is_prime(n: u64) -> (r: bool)
    ensures
        r == is_prime_spec(n as nat),
{
    if n < 4 {
        proof {
            if n == 2 || n == 3 {
                assert forall|d: nat| 2 <= d < n as nat implies #[trigger] ((n as nat) % d)
                    != 0 by {
                    assert(d == 2 && n == 3 ==> n as nat % d == 1);
                }
            }
        }
        return n > 1;
    }
    if n % 2 == 0 || n % 3 == 0 {
        proof {
            if n % 2 == 0 {
                assert((n as nat) % 2 == 0);
            } else {
                assert((n as nat) % 3 == 0);
            }
        }
        return false;
    }
    let mut p: u64 = 5;
    proof {
        assert forall|d: nat| 2 <= d < 5 implies #[trigger] ((n as nat) % d) != 0 by {
            if d == 2 {
                assert((n as nat) % 2 != 0);
            } else if d == 3 {
                assert((n as nat) % 3 != 0);
            } else {
                if (n as nat) % d == 0 {
                    assert(d % 2 == 0);
                    lemma_div_chain(n as nat, d, 2);
                }
            }
        }
    }
    loop
        invariant
            5 <= p,
            p % 6 == 5,
            n >= 4,
            n % 2 != 0,
            n % 3 != 0,
            forall|d: nat| 2 <= d < p ==> #[trigger] ((n as nat) % d) != 0,
        decreases n + 6 - p,
    {
        if p > n / p {
            proof {
                assert forall|d: nat| 2 <= d < n as nat implies #[trigger] ((n as nat) % d)
                    != 0 by {
                    if (n as nat) % d == 0 && d >= p {
                        lemma_divisor_pair(n as nat, d, p as nat);
                    }
                }
            }
            return true;
        }
        if n % p == 0 {
            proof {
                assert((n as nat) % (p as nat) == 0);
                assert(p < n) by (nonlinear_arith)
                    requires
                        p <= n / p,
                        n >= 4,
                        p >= 5,
                        n % p == 0,
                        n % 2 != 0,
                ;
            }
            return false;
        }
        if n % (p + 2) == 0 {
            proof {
                assert((n as nat) % ((p + 2) as nat) == 0);
                assert(((p + 2) as nat) < (n as nat)) by (nonlinear_arith)
                    requires
                        p <= n / p,
                        n >= 4,
                        p >= 5,
                        (n as nat) % ((p + 2) as nat) == 0,
                        n % 2 != 0,
                ;
            }
            return false;
        }
        proof {
            assert((p as nat) * (p as nat) <= n as nat) by (nonlinear_arith)
                requires
                    p >= 1,
                    p <= n / p,
            ;
            assert(p <= 0xffff_ffffu64) by (nonlinear_arith)
                requires
                    (p as nat) * (p as nat) <= n as nat,
                    n <= 0xffff_ffff_ffff_ffffu64,
            ;
            assert forall|d: nat| 2 <= d < p + 6 implies #[trigger] ((n as nat) % d) != 0 by {
                if d >= p {
                    if d == p as nat {
                        assert((n as nat) % (p as nat) != 0);
                    } else if d == (p + 2) as nat {
                        assert((n as nat) % ((p + 2) as nat) != 0);
                    } else {
                        // p ends a 6k-1 step: the numbers between the
                        // tested pair are even or divisible by three
                        assert(d == p + 1 || d == p + 3 || d == p + 4 || d == p + 5);
                        if d == p + 1 || d == p + 3 || d == p + 5 {
                            assert(d % 2 == 0) by (nonlinear_arith)
                                requires
                                    p % 6 == 5,
                                    d == p + 1 || d == p + 3 || d == p + 5,
                            ;
                            if (n as nat) % d == 0 {
                                lemma_div_chain(n as nat, d, 2);
                            }
                        } else {
                            assert(d % 3 == 0) by (nonlinear_arith)
                                requires
                                    p % 6 == 5,
                                    d == p + 4,
                            ;
                            if (n as nat) % d == 0 {
                                lemma_div_chain(n as nat, d, 3);
                            }
                        }
                    }
                }
            }
        }
        p = p + 6;
    }
}

/// Character n-grams hashed to numeric tokens under a prime modulus.
#[derive(Clone, Copy)]
pub struct NGramsHashed {
    pub n: usize,
    pub hmod: u32,
}

/// The djb-variant rolling hash of a byte run.
pub open spec fn djb_hash(s: Seq<u8>) -> u64
    decreases s.len(),
{
    if s.len() == 0 {
        5381
    } else {
        ((djb_hash(s.drop_last()) << 5) ^ (djb_hash(s.drop_last()) >> 2)) ^ (s.last() as u64)
    }
}

impl NGramsHashed {
    /// The first odd prime at or above the requested modulus becomes
    /// the modulus; `None` when no 32-bit one exists up there.
    pub fn new(n: usize, hmod: u32) -> (r: Option<NGramsHashed>)
        ensures
            r matches Some(g) ==> g.n == n && g.hmod >= hmod && is_prime_spec(g.hmod as nat),
            r is None ==> forall|q: u32|
                hmod <= q && q % 2 == 1 ==> !#[trigger] is_prime_spec(q as nat),
    {
        let mut prime_hmod: u32 = hmod;
        if prime_hmod % 2 == 0 {
            if prime_hmod == 0xffff_fffe {
                // the one candidate above is the odd 2^32 - 1, which
                // is divisible by three
                if is_prime(0xffff_ffffu64) {
                    return Some(NGramsHashed { n, hmod: 0xffff_ffffu32 });
                }
                proof {
                    assert forall|q: u32| hmod <= q && q % 2 == 1 implies !#[trigger]
                        is_prime_spec(q as nat) by {
                        assert(q == 0xffff_ffffu32);
                    }
                }
                return None;
            }
            prime_hmod += 1;
        }
        loop
            invariant
                hmod <= prime_hmod,
                prime_hmod % 2 == 1,
                forall|q: u32|
                    hmod <= q < prime_hmod && q % 2 == 1 ==> !#[trigger] is_prime_spec(
                        q as nat,
                    ),
            decreases 0xffff_ffffu32 - prime_hmod,
        {
            if is_prime(prime_hmod as u64) {
                return Some(NGramsHashed { n, hmod: prime_hmod });
            }
            if prime_hmod >= 0xffff_fffd {
                proof {
                    assert forall|q: u32| hmod <= q && q % 2 == 1 implies !#[trigger]
                        is_prime_spec(q as nat) by {
                        assert(q <= 0xffff_ffffu32);
                        if q > prime_hmod {
                            assert(q == 0xffff_ffffu32 && prime_hmod == 0xffff_fffdu32);
                            assert((q as nat) % 3 == 0);
                        }
                    }
                }
                return None;
            }
            prime_hmod += 2;
        }
    }

    /// Primality of a candidate modulus.
    pub fn is_prime(n: u64) -> (r: bool)
        ensures
            r == is_prime_spec(n as nat),
    {
        is_prime(n)
    }

    /// The rolling hash of the bytes, reduced by the modulus.
    pub fn hash(&self, str: &[u8]) -> (r: u64)
        requires
            self.hmod > 0,
        ensures
            r == djb_hash(str@) % (self.hmod as u64),
            r < self.hmod,
    {
        let mut hash: u64 = 5381;
        let n = str.len();
        let mut i: usize = 0;
        while i < n
            invariant
                n == str@.len(),
                0 <= i <= n,
                hash == djb_hash(str@.take(i as int)),
            decreases n - i,
        {
            let c = str[i];
            proof {
                assert(str@.take(i + 1).drop_last() =~= str@.take(i as int));
                assert(str@.take(i + 1).last() == str@[i as int]);
            }
            hash = ((hash << 5) ^ (hash >> 2)) ^ (c as u64);
            i += 1;
        }
        proof {
            assert(str@.take(n as int) =~= str@);
        }
        hash % (self.hmod as u64)
    }

    /// Hashed n-grams: each n-gram token becomes the decimal form of
    /// its hash.
    pub fn tokenize(&self, text: &str) -> (r: Vec<String>)
        requires
            self.n >= 1,
            self.hmod > 0,
        ensures
            ({
                let gs = graphemes_of(nfkc_of(lower_of(text@)));
                &&& gs.len() >= self.n ==> r@.len() == gs.len() - self.n + 1
                &&& gs.len() < self.n ==> r@.len() == 0
            }),
    {
        let grams = NGrams { n: self.n }.tokenize(text);
        let m = grams.len();
        let mut out: Vec<String> = Vec::new();
        let mut i: usize = 0;
        while i < m
            invariant
                m == grams@.len(),
                0 <= i <= m,
                out@.len() == i,
                self.hmod > 0,
            decreases m - i,
        {
            let h = self.hash(str_bytes(grams[i].as_str()));
            out.push(u64_to_decimal(h));
            i += 1;
        }
        out
    }
}

/// Relies on str::as_bytes: the UTF-8 bytes of the string.
#[verifier::external_body]
fn str_bytes(s: &str) -> (r: &[u8])
    ensures
        r@ == utf8_of(s@),
{
    s.as_bytes()
}

/// The UTF-8 encoding of a character run.
pub uninterp spec fn utf8_of(s: Seq<char>) -> Seq<u8>;

/// The closed set of tokenizers a collection can be built with.
pub enum Tokenizer {
    EnglishStemLower(EnglishStemLowercase),
    NGrams(NGrams),
    NGramsHashed(NGramsHashed),
}

impl Tokenizer {
    /// Run the chosen tokenizer over the text.
    pub fn tokenize(&self, text: &str) -> (r: Vec<String>)
        requires
            self matches Tokenizer::NGrams(g) ==> g.n >= 1,
            self matches Tokenizer::NGramsHashed(g) ==> g.n >= 1 && g.hmod > 0,
        ensures
            self matches Tokenizer::EnglishStemLower(t) ==> r.deep_view() == english_tokens(
                text@,
            ),
    {
        match self {
            Tokenizer::EnglishStemLower(t) => t.tokenize(text),
            Tokenizer::NGrams(t) => t.tokenize(text),
            Tokenizer::NGramsHashed(t) => t.tokenize(text),
        }
    }
}

/// The digits of a numeric field, as a number; None when any
/// character is not a digit or the field is empty.
pub open spec fn digits_value(s: Seq<char>) -> Option<nat>
    decreases s.len(),
{
    if s.len() == 0 {
        Option::None
    } else if s.len() == 1 {
        if '0' <= s[0] <= '9' {
            Option::Some((s[0] as nat - '0' as nat) as nat)
        } else {
            Option::None
        }
    } else {
        match digits_value(s.drop_last()) {
            Option::Some(v) => if '0' <= s.last() <= '9' {
                Option::Some((v * 10 + (s.last() as nat - '0' as nat)) as nat)
            } else {
                Option::None
            },
            Option::None => Option::None,
        }
    }
}

/// Parse a decimal field.
pub fn parse_usize(chars: &Vec<char>, from: usize, to: usize) -> (r: Option<usize>)
    requires
        from <= to <= chars@.len(),
    ensures
        ({
            let field = chars@.subrange(from as int, to as int);
            match r {
                Some(v) => digits_value(field) == Option::Some(v as nat),
                None => digits_value(field) is None || (exists|v: nat|
                    digits_value(field) == Option::Some(v) && v > usize::MAX),
            }
        }),
{
    if from == to {
        return None;
    }
    let mut v: usize = 0;
    let mut i: usize = from;
    while i < to
        invariant
            from <= i <= to <= chars@.len(),
            i > from ==> digits_value(chars@.subrange(from as int, i as int)) == Option::Some(
                v as nat,
            ),
            i == from ==> v == 0,
        decreases to - i,
    {
        let c = chars[i];
        if !(c >= '0' && c <= '9') {
            proof {
                lemma_digits_bad(chars@.subrange(from as int, to as int), i - from);
            }
            return None;
        }
        let d = (c as u32 - 48) as usize;
        if v > (usize::MAX - d) / 10 {
            proof {
                let field = chars@.subrange(from as int, to as int);
                assert(chars@.subrange(from as int, i + 1) =~= field.subrange(0, i - from + 1));
                assert(chars@.subrange(from as int, i + 1).drop_last() =~= chars@.subrange(
                    from as int,
                    i as int,
                ));
                assert(digits_value(field.subrange(0, i - from + 1)) is Some) by {
                    if i == from {
                        assert(field.subrange(0, 1).len() == 1);
                        assert(field.subrange(0, 1)[0] == chars@[from as int]);
                    } else {
                        assert(field.subrange(0, i - from + 1).last() == chars@[i as int]);
                    }
                }
                lemma_digits_grow(field, i - from + 1);
                assert(v * 10 + d > usize::MAX) by (nonlinear_arith)
                    requires
                        v > (usize::MAX - d) / 10,
                        d <= 9,
                ;
            }
            return None;
        }
        proof {
            assert(chars@.subrange(from as int, i + 1).drop_last() =~= chars@.subrange(
                from as int,
                i as int,
            ));
            assert(chars@.subrange(from as int, i + 1).last() == chars@[i as int]);
            assert(v * 10 + d <= usize::MAX) by (nonlinear_arith)
                requires
                    v <= (usize::MAX - d) / 10,
                    d <= 9,
            ;
        }
        v = v * 10 + d;
        i += 1;
    }
    proof {
        assert(chars@.subrange(from as int, to as int) =~= chars@.subrange(
            from as int,
            i as int,
        ));
    }
    Some(v)
}

/// A non-digit anywhere makes the field unreadable.
proof fn lemma_digits_bad(s: Seq<char>, k: int)
    requires
        0 <= k < s.len(),
        !('0' <= s[k] <= '9'),
    ensures
        digits_value(s) is None,
    decreases s.len(),
{
    if s.len() > 1 && k < s.len() - 1 {
        lemma_digits_bad(s.drop_last(), k);
    }
}

/// A readable prefix stays readable and only grows.
proof fn lemma_digits_grow(s: Seq<char>, k: int)
    requires
        1 <= k <= s.len(),
        digits_value(s.subrange(0, k)) is Some,
    ensures
        digits_value(s) is None || digits_value(s)->Some_0 >= digits_value(
            s.subrange(0, k),
        )->Some_0,
    decreases s.len() - k,
{
    if k < s.len() {
        assert(s.subrange(0, k + 1).drop_last() =~= s.subrange(0, k));
        if '0' <= s.subrange(0, k + 1).last() <= '9' {
            assert(digits_value(s.subrange(0, k + 1))->Some_0 >= digits_value(
                s.subrange(0, k),
            )->Some_0) by (nonlinear_arith)
                requires
                    digits_value(s.subrange(0, k + 1)) matches Some(w) && digits_value(
                        s.subrange(0, k),
                    ) matches Some(v) && w == v * 10 + (s.subrange(0, k + 1).last() as nat
                        - '0' as nat),
            ;
            lemma_digits_grow(s, k + 1);
        } else {
            lemma_digits_bad(s, k);
        }
    } else {
        assert(s.subrange(0, k) =~= s);
    }
}


impl NGrams {
    pub fn name(&self) -> (r: String)
        ensures
            r@ == "ngram."@ + decimal_digits(self.n as nat),
    {
        let mut r = "ngram.".to_string();
        append_str(&mut r, u64_to_decimal(self.n as u64).as_str());
        r
    }
}

impl NGramsHashed {
    pub fn name(&self) -> (r: String)
        ensures
            r@ == "ngramhashed."@ + decimal_digits(self.n as nat) + "."@ + decimal_digits(
                self.hmod as nat,
            ),
    {
        let mut r = "ngramhashed.".to_string();
        append_str(&mut r, u64_to_decimal(self.n as u64).as_str());
        append_str(&mut r, ".");
        append_str(&mut r, u64_to_decimal(self.hmod as u64).as_str());
        proof {
            assert(r@ =~= "ngramhashed."@ + decimal_digits(self.n as nat) + "."@
                + decimal_digits(self.hmod as nat));
        }
        r
    }
}

/// Relies on str's equality: true exactly when the characters match.
#[verifier::external_body]
fn str_eq(a: &str, b: &str) -> (r: bool)
    ensures
        r == (a@ == b@),
{
    a == b
}

/// The position of the first dot at or after `from`, or the length.
fn find_dot(chars: &Vec<char>, from: usize) -> (r: usize)
    requires
        from <= chars@.len(),
    ensures
        from <= r <= chars@.len(),
        r < chars@.len() ==> chars@[r as int] == '.',
        forall|j: int| from <= j < r ==> chars@[j] != '.',
    {
    let n = chars.len();
    let mut i: usize = from;
    while i < n
        invariant
            from <= i <= n == chars@.len(),
            forall|j: int| from <= j < i ==> chars@[j] != '.',
        decreases n - i,
    {
        if chars[i] == '.' {
            return i;
        }
        i += 1;
    }
    i
}

/// The selector starts with this prefix of non-dot characters and a
/// dot.
pub open spec fn ngram_prefix(w: Seq<char>) -> bool {
    w.len() > 6 && w[0] == 'n' && w[1] == 'g' && w[2] == 'r' && w[3] == 'a' && w[4] == 'm'
        && w[5] == '.'
}

pub open spec fn nghash_prefix(w: Seq<char>) -> bool {
    w.len() > 7 && w[0] == 'n' && w[1] == 'g' && w[2] == 'h' && w[3] == 'a' && w[4] == 's'
        && w[5] == 'h' && w[6] == '.'
}

/// What an "ngram.N" selector must yield: the gram size is the parsed
/// N; an unreadable, zero or oversized N falls back to the English
/// stemmer.
pub open spec fn ngram_choice(w: Seq<char>, r: Tokenizer) -> bool {
    match digits_value(w.skip(6)) {
        Option::Some(v) => if 1 <= v <= usize::MAX {
            r == Tokenizer::NGrams(NGrams { n: v as usize })
        } else {
            r == Tokenizer::EnglishStemLower(EnglishStemLowercase)
        },
        Option::None => r == Tokenizer::EnglishStemLower(EnglishStemLowercase),
    }
}

/// What an "nghash.N.M" selector must yield, for the field split at
/// the first dot after the prefix: gram size N, and the first odd
/// prime at or above M as the modulus; when no 32-bit one exists, or
/// a field is unreadable, the English stemmer.
pub open spec fn nghash_choice(w: Seq<char>, d: int, r: Tokenizer) -> bool {
    match (digits_value(w.subrange(7, d)), digits_value(w.skip(d + 1))) {
        (Option::Some(nv), Option::Some(mv)) => if 1 <= nv <= usize::MAX && mv
            <= 0xffff_ffff {
            match r {
                Tokenizer::NGramsHashed(g) => {
                    &&& g.n == nv
                    &&& g.hmod >= mv
                    &&& is_prime_spec(g.hmod as nat)
                },
                Tokenizer::EnglishStemLower(t) => forall|q: u32|
                    mv <= q && q % 2 == 1 ==> !#[trigger] is_prime_spec(q as nat),
                _ => false,
            }
        } else {
            r == Tokenizer::EnglishStemLower(EnglishStemLowercase)
        },
        _ => r == Tokenizer::EnglishStemLower(EnglishStemLowercase),
    }
}

/// Build a tokenizer from its name: "englishstemlower", "ngram.N" or
/// "nghash.N.M".  Anything unreadable falls back to the English
/// stemmer.
pub fn get_tokenizer(which: &str) -> (r: Tokenizer)
    ensures
        which@ == "englishstemlower"@ ==> r == Tokenizer::EnglishStemLower(
            EnglishStemLowercase,
        ),
        r matches Tokenizer::NGrams(g) ==> g.n >= 1,
        r matches Tokenizer::NGramsHashed(g) ==> g.n >= 1 && is_prime_spec(g.hmod as nat),
        ngram_prefix(which@) ==> ngram_choice(which@, r),
        nghash_prefix(which@) ==> forall|d: int|
            7 <= d < which@.len() && which@[d] == '.' && (forall|j: int|
                7 <= j < d ==> which@[j] != '.') ==> #[trigger] nghash_choice(which@, d, r),
        nghash_prefix(which@) && (forall|j: int|
            7 <= j < which@.len() ==> which@[j] != '.') ==> r == Tokenizer::EnglishStemLower(
            EnglishStemLowercase,
        ),
{
    if str_eq(which, "englishstemlower") {
        proof {
            reveal_strlit("englishstemlower");
            assert(!ngram_prefix(which@));
            assert(!nghash_prefix(which@));
        }
        return Tokenizer::EnglishStemLower(EnglishStemLowercase);
    }
    let chars = chars_vec(which);
    let n = chars.len();
    // "ngram." prefix: six characters, then the gram size
    if n > 6 && chars[0] == 'n' && chars[1] == 'g' && chars[2] == 'r' && chars[3] == 'a'
        && chars[4] == 'm' && chars[5] == '.' {
        proof {
            assert(chars@.subrange(6, n as int) =~= which@.skip(6));
        }
        match parse_usize(&chars, 6, n) {
            Some(v) if v >= 1 => {
                return Tokenizer::NGrams(NGrams { n: v });
            },
            _ => {
                return Tokenizer::EnglishStemLower(EnglishStemLowercase);
            },
        }
    }
    // "nghash." prefix: seven characters, the gram size, a dot, the
    // modulus
    if n > 7 && chars[0] == 'n' && chars[1] == 'g' && chars[2] == 'h' && chars[3] == 'a'
        && chars[4] == 's' && chars[5] == 'h' && chars[6] == '.' {
        let dot = find_dot(&chars, 7);
        if dot < n {
            proof {
                lemma_first_dot_unique(which@, dot as int);
                assert(chars@.subrange(7, dot as int) =~= which@.subrange(7, dot as int));
                assert(chars@.subrange(dot + 1, n as int) =~= which@.skip(dot + 1));
            }
            let gsize = parse_usize(&chars, 7, dot);
            let hmod = parse_usize(&chars, dot + 1, n);
            match (gsize, hmod) {
                (Some(g), Some(m)) if g >= 1 && m <= 0xffff_ffff => {
                    match NGramsHashed::new(g, m as u32) {
                        Some(t) => {
                            return Tokenizer::NGramsHashed(t);
                        },
                        None => {
                            return Tokenizer::EnglishStemLower(EnglishStemLowercase);
                        },
                    }
                },
                _ => {
                    return Tokenizer::EnglishStemLower(EnglishStemLowercase);
                },
            }
        }
        return Tokenizer::EnglishStemLower(EnglishStemLowercase);
    }
    Tokenizer::EnglishStemLower(EnglishStemLowercase)
}

/// There is at most one first dot: any position with a dot and none
/// before it is this one.
proof fn lemma_first_dot_unique(w: Seq<char>, d0: int)
    requires
        7 <= d0 < w.len(),
        w[d0] == '.',
        forall|j: int| 7 <= j < d0 ==> w[j] != '.',
    ensures
        forall|d: int|
            7 <= d < w.len() && w[d] == '.' && (forall|j: int| 7 <= j < d ==> w[j] != '.')
                ==> d == d0,
{
    assert forall|d: int|
        7 <= d < w.len() && w[d] == '.' && (forall|j: int| 7 <= j < d ==> w[j] != '.')
            implies d == d0 by {
        if d < d0 {
            assert(w[d] != '.');
        } else if d > d0 {
            assert(w[d0] != '.');
        }
    }
}

/// The counting outcome: the map counts each id's occurrences
/// exactly, and each id present got exactly one document-frequency
/// tick.
pub open spec fn counted(
    counts: Map<usize, i32>,
    df_old: Map<usize, u32>,
    df_new: Map<usize, u32>,
    tids: Seq<usize>,
) -> bool {
    &&& forall|t: usize| #[trigger] counts.contains_key(t) <==> count_in(tids, t) > 0
    &&& forall|t: usize| #[trigger] counts.contains_key(t) ==> counts[t] == count_in(tids, t)
    &&& forall|t: usize|
        count_in(tids, t) > 0 ==> #[trigger] df_new.contains_key(t) && df_new[t] == (
        if df_old.contains_key(t) {
            df_old[t] + 1
        } else {
            1int
        })
    &&& forall|t: usize|
        count_in(tids, t) == 0 ==> (#[trigger] df_new.contains_key(t) == df_old.contains_key(
            t,
        )) && (df_old.contains_key(t) ==> df_new[t] == df_old[t])
}

/// Aggregate one document's token occurrences into the lexicon: each
/// distinct token gets an id and one document-frequency tick, and the
/// returned map counts each id's occurrences exactly.
pub fn count_tokens(tokens: &Vec<String>, dict: &mut Dict) -> (m: HashMap<usize, i32>)
    requires
        old(dict).wf(),
        old(dict).last_tokid + tokens@.len() < usize::MAX,
        tokens@.len() < 0x7fff_ffff,
        forall|t: usize|
            old(dict).df@.contains_key(t) ==> #[trigger] old(dict).df@[t] < 0xffff_ffffu32,
    ensures
        final(dict).wf(),
        forall|k: Seq<char>|
            #[trigger] old(dict).m@.contains_key(k) ==> final(dict).m@.contains_key(k)
                && final(dict).m@[k] == old(dict).m@[k],
        forall|q: int|
            0 <= q < tokens@.len() ==> final(dict).m@.contains_key(((#[trigger] tokens@[q])@)),
        counted(
            m@,
            old(dict).df@,
            final(dict).df@,
            lex_ids(final(dict).m@, tokens.deep_view()),
        ),
{
    let mut m: HashMap<usize, i32> = HashMap::new();
    let n = tokens.len();
    let mut i: usize = 0;
    let ghost mut tids: Seq<usize> = Seq::empty();
    while i < n
        invariant
            n == tokens@.len() < 0x7fff_ffff,
            0 <= i <= n,
            tids.len() == i,
            dict.wf(),
            old(dict).last_tokid + tokens@.len() < usize::MAX,
            dict.last_tokid <= old(dict).last_tokid + i,
            forall|t: usize|
                old(dict).df@.contains_key(t) ==> #[trigger] old(dict).df@[t]
                    < 0xffff_ffffu32,
            forall|k: Seq<char>|
                #[trigger] old(dict).m@.contains_key(k) ==> dict.m@.contains_key(k)
                    && dict.m@[k] == old(dict).m@[k],
            forall|q: int|
                0 <= q < i ==> dict.m@.contains_key(((#[trigger] tokens@[q])@)) && tids[q]
                    == dict.m@[tokens@[q]@],
            forall|t: usize| #[trigger] m@.contains_key(t) <==> count_in(tids, t) > 0,
            forall|t: usize|
                #[trigger] m@.contains_key(t) ==> m@[t] == count_in(tids, t) && m@[t] <= i,
            forall|t: usize|
                count_in(tids, t) > 0 ==> #[trigger] dict.df@.contains_key(t) && dict.df@[t]
                    == (if old(dict).df@.contains_key(t) {
                    old(dict).df@[t] + 1
                } else {
                    1int
                }),
            forall|t: usize|
                count_in(tids, t) == 0 ==> (#[trigger] dict.df@.contains_key(t) == old(
                    dict,
                ).df@.contains_key(t)) && (old(dict).df@.contains_key(t) ==> dict.df@[t]
                    == old(dict).df@[t]),
        decreases n - i,
    {
        let tok = &tokens[i];
        let tokid = dict.add_tok(tok.clone());
        let ghost pre_tids = tids;
        proof {
            tids = tids.push(tokid);
            assert(tids.drop_last() =~= pre_tids);
        }
        let current = match m.get(&tokid) {
            Some(c) => Some(*c),
            None => None,
        };
        match current {
            Some(c) => {
                proof {
                    assert(count_in(tids, tokid) == count_in(pre_tids, tokid) + 1);
                }
                m.insert(tokid, c + 1);
            },
            None => {
                dict.incr_df(tokid);
                m.insert(tokid, 1);
                proof {
                    assert(count_in(pre_tids, tokid) == 0);
                    assert(count_in(tids, tokid) == 1);
                }
            },
        }
        proof {
            assert forall|t: usize| t != tokid implies count_in(tids, t) == count_in(
                pre_tids,
                t,
            ) by {}
        }
        i += 1;
    }
    proof {
        assert(tids =~= lex_ids(dict.m@, tokens.deep_view())) by {
            assert forall|q: int|
                0 <= q < tids.len() implies tids[q] == lex_ids(
                dict.m@,
                tokens.deep_view(),
            )[q] by {
                assert(tokens.deep_view()[q] == tokens@[q]@);
            }
        }
    }
    m
}

/// Tokenize one document and aggregate its counts into the lexicon.
/// A document so large that counting could not stay exact yields an
/// empty map.  With the English tokenizer the whole outcome is pinned:
/// the counts are over the ids of exactly `english_tokens(text)`.
pub fn tokenize_and_map(docid: &str, text: &str, tokenizer: &Tokenizer, dict: &mut Dict) -> (r: (
    String,
    HashMap<usize, i32>,
))
    requires
        old(dict).wf(),
        tokenizer matches Tokenizer::NGrams(g) ==> g.n >= 1,
        tokenizer matches Tokenizer::NGramsHashed(g) ==> g.n >= 1 && g.hmod > 0,
        forall|t: usize|
            old(dict).df@.contains_key(t) ==> #[trigger] old(dict).df@[t] < 0xffff_ffffu32,
    ensures
        final(dict).wf(),
        r.0@ == docid@,
        forall|k: Seq<char>|
            #[trigger] old(dict).m@.contains_key(k) ==> final(dict).m@.contains_key(k)
                && final(dict).m@[k] == old(dict).m@[k],
        (tokenizer matches Tokenizer::EnglishStemLower(t) && old(dict).last_tokid
            + english_tokens(text@).len() < usize::MAX && english_tokens(text@).len()
            < 0x7fff_ffff) ==> counted(
            r.1@,
            old(dict).df@,
            final(dict).df@,
            lex_ids(final(dict).m@, english_tokens(text@)),
        ),
{
    let tokens = tokenizer.tokenize(text);
    if dict.last_tokid >= usize::MAX - tokens.len() || tokens.len() >= 0x7fff_ffff {
        return (docid.to_string(), HashMap::new());
    }
    let m = count_tokens(&tokens, dict);
    (docid.to_string(), m)
}

} // verus!



