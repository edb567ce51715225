//! The scanner: splits a source text into raw lexemes.
//!
//! Scanning walks the text left to right and takes, at each position, the
//! leftmost longest match of one of three patterns: an identifier-or-keyword
//! word, a run of decimal digits, or a single punctuation character from
//! `( ) { } ;`. Characters that match none of the patterns — whitespace and
//! any unsupported punctuation — are skipped silently; they produce neither a
//! token nor an error.

use vstd::prelude::*;
use vstd::string::StrSliceExecFns;

use crate::token::check_digit;
use crate::token::check_punct;
use crate::token::check_word_char;
use crate::token::check_word_start;
use crate::token::classify_spec;
use crate::token::is_constant;
use crate::token::is_digit;
use crate::token::is_identifier;
use crate::token::is_punct;
use crate::token::is_word_char;
use crate::token::is_word_start;

verus! {

/// A character at which a token begins: anything else is skipped.
pub open spec fn is_token_start(c: char) -> bool {
    is_word_start(c) || is_digit(c) || is_punct(c)
}

/// The length of the longest prefix of `s` whose characters all satisfy `p`.
pub open spec fn run_len(s: Seq<char>, p: spec_fn(char) -> bool) -> nat
    decreases s.len(),
{
    if s.len() > 0 && p(s[0]) {
        (1 + run_len(s.drop_first(), p)) as nat
    } else {
        0
    }
}

/// The length of the token that begins at the head of `s`, assuming the head
/// is a token-start character: the maximal word for a word-start character,
/// the maximal digit run for a digit, and a single character for punctuation.
pub open spec fn token_len(s: Seq<char>) -> nat
    recommends
        s.len() > 0,
{
    if s.len() > 0 && is_word_start(s[0]) {
        1 + run_len(s.drop_first(), |c: char| is_word_char(c))
    } else if s.len() > 0 && is_digit(s[0]) {
        run_len(s, |c: char| is_digit(c))
    } else {
        1
    }
}

/// The ordered sequence of raw lexemes of a source text: at each position the
/// leftmost longest pattern match becomes one lexeme, and every character
/// that starts no token is dropped.
pub open spec fn scan(s: Seq<char>) -> Seq<Seq<char>>
    decreases s.len(),
    via scan_decreases
{
    if s.len() == 0 {
        Seq::empty()
    } else if is_token_start(s[0]) {
        let n = token_len(s) as int;
        seq![s.take(n)] + scan(s.skip(n))
    } else {
        scan(s.skip(1))
    }
}

#[via_fn]
proof fn scan_decreases(s: Seq<char>) {
    if s.len() > 0 && is_token_start(s[0]) {
        if is_word_start(s[0]) {
            lemma_run_len_bounded(s.drop_first(), |c: char| is_word_char(c));
        } else if is_digit(s[0]) {
            lemma_run_len_bounded(s, |c: char| is_digit(c));
        }
    }
}

/// A run is never longer than the sequence it is a prefix of.
proof fn lemma_run_len_bounded(s: Seq<char>, p: spec_fn(char) -> bool)
    ensures
        run_len(s, p) <= s.len(),
    decreases s.len(),
{
    if s.len() > 0 && p(s[0]) {
        lemma_run_len_bounded(s.drop_first(), p);
    }
}

/// A run stops exactly at the first character that fails the predicate.
proof fn lemma_run_len_is(s: Seq<char>, p: spec_fn(char) -> bool, k: int)
    requires
        0 <= k <= s.len(),
        forall|m: int| 0 <= m < k ==> p(s[m]),
        k == s.len() || !p(s[k]),
    ensures
        run_len(s, p) == k,
    decreases k,
{
    if k == 0 {
        if s.len() > 0 {
            assert(!p(s[0]));
        }
    } else {
        assert(p(s[0]));
        assert forall|m: int| 0 <= m < k - 1 implies p(s.drop_first()[m]) by {
            assert(s.drop_first()[m] == s[m + 1]);
        }
        if k < s.len() {
            assert(s.drop_first()[k - 1] == s[k]);
        }
        lemma_run_len_is(s.drop_first(), p, k - 1);
    }
}

/// Split a source text into its raw lexemes, in source order.
pub fn scan_tokens(src: &str) -> (tokens: Vec<String>)
    ensures
        tokens@.map_values(|t: String| t@) == scan(src@),
{
    let n: usize = src.unicode_len();
    let mut tokens: Vec<String> = Vec::new();
    let mut i: usize = 0;
    proof {
        assert(src@.skip(0) =~= src@);
        assert(tokens@.map_values(|t: String| t@) + scan(src@) =~= scan(src@));
    }
    while i < n
        invariant
            n == src@.len(),
            0 <= i <= n,
            scan(src@) == tokens@.map_values(|t: String| t@) + scan(src@.skip(i as int)),
        decreases n - i,
    {
        let ghost rest = src@.skip(i as int);
        proof {
            assert(rest.len() == n - i);
            assert(rest[0] == src@[i as int]);
        }
        let c = src.get_char(i);
        if check_word_start(c) {
            let mut j: usize = i + 1;
            while j < n && check_word_char(src.get_char(j))
                invariant
                    n == src@.len(),
                    i + 1 <= j <= n,
                    forall|k: int| i + 1 <= k < j ==> is_word_char(src@[k]),
                decreases n - j,
            {
                j = j + 1;
            }
            proof {
                let tail = rest.drop_first();
                assert(tail =~= src@.skip(i + 1));
                assert forall|m: int| 0 <= m < j - i - 1 implies is_word_char(tail[m]) by {
                    assert(tail[m] == src@[i + 1 + m]);
                }
                if j - i - 1 < tail.len() {
                    assert(tail[j - i - 1] == src@[j as int]);
                }
                lemma_run_len_is(tail, |ch: char| is_word_char(ch), j - i - 1);
                assert(token_len(rest) == j - i);
                assert(rest.take(j - i) =~= src@.subrange(i as int, j as int));
                assert(rest.skip(j - i) =~= src@.skip(j as int));
            }
            let lexeme = src.substring_char(i, j).to_owned();
            let ghost before = tokens@.map_values(|t: String| t@);
            tokens.push(lexeme);
            proof {
                assert(tokens@.map_values(|t: String| t@) =~= before + seq![
                    src@.subrange(i as int, j as int),
                ]);
                assert(scan(rest) == seq![rest.take(j - i)] + scan(rest.skip(j - i)));
                assert(scan(src@) =~= tokens@.map_values(|t: String| t@) + scan(
                    src@.skip(j as int),
                ));
            }
            i = j;
        } else if check_digit(c) {
            let mut j: usize = i + 1;
            while j < n && check_digit(src.get_char(j))
                invariant
                    n == src@.len(),
                    i + 1 <= j <= n,
                    is_digit(src@[i as int]),
                    forall|k: int| i <= k < j ==> is_digit(src@[k]),
                decreases n - j,
            {
                j = j + 1;
            }
            proof {
                assert forall|m: int| 0 <= m < j - i implies is_digit(rest[m]) by {
                    assert(rest[m] == src@[i + m]);
                }
                if j - i < rest.len() {
                    assert(rest[j - i] == src@[j as int]);
                }
                lemma_run_len_is(rest, |ch: char| is_digit(ch), j - i);
                assert(token_len(rest) == j - i);
                assert(rest.take(j - i) =~= src@.subrange(i as int, j as int));
                assert(rest.skip(j - i) =~= src@.skip(j as int));
            }
            let lexeme = src.substring_char(i, j).to_owned();
            let ghost before = tokens@.map_values(|t: String| t@);
            tokens.push(lexeme);
            proof {
                assert(tokens@.map_values(|t: String| t@) =~= before + seq![
                    src@.subrange(i as int, j as int),
                ]);
                assert(scan(rest) == seq![rest.take(j - i)] + scan(rest.skip(j - i)));
                assert(scan(src@) =~= tokens@.map_values(|t: String| t@) + scan(
                    src@.skip(j as int),
                ));
            }
            i = j;
        } else if check_punct(c) {
            proof {
                assert(token_len(rest) == 1);
                assert(rest.take(1) =~= src@.subrange(i as int, i + 1));
                assert(rest.skip(1) =~= src@.skip(i + 1));
            }
            let lexeme = src.substring_char(i, i + 1).to_owned();
            let ghost before = tokens@.map_values(|t: String| t@);
            tokens.push(lexeme);
            proof {
                assert(tokens@.map_values(|t: String| t@) =~= before + seq![
                    src@.subrange(i as int, i + 1),
                ]);
                assert(scan(rest) == seq![rest.take(1)] + scan(rest.skip(1)));
                assert(scan(src@) =~= tokens@.map_values(|t: String| t@) + scan(src@.skip(i + 1)));
            }
            i = i + 1;
        } else {
            proof {
                assert(!is_token_start(rest[0]));
                assert(scan(rest) == scan(rest.skip(1)));
                assert(rest.skip(1) =~= src@.skip(i + 1));
            }
            i = i + 1;
        }
    }
    proof {
        assert(src@.skip(n as int) =~= Seq::<char>::empty());
        assert(scan(src@.skip(n as int)) == Seq::<Seq<char>>::empty());
        assert(tokens@.map_values(|t: String| t@) =~= scan(src@));
    }
    tokens
}

/// The three shapes a scanned lexeme can have: an identifier-or-keyword
/// word, a digit run, or a single punctuation character.
pub open spec fn token_shaped(t: Seq<char>) -> bool {
    is_identifier(t) || is_constant(t) || (t.len() == 1 && is_punct(t[0]))
}

/// Every character within a run satisfies the run's predicate.
proof fn lemma_run_len_chars(s: Seq<char>, p: spec_fn(char) -> bool)
    ensures
        forall|m: int| 0 <= m < run_len(s, p) ==> p(s[m]),
    decreases s.len(),
{
    if s.len() > 0 && p(s[0]) {
        lemma_run_len_bounded(s, p);
        lemma_run_len_chars(s.drop_first(), p);
        assert(run_len(s, p) == 1 + run_len(s.drop_first(), p));
        assert forall|m: int| 0 <= m < run_len(s, p) implies p(s[m]) by {
            if m > 0 {
                assert(0 <= m - 1 < run_len(s.drop_first(), p));
                assert(s.drop_first()[m - 1] == s[m]);
            }
        }
    }
}

/// Every lexeme the scanner produces has one of the three scanned shapes.
pub proof fn lemma_scan_shapes(s: Seq<char>)
    ensures
        forall|k: int| 0 <= k < scan(s).len() ==> #[trigger] token_shaped(scan(s)[k]),
    decreases s.len(),
{
    if s.len() == 0 {
        assert(scan(s) == Seq::<Seq<char>>::empty());
    } else if is_token_start(s[0]) {
        let n = token_len(s) as int;
        if is_word_start(s[0]) {
            lemma_run_len_bounded(s.drop_first(), |c: char| is_word_char(c));
            assert(s.drop_first().len() == s.len() - 1);
        } else if is_digit(s[0]) {
            lemma_run_len_bounded(s, |c: char| is_digit(c));
            assert(run_len(s, |c: char| is_digit(c)) >= 1);
        }
        assert(1 <= n <= s.len());
        lemma_scan_shapes(s.skip(n));
        let t = s.take(n);
        assert(t.len() == n);
        assert(t[0] == s[0]);
        if is_word_start(s[0]) {
            lemma_run_len_chars(s.drop_first(), |c: char| is_word_char(c));
            assert forall|k: int| 1 <= k < t.len() implies is_word_char(t[k]) by {
                assert(t[k] == s[k]);
                assert(0 <= k - 1 < run_len(s.drop_first(), |c: char| is_word_char(c)));
                assert(s.drop_first()[k - 1] == s[k]);
            }
            assert(is_identifier(t));
        } else if is_digit(s[0]) {
            lemma_run_len_chars(s, |c: char| is_digit(c));
            assert forall|k: int| 0 <= k < t.len() implies is_digit(t[k]) by {
                assert(t[k] == s[k]);
            }
            assert(is_constant(t));
        } else {
            assert(t.len() == 1 && is_punct(t[0]));
        }
        assert(token_shaped(t));
        assert(scan(s) == seq![t] + scan(s.skip(n)));
        assert forall|k: int| 0 <= k < scan(s).len() implies #[trigger] token_shaped(
            scan(s)[k],
        ) by {
            if k == 0 {
                assert(scan(s)[0] == t);
            } else {
                assert(scan(s)[k] == scan(s.skip(n))[k - 1]);
                assert(token_shaped(scan(s.skip(n))[k - 1]));
            }
        }
    } else {
        lemma_scan_shapes(s.skip(1));
        assert(scan(s) == scan(s.skip(1)));
        assert forall|k: int| 0 <= k < scan(s).len() implies #[trigger] token_shaped(
            scan(s)[k],
        ) by {
            assert(token_shaped(scan(s.skip(1))[k]));
        }
    }
}

/// A lexeme of one of the scanned shapes never classifies as `Unknown`.
proof fn lemma_shaped_never_unknown(t: Seq<char>)
    requires
        token_shaped(t),
    ensures
        !(classify_spec(t) is Unknown),
{
    if t.len() == 1 && is_punct(t[0]) && !is_identifier(t) && !is_constant(t) {
        reveal_strlit("(");
        reveal_strlit(")");
        reveal_strlit("{");
        reveal_strlit("}");
        reveal_strlit(";");
        if t[0] == '(' {
            assert(t =~= "("@);
        } else if t[0] == ')' {
            assert(t =~= ")"@);
        } else if t[0] == '{' {
            assert(t =~= "{"@);
        } else if t[0] == '}' {
            assert(t =~= "}"@);
        } else {
            assert(t =~= ";"@);
        }
    }
}

/// Law: classification is total on scanned input in the strong sense — a
/// lexeme the scanner produced never falls to the `Unknown` catch-all, which
/// stays reachable only for strings handed to the classifier directly.
pub proof fn lemma_scanned_lexemes_never_unknown(s: Seq<char>, k: int)
    requires
        0 <= k < scan(s).len(),
    ensures
        !(classify_spec(scan(s)[k]) is Unknown),
{
    lemma_scan_shapes(s);
    lemma_shaped_never_unknown(scan(s)[k]);
}

/// Appending a character that fails the predicate leaves a run unchanged.
proof fn lemma_run_len_push(t: Seq<char>, p: spec_fn(char) -> bool, c: char)
    requires
        !p(c),
    ensures
        run_len(t.push(c), p) == run_len(t, p),
    decreases t.len(),
{
    let u = t.push(c);
    if t.len() == 0 {
        assert(u.len() == 1 && u[0] == c);
    } else {
        assert(u[0] == t[0]);
        if p(t[0]) {
            assert(u.drop_first() =~= t.drop_first().push(c));
            lemma_run_len_push(t.drop_first(), p, c);
        }
    }
}

/// Law: a character that can start no token contributes nothing at the front
/// of the text — the token sequence is that of the rest alone.
pub proof fn lemma_leading_noise_ignored(s: Seq<char>, c: char)
    requires
        !is_token_start(c),
    ensures
        scan(seq![c] + s) == scan(s),
{
    let u = seq![c] + s;
    assert(u[0] == c);
    assert(scan(u) == scan(u.skip(1)));
    assert(u.skip(1) =~= s);
}

/// Law: a character that can start no token contributes nothing at the end
/// of the text either — it can extend no word and no digit run, so the token
/// sequence is that of the rest alone.
pub proof fn lemma_trailing_noise_ignored(s: Seq<char>, c: char)
    requires
        !is_token_start(c),
    ensures
        scan(s.push(c)) == scan(s),
    decreases s.len(),
{
    let u = s.push(c);
    if s.len() == 0 {
        assert(u =~= seq![c]);
        assert(scan(u) == scan(u.skip(1)));
        assert(u.skip(1) =~= Seq::<char>::empty());
    } else {
        assert(u[0] == s[0]);
        if is_token_start(s[0]) {
            let n = token_len(s) as int;
            assert(!is_word_char(c) && !is_digit(c));
            if is_word_start(s[0]) {
                lemma_run_len_bounded(s.drop_first(), |ch: char| is_word_char(ch));
                assert(s.drop_first().len() == s.len() - 1);
                assert(u.drop_first() =~= s.drop_first().push(c));
                lemma_run_len_push(s.drop_first(), |ch: char| is_word_char(ch), c);
            } else if is_digit(s[0]) {
                lemma_run_len_bounded(s, |ch: char| is_digit(ch));
                assert(run_len(s, |ch: char| is_digit(ch)) >= 1);
                lemma_run_len_push(s, |ch: char| is_digit(ch), c);
            }
            assert(token_len(u) == n);
            assert(1 <= n <= s.len());
            assert(u.take(n) =~= s.take(n));
            assert(u.skip(n) =~= s.skip(n).push(c));
            lemma_trailing_noise_ignored(s.skip(n), c);
            assert(scan(u) == seq![u.take(n)] + scan(u.skip(n)));
            assert(scan(s) == seq![s.take(n)] + scan(s.skip(n)));
        } else {
            assert(u.skip(1) =~= s.skip(1).push(c));
            lemma_trailing_noise_ignored(s.skip(1), c);
            assert(scan(u) == scan(u.skip(1)));
            assert(scan(s) == scan(s.skip(1)));
        }
    }
}

/// Law: a source text none of whose characters can start a token — only
/// whitespace and unsupported punctuation — scans to no tokens at all.
pub proof fn lemma_no_token_chars(s: Seq<char>)
    requires
        forall|k: int| 0 <= k < s.len() ==> !is_token_start(s[k]),
    ensures
        scan(s).len() == 0,
    decreases s.len(),
{
    if s.len() > 0 {
        assert(!is_token_start(s[0]));
        assert forall|k: int| 0 <= k < s.skip(1).len() implies !is_token_start(s.skip(1)[k]) by {
            assert(s.skip(1)[k] == s[k + 1]);
        }
        lemma_no_token_chars(s.skip(1));
    }
}

} // verus!
