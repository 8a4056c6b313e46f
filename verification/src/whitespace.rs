//! Whitespace outside string literals does not matter.
use vstd::prelude::*;
use crate::parser::spec_parse;
use crate::text::is_whitespace;
use crate::tokenizer::token::TokenView;
use crate::tokenizer::{lex, lex_literal, punctuation, spec_tokenize, TokenizeErrorKind};

verus! {

/// Every character of `w` is whitespace.
pub open spec fn all_whitespace(w: Seq<char>) -> bool {
    forall|k: int| 0 <= k < w.len() ==> is_whitespace(#[trigger] w[k])
}

/// From index `from` of `s1` on, `s2` holds the same characters `shift`
/// places further right, and nothing after them.
spec fn shifted(s1: Seq<char>, s2: Seq<char>, from: int, shift: int) -> bool {
    &&& 0 <= from
    &&& 0 <= from + shift
    &&& s2.len() == s1.len() + shift
    &&& forall|k: int| from <= k < s1.len() ==> #[trigger] s1[k] == s2[k + shift]
}

/// Tokenizing reads nothing in front of where it starts.
proof fn lemma_lex_shifted(s1: Seq<char>, s2: Seq<char>, shift: int, i: int)
    requires
        shifted(s1, s2, i, shift),
    ensures
        lex(s1, i) == lex(s2, i + shift),
    decreases s1.len() - i, 0int,
{
    if i < s1.len() {
        assert(s1[i] == s2[i + shift]);
        if punctuation(s1[i]) is Some || is_whitespace(s1[i]) {
            lemma_lex_shifted(s1, s2, shift, i + 1);
        } else if s1[i] == '"' {
            lemma_lex_literal_shifted(s1, s2, shift, i + 1, i + 1);
        }
    }
}

/// Tokenizing inside a string literal reads nothing in front of the literal.
proof fn lemma_lex_literal_shifted(s1: Seq<char>, s2: Seq<char>, shift: int, start: int, i: int)
    requires
        shifted(s1, s2, start, shift),
        start <= i,
    ensures
        lex_literal(s1, start, i) == lex_literal(s2, start + shift, i + shift),
    decreases s1.len() - i, 1int,
{
    if i < s1.len() {
        assert(s1[i] == s2[i + shift]);
        if s1[i] == '"' {
            assert(s1.subrange(start, i) =~= s2.subrange(start + shift, i + shift)) by {
                assert forall|k: int| 0 <= k < i - start implies s1.subrange(start, i)[k]
                    == s2.subrange(start + shift, i + shift)[k] by {
                    assert(s1[start + k] == s2[start + k + shift]);
                }
            }
            lemma_lex_shifted(s1, s2, shift, i + 1);
        } else {
            lemma_lex_literal_shifted(s1, s2, shift, start, i + 1);
        }
    }
}

/// A run of whitespace outside a string literal gives no token.
proof fn lemma_lex_skips_whitespace(s: Seq<char>, i: int, n: int)
    requires
        0 <= i,
        0 <= n,
        i + n <= s.len(),
        forall|k: int| i <= k < i + n ==> is_whitespace(#[trigger] s[k]),
    ensures
        lex(s, i) == lex(s, i + n),
    decreases n,
{
    if n > 0 {
        assert(is_whitespace(s[i]));
        assert(punctuation(s[i]) is None);
        lemma_lex_skips_whitespace(s, i + 1, n - 1);
    }
}

/// Where the tokens of `a` from `i` on end outside a string literal, text put
/// behind `a` is tokenized the same whether whitespace stands in between or
/// not.
proof fn lemma_lex_gap(a: Seq<char>, w: Seq<char>, b: Seq<char>, i: int)
    requires
        0 <= i <= a.len(),
        all_whitespace(w),
        lex(a, i) != Err::<Seq<TokenView>, _>(TokenizeErrorKind::MissingClosingQuote),
    ensures
        lex(a + w + b, i) == lex(a + b, i),
    decreases a.len() - i, 0int,
{
    let s1 = a + b;
    let s2 = a + w + b;
    if i == a.len() {
        assert forall|k: int| i <= k < i + w.len() implies is_whitespace(#[trigger] s2[k]) by {
            assert(s2[k] == w[k - i]);
        }
        lemma_lex_skips_whitespace(s2, i, w.len() as int);
        assert(shifted(s1, s2, i, w.len() as int)) by {
            assert forall|k: int| i <= k < s1.len() implies #[trigger] s1[k] == s2[k + w.len()] by {
                assert(s1[k] == b[k - a.len()]);
                assert(s2[k + w.len()] == b[k - a.len()]);
            }
        }
        lemma_lex_shifted(s1, s2, w.len() as int, i);
    } else {
        assert(s1[i] == a[i] && s2[i] == a[i]);
        if punctuation(a[i]) is Some || is_whitespace(a[i]) {
            lemma_lex_gap(a, w, b, i + 1);
        } else if a[i] == '"' {
            lemma_lex_literal_gap(a, w, b, i + 1, i + 1);
        }
    }
}

/// The same, from inside a string literal of `a` that is closed within `a`.
proof fn lemma_lex_literal_gap(a: Seq<char>, w: Seq<char>, b: Seq<char>, start: int, i: int)
    requires
        0 <= start <= i <= a.len(),
        all_whitespace(w),
        lex_literal(a, start, i) != Err::<Seq<TokenView>, _>(
            TokenizeErrorKind::MissingClosingQuote,
        ),
    ensures
        lex_literal(a + w + b, start, i) == lex_literal(a + b, start, i),
    decreases a.len() - i, 1int,
{
    let s1 = a + b;
    let s2 = a + w + b;
    if i < a.len() {
        assert(s1[i] == a[i] && s2[i] == a[i]);
        if a[i] == '"' {
            assert(s1.subrange(start, i) =~= a.subrange(start, i));
            assert(s2.subrange(start, i) =~= a.subrange(start, i));
            lemma_lex_gap(a, w, b, i + 1);
        } else {
            lemma_lex_literal_gap(a, w, b, start, i + 1);
        }
    }
}

/// Whitespace outside string literals does not matter.
///
/// Let a text be split in two where the first part does not end inside a
/// string literal. Then any run of whitespace put between the parts changes
/// neither the tokens nor the document that the text denotes, failures
/// included.
pub proof fn theorem_whitespace_between_tokens(a: Seq<char>, w: Seq<char>, b: Seq<char>)
    requires
        all_whitespace(w),
        spec_tokenize(a) != Err::<Seq<TokenView>, _>(TokenizeErrorKind::MissingClosingQuote),
    ensures
        spec_tokenize(a + w + b) == spec_tokenize(a + b),
        spec_parse(a + w + b) == spec_parse(a + b),
{
    lemma_lex_gap(a, w, b, 0);
}

/// The first `n` of the pieces, one after the other.
pub open spec fn joined(pieces: Seq<Seq<char>>, n: int) -> Seq<char>
    decreases n,
{
    if n <= 0 {
        Seq::empty()
    } else {
        joined(pieces, n - 1) + pieces[n - 1]
    }
}

/// The first `n` of the pieces, each with its gap in front of it.
pub open spec fn spaced(pieces: Seq<Seq<char>>, gaps: Seq<Seq<char>>, n: int) -> Seq<char>
    decreases n,
{
    if n <= 0 {
        Seq::empty()
    } else {
        spaced(pieces, gaps, n - 1) + gaps[n - 1] + pieces[n - 1]
    }
}

/// Every gap is whitespace, and stands where the pieces before it do not end
/// inside a string literal.
pub open spec fn gaps_between_tokens(pieces: Seq<Seq<char>>, gaps: Seq<Seq<char>>) -> bool {
    &&& gaps.len() == pieces.len()
    &&& forall|i: int| 0 <= i < gaps.len() ==> all_whitespace(#[trigger] gaps[i])
    &&& forall|n: int|
        0 <= n < pieces.len() ==> spec_tokenize(#[trigger] joined(pieces, n)) != Err::<
            Seq<TokenView>,
            _,
        >(TokenizeErrorKind::MissingClosingQuote)
}

/// The first `n` pieces with their gaps, and any text behind them, are
/// tokenized as the pieces without the gaps and that text.
proof fn lemma_spaced(pieces: Seq<Seq<char>>, gaps: Seq<Seq<char>>, n: int, b: Seq<char>)
    requires
        gaps_between_tokens(pieces, gaps),
        0 <= n <= pieces.len(),
    ensures
        lex(spaced(pieces, gaps, n) + b, 0) == lex(joined(pieces, n) + b, 0),
    decreases n,
{
    if n > 0 {
        let a = joined(pieces, n - 1);
        let w = gaps[n - 1];
        let c = pieces[n - 1];
        assert(all_whitespace(w));
        assert(spec_tokenize(a) != Err::<Seq<TokenView>, _>(
            TokenizeErrorKind::MissingClosingQuote,
        ));
        lemma_spaced(pieces, gaps, n - 1, w + (c + b));
        assert(spaced(pieces, gaps, n) + b =~= spaced(pieces, gaps, n - 1) + (w + (c + b)));
        assert(a + (w + (c + b)) =~= a + w + (c + b));
        lemma_lex_gap(a, w, c + b, 0);
        assert(a + (c + b) =~= joined(pieces, n) + b);
    }
}

/// Whitespace outside string literals does not matter, wherever it stands.
///
/// Let a text be cut into pieces at places outside its string literals. Then
/// the text with a run of whitespace of any length put in front of each
/// piece has the same tokens and denotes the same document, failures
/// included. An empty last piece gives whitespace at the end of the text.
pub proof fn theorem_whitespace_insensitive(pieces: Seq<Seq<char>>, gaps: Seq<Seq<char>>)
    requires
        gaps_between_tokens(pieces, gaps),
    ensures
        spec_tokenize(spaced(pieces, gaps, pieces.len() as int)) == spec_tokenize(
            joined(pieces, pieces.len() as int),
        ),
        spec_parse(spaced(pieces, gaps, pieces.len() as int)) == spec_parse(
            joined(pieces, pieces.len() as int),
        ),
{
    let n = pieces.len() as int;
    lemma_spaced(pieces, gaps, n, Seq::empty());
    assert(spaced(pieces, gaps, n) + Seq::empty() =~= spaced(pieces, gaps, n));
    assert(joined(pieces, n) + Seq::empty() =~= joined(pieces, n));
}

} // verus!
