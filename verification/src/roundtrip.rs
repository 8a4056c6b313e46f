//! Writing a tree and parsing the text gives the tree back.
use vstd::prelude::*;
use crate::parser::json_value::{distinct_keys, lemma_key_index_is, put, Json};
use crate::parser::{
    skip_comma, spec_document, spec_elements, spec_member, spec_members, spec_object, spec_parse,
    spec_value, ParseFailure,
};
use crate::text::is_whitespace;
use crate::tokenizer::token::TokenView;
use crate::tokenizer::{
    lex, lex_literal, prepend, prepend_all, punctuation, spec_tokenize, TokenizeErrorKind,
};
use crate::writer::{render, render_elements, render_members, separator};

verus! {

/// No character of `s` is a double quote.
pub open spec fn quote_free(s: Seq<char>) -> bool {
    forall|k: int| 0 <= k < s.len() ==> #[trigger] s[k] != '"'
}

/// The members have distinct, quote-free keys and textual values.
pub open spec fn textual_members(members: Seq<(Seq<char>, Json)>) -> bool
    decreases members,
{
    &&& distinct_keys(members)
    &&& forall|i: int|
        0 <= i < members.len() ==> quote_free((#[trigger] members[i]).0) && textual(
            members[i].1,
        )
}

/// The values are all textual.
pub open spec fn textual_elements(values: Seq<Json>) -> bool
    decreases values,
{
    forall|i: int| 0 <= i < values.len() ==> textual(#[trigger] values[i])
}

/// The tree is made of objects, arrays and strings only, no key occurs twice
/// in an object, and no key or string holds a double quote. These are the
/// trees that the grammar can denote.
pub open spec fn textual(v: Json) -> bool
    decreases v,
{
    match v {
        Json::Object(members) => textual_members(members),
        Json::Array(values) => textual_elements(values),
        Json::String(s) => quote_free(s),
        _ => false,
    }
}

/// The comma token in front of the item at index `i` of a list: none in
/// front of the first.
pub open spec fn comma(i: int) -> Seq<TokenView> {
    if i <= 0 {
        Seq::empty()
    } else {
        seq![TokenView::Comma]
    }
}

/// The tokens of the canonical text of a textual tree.
pub open spec fn tokens_of(v: Json) -> Seq<TokenView>
    decreases v, 0int,
{
    match v {
        Json::Object(members) => seq![TokenView::LeftBrace] + member_tokens(members, 0)
            + seq![TokenView::RightBrace],
        Json::Array(values) => seq![TokenView::LeftBracket] + element_tokens(values, 0)
            + seq![TokenView::RightBracket],
        Json::String(s) => seq![TokenView::Identifier(s)],
        _ => Seq::empty(),
    }
}

/// The tokens of the members from index `i` on.
pub open spec fn member_tokens(members: Seq<(Seq<char>, Json)>, i: int) -> Seq<TokenView>
    decreases members, members.len() - i,
{
    if i < 0 || i >= members.len() {
        Seq::empty()
    } else {
        comma(i) + seq![TokenView::Identifier(members[i].0), TokenView::Colon] + tokens_of(
            members[i].1,
        ) + member_tokens(members, i + 1)
    }
}

/// The tokens of the elements from index `i` on.
pub open spec fn element_tokens(values: Seq<Json>, i: int) -> Seq<TokenView>
    decreases values, values.len() - i,
{
    if i < 0 || i >= values.len() {
        Seq::empty()
    } else {
        comma(i) + tokens_of(values[i]) + element_tokens(values, i + 1)
    }
}

/// `x` stands in `s` at index `p`.
pub open spec fn has_at<T>(s: Seq<T>, p: int, x: Seq<T>) -> bool {
    &&& 0 <= p
    &&& p + x.len() <= s.len()
    &&& forall|k: int| 0 <= k < x.len() ==> s[p + k] == #[trigger] x[k]
}

/// Where two pieces stand one behind the other, each stands at its place.
proof fn lemma_has_at_split<T>(s: Seq<T>, p: int, x: Seq<T>, y: Seq<T>)
    requires
        has_at(s, p, x + y),
    ensures
        has_at(s, p, x),
        has_at(s, p + x.len(), y),
{
    assert forall|k: int| 0 <= k < x.len() implies s[p + k] == #[trigger] x[k] by {
        assert((x + y)[k] == x[k]);
    }
    assert forall|k: int| 0 <= k < y.len() implies s[p + x.len() + k] == #[trigger] y[k] by {
        assert((x + y)[x.len() + k] == y[k]);
    }
}

/// Inside a string literal, the tokenizer reads up to the next double quote.
proof fn lemma_lex_literal_closed(s: Seq<char>, start: int, i: int, end: int)
    requires
        0 <= start <= i <= end < s.len(),
        forall|k: int| start <= k < end ==> #[trigger] s[k] != '"',
        s[end] == '"',
    ensures
        lex_literal(s, start, i) == prepend(
            TokenView::Identifier(s.subrange(start, end)),
            lex(s, end + 1),
        ),
    decreases end - i,
{
    if i < end {
        assert(s[i] != '"');
        lemma_lex_literal_closed(s, start, i + 1, end);
    }
}

/// A quoted, quote-free text is tokenized as one string literal.
proof fn lemma_lex_quoted(s: Seq<char>, p: int, t: Seq<char>)
    requires
        0 <= p,
        p + t.len() + 2 <= s.len(),
        s[p] == '"',
        s[p + 1 + t.len()] == '"',
        forall|k: int| 0 <= k < t.len() ==> s[p + 1 + k] == #[trigger] t[k],
        quote_free(t),
    ensures
        lex(s, p) == prepend(TokenView::Identifier(t), lex(s, p + t.len() + 2)),
{
    let end = p + 1 + t.len();
    assert forall|k: int| p + 1 <= k < end implies #[trigger] s[k] != '"' by {
        assert(s[p + 1 + (k - p - 1)] == t[k - p - 1]);
    }
    lemma_lex_literal_closed(s, p + 1, p + 1, end);
    assert(s.subrange(p + 1, end) =~= t) by {
        assert forall|k: int| 0 <= k < t.len() implies s.subrange(p + 1, end)[k] == t[k] by {
            assert(s[p + 1 + k] == t[k]);
        }
    }
}

/// The separator of the writer is tokenized as the comma that it holds.
proof fn lemma_lex_separator(s: Seq<char>, p: int, i: int)
    requires
        has_at(s, p, separator(i)),
    ensures
        lex(s, p) == prepend_all(comma(i), lex(s, p + separator(i).len())),
{
    if i > 0 {
        assert(s[p + 0] == separator(i)[0]);
        assert(s[p + 1] == separator(i)[1]);
        assert(punctuation(s[p]) == Some(TokenView::Comma));
        assert(is_whitespace(s[p + 1]));
        assert(punctuation(s[p + 1]) is None);
        assert(lex(s, p + 1) == lex(s, p + 2));
        match lex(s, p + 2) {
            Ok(r) => {
                assert(seq![TokenView::Comma] + r =~= comma(i) + r);
            },
            Err(_) => {},
        }
    } else {
        match lex(s, p) {
            Ok(r) => {
                assert(comma(i) + r =~= r);
            },
            Err(_) => {},
        }
    }
}

/// The text of a textual tree is tokenized as the tokens of the tree.
proof fn lemma_lex_render(s: Seq<char>, p: int, v: Json)
    requires
        textual(v),
        has_at(s, p, render(v)),
    ensures
        lex(s, p) == prepend_all(tokens_of(v), lex(s, p + render(v).len())),
    decreases v, 0int,
{
    let rest = lex(s, p + render(v).len());
    match v {
        Json::Object(members) => {
            let inner = render_members(members, 0);
            lemma_has_at_split(s, p, seq!['{'] + inner, seq!['}']);
            lemma_has_at_split(s, p, seq!['{'], inner);
            assert(s[p + 0] == seq!['{'][0]);
            let q = p + 1 + inner.len();
            assert(s[q + 0] == seq!['}'][0]);
            lemma_lex_render_members(s, p + 1, members, 0);
            assert(punctuation(s[p]) == Some(TokenView::LeftBrace));
            assert(punctuation(s[q]) == Some(TokenView::RightBrace));
            assert(lex(s, q) == prepend(TokenView::RightBrace, rest));
            match rest {
                Ok(r) => {
                    assert(seq![TokenView::LeftBrace] + (member_tokens(members, 0) + (seq![
                        TokenView::RightBrace,
                    ] + r)) =~= tokens_of(v) + r);
                },
                Err(_) => {},
            }
        },
        Json::Array(values) => {
            let inner = render_elements(values, 0);
            lemma_has_at_split(s, p, seq!['['] + inner, seq![']']);
            lemma_has_at_split(s, p, seq!['['], inner);
            assert(s[p + 0] == seq!['['][0]);
            let q = p + 1 + inner.len();
            assert(s[q + 0] == seq![']'][0]);
            lemma_lex_render_elements(s, p + 1, values, 0);
            assert(punctuation(s[p]) == Some(TokenView::LeftBracket));
            assert(punctuation(s[q]) == Some(TokenView::RightBracket));
            assert(lex(s, q) == prepend(TokenView::RightBracket, rest));
            match rest {
                Ok(r) => {
                    assert(seq![TokenView::LeftBracket] + (element_tokens(values, 0) + (seq![
                        TokenView::RightBracket,
                    ] + r)) =~= tokens_of(v) + r);
                },
                Err(_) => {},
            }
        },
        Json::String(t) => {
            lemma_has_at_split(s, p, seq!['"'] + t, seq!['"']);
            lemma_has_at_split(s, p, seq!['"'], t);
            assert(s[p + 0] == seq!['"'][0]);
            assert(s[p + 1 + t.len() + 0] == seq!['"'][0]);
            assert forall|k: int| 0 <= k < t.len() implies s[p + 1 + k] == #[trigger] t[k] by {}
            lemma_lex_quoted(s, p, t);
        },
        _ => {},
    }
}

/// The text of the members of a textual object is tokenized as their tokens.
proof fn lemma_lex_render_members(s: Seq<char>, p: int, members: Seq<(Seq<char>, Json)>, i: int)
    requires
        0 <= i <= members.len(),
        textual(Json::Object(members)),
        has_at(s, p, render_members(members, i)),
    ensures
        lex(s, p) == prepend_all(
            member_tokens(members, i),
            lex(s, p + render_members(members, i).len()),
        ),
    decreases members, members.len() - i,
{
    let rest = lex(s, p + render_members(members, i).len());
    if i >= members.len() {
        match rest {
            Ok(r) => {
                assert(member_tokens(members, i) + r =~= r);
            },
            Err(_) => {},
        }
    } else {
        let key = members[i].0;
        let value = members[i].1;
        let gap = separator(i);
        let quote = seq!['"'];
        let colon = seq!['"', ':', ' '];
        let body = render(value);
        let others = render_members(members, i + 1);
        lemma_has_at_split(s, p, gap + quote + key + colon + body, others);
        lemma_has_at_split(s, p, gap + quote + key + colon, body);
        lemma_has_at_split(s, p, gap + quote + key, colon);
        lemma_has_at_split(s, p, gap + quote, key);
        lemma_has_at_split(s, p, gap, quote);
        let key_at = p + gap.len();
        let close_at = key_at + 1 + key.len();
        let value_at = close_at + 3;
        let rest_at = value_at + body.len();
        lemma_lex_separator(s, p, i);
        assert(s[key_at + 0] == quote[0]);
        assert(s[close_at + 0] == colon[0]);
        assert(s[close_at + 1] == colon[1]);
        assert(s[close_at + 2] == colon[2]);
        assert forall|k: int| 0 <= k < key.len() implies s[key_at + 1 + k] == #[trigger] key[k] by {}
        lemma_lex_quoted(s, key_at, key);
        assert(punctuation(s[close_at + 1]) == Some(TokenView::Colon));
        assert(is_whitespace(s[close_at + 2]));
        assert(punctuation(s[close_at + 2]) is None);
        assert(lex(s, close_at + 2) == lex(s, value_at));
        assert(lex(s, close_at + 1) == prepend(TokenView::Colon, lex(s, value_at)));
        lemma_lex_render(s, value_at, value);
        lemma_lex_render_members(s, rest_at, members, i + 1);
        match rest {
            Ok(r) => {
                assert(comma(i) + (seq![TokenView::Identifier(key)] + (seq![TokenView::Colon] + (
                tokens_of(value) + (member_tokens(members, i + 1) + r)))) =~= member_tokens(
                    members,
                    i,
                ) + r);
            },
            Err(_) => {},
        }
    }
}

/// The text of the elements of a textual array is tokenized as their tokens.
proof fn lemma_lex_render_elements(s: Seq<char>, p: int, values: Seq<Json>, i: int)
    requires
        0 <= i <= values.len(),
        textual(Json::Array(values)),
        has_at(s, p, render_elements(values, i)),
    ensures
        lex(s, p) == prepend_all(
            element_tokens(values, i),
            lex(s, p + render_elements(values, i).len()),
        ),
    decreases values, values.len() - i,
{
    let rest = lex(s, p + render_elements(values, i).len());
    if i >= values.len() {
        match rest {
            Ok(r) => {
                assert(element_tokens(values, i) + r =~= r);
            },
            Err(_) => {},
        }
    } else {
        let value = values[i];
        let gap = separator(i);
        let body = render(value);
        let others = render_elements(values, i + 1);
        lemma_has_at_split(s, p, gap + body, others);
        lemma_has_at_split(s, p, gap, body);
        let value_at = p + gap.len();
        let rest_at = value_at + body.len();
        lemma_lex_separator(s, p, i);
        lemma_lex_render(s, value_at, value);
        lemma_lex_render_elements(s, rest_at, values, i + 1);
        match rest {
            Ok(r) => {
                assert(comma(i) + (tokens_of(value) + (element_tokens(values, i + 1) + r))
                    =~= element_tokens(values, i) + r);
            },
            Err(_) => {},
        }
    }
}

/// The first token of a textual tree opens an object or an array, or is a
/// string literal.
proof fn lemma_first_token(v: Json)
    requires
        textual(v),
    ensures
        tokens_of(v).len() >= 1,
        tokens_of(v)[0] != TokenView::Comma,
        tokens_of(v)[0] != TokenView::RightBrace,
        tokens_of(v)[0] != TokenView::RightBracket,
{
}

/// The tokens of a textual tree are parsed as the tree.
proof fn lemma_parse_tokens(toks: Seq<TokenView>, p: int, v: Json)
    requires
        textual(v),
        has_at(toks, p, tokens_of(v)),
    ensures
        spec_value(toks, p) == Ok::<_, ParseFailure>((v, p + tokens_of(v).len())),
        v is Object ==> spec_object(toks, p) == spec_value(toks, p),
    decreases v, 0int,
{
    match v {
        Json::Object(members) => {
            let inner = member_tokens(members, 0);
            let open = seq![TokenView::LeftBrace];
            let close = seq![TokenView::RightBrace];
            assert(tokens_of(v) =~= open + (inner + close));
            lemma_has_at_split(toks, p, open, inner + close);
            lemma_has_at_split(toks, p + 1, inner, close);
            assert(toks[p + 0] == open[0]);
            assert(toks[p + 1 + inner.len() + 0] == close[0]);
            assert(members.subrange(0, 0) =~= Seq::empty());
            lemma_parse_member_tokens(toks, p + 1, members, 0);
        },
        Json::Array(values) => {
            let inner = element_tokens(values, 0);
            let open = seq![TokenView::LeftBracket];
            let close = seq![TokenView::RightBracket];
            assert(tokens_of(v) =~= open + (inner + close));
            lemma_has_at_split(toks, p, open, inner + close);
            lemma_has_at_split(toks, p + 1, inner, close);
            assert(toks[p + 0] == open[0]);
            assert(toks[p + 1 + inner.len() + 0] == close[0]);
            assert(values.subrange(0, 0) =~= Seq::empty());
            lemma_parse_element_tokens(toks, p + 1, values, 0);
        },
        Json::String(t) => {
            assert(toks[p + 0] == tokens_of(v)[0]);
        },
        _ => {},
    }
}

/// The tokens of the members of a textual object from index `i` on, with the
/// closing brace behind them, are parsed as those members; `q` is where the
/// comma in front of them stands, if there is one.
proof fn lemma_parse_member_tokens(
    toks: Seq<TokenView>,
    q: int,
    members: Seq<(Seq<char>, Json)>,
    i: int,
)
    requires
        0 <= i <= members.len(),
        textual(Json::Object(members)),
        has_at(toks, q, member_tokens(members, i) + seq![TokenView::RightBrace]),
    ensures
        spec_members(toks, skip_comma(toks, q), members.subrange(0, i)) == Ok::<_, ParseFailure>(
            (members, q + member_tokens(members, i).len()),
        ),
        i == 0 ==> skip_comma(toks, q) == q,
    decreases members, members.len() - i,
{
    let close = seq![TokenView::RightBrace];
    let acc = members.subrange(0, i);
    if i >= members.len() {
        assert(member_tokens(members, i) + close =~= close);
        assert(toks[q + 0] == close[0]);
        assert(acc =~= members);
    } else {
        let key = members[i].0;
        let value = members[i].1;
        let head = seq![TokenView::Identifier(key), TokenView::Colon];
        let tail = member_tokens(members, i + 1) + close;
        assert(member_tokens(members, i) + close =~= comma(i) + (head + (tokens_of(value)
            + tail)));
        lemma_has_at_split(toks, q, comma(i), head + (tokens_of(value) + tail));
        let e = q + comma(i).len();
        lemma_has_at_split(toks, e, head, tokens_of(value) + tail);
        lemma_has_at_split(toks, e + 2, tokens_of(value), tail);
        assert(toks[e + 0] == head[0]);
        assert(toks[e + 1] == head[1]);
        if i > 0 {
            assert(toks[q + 0] == comma(i)[0]);
        }
        assert(skip_comma(toks, q) == e);
        lemma_parse_tokens(toks, e + 2, value);
        let after = e + 2 + tokens_of(value).len();
        assert(spec_member(toks, e) == Ok::<_, ParseFailure>(((key, value), after)));
        assert(tail.len() >= 1);
        assert(after < toks.len());
        assert forall|j: int| 0 <= j < acc.len() implies (#[trigger] acc[j]).0 != key by {
            assert(members[j].0 != members[i].0);
        }
        lemma_key_index_is(acc, key, 0, acc.len() as int);
        assert(put(acc, key, value) =~= members.subrange(0, i + 1));
        lemma_parse_member_tokens(toks, after, members, i + 1);
    }
}

/// The tokens of the elements of a textual array from index `i` on, with the
/// closing bracket behind them, are parsed as those elements; `q` is where
/// the comma in front of them stands, if there is one.
proof fn lemma_parse_element_tokens(toks: Seq<TokenView>, q: int, values: Seq<Json>, i: int)
    requires
        0 <= i <= values.len(),
        textual(Json::Array(values)),
        has_at(toks, q, element_tokens(values, i) + seq![TokenView::RightBracket]),
    ensures
        spec_elements(toks, skip_comma(toks, q), values.subrange(0, i)) == Ok::<_, ParseFailure>(
            (values, q + element_tokens(values, i).len()),
        ),
        i == 0 ==> skip_comma(toks, q) == q,
    decreases values, values.len() - i,
{
    let close = seq![TokenView::RightBracket];
    let acc = values.subrange(0, i);
    if i >= values.len() {
        assert(element_tokens(values, i) + close =~= close);
        assert(toks[q + 0] == close[0]);
        assert(acc =~= values);
    } else {
        let value = values[i];
        let tail = element_tokens(values, i + 1) + close;
        assert(element_tokens(values, i) + close =~= comma(i) + (tokens_of(value) + tail));
        lemma_has_at_split(toks, q, comma(i), tokens_of(value) + tail);
        let e = q + comma(i).len();
        lemma_has_at_split(toks, e, tokens_of(value), tail);
        lemma_first_token(value);
        assert(toks[e + 0] == tokens_of(value)[0]);
        if i > 0 {
            assert(toks[q + 0] == comma(i)[0]);
        }
        assert(skip_comma(toks, q) == e);
        lemma_parse_tokens(toks, e, value);
        let after = e + tokens_of(value).len();
        assert(tail.len() >= 1);
        assert(after < toks.len());
        assert(acc.push(value) =~= values.subrange(0, i + 1));
        lemma_parse_element_tokens(toks, after, values, i + 1);
    }
}

/// Writing a tree and parsing the text gives the tree back.
///
/// This holds of every tree that the grammar can denote: an object at the
/// root, below it objects, arrays and strings only, keys distinct within
/// each object, and no double quote in a key or a string (the writer escapes
/// nothing). The members come back in their order.
pub proof fn theorem_round_trip(v: Json)
    requires
        v is Object,
        textual(v),
    ensures
        spec_tokenize(render(v)) == Ok::<_, TokenizeErrorKind>(tokens_of(v)),
        spec_document(tokens_of(v)) == Ok::<_, ParseFailure>(v),
        spec_parse(render(v)) == Ok::<_, ParseFailure>(v),
{
    let s = render(v);
    let toks = tokens_of(v);
    assert(has_at(s, 0, s));
    lemma_lex_render(s, 0, v);
    assert(toks + Seq::empty() =~= toks);
    assert(has_at(toks, 0, toks));
    lemma_parse_tokens(toks, 0, v);
}

} // verus!
