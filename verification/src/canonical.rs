//! What the parser can give, and the normal form of a document.
use vstd::prelude::*;
use crate::parser::json_value::{key_index, lemma_key_index, put, well_formed, Json};
use crate::parser::{
    skip_comma, spec_array, spec_elements, spec_expect, spec_key, spec_member, spec_members,
    spec_object, spec_parse, spec_value,
};
use crate::roundtrip::{
    comma, element_tokens, member_tokens, quote_free, textual, textual_elements,
    textual_members, theorem_round_trip, tokens_of,
};
use crate::text::is_whitespace;
use crate::tokenizer::token::TokenView;
use crate::tokenizer::{
    lex, lex_literal, prepend, punctuation, spec_tokenize, TokenizeErrorKind,
};
use crate::writer::{render, render_elements, render_members, separator};

verus! {

/// The token is no string literal, or one without a double quote.
pub open spec fn quote_free_token(t: TokenView) -> bool {
    match t {
        TokenView::Identifier(s) => quote_free(s),
        _ => true,
    }
}

/// No string literal among the tokens holds a double quote.
pub open spec fn quote_free_tokens(toks: Seq<TokenView>) -> bool {
    forall|k: int| 0 <= k < toks.len() ==> quote_free_token(#[trigger] toks[k])
}

/// The tokens of a result of the tokenizer, where it has any, are quote-free.
pub open spec fn quote_free_result(r: Result<Seq<TokenView>, TokenizeErrorKind>) -> bool {
    match r {
        Ok(toks) => quote_free_tokens(toks),
        Err(_) => true,
    }
}

/// A quote-free token in front of quote-free tokens leaves them quote-free.
proof fn lemma_prepend_quote_free(t: TokenView, r: Result<Seq<TokenView>, TokenizeErrorKind>)
    requires
        quote_free_token(t),
        quote_free_result(r),
    ensures
        quote_free_result(prepend(t, r)),
{
    match r {
        Ok(toks) => {
            let all = seq![t] + toks;
            assert forall|k: int| 0 <= k < all.len() implies quote_free_token(
                #[trigger] all[k],
            ) by {
                if k > 0 {
                    assert(all[k] == toks[k - 1]);
                }
            }
        },
        Err(_) => {},
    }
}

/// The tokenizer puts no double quote into a string literal.
proof fn lemma_lex_quote_free(s: Seq<char>, i: int)
    requires
        0 <= i,
    ensures
        quote_free_result(lex(s, i)),
    decreases s.len() - i, 0int,
{
    if i < s.len() {
        if punctuation(s[i]) is Some {
            lemma_lex_quote_free(s, i + 1);
            lemma_prepend_quote_free(punctuation(s[i])->0, lex(s, i + 1));
        } else if is_whitespace(s[i]) {
            lemma_lex_quote_free(s, i + 1);
        } else if s[i] == '"' {
            lemma_lex_literal_quote_free(s, i + 1, i + 1);
        }
    }
}

/// The same from inside a string literal that has held no double quote so
/// far.
proof fn lemma_lex_literal_quote_free(s: Seq<char>, start: int, i: int)
    requires
        0 <= start <= i,
        forall|k: int| start <= k < i && k < s.len() ==> #[trigger] s[k] != '"',
    ensures
        quote_free_result(lex_literal(s, start, i)),
    decreases s.len() - i, 1int,
{
    if i < s.len() {
        if s[i] == '"' {
            lemma_lex_quote_free(s, i + 1);
            let t = s.subrange(start, i);
            assert forall|k: int| 0 <= k < t.len() implies #[trigger] t[k] != '"' by {
                assert(t[k] == s[start + k]);
            }
            lemma_prepend_quote_free(TokenView::Identifier(t), lex(s, i + 1));
        } else {
            lemma_lex_literal_quote_free(s, start, i + 1);
        }
    }
}

/// Giving a key a value keeps the keys distinct.
proof fn lemma_put_textual(members: Seq<(Seq<char>, Json)>, key: Seq<char>, value: Json)
    requires
        textual_members(members),
        quote_free(key),
        textual(value),
    ensures
        textual_members(put(members, key, value)),
{
    let r = key_index(members, key, 0);
    let after = put(members, key, value);
    lemma_key_index(members, key, 0);
    assert forall|j: int| 0 <= j < after.len() implies quote_free((#[trigger] after[j]).0)
        && textual(after[j].1) by {
        if j < members.len() && j != r {
            assert(after[j] == members[j]);
        }
    }
    assert forall|i: int, j: int| 0 <= i < j < after.len() implies after[i].0 != after[j].0 by {
        if j < members.len() {
            assert(after[i].0 == members[i].0);
            assert(after[j].0 == members[j].0);
        } else {
            assert(after[j].0 == key);
            assert(members[i].0 != key);
        }
    }
}

/// A value that the grammar gives takes at least one token, and is textual
/// where the string literals among the tokens are quote-free.
pub proof fn lemma_value_textual(toks: Seq<TokenView>, p: int)
    ensures
        match spec_value(toks, p) {
            Ok((v, after)) => p < after <= toks.len() && (quote_free_tokens(toks) ==> textual(
                v,
            )),
            Err(_) => true,
        },
    decreases toks.len() - p, 3int,
{
    if 0 <= p < toks.len() {
        if quote_free_tokens(toks) {
            assert(quote_free_token(toks[p]));
        }
        match toks[p] {
            TokenView::LeftBrace => lemma_object_textual(toks, p),
            TokenView::LeftBracket => lemma_array_textual(toks, p),
            _ => {},
        }
    }
}

/// The same of an object.
pub proof fn lemma_object_textual(toks: Seq<TokenView>, p: int)
    ensures
        match spec_object(toks, p) {
            Ok((v, after)) => v is Object && p < after <= toks.len() && (quote_free_tokens(toks)
                ==> textual(v)),
            Err(_) => true,
        },
    decreases toks.len() - p, 2int,
{
    if 0 <= p < toks.len() && toks[p] == TokenView::LeftBrace {
        assert(textual_members(Seq::empty()));
        lemma_members_textual(toks, p + 1, Seq::empty());
    }
}

/// The members of an object end at a token, and are textual where the
/// string literals among the tokens are quote-free and the members to which
/// they are added are textual.
pub proof fn lemma_members_textual(toks: Seq<TokenView>, p: int, acc: Seq<(Seq<char>, Json)>)
    requires
        0 <= p,
    ensures
        match spec_members(toks, p, acc) {
            Ok((members, after)) => p <= after < toks.len() && (quote_free_tokens(toks)
                && textual_members(acc) ==> textual_members(members)),
            Err(_) => true,
        },
    decreases toks.len() - p, 5int,
{
    if 0 <= p < toks.len() && toks[p] == TokenView::RightBrace {
    } else {
        lemma_member_textual(toks, p);
        match spec_member(toks, p) {
            Ok((member, after)) => {
                let next = skip_comma(toks, after);
                if p < next <= toks.len() {
                    if quote_free_tokens(toks) && textual_members(acc) {
                        lemma_put_textual(acc, member.0, member.1);
                    }
                    lemma_members_textual(toks, next, put(acc, member.0, member.1));
                }
            },
            Err(_) => {},
        }
    }
}

/// A member takes at least one token, and has a quote-free key and a
/// textual value where the string literals among the tokens are quote-free.
pub proof fn lemma_member_textual(toks: Seq<TokenView>, p: int)
    ensures
        match spec_member(toks, p) {
            Ok((member, after)) => p < after <= toks.len() && (quote_free_tokens(toks)
                ==> quote_free(member.0) && textual(member.1)),
            Err(_) => true,
        },
    decreases toks.len() - p, 4int,
{
    if 0 <= p < toks.len() {
        if quote_free_tokens(toks) {
            assert(quote_free_token(toks[p]));
        }
        match spec_key(toks, p) {
            Ok((key, after)) => {
                match spec_expect(toks, after, TokenView::Colon) {
                    Ok(start) => lemma_value_textual(toks, start),
                    Err(_) => {},
                }
            },
            Err(_) => {},
        }
    }
}

/// The same of an array.
pub proof fn lemma_array_textual(toks: Seq<TokenView>, p: int)
    ensures
        match spec_array(toks, p) {
            Ok((v, after)) => p < after <= toks.len() && (quote_free_tokens(toks) ==> textual(
                v,
            )),
            Err(_) => true,
        },
    decreases toks.len() - p, 2int,
{
    if 0 <= p < toks.len() && toks[p] == TokenView::LeftBracket {
        assert(textual_elements(Seq::empty()));
        lemma_elements_textual(toks, p + 1, Seq::empty());
    }
}

/// The elements of an array end at a token, and are textual where the
/// string literals among the tokens are quote-free and the elements to which
/// they are added are textual.
pub proof fn lemma_elements_textual(toks: Seq<TokenView>, p: int, acc: Seq<Json>)
    requires
        0 <= p,
    ensures
        match spec_elements(toks, p, acc) {
            Ok((values, after)) => p <= after < toks.len() && (quote_free_tokens(toks)
                && textual_elements(acc) ==> textual_elements(values)),
            Err(_) => true,
        },
    decreases toks.len() - p, 5int,
{
    if 0 <= p < toks.len() && toks[p] == TokenView::RightBracket {
    } else {
        lemma_value_textual(toks, p);
        match spec_value(toks, p) {
            Ok((value, after)) => {
                let next = skip_comma(toks, after);
                if p < next <= toks.len() {
                    let more = acc.push(value);
                    if quote_free_tokens(toks) && textual_elements(acc) {
                        assert forall|j: int| 0 <= j < more.len() implies textual(
                            #[trigger] more[j],
                        ) by {
                            if j < acc.len() {
                                assert(more[j] == acc[j]);
                            }
                        }
                    }
                    lemma_elements_textual(toks, next, more);
                }
            },
            Err(_) => {},
        }
    }
}

/// In a textual tree every object has distinct keys.
pub proof fn lemma_textual_well_formed(v: Json)
    requires
        textual(v),
    ensures
        well_formed(v),
    decreases v,
{
    match v {
        Json::Object(members) => {
            assert forall|i: int| 0 <= i < members.len() implies well_formed(
                (#[trigger] members[i]).1,
            ) by {
                lemma_textual_well_formed(members[i].1);
            }
        },
        Json::Array(values) => {
            assert forall|i: int| 0 <= i < values.len() implies well_formed(
                #[trigger] values[i],
            ) by {
                lemma_textual_well_formed(values[i]);
            }
        },
        _ => {},
    }
}

/// What the parser gives.
///
/// The root of every parsed document is an object. The tree holds objects,
/// arrays and strings only, no object has a key twice, and no key or string
/// holds a double quote.
pub proof fn theorem_parsed_shape(text: Seq<char>)
    requires
        spec_parse(text) is Ok,
    ensures
        spec_parse(text)->Ok_0 is Object,
        textual(spec_parse(text)->Ok_0),
        well_formed(spec_parse(text)->Ok_0),
{
    lemma_lex_quote_free(text, 0);
    let toks = spec_tokenize(text)->Ok_0;
    lemma_object_textual(toks, 0);
    lemma_textual_well_formed(spec_parse(text)->Ok_0);
}

/// How a token is written: punctuation as its character, a colon and a comma
/// with one space behind them, a string literal in double quotes.
pub open spec fn spell_token(t: TokenView) -> Seq<char> {
    match t {
        TokenView::LeftBrace => seq!['{'],
        TokenView::RightBrace => seq!['}'],
        TokenView::LeftBracket => seq!['['],
        TokenView::RightBracket => seq![']'],
        TokenView::Colon => seq![':', ' '],
        TokenView::Comma => seq![',', ' '],
        TokenView::Identifier(s) => seq!['"'] + s + seq!['"'],
    }
}

/// The tokens written one after the other, with nothing between them.
pub open spec fn spell(toks: Seq<TokenView>) -> Seq<char>
    decreases toks.len(),
{
    if toks.len() == 0 {
        Seq::empty()
    } else {
        spell(toks.drop_last()) + spell_token(toks.last())
    }
}

/// Spelling goes piece by piece.
proof fn lemma_spell_concat(a: Seq<TokenView>, b: Seq<TokenView>)
    ensures
        spell(a + b) == spell(a) + spell(b),
    decreases b.len(),
{
    if b.len() == 0 {
        assert(a + b =~= a);
        assert(spell(a) + spell(b) =~= spell(a));
    } else {
        assert((a + b).drop_last() =~= a + b.drop_last());
        assert((a + b).last() == b.last());
        lemma_spell_concat(a, b.drop_last());
        assert(spell(a + b) =~= spell(a) + spell(b));
    }
}

/// One token alone is spelled as the token.
proof fn lemma_spell_one(t: TokenView)
    ensures
        spell(seq![t]) == spell_token(t),
{
    assert(seq![t].drop_last() =~= Seq::empty());
    assert(spell(seq![t].drop_last()) =~= Seq::empty());
    assert(spell(seq![t]) =~= spell_token(t));
}

/// The comma in front of an item is spelled as the separator of the writer.
proof fn lemma_spell_comma(i: int)
    ensures
        spell(comma(i)) == separator(i),
{
    if i > 0 {
        lemma_spell_one(TokenView::Comma);
    }
}

/// The text of a textual tree is its tokens, spelled.
proof fn lemma_render_spelled(v: Json)
    requires
        textual(v),
    ensures
        render(v) == spell(tokens_of(v)),
    decreases v, 0int,
{
    match v {
        Json::Object(members) => {
            let open = seq![TokenView::LeftBrace];
            let close = seq![TokenView::RightBrace];
            lemma_render_members_spelled(members, 0);
            lemma_spell_one(TokenView::LeftBrace);
            lemma_spell_one(TokenView::RightBrace);
            lemma_spell_concat(open, member_tokens(members, 0));
            lemma_spell_concat(open + member_tokens(members, 0), close);
        },
        Json::Array(values) => {
            let open = seq![TokenView::LeftBracket];
            let close = seq![TokenView::RightBracket];
            lemma_render_elements_spelled(values, 0);
            lemma_spell_one(TokenView::LeftBracket);
            lemma_spell_one(TokenView::RightBracket);
            lemma_spell_concat(open, element_tokens(values, 0));
            lemma_spell_concat(open + element_tokens(values, 0), close);
        },
        Json::String(s) => {
            lemma_spell_one(TokenView::Identifier(s));
        },
        _ => {},
    }
}

/// The text of the members of a textual object is their tokens, spelled.
proof fn lemma_render_members_spelled(members: Seq<(Seq<char>, Json)>, i: int)
    requires
        textual(Json::Object(members)),
        0 <= i <= members.len(),
    ensures
        render_members(members, i) == spell(member_tokens(members, i)),
    decreases members, members.len() - i,
{
    if i < members.len() {
        let key = TokenView::Identifier(members[i].0);
        let head = seq![key, TokenView::Colon];
        let value = tokens_of(members[i].1);
        let others = member_tokens(members, i + 1);
        lemma_render_spelled(members[i].1);
        lemma_render_members_spelled(members, i + 1);
        lemma_spell_comma(i);
        lemma_spell_one(key);
        lemma_spell_one(TokenView::Colon);
        assert(head =~= seq![key] + seq![TokenView::Colon]);
        lemma_spell_concat(seq![key], seq![TokenView::Colon]);
        lemma_spell_concat(comma(i), head);
        lemma_spell_concat(comma(i) + head, value);
        lemma_spell_concat(comma(i) + head + value, others);
        assert(render_members(members, i) =~= spell(member_tokens(members, i)));
    }
}

/// The text of the elements of a textual array is their tokens, spelled.
proof fn lemma_render_elements_spelled(values: Seq<Json>, i: int)
    requires
        textual(Json::Array(values)),
        0 <= i <= values.len(),
    ensures
        render_elements(values, i) == spell(element_tokens(values, i)),
    decreases values, values.len() - i,
{
    if i < values.len() {
        let value = tokens_of(values[i]);
        let others = element_tokens(values, i + 1);
        lemma_render_spelled(values[i]);
        lemma_render_elements_spelled(values, i + 1);
        lemma_spell_comma(i);
        lemma_spell_concat(comma(i), value);
        lemma_spell_concat(comma(i) + value, others);
    }
}

/// Writing a parsed document normalizes it, and normalizing twice changes
/// nothing more.
///
/// The text written for a parsed document denotes the same tree, so parsing
/// and writing it again gives the same text. And it is its own tokens
/// spelled back to back, with one space behind each colon and each comma:
/// there is no other whitespace outside its string literals.
pub proof fn theorem_normal_form(text: Seq<char>)
    requires
        spec_parse(text) is Ok,
    ensures
        spec_parse(render(spec_parse(text)->Ok_0)) == spec_parse(text),
        render(spec_parse(render(spec_parse(text)->Ok_0))->Ok_0) == render(
            spec_parse(text)->Ok_0,
        ),
        spec_tokenize(render(spec_parse(text)->Ok_0)) is Ok,
        render(spec_parse(text)->Ok_0) == spell(
            spec_tokenize(render(spec_parse(text)->Ok_0))->Ok_0,
        ),
{
    theorem_parsed_shape(text);
    theorem_round_trip(spec_parse(text)->Ok_0);
    lemma_render_spelled(spec_parse(text)->Ok_0);
}

} // verus!
