//! The writer: renders a tree as canonical single-line text.
use vstd::prelude::*;
use vstd::string::StringExecFns;
use crate::parser::json_value::{Json, JsonValue};

verus! {

/// The character for a decimal digit.
pub open spec fn digit_char(d: nat) -> char {
    if d == 0 {
        '0'
    } else if d == 1 {
        '1'
    } else if d == 2 {
        '2'
    } else if d == 3 {
        '3'
    } else if d == 4 {
        '4'
    } else if d == 5 {
        '5'
    } else if d == 6 {
        '6'
    } else if d == 7 {
        '7'
    } else if d == 8 {
        '8'
    } else {
        '9'
    }
}

/// The decimal digits of `n`, most significant first, without leading zeros.
pub open spec fn decimal(n: nat) -> Seq<char>
    decreases n,
{
    if n < 10 {
        seq![digit_char(n)]
    } else {
        decimal(n / 10).push(digit_char(n % 10))
    }
}

/// The separator in front of the item at index `i` of a list: nothing in
/// front of the first, a comma and a space in front of the others.
pub open spec fn separator(i: int) -> Seq<char> {
    if i <= 0 {
        Seq::empty()
    } else {
        seq![',', ' ']
    }
}

/// The text of a tree: objects as `{"key": value, ...}`, arrays as
/// `[value, ...]`, strings in double quotes with nothing escaped, numbers in
/// decimal, and the literals `true`, `false` and `null`.
pub open spec fn render(v: Json) -> Seq<char>
    decreases v, 0int,
{
    match v {
        Json::Object(members) => seq!['{'] + render_members(members, 0) + seq!['}'],
        Json::Array(values) => seq!['['] + render_elements(values, 0) + seq![']'],
        Json::String(s) => seq!['"'] + s + seq!['"'],
        Json::Number(n) => decimal(n),
        Json::Boolean(b) => if b {
            seq!['t', 'r', 'u', 'e']
        } else {
            seq!['f', 'a', 'l', 's', 'e']
        },
        Json::Null => seq!['n', 'u', 'l', 'l'],
    }
}

/// The text of the members from index `i` on, each with its separator in
/// front.
pub open spec fn render_members(members: Seq<(Seq<char>, Json)>, i: int) -> Seq<char>
    decreases members, members.len() - i,
{
    if i < 0 || i >= members.len() {
        Seq::empty()
    } else {
        separator(i) + seq!['"'] + members[i].0 + seq!['"', ':', ' '] + render(members[i].1)
            + render_members(members, i + 1)
    }
}

/// The text of the elements from index `i` on, each with its separator in
/// front.
pub open spec fn render_elements(values: Seq<Json>, i: int) -> Seq<char>
    decreases values, values.len() - i,
{
    if i < 0 || i >= values.len() {
        Seq::empty()
    } else {
        separator(i) + render(values[i]) + render_elements(values, i + 1)
    }
}

/// The digit character of `d`.
fn digit(d: usize) -> (c: char)
    requires
        d < 10,
    ensures
        c == digit_char(d as nat),
{
    if d == 0 {
        '0'
    } else if d == 1 {
        '1'
    } else if d == 2 {
        '2'
    } else if d == 3 {
        '3'
    } else if d == 4 {
        '4'
    } else if d == 5 {
        '5'
    } else if d == 6 {
        '6'
    } else if d == 7 {
        '7'
    } else if d == 8 {
        '8'
    } else {
        '9'
    }
}

/// Appends the decimal digits of `n` to `out`.
fn write_decimal(n: usize, out: &mut String)
    ensures
        final(out)@ == old(out)@ + decimal(n as nat),
    decreases n,
{
    if n < 10 {
        out.push(digit(n));
        assert(final(out)@ =~= old(out)@ + decimal(n as nat));
    } else {
        write_decimal(n / 10, out);
        out.push(digit(n % 10));
        assert(final(out)@ =~= old(out)@ + decimal(n as nat));
    }
}

/// Appends the separator for the item at index `i`.
fn write_separator(i: usize, out: &mut String)
    ensures
        final(out)@ == old(out)@ + separator(i as int),
{
    if i > 0 {
        out.push(',');
        out.push(' ');
    }
    assert(final(out)@ =~= old(out)@ + separator(i as int));
}

/// Appends the text of `v` to `out`.
fn write_value(v: &JsonValue, out: &mut String)
    ensures
        final(out)@ == old(out)@ + render(v@),
    decreases v,
{
    let ghost start = out@;
    match v {
        JsonValue::Object { members } => {
            let ghost ms = v@->Object_0;
            out.push('{');
            let n = members.len();
            let mut i: usize = 0;
            assert(out@ + render_members(ms, 0) =~= start + seq!['{'] + render_members(ms, 0));
            while i < n
                invariant
                    i <= n,
                    n == members.len(),
                    v@ == Json::Object(ms),
                    *v == (JsonValue::Object { members: *members }),
                    out@ + render_members(ms, i as int) == start + seq!['{'] + render_members(
                        ms,
                        0,
                    ),
                decreases n - i,
            {
                let ghost before = out@;
                write_separator(i, out);
                out.push('"');
                out.append(members[i].0.as_str());
                out.push('"');
                out.push(':');
                out.push(' ');
                write_value(&members[i].1, out);
                proof {
                    assert(ms[i as int] == (members[i as int].0@, members[i as int].1@));
                    assert(out@ + render_members(ms, i + 1) =~= before + render_members(
                        ms,
                        i as int,
                    ));
                }
                i += 1;
            }
            out.push('}');
            assert(out@ =~= start + render(v@));
        },
        JsonValue::Array(values) => {
            let ghost vs = v@->Array_0;
            out.push('[');
            let n = values.len();
            let mut i: usize = 0;
            assert(out@ + render_elements(vs, 0) =~= start + seq!['['] + render_elements(vs, 0));
            while i < n
                invariant
                    i <= n,
                    n == values.len(),
                    v@ == Json::Array(vs),
                    *v == JsonValue::Array(*values),
                    out@ + render_elements(vs, i as int) == start + seq!['['] + render_elements(
                        vs,
                        0,
                    ),
                decreases n - i,
            {
                let ghost before = out@;
                write_separator(i, out);
                write_value(&values[i], out);
                proof {
                    assert(vs[i as int] == values[i as int]@);
                    assert(out@ + render_elements(vs, i + 1) =~= before + render_elements(
                        vs,
                        i as int,
                    ));
                }
                i += 1;
            }
            out.push(']');
            assert(out@ =~= start + render(v@));
        },
        JsonValue::String(s) => {
            out.push('"');
            out.append(s.as_str());
            out.push('"');
            assert(out@ =~= start + render(v@));
        },
        JsonValue::Number(n) => {
            write_decimal(*n, out);
        },
        JsonValue::Boolean(b) => {
            if *b {
                out.push('t');
                out.push('r');
                out.push('u');
                out.push('e');
            } else {
                out.push('f');
                out.push('a');
                out.push('l');
                out.push('s');
                out.push('e');
            }
            assert(out@ =~= start + render(v@));
        },
        JsonValue::Null => {
            out.push('n');
            out.push('u');
            out.push('l');
            out.push('l');
            assert(out@ =~= start + render(v@));
        },
    }
}

/// Writes a [`JsonValue`] to a [`String`].
pub struct JsonWriter;

impl JsonWriter {
    /// The canonical text of `obj`: a single line, with `", "` between the
    /// items of a list and `": "` between a key and its value.
    pub fn write(obj: JsonValue) -> (r: String)
        ensures
            r@ == render(obj@),
    {
        let mut out = String::new();
        write_value(&obj, &mut out);
        assert(out@ =~= render(obj@));
        out
    }
}

} // verus!
