use vstd::prelude::*;
use vstd::std_specs::iter::IteratorSpec;
use crate::value::{Json, Value, view_values, view_entries, push_char, lemma_view_values_len, lemma_view_entries_len};

verus! {

/// The character that one indentation step is made of.
#[derive(Clone, Copy, Debug, PartialEq, Eq, Structural)]
pub enum IndentUnit {
    Space,
    Tab,
}

/// How the formatter lays out its output.
#[derive(Clone, Copy, Debug, PartialEq, Eq, Structural)]
pub enum LayoutStyle {
    /// No whitespace between tokens.
    Compact,
    /// One line per element, each nesting level indented by `count` copies of `unit`.
    Indented { unit: IndentUnit, count: usize },
}

pub open spec fn unit_char(u: IndentUnit) -> char {
    match u {
        IndentUnit::Space => ' ',
        IndentUnit::Tab => '\t',
    }
}

/// The indentation added by one nesting level.
pub open spec fn level(style: LayoutStyle) -> Seq<char> {
    match style {
        LayoutStyle::Compact => Seq::empty(),
        LayoutStyle::Indented { unit, count } => Seq::new(count as nat, |i: int| unit_char(unit)),
    }
}

/// What precedes an element (or a closing bracket) whose line is indented by `pad`.
pub open spec fn line_break(style: LayoutStyle, pad: Seq<char>) -> Seq<char> {
    match style {
        LayoutStyle::Compact => Seq::empty(),
        LayoutStyle::Indented { .. } => seq!['\n'] + pad,
    }
}

/// What separates a key's colon from its value.
pub open spec fn colon(style: LayoutStyle) -> Seq<char> {
    match style {
        LayoutStyle::Compact => seq![':'],
        LayoutStyle::Indented { .. } => seq![':', ' '],
    }
}

pub open spec fn hex_digit(d: nat) -> char {
    seq!['0', '1', '2', '3', '4', '5', '6', '7', '8', '9', 'a', 'b', 'c', 'd', 'e', 'f'][d as int]
}

/// The JSON escape of one character inside a string literal.
pub open spec fn escape_char(c: char) -> Seq<char> {
    if c == '"' {
        seq!['\\', '"']
    } else if c == '\\' {
        seq!['\\', '\\']
    } else if c == '\n' {
        seq!['\\', 'n']
    } else if c == '\r' {
        seq!['\\', 'r']
    } else if c == '\t' {
        seq!['\\', 't']
    } else if c == '\x08' {
        seq!['\\', 'b']
    } else if c == '\x0c' {
        seq!['\\', 'f']
    } else if (c as u32) < 0x20 {
        seq!['\\', 'u', '0', '0', hex_digit((c as u32 / 16) as nat), hex_digit((c as u32 % 16) as nat)]
    } else {
        seq![c]
    }
}

pub open spec fn escape(s: Seq<char>) -> Seq<char>
    decreases s.len(),
{
    if s.len() == 0 {
        Seq::empty()
    } else {
        escape(s.drop_last()) + escape_char(s.last())
    }
}

/// A string literal: the escaped characters between double quotes.
pub open spec fn quoted(s: Seq<char>) -> Seq<char> {
    seq!['"'] + escape(s) + seq!['"']
}

/// The text of `v` laid out in `style`, where `pad` is the indentation of the line `v` starts on.
pub open spec fn render(v: Json, style: LayoutStyle, pad: Seq<char>) -> Seq<char>
    decreases v,
{
    match v {
        Json::Null => seq!['n', 'u', 'l', 'l'],
        Json::Bool(b) => if b { seq!['t', 'r', 'u', 'e'] } else { seq!['f', 'a', 'l', 's', 'e'] },
        Json::Number(n) => n,
        Json::Str(s) => quoted(s),
        Json::Array(a) => if a.len() == 0 {
            seq!['[', ']']
        } else {
            seq!['['] + render_items(a, style, pad + level(style)) + line_break(style, pad) + seq![']']
        },
        Json::Object(o) => if o.len() == 0 {
            seq!['{', '}']
        } else {
            seq!['{'] + render_entries(o, style, pad + level(style)) + line_break(style, pad) + seq!['}']
        },
    }
}

/// The elements of an array, each on its own line indented by `pad`, separated by commas.
pub open spec fn render_items(a: Seq<Json>, style: LayoutStyle, pad: Seq<char>) -> Seq<char>
    decreases a,
{
    if a.len() == 0 {
        Seq::empty()
    } else {
        render_items(a.drop_last(), style, pad) + (if a.len() > 1 { seq![','] } else { Seq::empty() })
            + line_break(style, pad) + render(a.last(), style, pad)
    }
}

/// The entries of an object, each on its own line indented by `pad`, separated by commas.
pub open spec fn render_entries(o: Seq<(Seq<char>, Json)>, style: LayoutStyle, pad: Seq<char>) -> Seq<char>
    decreases o,
{
    if o.len() == 0 {
        Seq::empty()
    } else {
        render_entries(o.drop_last(), style, pad) + (if o.len() > 1 { seq![','] } else { Seq::empty() })
            + line_break(style, pad) + quoted(o.last().0) + colon(style) + render(o.last().1, style, pad)
    }
}

/// The JSON text of `v` in `style`.
pub open spec fn format_spec(v: Json, style: LayoutStyle) -> Seq<char> {
    render(v, style, Seq::empty())
}

fn push_str(out: &mut String, s: &str)
    ensures
        final(out)@ == old(out)@ + s@,
{
    out.append(s);
}

fn hex_digit_of(d: u32) -> (c: char)
    requires
        d < 16,
    ensures
        c == hex_digit(d as nat),
{
    match d {
        0 => '0',
        1 => '1',
        2 => '2',
        3 => '3',
        4 => '4',
        5 => '5',
        6 => '6',
        7 => '7',
        8 => '8',
        9 => '9',
        10 => 'a',
        11 => 'b',
        12 => 'c',
        13 => 'd',
        14 => 'e',
        _ => 'f',
    }
}

fn write_escaped_char(c: char, out: &mut String)
    ensures
        final(out)@ == old(out)@ + escape_char(c),
{
    let code = c as u32;
    if c == '"' {
        push_char(out, '\\');
        push_char(out, '"');
    } else if c == '\\' {
        push_char(out, '\\');
        push_char(out, '\\');
    } else if c == '\n' {
        push_char(out, '\\');
        push_char(out, 'n');
    } else if c == '\r' {
        push_char(out, '\\');
        push_char(out, 'r');
    } else if c == '\t' {
        push_char(out, '\\');
        push_char(out, 't');
    } else if c == '\x08' {
        push_char(out, '\\');
        push_char(out, 'b');
    } else if c == '\x0c' {
        push_char(out, '\\');
        push_char(out, 'f');
    } else if code < 0x20 {
        push_char(out, '\\');
        push_char(out, 'u');
        push_char(out, '0');
        push_char(out, '0');
        push_char(out, hex_digit_of(code / 16));
        push_char(out, hex_digit_of(code % 16));
    } else {
        push_char(out, c);
    }
    assert(final(out)@ =~= old(out)@ + escape_char(c));
}

/// Appends the string literal of `s` to `out`.
pub fn write_quoted(s: &str, out: &mut String)
    ensures
        final(out)@ == old(out)@ + quoted(s@),
{
    broadcast use vstd::string::group_string_axioms;
    push_char(out, '"');
    let mut it = s.chars();
    let ghost done: Seq<char> = Seq::empty();
    let ghost start = old(out)@;
    loop
        invariant
            done + it.remaining() == s@,
            it.obeys_prophetic_iter_laws(),
            it.decrease() is Some,
            out@ == start + seq!['"'] + escape(done),
        ensures
            done == s@,
            out@ == start + seq!['"'] + escape(done),
        decreases it.decrease()->0,
    {
        match it.next() {
            Some(c) => {
                write_escaped_char(c, out);
                proof {
                    assert(done.push(c).drop_last() =~= done);
                    done = done.push(c);
                    assert(out@ =~= start + seq!['"'] + escape(done));
                }
            },
            None => {
                assert(done =~= s@);
                break;
            },
        }
    }
    push_char(out, '"');
    assert(done =~= s@);
    assert(out@ =~= start + quoted(s@));
}

/// `pad` followed by one more level of indentation.
fn deeper(style: &LayoutStyle, pad: &String) -> (r: String)
    ensures
        r@ == pad@ + level(*style),
{
    let mut r = pad.clone();
    match style {
        LayoutStyle::Compact => {},
        LayoutStyle::Indented { unit, count } => {
            let c = match unit {
                IndentUnit::Space => ' ',
                IndentUnit::Tab => '\t',
            };
            let mut i: usize = 0;
            while i < *count
                invariant
                    i <= *count,
                    c == unit_char(*unit),
                    r@ == pad@ + Seq::new(i as nat, |k: int| unit_char(*unit)),
                decreases *count - i,
            {
                push_char(&mut r, c);
                i = i + 1;
                assert(r@ =~= pad@ + Seq::new(i as nat, |k: int| unit_char(*unit)));
            }
        },
    }
    assert(r@ =~= pad@ + level(*style));
    r
}

fn write_break(style: &LayoutStyle, pad: &String, out: &mut String)
    ensures
        final(out)@ == old(out)@ + line_break(*style, pad@),
{
    match style {
        LayoutStyle::Compact => {
            assert(final(out)@ =~= old(out)@ + line_break(*style, pad@));
        },
        LayoutStyle::Indented { .. } => {
            push_char(out, '\n');
            push_str(out, pad.as_str());
            assert(final(out)@ =~= old(out)@ + line_break(*style, pad@));
        },
    }
}

/// Appends the text of `v`, laid out in `style` on a line indented by `pad`, to `out`.
#[verifier::rlimit(40)]
pub fn write_value(v: &Value, style: &LayoutStyle, pad: &String, out: &mut String)
    ensures
        final(out)@ == old(out)@ + render(v@, *style, pad@),
    decreases v,
{
    broadcast use vstd::std_specs::vec::axiom_vec_index_decreases;
    let ghost start = old(out)@;
    match v {
        Value::Null => {
            push_str(out, "null");
            proof { reveal_strlit("null"); }
            assert(out@ =~= start + render(v@, *style, pad@));
        },
        Value::Bool(b) => {
            if *b {
                push_str(out, "true");
                proof { reveal_strlit("true"); }
            } else {
                push_str(out, "false");
                proof { reveal_strlit("false"); }
            }
            assert(out@ =~= start + render(v@, *style, pad@));
        },
        Value::Number(n) => {
            push_str(out, n.as_str());
        },
        Value::Str(s) => {
            write_quoted(s.as_str(), out);
        },
        Value::Array(a) => {
            proof { lemma_view_values_len(a@); }
            if a.len() == 0 {
                push_char(out, '[');
                push_char(out, ']');
                assert(out@ =~= start + render(v@, *style, pad@));
            } else {
                push_char(out, '[');
                let inner = deeper(style, pad);
                let mut i: usize = 0;
                assert(a@.subrange(0, 0) =~= Seq::<Value>::empty());
                while i < a.len()
                    invariant
                        i <= a.len(),
                        *v == Value::Array(*a),
                        inner@ == pad@ + level(*style),
                        out@ == start + seq!['['] + render_items(view_values(a@.subrange(0, i as int)), *style, inner@),
                    decreases a.len() - i,
                {
                    let ghost before = view_values(a@.subrange(0, i as int));
                    proof { lemma_view_values_len(a@.subrange(0, i as int)); }
                    if i > 0 {
                        push_char(out, ',');
                    }
                    write_break(style, &inner, out);
                    proof { assert(decreases_to!(*v => v->Array_0)); }
                    write_value(&a[i], style, &inner, out);
                    proof {
                        let next = a@.subrange(0, i + 1);
                        assert(next.drop_last() =~= a@.subrange(0, i as int));
                        assert(view_values(next) == before.push(a@[i as int]@));
                        assert(view_values(next).drop_last() =~= before);
                    }
                    i = i + 1;
                    assert(out@ =~= start + seq!['['] + render_items(view_values(a@.subrange(0, i as int)), *style, inner@));
                }
                assert(a@.subrange(0, a.len() as int) =~= a@);
                write_break(style, pad, out);
                push_char(out, ']');
                assert(out@ =~= start + render(v@, *style, pad@));
            }
        },
        Value::Object(o) => {
            proof { lemma_view_entries_len(o@); }
            if o.len() == 0 {
                push_char(out, '{');
                push_char(out, '}');
                assert(out@ =~= start + render(v@, *style, pad@));
            } else {
                push_char(out, '{');
                let inner = deeper(style, pad);
                let mut i: usize = 0;
                assert(o@.subrange(0, 0) =~= Seq::<(String, Value)>::empty());
                while i < o.len()
                    invariant
                        i <= o.len(),
                        *v == Value::Object(*o),
                        inner@ == pad@ + level(*style),
                        out@ == start + seq!['{'] + render_entries(view_entries(o@.subrange(0, i as int)), *style, inner@),
                    decreases o.len() - i,
                {
                    let ghost before = view_entries(o@.subrange(0, i as int));
                    proof { lemma_view_entries_len(o@.subrange(0, i as int)); }
                    if i > 0 {
                        push_char(out, ',');
                    }
                    write_break(style, &inner, out);
                    let entry = &o[i];
                    write_quoted(entry.0.as_str(), out);
                    push_char(out, ':');
                    match style {
                        LayoutStyle::Compact => {},
                        LayoutStyle::Indented { .. } => {
                            push_char(out, ' ');
                        },
                    }
                    proof { assert(decreases_to!(*v => v->Object_0)); }
                    write_value(&entry.1, style, &inner, out);
                    proof {
                        let next = o@.subrange(0, i + 1);
                        assert(next.drop_last() =~= o@.subrange(0, i as int));
                        assert(view_entries(next) == before.push((o@[i as int].0@, o@[i as int].1@)));
                        assert(view_entries(next).drop_last() =~= before);
                    }
                    i = i + 1;
                    assert(out@ =~= start + seq!['{'] + render_entries(view_entries(o@.subrange(0, i as int)), *style, inner@));
                }
                assert(o@.subrange(0, o.len() as int) =~= o@);
                write_break(style, pad, out);
                push_char(out, '}');
                assert(out@ =~= start + render(v@, *style, pad@));
            }
        },
    }
}

/// The JSON text of `v` laid out in `style`.
pub fn format_value(v: &Value, style: &LayoutStyle) -> (r: String)
    ensures
        r@ == format_spec(v@, *style),
{
    let mut out = String::new();
    let pad = String::new();
    write_value(v, style, &pad, &mut out);
    assert(out@ =~= format_spec(v@, *style));
    out
}

} // verus!
