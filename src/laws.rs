use vstd::prelude::*;
use vstd::seq_lib::lemma_concat_associative;
use crate::value::Json;
use crate::printer::{colon, render_items, render_entries, quoted, render, line_break, IndentUnit, LayoutStyle, format_spec, level, escape, escape_char, hex_digit};
use crate::parse::{valid_number, parse_spec, value_at, items_from, entries_from, insert_entry, key_index, digits_end, exponent_end, number_end, is_digit, unescape, is_ws, ws_len, string_body, hex_val, hex4, char_of, code};

verus! {

/// Under every indented style an empty array prints as `[]` and an empty object as `{}`.
pub proof fn lemma_empty_containers_indented(unit: IndentUnit, count: usize)
    ensures
        format_spec(Json::Array(Seq::empty()), LayoutStyle::Indented { unit, count }) == seq!['[', ']'],
        format_spec(Json::Object(Seq::empty()), LayoutStyle::Indented { unit, count }) == seq!['{', '}'],
{
}

/// With a tab unit and a count of one, each nesting level adds exactly one tab.
pub proof fn lemma_tab_level(pad: Seq<char>)
    ensures
        pad + level(LayoutStyle::Indented { unit: IndentUnit::Tab, count: 1 }) == pad.push('\t'),
{
    assert(pad + level(LayoutStyle::Indented { unit: IndentUnit::Tab, count: 1 }) =~= pad.push('\t'));
}

/// `ws_len` counts a run of `m` whitespace characters that is not followed by more.
proof fn lemma_ws_run(s: Seq<char>, i: int, m: int)
    requires
        0 <= i,
        0 <= m,
        i + m <= s.len(),
        forall|j: int| i <= j < i + m ==> is_ws(#[trigger] s[j]),
        i + m == s.len() || !is_ws(s[i + m]),
    ensures
        ws_len(s, i) == m,
    decreases m,
{
    if m > 0 {
        lemma_ws_run(s, i + 1, m - 1);
    }
}

proof fn lemma_escape_front(x: Seq<char>)
    requires
        x.len() > 0,
    ensures
        escape(x) == escape_char(x[0]) + escape(x.drop_first()),
    decreases x.len(),
{
    if x.len() > 1 {
        lemma_escape_front(x.drop_last());
        assert(x.drop_last().drop_first() =~= x.drop_first().drop_last());
        assert(x.drop_first().last() == x.last());
        assert(escape(x.drop_first()) == escape(x.drop_first().drop_last()) + escape_char(x.drop_first().last()));
        assert(escape(x) =~= escape_char(x[0]) + escape(x.drop_first()));
    } else {
        assert(x.drop_first() =~= Seq::<char>::empty());
        assert(x.drop_last() =~= Seq::<char>::empty());
        assert(escape(x) =~= escape_char(x[0]) + escape(x.drop_first()));
    }
}

proof fn lemma_hex_digit(d: nat)
    requires
        d < 16,
    ensures
        hex_val(hex_digit(d)) == d,
{
    assert(hex_val('0') == 0 && hex_val('1') == 1 && hex_val('2') == 2 && hex_val('3') == 3);
    assert(hex_val('4') == 4 && hex_val('5') == 5 && hex_val('6') == 6 && hex_val('7') == 7);
    assert(hex_val('8') == 8 && hex_val('9') == 9 && hex_val('a') == 10 && hex_val('b') == 11);
    assert(hex_val('c') == 12 && hex_val('d') == 13 && hex_val('e') == 14 && hex_val('f') == 15);
}

proof fn lemma_char_of_code(c: char)
    ensures
        char_of(code(c)) == c,
{
    let d = char_of(code(c));
    assert(code(d) == code(c));
}

/// One escaped character is read back as itself.
proof fn lemma_escape_char_read(c: char, s: Seq<char>, i: int, acc: Seq<char>)
    requires
        0 <= i,
        i + escape_char(c).len() < s.len(),
        s.subrange(i, i + escape_char(c).len()) == escape_char(c),
    ensures
        string_body(s, i, acc) == string_body(s, i + escape_char(c).len(), acc.push(c)),
{
    let e = escape_char(c);
    assert forall|j: int| 0 <= j < e.len() implies s[i + j] == e[j] by {
        assert(s.subrange(i, i + e.len())[j] == s[i + j]);
    }
    if c == '"' || c == '\\' || c == '\n' || c == '\r' || c == '\t' || c == '\x08' || c == '\x0c' {
        assert(e.len() == 2);
        assert(s[i] == '\\');
        assert(unescape(s[i + 1]) == Some(c));
    } else if (c as u32) < 0x20 {
        let n = c as u32;
        lemma_hex_digit((n / 16) as nat);
        lemma_hex_digit((n % 16) as nat);
        assert(e.len() == 6);
        assert(s[i] == '\\' && s[i + 1] == 'u');
        assert(hex4(s, i + 2) == code(c));
        lemma_char_of_code(c);
    } else {
        assert(e == seq![c]);
        assert(s.subrange(i, i + 1)[0] == s[i]);
    }
}

/// A value's text at `i` of `s` is `a` followed by `b`: so `a` stands at `i` and `b` right after it.
proof fn lemma_split(s: Seq<char>, i: int, a: Seq<char>, b: Seq<char>)
    requires
        0 <= i,
        i + a.len() + b.len() <= s.len(),
        s.subrange(i, i + a.len() + b.len()) == a + b,
    ensures
        s.subrange(i, i + a.len()) == a,
        s.subrange(i + a.len(), i + a.len() + b.len()) == b,
{
    assert forall|j: int| 0 <= j < a.len() implies s.subrange(i, i + a.len())[j] == a[j] by {
        assert(s.subrange(i, i + a.len() + b.len())[j] == (a + b)[j]);
    }
    assert forall|j: int| 0 <= j < b.len() implies s.subrange(i + a.len(), i + a.len() + b.len())[j] == b[j] by {
        assert(s.subrange(i, i + a.len() + b.len())[a.len() + j] == (a + b)[a.len() + j]);
        assert(s.subrange(i, i + a.len() + b.len())[a.len() + j] == s[i + a.len() + j]);
        assert(s.subrange(i + a.len(), i + a.len() + b.len())[j] == s[i + a.len() + j]);
        assert((a + b)[a.len() + j] == b[j]);
    }
    assert(s.subrange(i, i + a.len()) =~= a);
    assert(s.subrange(i + a.len(), i + a.len() + b.len()) =~= b);
}

/// The escaped characters of `x` followed by a closing quote are read back as `x`.
proof fn lemma_string_read(x: Seq<char>, s: Seq<char>, i: int, acc: Seq<char>)
    requires
        0 <= i,
        i + escape(x).len() < s.len(),
        s.subrange(i, i + escape(x).len() + 1) == escape(x) + seq!['"'],
    ensures
        string_body(s, i, acc) == Some((acc + x, i + escape(x).len() + 1)),
    decreases x.len(),
{
    if x.len() == 0 {
        assert(escape(x) =~= Seq::<char>::empty());
        assert(s.subrange(i, i + 1)[0] == s[i]);
        assert(acc + x =~= acc);
    } else {
        lemma_escape_front(x);
        let ec = escape_char(x[0]);
        let rest = x.drop_first();
        assert(escape(x) + seq!['"'] == ec + (escape(rest) + seq!['"']));
        lemma_split(s, i, ec, escape(rest) + seq!['"']);
        lemma_escape_char_read(x[0], s, i, acc);
        lemma_string_read(rest, s, i + ec.len(), acc.push(x[0]));
        assert(acc.push(x[0]) + rest =~= acc + x);
    }
}

/// Where a value's text may end: at the end of the text, or before whitespace or a closing delimiter.
pub open spec fn ends_value(s: Seq<char>, k: int) -> bool {
    k == s.len() || (0 <= k < s.len() && (is_ws(s[k]) || s[k] == ',' || s[k] == ']' || s[k] == '}'))
}

proof fn lemma_digits_shift(n: Seq<char>, s: Seq<char>, i: int, j: int)
    requires
        0 <= i,
        0 <= j <= n.len(),
        i + n.len() <= s.len(),
        forall|m: int| 0 <= m < n.len() ==> s[i + m] == #[trigger] n[m],
        ends_value(s, i + n.len()),
    ensures
        digits_end(s, i + j) == i + digits_end(n, j),
    decreases n.len() - j,
{
    if j < n.len() {
        assert(s[i + j] == n[j]);
        if is_digit(n[j]) {
            lemma_digits_shift(n, s, i, j + 1);
        }
    }
}

proof fn lemma_number_shift(n: Seq<char>, s: Seq<char>, i: int)
    requires
        0 <= i,
        valid_number(n),
        i + n.len() <= s.len(),
        s.subrange(i, i + n.len()) == n,
        ends_value(s, i + n.len()),
    ensures
        number_end(s, i) == i + n.len(),
{
    assert forall|m: int| 0 <= m < n.len() implies s[i + m] == #[trigger] n[m] by {
        assert(s.subrange(i, i + n.len())[m] == s[i + m]);
    }
    assert forall|j: int| 0 <= j <= n.len() implies #[trigger] digits_end(s, i + j) == i + digits_end(n, j) by {
        lemma_digits_shift(n, s, i, j);
    }
    assert forall|c: int| 0 <= c <= n.len() && exponent_end(n, c) >= 0 implies #[trigger] exponent_end(s, i + c) == i
        + exponent_end(n, c) by {
        if c < n.len() {
            assert(s[i + c] == n[c]);
        }
        if c + 1 < n.len() {
            assert(s[i + c + 1] == n[c + 1]);
        }
        if c + 2 < n.len() {
            assert(s[i + c + 2] == n[c + 2]);
        }
    }
    assert(n.len() > 0);
    assert(s[i] == n[0]);
    if n.len() > 1 {
        assert(s[i + 1] == n[1]);
    }
    let a: int = if n[0] == '-' { 1 } else { 0 };
    let b = if n[a] == '0' { a + 1 } else { digits_end(n, a) };
    if b < n.len() {
        assert(s[i + b] == n[b]);
    }
    if b + 1 < n.len() {
        assert(s[i + b + 1] == n[b + 1]);
    }
}

/// `t` stands in `s` from position `p` on.
#[verifier::opaque]
pub open spec fn text_at(s: Seq<char>, p: int, t: Seq<char>) -> bool {
    &&& 0 <= p
    &&& p + t.len() <= s.len()
    &&& forall|j: int| 0 <= j < t.len() ==> s[p + j] == #[trigger] t[j]
}

proof fn lemma_text_split(s: Seq<char>, p: int, a: Seq<char>, b: Seq<char>)
    requires
        text_at(s, p, a + b),
    ensures
        text_at(s, p, a),
        text_at(s, p + a.len(), b),
{
    reveal(text_at);
    assert forall|j: int| 0 <= j < a.len() implies s[p + j] == #[trigger] a[j] by {
        assert((a + b)[j] == a[j]);
    }
    assert forall|j: int| 0 <= j < b.len() implies s[p + a.len() + j] == #[trigger] b[j] by {
        assert((a + b)[a.len() + j] == b[j]);
    }
}

proof fn lemma_text_char(s: Seq<char>, p: int, t: Seq<char>, j: int)
    requires
        text_at(s, p, t),
        0 <= j < t.len(),
    ensures
        s[p + j] == t[j],
        0 <= p,
        p + t.len() <= s.len(),
{
    reveal(text_at);
}

proof fn lemma_text_subrange(s: Seq<char>, p: int, t: Seq<char>)
    requires
        text_at(s, p, t),
    ensures
        s.subrange(p, p + t.len()) == t,
{
    reveal(text_at);
    assert(s.subrange(p, p + t.len()) =~= t);
}

pub open spec fn all_ws(p: Seq<char>) -> bool {
    forall|j: int| 0 <= j < p.len() ==> is_ws(#[trigger] p[j])
}

/// A value whose numbers are valid literals and whose objects hold each key once, at every depth.
pub open spec fn well_formed(v: Json) -> bool
    decreases v,
{
    match v {
        Json::Number(n) => valid_number(n),
        Json::Array(a) => forall|k: int| 0 <= k < a.len() ==> well_formed(#[trigger] a[k]),
        Json::Object(o) => {
            &&& forall|k: int| 0 <= k < o.len() ==> well_formed(#[trigger] o[k].1)
            &&& forall|j: int, k: int| 0 <= j < k < o.len() ==> #[trigger] o[j].0 != #[trigger] o[k].0
        },
        _ => true,
    }
}

proof fn lemma_wf_array(a: Seq<Json>)
    ensures
        well_formed(Json::Array(a)) <==> forall|k: int| 0 <= k < a.len() ==> well_formed(#[trigger] a[k]),
{
    let v = Json::Array(a);
    assert(v->Array_0 == a);
}

proof fn lemma_wf_object(o: Seq<(Seq<char>, Json)>)
    ensures
        well_formed(Json::Object(o)) <==> (forall|k: int| 0 <= k < o.len() ==> well_formed(#[trigger] o[k].1)) && (forall|
            j: int,
            k: int,
        | 0 <= j < k < o.len() ==> #[trigger] o[j].0 != #[trigger] o[k].0),
{
    let v = Json::Object(o);
    assert(v->Object_0 == o);
}

pub open spec fn starts_value(c: char) -> bool {
    c == 'n' || c == 't' || c == 'f' || c == '"' || c == '[' || c == '{' || c == '-' || is_digit(c)
}

proof fn lemma_render_start(v: Json, style: LayoutStyle, pad: Seq<char>)
    requires
        well_formed(v),
    ensures
        render(v, style, pad).len() > 0,
        starts_value(render(v, style, pad)[0]),
{
    match v {
        Json::Number(n) => {
            assert(n.len() > 0);
            if n[0] != '-' {
                assert(is_digit(n[0]));
            }
        },
        Json::Str(x) => {
            assert(quoted(x)[0] == '"');
        },
        Json::Array(a) => {
            if a.len() > 0 {
                assert(render(v, style, pad)[0] == '[');
            }
        },
        Json::Object(o) => {
            if o.len() > 0 {
                assert(render(v, style, pad)[0] == '{');
            }
        },
        _ => {},
    }
}

proof fn lemma_line_break_ws(style: LayoutStyle, pad: Seq<char>)
    requires
        all_ws(pad),
    ensures
        all_ws(line_break(style, pad)),
        all_ws(pad + level(style)),
{
    assert forall|j: int| 0 <= j < (pad + level(style)).len() implies is_ws(#[trigger] (pad + level(style))[j]) by {
        if j >= pad.len() {
            assert((pad + level(style))[j] == level(style)[j - pad.len()]);
        }
    }
    match style {
        LayoutStyle::Compact => {},
        LayoutStyle::Indented { .. } => {
            assert forall|j: int| 0 <= j < line_break(style, pad).len() implies is_ws(
                #[trigger] line_break(style, pad)[j],
            ) by {
                if j > 0 {
                    assert(line_break(style, pad)[j] == pad[j - 1]);
                }
            }
        },
    }
}

/// Whitespace `w` followed by a character that starts a value or closes a container.
proof fn lemma_skip(s: Seq<char>, p: int, w: Seq<char>)
    requires
        text_at(s, p, w),
        all_ws(w),
        p + w.len() < s.len(),
        !is_ws(s[p + w.len()]),
    ensures
        ws_len(s, p) == w.len(),
{
    reveal(text_at);
    assert forall|j: int| p <= j < p + w.len() implies is_ws(#[trigger] s[j]) by {
        assert(s[p + (j - p)] == w[j - p]);
    }
    lemma_ws_run(s, p, w.len() as int);
}

/// The elements of `a` from `k` on, each after a comma and a line break.
pub open spec fn items_suffix(a: Seq<Json>, k: int, style: LayoutStyle, pad: Seq<char>) -> Seq<char>
    decreases a.len() - k,
{
    if 0 <= k < a.len() {
        seq![','] + line_break(style, pad) + render(a[k], style, pad) + items_suffix(a, k + 1, style, pad)
    } else {
        Seq::empty()
    }
}

/// An object entry on its own line.
pub open spec fn entry_text(e: (Seq<char>, Json), style: LayoutStyle, pad: Seq<char>) -> Seq<char> {
    line_break(style, pad) + quoted(e.0) + colon(style) + render(e.1, style, pad)
}

/// The entries of `o` from `k` on, each after a comma.
pub open spec fn entries_suffix(o: Seq<(Seq<char>, Json)>, k: int, style: LayoutStyle, pad: Seq<char>) -> Seq<char>
    decreases o.len() - k,
{
    if 0 <= k < o.len() {
        seq![','] + entry_text(o[k], style, pad) + entries_suffix(o, k + 1, style, pad)
    } else {
        Seq::empty()
    }
}

proof fn lemma_items_suffix_last(a: Seq<Json>, k: int, style: LayoutStyle, pad: Seq<char>)
    requires
        1 <= k < a.len(),
    ensures
        items_suffix(a.drop_last(), k, style, pad) + (seq![','] + line_break(style, pad) + render(a.last(), style, pad))
            == items_suffix(a, k, style, pad),
    decreases a.len() - k,
{
    let d = a.drop_last();
    let x = seq![','] + line_break(style, pad) + render(a.last(), style, pad);
    let h = seq![','] + line_break(style, pad) + render(a[k], style, pad);
    assert(items_suffix(a, k, style, pad) == h + items_suffix(a, k + 1, style, pad));
    if k + 1 < a.len() {
        lemma_items_suffix_last(a, k + 1, style, pad);
        assert(d[k] == a[k]);
        assert(items_suffix(d, k, style, pad) == h + items_suffix(d, k + 1, style, pad));
        lemma_concat_associative(h, items_suffix(d, k + 1, style, pad), x);
    } else {
        assert(items_suffix(d, k, style, pad) =~= Seq::<char>::empty());
        assert(items_suffix(a, k + 1, style, pad) =~= Seq::<char>::empty());
        assert(items_suffix(d, k, style, pad) + x =~= x);
        assert(h + items_suffix(a, k + 1, style, pad) =~= h);
    }
}

proof fn lemma_items_front(a: Seq<Json>, style: LayoutStyle, pad: Seq<char>)
    requires
        a.len() > 0,
    ensures
        render_items(a, style, pad) == line_break(style, pad) + render(a[0], style, pad) + items_suffix(a, 1, style, pad),
    decreases a.len(),
{
    let d = a.drop_last();
    let lb = line_break(style, pad);
    if a.len() > 1 {
        lemma_items_front(d, style, pad);
        lemma_items_suffix_last(a, 1, style, pad);
        let r = render(a.last(), style, pad);
        let x = seq![','] + lb + r;
        let p0 = lb + render(a[0], style, pad);
        assert(d[0] == a[0]);
        assert(render_items(a, style, pad) == render_items(d, style, pad) + seq![','] + lb + r);
        assert(render_items(d, style, pad) + seq![','] + lb + r =~= render_items(d, style, pad) + x);
        assert(render_items(d, style, pad) == p0 + items_suffix(d, 1, style, pad));
        lemma_concat_associative(p0, items_suffix(d, 1, style, pad), x);
    } else {
        assert(d =~= Seq::<Json>::empty());
        assert(items_suffix(a, 1, style, pad) =~= Seq::<char>::empty());
        assert(render_items(d, style, pad) =~= Seq::<char>::empty());
        assert(a.last() == a[0]);
        assert(render_items(a, style, pad) =~= lb + render(a[0], style, pad) + items_suffix(a, 1, style, pad));
    }
}

proof fn lemma_entries_suffix_last(o: Seq<(Seq<char>, Json)>, k: int, style: LayoutStyle, pad: Seq<char>)
    requires
        1 <= k < o.len(),
    ensures
        entries_suffix(o.drop_last(), k, style, pad) + (seq![','] + entry_text(o.last(), style, pad))
            == entries_suffix(o, k, style, pad),
    decreases o.len() - k,
{
    let d = o.drop_last();
    let x = seq![','] + entry_text(o.last(), style, pad);
    let h = seq![','] + entry_text(o[k], style, pad);
    assert(entries_suffix(o, k, style, pad) == h + entries_suffix(o, k + 1, style, pad));
    if k + 1 < o.len() {
        lemma_entries_suffix_last(o, k + 1, style, pad);
        assert(d[k] == o[k]);
        assert(entries_suffix(d, k, style, pad) == h + entries_suffix(d, k + 1, style, pad));
        lemma_concat_associative(h, entries_suffix(d, k + 1, style, pad), x);
    } else {
        assert(entries_suffix(d, k, style, pad) =~= Seq::<char>::empty());
        assert(entries_suffix(o, k + 1, style, pad) =~= Seq::<char>::empty());
        assert(entries_suffix(d, k, style, pad) + x =~= x);
        assert(h + entries_suffix(o, k + 1, style, pad) =~= h);
    }
}

proof fn lemma_entries_front(o: Seq<(Seq<char>, Json)>, style: LayoutStyle, pad: Seq<char>)
    requires
        o.len() > 0,
    ensures
        render_entries(o, style, pad) == entry_text(o[0], style, pad) + entries_suffix(o, 1, style, pad),
    decreases o.len(),
{
    let d = o.drop_last();
    let lb = line_break(style, pad);
    if o.len() > 1 {
        lemma_entries_front(d, style, pad);
        lemma_entries_suffix_last(o, 1, style, pad);
        let e = o.last();
        let x = seq![','] + entry_text(e, style, pad);
        let p0 = entry_text(o[0], style, pad);
        assert(d[0] == o[0]);
        assert(render_entries(o, style, pad) == render_entries(d, style, pad) + seq![','] + lb + quoted(e.0) + colon(style)
            + render(e.1, style, pad));
        assert(render_entries(d, style, pad) + seq![','] + lb + quoted(e.0) + colon(style) + render(e.1, style, pad)
            =~= render_entries(d, style, pad) + x);
        assert(render_entries(d, style, pad) == p0 + entries_suffix(d, 1, style, pad));
        lemma_concat_associative(p0, entries_suffix(d, 1, style, pad), x);
    } else {
        assert(d =~= Seq::<(Seq<char>, Json)>::empty());
        assert(entries_suffix(o, 1, style, pad) =~= Seq::<char>::empty());
        assert(render_entries(d, style, pad) =~= Seq::<char>::empty());
        assert(o.last() == o[0]);
        assert(render_entries(o, style, pad) =~= entry_text(o[0], style, pad) + entries_suffix(o, 1, style, pad));
    }
}

proof fn lemma_key_index(e: Seq<(Seq<char>, Json)>, k: Seq<char>)
    ensures
        key_index(e, k) < e.len(),
        key_index(e, k) >= 0 ==> e[key_index(e, k)].0 == k,
    decreases e.len(),
{
    if e.len() > 0 && e.last().0 != k {
        lemma_key_index(e.drop_last(), k);
    }
}

/// The text of the elements of `a` from `k` on, and of the closing bracket on a line indented by `pad`.
pub open spec fn items_text(a: Seq<Json>, k: int, style: LayoutStyle, inner: Seq<char>, pad: Seq<char>) -> Seq<char> {
    line_break(style, inner) + render(a[k], style, inner) + items_suffix(a, k + 1, style, inner) + line_break(style, pad)
        + seq![']']
}

/// The text of the entries of `o` from `k` on, and of the closing brace on a line indented by `pad`.
pub open spec fn entries_text(o: Seq<(Seq<char>, Json)>, k: int, style: LayoutStyle, inner: Seq<char>, pad: Seq<char>) -> Seq<char> {
    entry_text(o[k], style, inner) + entries_suffix(o, k + 1, style, inner) + line_break(style, pad) + seq!['}']
}

/// The text of a well-formed value is read back as that value.
proof fn lemma_value_read(v: Json, style: LayoutStyle, pad: Seq<char>, s: Seq<char>, i: int)
    requires
        well_formed(v),
        all_ws(pad),
        text_at(s, i, render(v, style, pad)),
        ends_value(s, i + render(v, style, pad).len()),
    ensures
        value_at(s, i) == Some((v, i + render(v, style, pad).len())),
    decreases v, 0int,
{
    let r = render(v, style, pad);
    lemma_render_start(v, style, pad);
    lemma_text_char(s, i, r, 0);
    match v {
        Json::Null => {
            lemma_text_subrange(s, i, r);
        },
        Json::Bool(b) => {
            lemma_text_subrange(s, i, r);
        },
        Json::Number(n) => {
            lemma_text_subrange(s, i, r);
            lemma_number_shift(n, s, i);
        },
        Json::Str(x) => {
            assert(r =~= seq!['"'] + (escape(x) + seq!['"']));
            lemma_text_split(s, i, seq!['"'], escape(x) + seq!['"']);
            lemma_text_subrange(s, i + 1, escape(x) + seq!['"']);
            lemma_string_read(x, s, i + 1, Seq::empty());
            assert(Seq::<char>::empty() + x =~= x);
        },
        Json::Array(a) => {
            lemma_array_read(a, style, pad, s, i);
        },
        Json::Object(o) => {
            lemma_object_read(o, style, pad, s, i);
        },
    }
}

proof fn lemma_array_read(a: Seq<Json>, style: LayoutStyle, pad: Seq<char>, s: Seq<char>, i: int)
    requires
        forall|j: int| 0 <= j < a.len() ==> well_formed(#[trigger] a[j]),
        all_ws(pad),
        text_at(s, i, render(Json::Array(a), style, pad)),
    ensures
        value_at(s, i) == Some((Json::Array(a), i + render(Json::Array(a), style, pad).len())),
    decreases a, a.len() + 1,
{
    let r = render(Json::Array(a), style, pad);
    lemma_text_char(s, i, r, 0);
    if a.len() == 0 {
        lemma_text_char(s, i, r, 1);
        assert(ws_len(s, i + 1) == 0);
        assert(a =~= Seq::<Json>::empty());
    } else {
        let inner = pad + level(style);
        lemma_line_break_ws(style, pad);
        lemma_line_break_ws(style, inner);
        lemma_items_front(a, style, inner);
        let t = items_text(a, 0, style, inner, pad);
        let lbi = line_break(style, inner);
        assert(r =~= seq!['['] + t);
        lemma_text_split(s, i, seq!['['], t);
        let rest = render(a[0], style, inner) + (items_suffix(a, 1, style, inner) + line_break(style, pad) + seq![']']);
        assert(t =~= lbi + rest);
        lemma_text_split(s, i + 1, lbi, rest);
        lemma_render_start(a[0], style, inner);
        lemma_text_char(s, i + 1 + lbi.len(), rest, 0);
        lemma_skip(s, i + 1, lbi);
        lemma_items_read(a, 0, style, inner, pad, s, i + 1, Seq::empty());
        assert(Seq::<Json>::empty() + a.subrange(0, a.len() as int) =~= a);
    }
}

proof fn lemma_object_read(o: Seq<(Seq<char>, Json)>, style: LayoutStyle, pad: Seq<char>, s: Seq<char>, i: int)
    requires
        forall|j: int| 0 <= j < o.len() ==> well_formed(#[trigger] o[j].1),
        forall|j: int, k: int| 0 <= j < k < o.len() ==> #[trigger] o[j].0 != #[trigger] o[k].0,
        all_ws(pad),
        text_at(s, i, render(Json::Object(o), style, pad)),
    ensures
        value_at(s, i) == Some((Json::Object(o), i + render(Json::Object(o), style, pad).len())),
    decreases o, o.len() + 1,
{
    let r = render(Json::Object(o), style, pad);
    lemma_text_char(s, i, r, 0);
    if o.len() == 0 {
        lemma_text_char(s, i, r, 1);
        assert(ws_len(s, i + 1) == 0);
        assert(o =~= Seq::<(Seq<char>, Json)>::empty());
    } else {
        let inner = pad + level(style);
        lemma_line_break_ws(style, pad);
        lemma_line_break_ws(style, inner);
        lemma_entries_front(o, style, inner);
        let t = entries_text(o, 0, style, inner, pad);
        let lbi = line_break(style, inner);
        assert(r =~= seq!['{'] + t);
        lemma_text_split(s, i, seq!['{'], t);
        let rest = quoted(o[0].0) + colon(style) + render(o[0].1, style, inner) + entries_suffix(o, 1, style, inner)
            + line_break(style, pad) + seq!['}'];
        assert(t =~= lbi + rest);
        lemma_text_split(s, i + 1, lbi, rest);
        assert(rest[0] == '"');
        lemma_text_char(s, i + 1 + lbi.len(), rest, 0);
        lemma_skip(s, i + 1, lbi);
        assert(o.subrange(0, 0) =~= Seq::<(Seq<char>, Json)>::empty());
        lemma_entries_read(o, 0, style, inner, pad, s, i + 1);
    }
}

proof fn lemma_items_read(
    a: Seq<Json>,
    k: int,
    style: LayoutStyle,
    inner: Seq<char>,
    pad: Seq<char>,
    s: Seq<char>,
    p: int,
    acc: Seq<Json>,
)
    requires
        0 <= k < a.len(),
        forall|j: int| 0 <= j < a.len() ==> well_formed(#[trigger] a[j]),
        all_ws(inner),
        all_ws(pad),
        all_ws(line_break(style, inner)),
        all_ws(line_break(style, pad)),
        line_break(style, pad).len() == 0 || line_break(style, pad)[0] == '\n',
        text_at(s, p, items_text(a, k, style, inner, pad)),
    ensures
        items_from(s, p, acc) == Some(
            (Json::Array(acc + a.subrange(k, a.len() as int)), p + items_text(a, k, style, inner, pad).len()),
        ),
    decreases a, a.len() - k,
{
    let lbi = line_break(style, inner);
    let lbp = line_break(style, pad);
    let x = a[k];
    let rx = render(x, style, inner);
    let tail = items_suffix(a, k + 1, style, inner) + lbp + seq![']'];
    assert(items_text(a, k, style, inner, pad) =~= lbi + (rx + tail));
    lemma_text_split(s, p, lbi, rx + tail);
    lemma_text_split(s, p + lbi.len(), rx, tail);
    lemma_render_start(x, style, inner);
    let q = p + lbi.len();
    lemma_text_char(s, q, rx + tail, 0);
    lemma_skip(s, p, lbi);
    let e = q + rx.len();
    if k + 1 < a.len() {
        let t2 = items_text(a, k + 1, style, inner, pad);
        assert(tail =~= seq![','] + t2);
        lemma_text_split(s, e, seq![','], t2);
        lemma_text_char(s, e, seq![','] + t2, 0);
        lemma_value_read(x, style, inner, s, q);
        assert(ws_len(s, e) == 0);
        lemma_items_read(a, k + 1, style, inner, pad, s, e + 1, acc.push(x));
        assert(acc.push(x) + a.subrange(k + 1, a.len() as int) =~= acc + a.subrange(k, a.len() as int));
    } else {
        assert(items_suffix(a, k + 1, style, inner) =~= Seq::<char>::empty());
        assert(tail =~= lbp + seq![']']);
        lemma_text_split(s, e, lbp, seq![']']);
        lemma_text_char(s, e + lbp.len(), seq![']'], 0);
        if lbp.len() > 0 {
            lemma_text_char(s, e, lbp, 0);
        }
        lemma_value_read(x, style, inner, s, q);
        lemma_skip(s, e, lbp);
        assert(acc.push(x) =~= acc + a.subrange(k, a.len() as int));
    }
}

/// With keys that occur once, the entry at `k` joins the entries before it at the end.
proof fn lemma_insert_fresh(o: Seq<(Seq<char>, Json)>, k: int)
    requires
        0 <= k < o.len(),
        forall|j: int, m: int| 0 <= j < m < o.len() ==> #[trigger] o[j].0 != #[trigger] o[m].0,
    ensures
        insert_entry(o.subrange(0, k), o[k].0, o[k].1) == o.subrange(0, k + 1),
{
    let acc = o.subrange(0, k);
    let key = o[k].0;
    lemma_key_index(acc, key);
    if key_index(acc, key) >= 0 {
        let ki = key_index(acc, key);
        assert(acc[ki] == o[ki]);
        assert(o[ki].0 != o[k].0);
    }
    assert(acc.push((key, o[k].1)) =~= o.subrange(0, k + 1));
}

/// The line break, key and colon of an entry are read as the parser expects them.
proof fn lemma_entry_head(s: Seq<char>, p: int, lbi: Seq<char>, key: Seq<char>, style: LayoutStyle, rest: Seq<char>)
    requires
        all_ws(lbi),
        text_at(s, p, lbi + (quoted(key) + (colon(style) + rest))),
        rest.len() > 0,
        !is_ws(rest[0]),
    ensures
        0 <= p,
        ws_len(s, p) == lbi.len(),
        s[p + lbi.len()] == '"',
        string_body(s, p + lbi.len() + 1, Seq::empty()) == Some((key, p + lbi.len() + quoted(key).len())),
        s[p + lbi.len() + quoted(key).len()] == ':',
        ws_len(s, p + lbi.len() + quoted(key).len()) == 0,
        p + lbi.len() + quoted(key).len() + colon(style).len() < s.len(),
        p + lbi.len() + quoted(key).len() + 1 + ws_len(s, p + lbi.len() + quoted(key).len() + 1) == p + lbi.len()
            + quoted(key).len() + colon(style).len(),
{
    let qk = quoted(key);
    let cl = colon(style);
    lemma_text_char(s, p, lbi + (qk + (cl + rest)), 0);
    lemma_text_split(s, p, lbi, qk + (cl + rest));
    let p1 = p + lbi.len();
    lemma_text_split(s, p1, qk, cl + rest);
    let c = p1 + qk.len();
    lemma_text_split(s, c, cl, rest);
    let q = c + cl.len();
    lemma_text_char(s, p1, qk, 0);
    lemma_skip(s, p, lbi);
    assert(qk =~= seq!['"'] + (escape(key) + seq!['"']));
    lemma_text_split(s, p1, seq!['"'], escape(key) + seq!['"']);
    lemma_text_subrange(s, p1 + 1, escape(key) + seq!['"']);
    lemma_string_read(key, s, p1 + 1, Seq::empty());
    assert(Seq::<char>::empty() + key =~= key);
    lemma_text_char(s, c, cl, 0);
    assert(ws_len(s, c) == 0);
    lemma_text_char(s, q, rest, 0);
    let w = cl.subrange(1, cl.len() as int);
    assert(cl =~= seq![':'] + w);
    lemma_text_split(s, c, seq![':'], w);
    assert(all_ws(w));
    lemma_skip(s, c + 1, w);
}

#[verifier::rlimit(100)]
proof fn lemma_entries_read(
    o: Seq<(Seq<char>, Json)>,
    k: int,
    style: LayoutStyle,
    inner: Seq<char>,
    pad: Seq<char>,
    s: Seq<char>,
    p: int,
)
    requires
        0 <= k < o.len(),
        forall|j: int| 0 <= j < o.len() ==> well_formed(#[trigger] o[j].1),
        forall|j: int, m: int| 0 <= j < m < o.len() ==> #[trigger] o[j].0 != #[trigger] o[m].0,
        all_ws(inner),
        all_ws(pad),
        all_ws(line_break(style, inner)),
        all_ws(line_break(style, pad)),
        line_break(style, pad).len() == 0 || line_break(style, pad)[0] == '\n',
        text_at(s, p, entries_text(o, k, style, inner, pad)),
    ensures
        entries_from(s, p, o.subrange(0, k)) == Some((Json::Object(o), p + entries_text(o, k, style, inner, pad).len())),
    decreases o, o.len() - k,
{
    let acc = o.subrange(0, k);
    let lbi = line_break(style, inner);
    let lbp = line_break(style, pad);
    let key = o[k].0;
    let x = o[k].1;
    let rx = render(x, style, inner);
    let qk = quoted(key);
    let cl = colon(style);
    let tail = entries_suffix(o, k + 1, style, inner) + lbp + seq!['}'];
    assert(entries_text(o, k, style, inner, pad) =~= lbi + (qk + (cl + (rx + tail))));
    let p1 = p + lbi.len();
    let c = p1 + qk.len();
    let q = c + cl.len();
    assert(well_formed(o[k].1));
    lemma_render_start(x, style, inner);
    assert((rx + tail)[0] == rx[0]);
    lemma_entry_head(s, p, lbi, key, style, rx + tail);
    lemma_text_split(s, p, lbi, qk + (cl + (rx + tail)));
    lemma_text_split(s, p1, qk, cl + (rx + tail));
    lemma_text_split(s, c, cl, rx + tail);
    lemma_text_split(s, q, rx, tail);
    let e = q + rx.len();
    lemma_insert_fresh(o, k);
    assert(p + ws_len(s, p) == p1);
    assert(string_body(s, p1 + 1, Seq::empty()) == Some((key, c)));
    assert(c + 1 + ws_len(s, c + 1) == q);
    if k + 1 < o.len() {
        let t2 = entries_text(o, k + 1, style, inner, pad);
        assert(tail =~= seq![','] + t2);
        lemma_text_split(s, e, seq![','], t2);
        lemma_text_char(s, e, seq![','] + t2, 0);
        lemma_value_read(x, style, inner, s, q);
        assert(ws_len(s, e) == 0);
        lemma_entries_read(o, k + 1, style, inner, pad, s, e + 1);
        assert(entries_from(s, p, acc) == entries_from(s, e + 1, o.subrange(0, k + 1)));
    } else {
        assert(entries_suffix(o, k + 1, style, inner) =~= Seq::<char>::empty());
        assert(tail =~= lbp + seq!['}']);
        lemma_text_split(s, e, lbp, seq!['}']);
        lemma_text_char(s, e + lbp.len(), seq!['}'], 0);
        if lbp.len() > 0 {
            lemma_text_char(s, e, lbp, 0);
        }
        lemma_value_read(x, style, inner, s, q);
        lemma_skip(s, e, lbp);
        assert(o.subrange(0, k + 1) =~= o);
        assert(entries_from(s, p, acc) == Some((Json::Object(o), e + lbp.len() + 1)));
    }
}

/// Formatting a well-formed value in any style and parsing the text gives back the same value.
pub proof fn lemma_parse_format(v: Json, style: LayoutStyle)
    requires
        well_formed(v),
    ensures
        parse_spec(format_spec(v, style)) == Some(v),
{
    let e = Seq::<char>::empty();
    let s = format_spec(v, style);
    assert(all_ws(e));
    assert(text_at(s, 0, s)) by {
        reveal(text_at);
    }
    lemma_render_start(v, style, e);
    assert(ws_len(s, 0) == 0);
    lemma_value_read(v, style, e, s, 0);
    assert(ws_len(s, s.len() as int) == 0);
}

proof fn lemma_digits_ge(s: Seq<char>, i: int)
    requires
        0 <= i,
    ensures
        digits_end(s, i) >= i,
        i < s.len() && is_digit(s[i]) ==> digits_end(s, i) > i,
    decreases s.len() - i,
{
    if i < s.len() && is_digit(s[i]) {
        lemma_digits_ge(s, i + 1);
    }
}

proof fn lemma_digits_sub(s: Seq<char>, i: int, e: int, j: int)
    requires
        0 <= i <= e <= s.len(),
        0 <= j <= e - i,
        digits_end(s, i + j) <= e,
    ensures
        digits_end(s.subrange(i, e), j) == digits_end(s, i + j) - i,
    decreases e - i - j,
{
    let n = s.subrange(i, e);
    if j < e - i {
        assert(n[j] == s[i + j]);
        if is_digit(n[j]) {
            lemma_digits_sub(s, i, e, j + 1);
        }
    } else {
        lemma_digits_ge(s, i + j);
    }
}

/// The literal that the number grammar reads is itself a whole, valid literal.
proof fn lemma_number_valid(s: Seq<char>, i: int)
    requires
        0 <= i,
        number_end(s, i) >= 0,
    ensures
        i < number_end(s, i) <= s.len(),
        valid_number(s.subrange(i, number_end(s, i))),
{
    let e = number_end(s, i);
    let a = if 0 <= i < s.len() && s[i] == '-' { i + 1 } else { i };
    lemma_digits_ge(s, a);
    let b = if s[a] == '0' { a + 1 } else { digits_end(s, a) };
    if b < s.len() && s[b] == '.' {
        lemma_digits_ge(s, b + 1);
    }
    let c = if b < s.len() && s[b] == '.' { digits_end(s, b + 1) } else { b };
    if 0 <= c < s.len() && (s[c] == 'e' || s[c] == 'E') {
        let f = if c + 1 < s.len() && (s[c + 1] == '+' || s[c + 1] == '-') { c + 2 } else { c + 1 };
        lemma_digits_ge(s, f);
    }
    assert(i < e);
    assert(forall|x: int| 0 <= x < s.len() ==> digits_end(s, x) <= s.len()) by {
        assert forall|x: int| 0 <= x < s.len() implies digits_end(s, x) <= s.len() by {
            lemma_digits_bound(s, x);
        }
    }
    assert(e <= s.len());
    let n = s.subrange(i, e);
    assert forall|m: int| 0 <= m < n.len() implies n[m] == s[i + m] by {}
    assert forall|j: int| 0 <= j <= e - i && digits_end(s, i + j) <= e implies #[trigger] digits_end(n, j) == digits_end(s, i + j)
        - i by {
        lemma_digits_sub(s, i, e, j);
    }
    assert(n[0] == s[i]);
    if a == i + 1 {
        assert(n[1] == s[i + 1]);
    }
    if b < e {
        assert(n[b - i] == s[b]);
    }
    if b + 1 < e {
        assert(n[b + 1 - i] == s[b + 1]);
    }
    if c < e {
        assert(n[c - i] == s[c]);
    }
    if c + 1 < e {
        assert(n[c + 1 - i] == s[c + 1]);
    }
}

proof fn lemma_digits_bound(s: Seq<char>, x: int)
    requires
        0 <= x <= s.len(),
    ensures
        digits_end(s, x) <= s.len(),
    decreases s.len() - x,
{
    if x < s.len() && is_digit(s[x]) {
        lemma_digits_bound(s, x + 1);
    }
}

proof fn lemma_key_index_absent(e: Seq<(Seq<char>, Json)>, k: Seq<char>)
    requires
        key_index(e, k) < 0,
    ensures
        forall|j: int| 0 <= j < e.len() ==> #[trigger] e[j].0 != k,
    decreases e.len(),
{
    if e.len() > 0 {
        lemma_key_index_absent(e.drop_last(), k);
        assert forall|j: int| 0 <= j < e.len() implies #[trigger] e[j].0 != k by {
            if j < e.len() - 1 {
                assert(e.drop_last()[j] == e[j]);
            }
        }
    }
}

proof fn lemma_insert_well_formed(e: Seq<(Seq<char>, Json)>, k: Seq<char>, v: Json)
    requires
        well_formed(Json::Object(e)),
        well_formed(v),
    ensures
        well_formed(Json::Object(insert_entry(e, k, v))),
{
    let r = insert_entry(e, k, v);
    lemma_wf_object(e);
    lemma_wf_object(r);
    lemma_key_index(e, k);
    if key_index(e, k) < 0 {
        lemma_key_index_absent(e, k);
        assert(r == e.push((k, v)));
        assert forall|m: int| 0 <= m < r.len() implies well_formed(#[trigger] r[m].1) by {
            if m < e.len() {
                assert(r[m] == e[m]);
            }
        }
        assert forall|a: int, b: int| 0 <= a < b < r.len() implies #[trigger] r[a].0 != #[trigger] r[b].0 by {
            assert(r[a] == e[a]);
            if b < e.len() {
                assert(r[b] == e[b]);
            }
        }
    } else {
        let j = key_index(e, k);
        assert(r == e.update(j, (k, v)));
        assert forall|m: int| 0 <= m < r.len() implies well_formed(#[trigger] r[m].1) by {
            if m != j {
                assert(r[m] == e[m]);
            }
        }
        assert forall|a: int, b: int| 0 <= a < b < r.len() implies #[trigger] r[a].0 != #[trigger] r[b].0 by {
            assert(r[a].0 == e[a].0);
            assert(r[b].0 == e[b].0);
        }
    }
}

proof fn lemma_value_well_formed(s: Seq<char>, i: int)
    requires
        value_at(s, i) is Some,
    ensures
        well_formed((value_at(s, i)->0).0),
    decreases s.len() - i, 0int,
{
    if s[i] == '-' || is_digit(s[i]) {
        if s[i] != 'n' && s[i] != 't' && s[i] != 'f' && s[i] != '"' {
            lemma_number_valid(s, i);
        }
    } else if s[i] == '[' {
        let p = i + 1 + ws_len(s, i + 1);
        lemma_wf_array(Seq::empty());
        if !(p < s.len() && s[p] == ']') {
            lemma_items_well_formed(s, i + 1, Seq::empty());
        }
    } else if s[i] == '{' {
        let p = i + 1 + ws_len(s, i + 1);
        lemma_wf_object(Seq::empty());
        if !(p < s.len() && s[p] == '}') {
            lemma_entries_well_formed(s, i + 1, Seq::empty());
        }
    }
}

proof fn lemma_items_well_formed(s: Seq<char>, i: int, acc: Seq<Json>)
    requires
        items_from(s, i, acc) is Some,
        well_formed(Json::Array(acc)),
    ensures
        well_formed((items_from(s, i, acc)->0).0),
    decreases s.len() - i, 1int,
{
    let p = i + ws_len(s, i);
    let (v, e) = value_at(s, p)->0;
    lemma_value_well_formed(s, p);
    assert(well_formed(v));
    lemma_wf_array(acc);
    lemma_wf_array(acc.push(v));
    let k = e + ws_len(s, e);
    assert(well_formed(Json::Array(acc.push(v)))) by {
        assert forall|j: int| 0 <= j < acc.push(v).len() implies well_formed(#[trigger] acc.push(v)[j]) by {
            if j < acc.len() {
                assert(acc.push(v)[j] == acc[j]);
                assert(well_formed(acc[j]));
            }
        }
    }
    if s[k] == ',' {
        lemma_items_well_formed(s, k + 1, acc.push(v));
    }
}

proof fn lemma_entries_well_formed(s: Seq<char>, i: int, acc: Seq<(Seq<char>, Json)>)
    requires
        entries_from(s, i, acc) is Some,
        well_formed(Json::Object(acc)),
    ensures
        well_formed((entries_from(s, i, acc)->0).0),
    decreases s.len() - i, 1int,
{
    let p = i + ws_len(s, i);
    let (key, e1) = string_body(s, p + 1, Seq::empty())->0;
    let c = e1 + ws_len(s, e1);
    let q = c + 1 + ws_len(s, c + 1);
    let (v, e) = value_at(s, q)->0;
    lemma_value_well_formed(s, q);
    lemma_insert_well_formed(acc, key, v);
    let k = e + ws_len(s, e);
    if s[k] == ',' {
        lemma_entries_well_formed(s, k + 1, insert_entry(acc, key, v));
    }
}

/// Parsing a valid JSON text, formatting the value compactly and parsing again gives the same value.
pub proof fn lemma_compact_round_trip(t: Seq<char>)
    requires
        parse_spec(t) is Some,
    ensures
        parse_spec(format_spec(parse_spec(t)->0, LayoutStyle::Compact)) == parse_spec(t),
{
    lemma_value_well_formed(t, ws_len(t, 0) as int);
    lemma_parse_format(parse_spec(t)->0, LayoutStyle::Compact);
}

/// What the parser returns is well formed; by `lemma_parse_format` its text in any style therefore parses back to it.
pub proof fn lemma_parsed_well_formed(t: Seq<char>)
    requires
        parse_spec(t) is Some,
    ensures
        well_formed(parse_spec(t)->0),
{
    lemma_value_well_formed(t, ws_len(t, 0) as int);
}

} // verus!
