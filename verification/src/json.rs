//! The JSON values the Project IR stores, and their canonical text: keys
//! sorted, two-space indent, `\n` line endings, a trailing newline, integers
//! only. A file is canonical iff its bytes are the canonical text of the
//! value they hold.

use vstd::prelude::*;

use crate::text::{chars_of, decimal, hex_char, hex_char_exec, push_decimal, push_str, string_of};
use vstd::slice::slice_to_vec;
use vstd::utf8::encode_utf8;

verus! {

/// A JSON value. Object members are kept in key order.
#[derive(Debug)]
pub enum Json {
    Null,
    Bool(bool),
    /// A non-negative integer.
    UInt(u64),
    /// A negative integer.
    NegInt(i64),
    Str(String),
    Array(Vec<Json>),
    Object(Vec<(String, Json)>),
}

/// The mathematical content of a [`Json`] value: strings as characters.
pub enum JsonView {
    Null,
    Bool(bool),
    UInt(u64),
    NegInt(i64),
    Str(Seq<char>),
    Array(Seq<JsonView>),
    Object(Seq<(Seq<char>, JsonView)>),
}

pub open spec fn view_of(j: Json) -> JsonView
    decreases j,
{
    match j {
        Json::Null => JsonView::Null,
        Json::Bool(b) => JsonView::Bool(b),
        Json::UInt(n) => JsonView::UInt(n),
        Json::NegInt(n) => JsonView::NegInt(n),
        Json::Str(s) => JsonView::Str(s@),
        Json::Array(v) => JsonView::Array(view_items(v@)),
        Json::Object(m) => JsonView::Object(view_members(m@)),
    }
}

pub open spec fn view_items(items: Seq<Json>) -> Seq<JsonView>
    decreases items,
{
    if items.len() == 0 {
        Seq::empty()
    } else {
        view_items(items.drop_last()).push(view_of(items.last()))
    }
}

pub open spec fn view_members(members: Seq<(String, Json)>) -> Seq<(Seq<char>, JsonView)>
    decreases members,
{
    if members.len() == 0 {
        Seq::empty()
    } else {
        view_members(members.drop_last()).push((members.last().0@, view_of(members.last().1)))
    }
}

impl View for Json {
    type V = JsonView;

    open spec fn view(&self) -> JsonView {
        view_of(*self)
    }
}


/// How a string character is written inside a JSON string literal: the
/// quote and backslash escaped, the C0 controls as short escapes where JSON
/// has one and `\u00XX` (lowercase hex) otherwise, everything else as is.
pub open spec fn escape_char(c: char) -> Seq<char> {
    if c == '"' {
        seq!['\\', '"']
    } else if c == '\\' {
        seq!['\\', '\\']
    } else if c == '\n' {
        seq!['\\', 'n']
    } else if c == '\r' {
        seq!['\\', 'r']
    } else if c == '\t' {
        seq!['\\', 't']
    } else if c == '\u{8}' {
        seq!['\\', 'b']
    } else if c == '\u{c}' {
        seq!['\\', 'f']
    } else if (c as u32) < 0x20 {
        seq!['\\', 'u', '0', '0', hex_char(((c as u32) / 16) as nat), hex_char(((c as u32) % 16) as nat)]
    } else {
        seq![c]
    }
}

pub open spec fn escape_str(s: Seq<char>) -> Seq<char>
    decreases s.len(),
{
    if s.len() == 0 {
        Seq::empty()
    } else {
        escape_str(s.drop_last()) + escape_char(s.last())
    }
}

/// A string literal: quoted and escaped.
pub open spec fn quoted(s: Seq<char>) -> Seq<char> {
    seq!['"'] + escape_str(s) + seq!['"']
}

pub open spec fn number_text(v: JsonView) -> Seq<char> {
    match v {
        JsonView::UInt(n) => decimal(n as nat),
        JsonView::NegInt(n) => if n < 0 { seq!['-'] + decimal((-(n as int)) as nat) } else { decimal(n as nat) },
        _ => Seq::empty(),
    }
}

/// Two spaces per level.
pub open spec fn indent(level: nat) -> Seq<char> {
    Seq::new(2 * level, |i: int| ' ')
}

/// The pretty (canonical) text of `v` at nesting `level`.
pub open spec fn pretty(v: JsonView, level: nat) -> Seq<char>
    decreases v,
{
    match v {
        JsonView::Null => "null"@,
        JsonView::Bool(b) => if b { "true"@ } else { "false"@ },
        JsonView::UInt(_) => number_text(v),
        JsonView::NegInt(_) => number_text(v),
        JsonView::Str(s) => quoted(s),
        JsonView::Array(items) => if items.len() == 0 {
            "[]"@
        } else {
            seq!['['] + pretty_items(items, level + 1) + seq!['\n'] + indent(level) + seq![']']
        },
        JsonView::Object(members) => if members.len() == 0 {
            "{}"@
        } else {
            seq!['{'] + pretty_members(members, level + 1) + seq!['\n'] + indent(level) + seq!['}']
        },
    }
}

/// Each item on its own line at `level`, separated by commas.
pub open spec fn pretty_items(items: Seq<JsonView>, level: nat) -> Seq<char>
    decreases items,
{
    if items.len() == 0 {
        Seq::empty()
    } else {
        pretty_items(items.drop_last(), level) + (if items.len() > 1 { seq![','] } else { Seq::empty() })
            + seq!['\n'] + indent(level) + pretty(items.last(), level)
    }
}

/// Each member `"key": value` on its own line at `level`, separated by commas.
pub open spec fn pretty_members(members: Seq<(Seq<char>, JsonView)>, level: nat) -> Seq<char>
    decreases members,
{
    if members.len() == 0 {
        Seq::empty()
    } else {
        pretty_members(members.drop_last(), level) + (if members.len() > 1 { seq![','] } else { Seq::empty() })
            + seq!['\n'] + indent(level) + quoted(members.last().0) + seq![':', ' ']
            + pretty(members.last().1, level)
    }
}

/// The compact text of `v`: no whitespace at all.
pub open spec fn compact(v: JsonView) -> Seq<char>
    decreases v,
{
    match v {
        JsonView::Null => "null"@,
        JsonView::Bool(b) => if b { "true"@ } else { "false"@ },
        JsonView::UInt(_) => number_text(v),
        JsonView::NegInt(_) => number_text(v),
        JsonView::Str(s) => quoted(s),
        JsonView::Array(items) => seq!['['] + compact_items(items) + seq![']'],
        JsonView::Object(members) => seq!['{'] + compact_members(members) + seq!['}'],
    }
}

pub open spec fn compact_items(items: Seq<JsonView>) -> Seq<char>
    decreases items,
{
    if items.len() == 0 {
        Seq::empty()
    } else {
        compact_items(items.drop_last()) + (if items.len() > 1 { seq![','] } else { Seq::empty() })
            + compact(items.last())
    }
}

pub open spec fn compact_members(members: Seq<(Seq<char>, JsonView)>) -> Seq<char>
    decreases members,
{
    if members.len() == 0 {
        Seq::empty()
    } else {
        compact_members(members.drop_last()) + (if members.len() > 1 { seq![','] } else { Seq::empty() })
            + quoted(members.last().0) + seq![':'] + compact(members.last().1)
    }
}

fn push_escaped(out: &mut Vec<char>, s: &str)
    ensures
        final(out)@ == old(out)@ + escape_str(s@),
{
    let chars = crate::text::chars_of(s);
    let ghost start = out@;
    let mut i: usize = 0;
    while i < chars.len()
        invariant
            i <= chars@.len(),
            chars@ == s@,
            out@ == start + escape_str(chars@.subrange(0, i as int)),
        decreases chars@.len() - i,
    {
        let c = chars[i];
        let ghost pre = chars@.subrange(0, i as int);
        let ghost post = chars@.subrange(0, i + 1);
        assert(post.drop_last() =~= pre);
        let ghost before = out@;
        if c == '"' {
            out.push('\\');
            out.push('"');
        } else if c == '\\' {
            out.push('\\');
            out.push('\\');
        } else if c == '\n' {
            out.push('\\');
            out.push('n');
        } else if c == '\r' {
            out.push('\\');
            out.push('r');
        } else if c == '\t' {
            out.push('\\');
            out.push('t');
        } else if c == '\u{8}' {
            out.push('\\');
            out.push('b');
        } else if c == '\u{c}' {
            out.push('\\');
            out.push('f');
        } else if (c as u32) < 0x20 {
            let code = c as u32;
            out.push('\\');
            out.push('u');
            out.push('0');
            out.push('0');
            out.push(hex_char_exec((code / 16) as u8));
            out.push(hex_char_exec((code % 16) as u8));
        } else {
            out.push(c);
        }
        assert(out@ =~= before + escape_char(c));
        i = i + 1;
    }
    assert(chars@.subrange(0, chars@.len() as int) =~= chars@);
}

fn push_quoted(out: &mut Vec<char>, s: &str)
    ensures
        final(out)@ == old(out)@ + quoted(s@),
{
    let ghost start = out@;
    out.push('"');
    push_escaped(out, s);
    out.push('"');
    assert(out@ =~= start + quoted(s@));
}

/// Appends every character of `s`.
pub fn push_chars(out: &mut Vec<char>, s: &Vec<char>)
    ensures
        final(out)@ == old(out)@ + s@,
{
    let ghost start = out@;
    let mut i: usize = 0;
    while i < s.len()
        invariant
            i <= s@.len(),
            out@ == start + s@.subrange(0, i as int),
        decreases s@.len() - i,
    {
        out.push(s[i]);
        i = i + 1;
        assert(out@ =~= start + s@.subrange(0, i as int));
    }
    assert(s@.subrange(0, s@.len() as int) =~= s@);
}

/// The indentation one level deeper.
fn deeper(ind: &Vec<char>, Ghost(level): Ghost<nat>) -> (res: Vec<char>)
    requires
        ind@ == indent(level),
    ensures
        res@ == indent(level + 1),
{
    let mut res: Vec<char> = Vec::new();
    push_chars(&mut res, ind);
    res.push(' ');
    res.push(' ');
    assert(res@ =~= indent(level + 1));
    res
}

fn push_number(out: &mut Vec<char>, v: &Json)
    requires
        v is UInt || v is NegInt,
    ensures
        final(out)@ == old(out)@ + number_text(v@),
{
    match v {
        Json::UInt(n) => push_decimal(out, *n, 0),
        Json::NegInt(n) => {
            let ghost start = out@;
            if *n < 0 {
                out.push('-');
                let pos: i64 = -(*n + 1);
                let m: u64 = (pos as u64) + 1;
                assert(m as int == -(*n as int));
                push_decimal(out, m, 0);
            } else {
                push_decimal(out, *n as u64, 0);
            }
            assert(out@ =~= start + number_text(v@));
        },
        _ => {},
    }
}

/// Appends the pretty text of `v` at nesting `level`.
fn write_pretty(out: &mut Vec<char>, v: &Json, ind: &Vec<char>, Ghost(level): Ghost<nat>)
    requires
        ind@ == indent(level),
    ensures
        final(out)@ == old(out)@ + pretty(v@, level),
    decreases v,
{
    let ghost start = out@;
    match v {
        Json::Null => { push_str(out, "null"); },
        Json::Bool(b) => {
            if *b { push_str(out, "true"); } else { push_str(out, "false"); }
        },
        Json::UInt(_) => { push_number(out, v); },
        Json::NegInt(_) => { push_number(out, v); },
        Json::Str(s) => { push_quoted(out, s.as_str()); },
        Json::Array(items) => {
            if items.len() == 0 {
                push_str(out, "[]");
            } else {
                out.push('[');
                let inner = deeper(ind, Ghost(level));
                let ghost mid = out@;
                let mut i: usize = 0;
                while i < items.len()
                    invariant
                        i <= items@.len(),
                        inner@ == indent(level + 1),
                        *v == Json::Array(*items),
                        out@ == mid + pretty_items(view_items(items@.subrange(0, i as int)), level + 1),
                    decreases items@.len() - i,
                {
                    let ghost pre = items@.subrange(0, i as int);
                    let ghost post = items@.subrange(0, i + 1);
                    assert(post.drop_last() =~= pre);
                    let ghost before = out@;
                    if i > 0 {
                        out.push(',');
                    }
                    out.push('\n');
                    push_chars(out, &inner);
                    proof {
                        assert(decreases_to!(*v => v->Array_0));
                        assert(decreases_to!(*items => items@));
                        assert(decreases_to!(items@ => items@[i as int]));
                    }
                    write_pretty(out, &items[i], &inner, Ghost(level + 1));
                    proof {
                        assert(view_items(post).len() == i + 1) by { lemma_view_items_len(post); }
                        assert(view_items(post).drop_last() == view_items(pre));
                        assert(view_items(post).last() == view_of(items@[i as int]));
                        assert(out@ =~= mid + pretty_items(view_items(post), level + 1));
                    }
                    i = i + 1;
                }
                out.push('\n');
                push_chars(out, ind);
                out.push(']');
                proof {
                    assert(items@.subrange(0, items@.len() as int) =~= items@);
                    lemma_view_items_len(items@);
                }
            }
        },
        Json::Object(members) => {
            if members.len() == 0 {
                push_str(out, "{}");
            } else {
                out.push('{');
                let inner = deeper(ind, Ghost(level));
                let ghost mid = out@;
                let mut i: usize = 0;
                while i < members.len()
                    invariant
                        i <= members@.len(),
                        inner@ == indent(level + 1),
                        *v == Json::Object(*members),
                        out@ == mid + pretty_members(view_members(members@.subrange(0, i as int)), level + 1),
                    decreases members@.len() - i,
                {
                    let ghost pre = members@.subrange(0, i as int);
                    let ghost post = members@.subrange(0, i + 1);
                    assert(post.drop_last() =~= pre);
                    if i > 0 {
                        out.push(',');
                    }
                    out.push('\n');
                    push_chars(out, &inner);
                    push_quoted(out, members[i].0.as_str());
                    out.push(':');
                    out.push(' ');
                    proof {
                        assert(decreases_to!(*v => v->Object_0));
                        assert(decreases_to!(*members => members@));
                        assert(decreases_to!(members@ => members@[i as int]));
                        assert(decreases_to!(members@[i as int] => members@[i as int].1));
                    }
                    write_pretty(out, &members[i].1, &inner, Ghost(level + 1));
                    proof {
                        lemma_view_members_len(post);
                        assert(view_members(post).drop_last() == view_members(pre));
                        assert(view_members(post).last() == (members@[i as int].0@, view_of(members@[i as int].1)));
                        assert(out@ =~= mid + pretty_members(view_members(post), level + 1));
                    }
                    i = i + 1;
                }
                out.push('\n');
                push_chars(out, ind);
                out.push('}');
                proof {
                    assert(members@.subrange(0, members@.len() as int) =~= members@);
                    lemma_view_members_len(members@);
                }
            }
        },
    }
    assert(out@ =~= start + pretty(v@, level));
}

pub proof fn lemma_view_items_len(items: Seq<Json>)
    ensures
        view_items(items).len() == items.len(),
        forall|i: int| 0 <= i < items.len() ==> #[trigger] view_items(items)[i] == view_of(items[i]),
    decreases items.len(),
{
    if items.len() > 0 {
        lemma_view_items_len(items.drop_last());
        assert forall|i: int| 0 <= i < items.len() implies #[trigger] view_items(items)[i] == view_of(items[i]) by {
            if i < items.len() - 1 {
                assert(items.drop_last()[i] == items[i]);
            }
        }
    }
}

pub proof fn lemma_view_members_len(members: Seq<(String, Json)>)
    ensures
        view_members(members).len() == members.len(),
        forall|i: int| 0 <= i < members.len() ==> #[trigger] view_members(members)[i] == (members[i].0@, view_of(members[i].1)),
    decreases members.len(),
{
    if members.len() > 0 {
        lemma_view_members_len(members.drop_last());
        assert forall|i: int| 0 <= i < members.len() implies #[trigger] view_members(members)[i] == (members[i].0@, view_of(members[i].1)) by {
            if i < members.len() - 1 {
                assert(members.drop_last()[i] == members[i]);
            }
        }
    }
}


/// The canonical text of a whole file: the pretty text and a newline.
pub open spec fn canonical_text(v: JsonView) -> Seq<char> {
    pretty(v, 0).push('\n')
}

/// The canonical bytes of `value` (the one serializer of the IR): keys in
/// order, two-space indent, `\n` line endings, a trailing newline.
pub fn format_value(value: &Json) -> (res: Vec<u8>)
    ensures
        res@ == encode_utf8(canonical_text(value@)),
{
    let mut out: Vec<char> = Vec::new();
    let ind: Vec<char> = Vec::new();
    assert(ind@ =~= indent(0));
    write_pretty(&mut out, value, &ind, Ghost(0));
    out.push('\n');
    let text = string_of(&out);
    slice_to_vec(text.as_str().as_bytes())
}

/// Appends the compact text of `v`.
fn write_compact(out: &mut Vec<char>, v: &Json)
    ensures
        final(out)@ == old(out)@ + compact(v@),
    decreases v,
{
    let ghost start = out@;
    match v {
        Json::Null => { push_str(out, "null"); },
        Json::Bool(b) => {
            if *b { push_str(out, "true"); } else { push_str(out, "false"); }
        },
        Json::UInt(_) => { push_number(out, v); },
        Json::NegInt(_) => { push_number(out, v); },
        Json::Str(s) => { push_quoted(out, s.as_str()); },
        Json::Array(items) => {
            out.push('[');
            let ghost mid = out@;
            let mut i: usize = 0;
            while i < items.len()
                invariant
                    i <= items@.len(),
                    *v == Json::Array(*items),
                    out@ == mid + compact_items(view_items(items@.subrange(0, i as int))),
                decreases items@.len() - i,
            {
                let ghost pre = items@.subrange(0, i as int);
                let ghost post = items@.subrange(0, i + 1);
                assert(post.drop_last() =~= pre);
                if i > 0 {
                    out.push(',');
                }
                proof {
                    assert(decreases_to!(*v => v->Array_0));
                    assert(decreases_to!(*items => items@));
                    assert(decreases_to!(items@ => items@[i as int]));
                }
                write_compact(out, &items[i]);
                proof {
                    lemma_view_items_len(post);
                    assert(view_items(post).drop_last() == view_items(pre));
                    assert(out@ =~= mid + compact_items(view_items(post)));
                }
                i = i + 1;
            }
            out.push(']');
            proof {
                assert(items@.subrange(0, items@.len() as int) =~= items@);
            }
        },
        Json::Object(members) => {
            out.push('{');
            let ghost mid = out@;
            let mut i: usize = 0;
            while i < members.len()
                invariant
                    i <= members@.len(),
                    *v == Json::Object(*members),
                    out@ == mid + compact_members(view_members(members@.subrange(0, i as int))),
                decreases members@.len() - i,
            {
                let ghost pre = members@.subrange(0, i as int);
                let ghost post = members@.subrange(0, i + 1);
                assert(post.drop_last() =~= pre);
                if i > 0 {
                    out.push(',');
                }
                push_quoted(out, members[i].0.as_str());
                out.push(':');
                proof {
                    assert(decreases_to!(*v => v->Object_0));
                    assert(decreases_to!(*members => members@));
                    assert(decreases_to!(members@ => members@[i as int]));
                    assert(decreases_to!(members@[i as int] => members@[i as int].1));
                }
                write_compact(out, &members[i].1);
                proof {
                    lemma_view_members_len(post);
                    assert(view_members(post).drop_last() == view_members(pre));
                    assert(out@ =~= mid + compact_members(view_members(post)));
                }
                i = i + 1;
            }
            out.push('}');
            proof {
                assert(members@.subrange(0, members@.len() as int) =~= members@);
            }
        },
    }
    assert(out@ =~= start + compact(v@));
}

/// The compact bytes of `value`, with no trailing newline: one audit line.
pub fn format_line(value: &Json) -> (res: Vec<u8>)
    ensures
        res@ == encode_utf8(compact(value@)),
{
    let mut out: Vec<char> = Vec::new();
    write_compact(&mut out, value);
    let text = string_of(&out);
    slice_to_vec(text.as_str().as_bytes())
}

/// True iff `bytes` are exactly the canonical bytes of `value`, the value
/// they parse to.
pub fn is_canonical(bytes: &[u8], value: &Json) -> (res: bool)
    ensures
        res <==> bytes@ == encode_utf8(canonical_text(value@)),
{
    let canonical = format_value(value);
    crate::text::bytes_equal(canonical.as_slice(), bytes)
}


/// The order of object keys: code point by code point, a proper prefix
/// first. This is the order of `String`, and so of a sorted JSON map.
pub open spec fn key_less(a: Seq<char>, b: Seq<char>) -> bool
    decreases a.len(),
{
    if a.len() == 0 {
        b.len() > 0
    } else if b.len() == 0 {
        false
    } else if a[0] != b[0] {
        (a[0] as u32) < (b[0] as u32)
    } else {
        key_less(a.drop_first(), b.drop_first())
    }
}

pub proof fn lemma_key_less_irreflexive(a: Seq<char>)
    ensures
        !key_less(a, a),
    decreases a.len(),
{
    if a.len() > 0 {
        lemma_key_less_irreflexive(a.drop_first());
    }
}

/// Exactly one of `a < b`, `a == b`, `b < a` holds.
pub proof fn lemma_key_less_trichotomy(a: Seq<char>, b: Seq<char>)
    ensures
        a == b || key_less(a, b) || key_less(b, a),
        !(key_less(a, b) && key_less(b, a)),
        key_less(a, b) ==> a != b,
    decreases a.len(),
{
    lemma_key_less_irreflexive(a);
    if a.len() > 0 && b.len() > 0 {
        if a[0] == b[0] {
            lemma_key_less_trichotomy(a.drop_first(), b.drop_first());
            if a.drop_first() == b.drop_first() {
                assert(a =~= b) by {
                    assert forall|i: int| 0 <= i < a.len() implies a[i] == b[i] by {
                        if i > 0 {
                            assert(a[i] == a.drop_first()[i - 1]);
                            assert(b[i] == b.drop_first()[i - 1]);
                        }
                    }
                }
            }
        } else {
            vstd::utf8::char_u32_cast(a[0], a[0] as u32);
            vstd::utf8::char_u32_cast(b[0], b[0] as u32);
        }
    } else if a.len() == 0 && b.len() == 0 {
        assert(a =~= b);
    }
}

pub proof fn lemma_key_less_transitive(a: Seq<char>, b: Seq<char>, c: Seq<char>)
    requires
        key_less(a, b),
        key_less(b, c),
    ensures
        key_less(a, c),
    decreases a.len(),
{
    if a.len() > 0 && b.len() > 0 && c.len() > 0 && a[0] == b[0] && b[0] == c[0] {
        lemma_key_less_transitive(a.drop_first(), b.drop_first(), c.drop_first());
    }
}

/// The result of comparing two keys.
#[derive(Clone, Copy, Debug, PartialEq, Eq, Structural)]
pub enum KeyOrder {
    Less,
    Equal,
    Greater,
}

proof fn lemma_key_less_step(a: Seq<char>, b: Seq<char>, i: int)
    requires
        0 <= i < a.len(),
        i < b.len(),
        a[i] == b[i],
    ensures
        key_less(a.skip(i), b.skip(i)) == key_less(a.skip(i + 1), b.skip(i + 1)),
{
    assert(a.skip(i).drop_first() =~= a.skip(i + 1));
    assert(b.skip(i).drop_first() =~= b.skip(i + 1));
}

/// Compares two keys in [`key_less`] order.
pub fn compare_keys(a: &str, b: &str) -> (res: KeyOrder)
    ensures
        res is Less <==> key_less(a@, b@),
        res is Equal <==> a@ == b@,
        res is Greater <==> key_less(b@, a@),
{
    let x = chars_of(a);
    let y = chars_of(b);
    let mut i: usize = 0;
    assert(x@.skip(0) =~= x@);
    assert(y@.skip(0) =~= y@);
    while i < x.len() && i < y.len() && x[i] == y[i]
        invariant
            i <= x@.len(),
            i <= y@.len(),
            x@ == a@,
            y@ == b@,
            x@.subrange(0, i as int) == y@.subrange(0, i as int),
            key_less(a@, b@) == key_less(x@.skip(i as int), y@.skip(i as int)),
            key_less(b@, a@) == key_less(y@.skip(i as int), x@.skip(i as int)),
        decreases x@.len() - i,
    {
        proof {
            lemma_key_less_step(x@, y@, i as int);
            lemma_key_less_step(y@, x@, i as int);
            assert(x@.subrange(0, i + 1) =~= x@.subrange(0, i as int).push(x@[i as int]));
            assert(y@.subrange(0, i + 1) =~= y@.subrange(0, i as int).push(y@[i as int]));
        }
        i = i + 1;
    }
    proof {
        lemma_key_less_trichotomy(a@, b@);
    }
    if i == x.len() && i == y.len() {
        assert(x@ =~= x@.subrange(0, i as int));
        assert(y@ =~= y@.subrange(0, i as int));
        KeyOrder::Equal
    } else if i == x.len() {
        assert(x@.skip(i as int).len() == 0);
        KeyOrder::Less
    } else if i == y.len() {
        assert(y@.skip(i as int).len() == 0);
        KeyOrder::Greater
    } else {
        assert(x@.skip(i as int)[0] == x@[i as int]);
        assert(y@.skip(i as int)[0] == y@[i as int]);
        if (x[i] as u32) < (y[i] as u32) {
            KeyOrder::Less
        } else {
            KeyOrder::Greater
        }
    }
}

/// Object members with strictly increasing keys (so no key twice).
pub open spec fn keys_sorted(ms: Seq<(Seq<char>, JsonView)>) -> bool {
    forall|i: int, j: int| 0 <= i < j < ms.len() ==> key_less(#[trigger] ms[i].0, #[trigger] ms[j].0)
}

/// The value stored under `k`, if any.
pub open spec fn lookup(ms: Seq<(Seq<char>, JsonView)>, k: Seq<char>) -> Option<JsonView> {
    if exists|i: int| 0 <= i < ms.len() && #[trigger] ms[i].0 == k {
        Some(ms[choose|i: int| 0 <= i < ms.len() && #[trigger] ms[i].0 == k].1)
    } else {
        None
    }
}

/// In sorted members, a key found at `i` is found only there.
pub proof fn lemma_lookup_at(ms: Seq<(Seq<char>, JsonView)>, i: int)
    requires
        keys_sorted(ms),
        0 <= i < ms.len(),
    ensures
        lookup(ms, ms[i].0) == Some(ms[i].1),
{
    let k = ms[i].0;
    assert(exists|j: int| 0 <= j < ms.len() && #[trigger] ms[j].0 == k);
    let j = choose|j: int| 0 <= j < ms.len() && #[trigger] ms[j].0 == k;
    lemma_key_less_irreflexive(k);
    if j < i {
        assert(key_less(ms[j].0, ms[i].0));
    } else if j > i {
        assert(key_less(ms[i].0, ms[j].0));
    }
    assert(j == i);
    assert(lookup(ms, k) == Some(ms[j].1));
}


/// Two sorted member lists that hold the same members under `k` give the
/// same value for `k`; `f` and `g` match those members up.
proof fn lemma_lookup_via(
    a: Seq<(Seq<char>, JsonView)>,
    b: Seq<(Seq<char>, JsonView)>,
    k: Seq<char>,
    f: spec_fn(int) -> int,
    g: spec_fn(int) -> int,
)
    requires
        keys_sorted(a),
        keys_sorted(b),
        forall|i: int| #![trigger f(i)] 0 <= i < a.len() && a[i].0 == k ==> 0 <= f(i) < b.len() && b[f(i)] == a[i],
        forall|j: int| #![trigger g(j)] 0 <= j < b.len() && b[j].0 == k ==> 0 <= g(j) < a.len() && a[g(j)] == b[j],
    ensures
        lookup(a, k) == lookup(b, k),
{
    if exists|i: int| 0 <= i < a.len() && #[trigger] a[i].0 == k {
        let i = choose|i: int| 0 <= i < a.len() && #[trigger] a[i].0 == k;
        let j = f(i);
        lemma_lookup_at(a, i);
        lemma_lookup_at(b, j);
    } else if exists|j: int| 0 <= j < b.len() && #[trigger] b[j].0 == k {
        let j = choose|j: int| 0 <= j < b.len() && #[trigger] b[j].0 == k;
        let i = g(j);
        assert(a[i].0 == k);
    }
}

/// Sets `key` to `value` in object members kept in key order: the value of
/// an existing key is replaced in place, a new key goes where it belongs.
pub fn insert_member(members: &mut Vec<(String, Json)>, key: String, value: Json)
    requires
        keys_sorted(view_members(old(members)@)),
    ensures
        keys_sorted(view_members(final(members)@)),
        forall|k: Seq<char>| #[trigger] lookup(view_members(final(members)@), k) == (if k == key@ {
            Some(value@)
        } else {
            lookup(view_members(old(members)@), k)
        }),
        final(members)@.len() == old(members)@.len() + (if lookup(view_members(old(members)@), key@) is Some { 0int } else { 1int }),
{
    let ghost a = view_members(members@);
    proof { lemma_view_members_len(members@); }
    let mut i: usize = 0;
    let mut found = false;
    while i < members.len()
        invariant_except_break
            i <= members@.len(),
            !found,
            a == view_members(members@),
            a.len() == members@.len(),
            forall|j: int| 0 <= j < i ==> key_less(#[trigger] a[j].0, key@),
        invariant
            forall|j: int| 0 <= j < members@.len() ==> #[trigger] a[j] == (members@[j].0@, members@[j].1@),
        ensures
            i <= members@.len(),
            a == view_members(members@),
            a.len() == members@.len(),
            forall|j: int| 0 <= j < i ==> key_less(#[trigger] a[j].0, key@),
            found ==> i < a.len() && a[i as int].0 == key@,
            !found ==> (i < a.len() ==> key_less(key@, a[i as int].0)),
        decreases members@.len() - i,
    {
        match compare_keys(members[i].0.as_str(), key.as_str()) {
            KeyOrder::Less => {
                i = i + 1;
            },
            KeyOrder::Equal => {
                found = true;
                break;
            },
            KeyOrder::Greater => {
                break;
            },
        }
    }
    let ghost p = i as int;
    let ghost x = (key@, value@);
    if found {
        proof { lemma_lookup_at(a, p); }
        members.set(i, (key, value));
        let ghost b = view_members(members@);
        proof {
            lemma_view_members_len(members@);
            assert(b =~= a.update(p, x));
            assert forall|j1: int, j2: int| 0 <= j1 < j2 < b.len() implies key_less(#[trigger] b[j1].0, #[trigger] b[j2].0) by {
                assert(key_less(a[j1].0, a[j2].0));
            }
            assert forall|k: Seq<char>| #[trigger] lookup(b, k) == (if k == x.0 { Some(x.1) } else { lookup(a, k) }) by {
                if k == x.0 {
                    lemma_lookup_at(b, p);
                } else {
                    lemma_lookup_via(a, b, k, |j: int| j, |j: int| j);
                }
            }
        }
    } else {
        proof {
            assert forall|j: int| 0 <= j < a.len() implies #[trigger] a[j].0 != key@ by {
                lemma_key_less_trichotomy(a[j].0, key@);
                lemma_key_less_trichotomy(key@, a[j].0);
                if j > p {
                    assert(key_less(a[p].0, a[j].0));
                    lemma_key_less_transitive(key@, a[p].0, a[j].0);
                    lemma_key_less_trichotomy(key@, a[j].0);
                }
            }
            assert(!(exists|j: int| 0 <= j < a.len() && #[trigger] a[j].0 == key@));
        }
        members.insert(i, (key, value));
        let ghost b = view_members(members@);
        proof {
            lemma_view_members_len(members@);
            assert(b =~= a.insert(p, x));
            assert forall|j: int| p < j < b.len() implies key_less(x.0, #[trigger] b[j].0) by {
                assert(b[j] == a[j - 1]);
                if j - 1 > p {
                    assert(key_less(a[p].0, a[j - 1].0));
                    lemma_key_less_transitive(x.0, a[p].0, a[j - 1].0);
                }
            }
            assert forall|j1: int, j2: int| 0 <= j1 < j2 < b.len() implies key_less(#[trigger] b[j1].0, #[trigger] b[j2].0) by {
                if j2 < p {
                    assert(key_less(a[j1].0, a[j2].0));
                } else if j2 == p {
                } else if j1 < p {
                    assert(key_less(a[j1].0, x.0));
                    assert(key_less(x.0, b[j2].0));
                    lemma_key_less_transitive(a[j1].0, x.0, b[j2].0);
                } else if j1 == p {
                } else {
                    assert(key_less(a[j1 - 1].0, a[j2 - 1].0));
                }
            }
            assert forall|k: Seq<char>| #[trigger] lookup(b, k) == (if k == x.0 { Some(x.1) } else { lookup(a, k) }) by {
                if k == x.0 {
                    lemma_lookup_at(b, p);
                } else {
                    lemma_lookup_via(a, b, k, |j: int| if j < p { j } else { j + 1 }, |j: int| if j < p { j } else { j - 1 });
                }
            }
        }
    }
}


/// Dropping the last member of sorted members forgets exactly its key.
proof fn lemma_lookup_drop_last(a: Seq<(Seq<char>, JsonView)>, k: Seq<char>)
    requires
        keys_sorted(a),
        a.len() > 0,
    ensures
        keys_sorted(a.drop_last()),
        lookup(a.drop_last(), k) == (if k == a.last().0 { None } else { lookup(a, k) }),
{
    let d = a.drop_last();
    assert forall|i: int, j: int| 0 <= i < j < d.len() implies key_less(#[trigger] d[i].0, #[trigger] d[j].0) by {
        assert(key_less(a[i].0, a[j].0));
    }
    if k == a.last().0 {
        assert forall|i: int| 0 <= i < d.len() implies #[trigger] d[i].0 != k by {
            assert(key_less(a[i].0, a[a.len() - 1].0));
            lemma_key_less_trichotomy(a[i].0, k);
        }
    } else {
        lemma_lookup_via(d, a, k, |i: int| i, |i: int| i);
    }
}

/// Law: members kept in key order are determined by what they map each
/// key to, so an object's canonical text does not depend on the order in
/// which its members were set.
pub proof fn law_sorted_members_are_determined_by_lookup(a: Seq<(Seq<char>, JsonView)>, b: Seq<(Seq<char>, JsonView)>)
    requires
        keys_sorted(a),
        keys_sorted(b),
        forall|k: Seq<char>| #[trigger] lookup(a, k) == lookup(b, k),
    ensures
        a == b,
    decreases a.len(),
{
    if a.len() == 0 {
        if b.len() > 0 {
            lemma_lookup_at(b, 0);
            assert(lookup(a, b[0].0) == lookup(b, b[0].0));
        }
        assert(a =~= b);
    } else if b.len() == 0 {
        lemma_lookup_at(a, 0);
        assert(lookup(a, a[0].0) == lookup(b, a[0].0));
    } else {
        let la = a.len() - 1;
        let lb = b.len() - 1;
        let ka = a[la].0;
        let kb = b[lb].0;
        lemma_lookup_at(a, la);
        lemma_lookup_at(b, lb);
        assert(lookup(a, ka) == lookup(b, ka));
        assert(lookup(a, kb) == lookup(b, kb));
        let j = choose|j: int| 0 <= j < b.len() && #[trigger] b[j].0 == ka;
        let i = choose|i: int| 0 <= i < a.len() && #[trigger] a[i].0 == kb;
        if ka != kb {
            assert(j < lb);
            assert(key_less(b[j].0, b[lb].0));
            assert(i < la);
            assert(key_less(a[i].0, a[la].0));
            lemma_key_less_trichotomy(ka, kb);
        }
        assert(a[la] == b[lb]);
        assert forall|k: Seq<char>| #[trigger] lookup(a.drop_last(), k) == lookup(b.drop_last(), k) by {
            lemma_lookup_drop_last(a, k);
            lemma_lookup_drop_last(b, k);
            assert(lookup(a, k) == lookup(b, k));
        }
        lemma_lookup_drop_last(a, ka);
        lemma_lookup_drop_last(b, ka);
        law_sorted_members_are_determined_by_lookup(a.drop_last(), b.drop_last());
        assert(a =~= a.drop_last().push(a[la]));
        assert(b =~= b.drop_last().push(b[lb]));
    }
}

/// What a list of `(key, value)` settings leaves under `k`: the last
/// setting of `k` wins.
pub open spec fn assigned(ms: Seq<(Seq<char>, JsonView)>, k: Seq<char>) -> Option<JsonView>
    decreases ms.len(),
{
    if ms.len() == 0 {
        None
    } else if ms.last().0 == k {
        Some(ms.last().1)
    } else {
        assigned(ms.drop_last(), k)
    }
}

impl Json {
    /// The object that results from setting each `(key, value)` in turn:
    /// members in key order, a later setting of a key replacing an earlier.
    pub fn object(settings: Vec<(String, Json)>) -> (res: Json)
        ensures
            res is Object,
            keys_sorted(view_members(res->Object_0@)),
            forall|k: Seq<char>| #[trigger] lookup(view_members(res->Object_0@), k) == assigned(view_members(settings@), k),
    {
        let mut members: Vec<(String, Json)> = Vec::new();
        let mut rest = settings;
        let ghost all = view_members(rest@);
        proof { lemma_view_members_len(rest@); }
        let total = rest.len();
        let ghost n = all.len();
        assert(n == total);
        let mut done: usize = 0;
        assert(keys_sorted(view_members(members@))) by {
            assert(view_members(members@) =~= Seq::<(Seq<char>, JsonView)>::empty());
        }
        while rest.len() > 0
            invariant
                done + rest@.len() == n,
                n == all.len(),
                n <= usize::MAX,
                forall|j: int| 0 <= j < rest@.len() ==> (#[trigger] rest@[j]).0@ == all[done + j].0 && rest@[j].1@ == all[done + j].1,
                keys_sorted(view_members(members@)),
                forall|k: Seq<char>| #[trigger] lookup(view_members(members@), k) == assigned(all.subrange(0, done as int), k),
            decreases rest@.len(),
        {
            let ghost before = rest@;
            let (key, value) = rest.remove(0);
            assert(rest@ =~= before.subrange(1, before.len() as int));
            assert(before[0] == (key, value));
            let ghost pre = all.subrange(0, done as int);
            let ghost post = all.subrange(0, done + 1);
            assert(post.drop_last() =~= pre);
            insert_member(&mut members, key, value);
            done = done + 1;
            assert forall|k: Seq<char>| #[trigger] lookup(view_members(members@), k) == assigned(all.subrange(0, done as int), k) by {
                assert(post.last() == all[done - 1]);
            }
        }
        assert(all.subrange(0, n as int) =~= all);
        Json::Object(members)
    }
}


impl Json {
    /// A copy of this value.
    pub fn duplicate(&self) -> (res: Json)
        ensures
            res@ == self@,
        decreases self,
    {
        match self {
            Json::Null => Json::Null,
            Json::Bool(b) => Json::Bool(*b),
            Json::UInt(n) => Json::UInt(*n),
            Json::NegInt(n) => Json::NegInt(*n),
            Json::Str(s) => Json::Str(s.clone()),
            Json::Array(items) => {
                let mut out: Vec<Json> = Vec::new();
                let mut i: usize = 0;
                while i < items.len()
                    invariant
                        i <= items@.len(),
                        *self == Json::Array(*items),
                        out@.len() == i,
                        forall|j: int| 0 <= j < i ==> (#[trigger] out@[j])@ == items@[j]@,
                    decreases items@.len() - i,
                {
                    proof {
                        assert(decreases_to!(*self => self->Array_0));
                        assert(decreases_to!(*items => items@));
                        assert(decreases_to!(items@ => items@[i as int]));
                    }
                    out.push(items[i].duplicate());
                    i = i + 1;
                }
                proof {
                    lemma_view_items_len(out@);
                    lemma_view_items_len(items@);
                    assert(view_items(out@) =~= view_items(items@));
                }
                Json::Array(out)
            },
            Json::Object(members) => {
                let mut out: Vec<(String, Json)> = Vec::new();
                let mut i: usize = 0;
                while i < members.len()
                    invariant
                        i <= members@.len(),
                        *self == Json::Object(*members),
                        out@.len() == i,
                        forall|j: int| 0 <= j < i ==> (#[trigger] out@[j]).0@ == members@[j].0@ && out@[j].1@ == members@[j].1@,
                    decreases members@.len() - i,
                {
                    proof {
                        assert(decreases_to!(*self => self->Object_0));
                        assert(decreases_to!(*members => members@));
                        assert(decreases_to!(members@ => members@[i as int]));
                        assert(decreases_to!(members@[i as int] => members@[i as int].1));
                    }
                    let v = members[i].1.duplicate();
                    out.push((members[i].0.clone(), v));
                    i = i + 1;
                }
                proof {
                    lemma_view_members_len(out@);
                    lemma_view_members_len(members@);
                    assert(view_members(out@) =~= view_members(members@));
                }
                Json::Object(out)
            },
        }
    }
}


fn same_string(a: &String, b: &String) -> (res: bool)
    ensures
        res == (a@ == b@),
{
    crate::text::chars_equal(&chars_of(a.as_str()), &chars_of(b.as_str()))
}

impl Json {
    /// Whether two values are the same JSON value.
    pub fn same(&self, other: &Json) -> (res: bool)
        ensures
            res == (self@ == other@),
        decreases self,
    {
        match (self, other) {
            (Json::Null, Json::Null) => true,
            (Json::Bool(a), Json::Bool(b)) => *a == *b,
            (Json::UInt(a), Json::UInt(b)) => *a == *b,
            (Json::NegInt(a), Json::NegInt(b)) => *a == *b,
            (Json::Str(a), Json::Str(b)) => same_string(a, b),
            (Json::Array(a), Json::Array(b)) => {
                proof {
                    lemma_view_items_len(a@);
                    lemma_view_items_len(b@);
                }
                if a.len() != b.len() {
                    return false;
                }
                let mut i: usize = 0;
                while i < a.len()
                    invariant
                        i <= a@.len(),
                        a@.len() == b@.len(),
                        *self == Json::Array(*a),
                        *other == Json::Array(*b),
                        view_items(a@).len() == a@.len(),
                        view_items(b@).len() == b@.len(),
                        forall|k: int| 0 <= k < a@.len() ==> #[trigger] view_items(a@)[k] == a@[k]@,
                        forall|k: int| 0 <= k < b@.len() ==> #[trigger] view_items(b@)[k] == b@[k]@,
                        forall|j: int| 0 <= j < i ==> a@[j]@ == b@[j]@,
                    decreases a@.len() - i,
                {
                    proof {
                        assert(decreases_to!(*self => self->Array_0));
                        assert(decreases_to!(*a => a@));
                        assert(decreases_to!(a@ => a@[i as int]));
                    }
                    if !a[i].same(&b[i]) {
                        assert(view_items(a@)[i as int] != view_items(b@)[i as int]);
                        return false;
                    }
                    i = i + 1;
                }
                assert(view_items(a@) =~= view_items(b@));
                true
            },
            (Json::Object(a), Json::Object(b)) => {
                proof {
                    lemma_view_members_len(a@);
                    lemma_view_members_len(b@);
                }
                if a.len() != b.len() {
                    return false;
                }
                let mut i: usize = 0;
                while i < a.len()
                    invariant
                        i <= a@.len(),
                        a@.len() == b@.len(),
                        *self == Json::Object(*a),
                        *other == Json::Object(*b),
                        view_members(a@).len() == a@.len(),
                        view_members(b@).len() == b@.len(),
                        forall|k: int| 0 <= k < a@.len() ==> #[trigger] view_members(a@)[k] == (a@[k].0@, a@[k].1@),
                        forall|k: int| 0 <= k < b@.len() ==> #[trigger] view_members(b@)[k] == (b@[k].0@, b@[k].1@),
                        forall|j: int| 0 <= j < i ==> a@[j].0@ == b@[j].0@ && a@[j].1@ == b@[j].1@,
                    decreases a@.len() - i,
                {
                    proof {
                        assert(decreases_to!(*self => self->Object_0));
                        assert(decreases_to!(*a => a@));
                        assert(decreases_to!(a@ => a@[i as int]));
                        assert(decreases_to!(a@[i as int] => a@[i as int].1));
                    }
                    if !same_string(&a[i].0, &b[i].0) || !a[i].1.same(&b[i].1) {
                        assert(view_members(a@)[i as int] != view_members(b@)[i as int]);
                        return false;
                    }
                    i = i + 1;
                }
                assert(view_members(a@) =~= view_members(b@));
                true
            },
            _ => false,
        }
    }
}

/// The index of the member named `key`, if any.
pub fn find_member(members: &Vec<(String, Json)>, key: &str) -> (res: Option<usize>)
    ensures
        match res {
            Some(i) => i < members@.len() && view_members(members@)[i as int].0 == key@
                && forall|j: int| 0 <= j < i ==> #[trigger] view_members(members@)[j].0 != key@,
            None => forall|i: int| 0 <= i < members@.len() ==> #[trigger] view_members(members@)[i].0 != key@,
        },
{
    proof { lemma_view_members_len(members@); }
    let mut i: usize = 0;
    while i < members.len()
        invariant
            i <= members@.len(),
            view_members(members@).len() == members@.len(),
            forall|j: int| 0 <= j < members@.len() ==> #[trigger] view_members(members@)[j] == (members@[j].0@, members@[j].1@),
            forall|j: int| 0 <= j < i ==> #[trigger] view_members(members@)[j].0 != key@,
        decreases members@.len() - i,
    {
        match compare_keys(members[i].0.as_str(), key) {
            KeyOrder::Equal => {
                return Some(i);
            },
            _ => {},
        }
        i = i + 1;
    }
    None
}


/// The first member named `key`, if any.
pub open spec fn member_of(ms: Seq<(Seq<char>, JsonView)>, key: Seq<char>) -> Option<JsonView> {
    if exists|i: int| 0 <= i < ms.len() && #[trigger] ms[i].0 == key {
        let i = choose|i: int|
            0 <= i < ms.len() && #[trigger] ms[i].0 == key && (forall|j: int| 0 <= j < i ==> #[trigger] ms[j].0 != key);
        Some(ms[i].1)
    } else {
        None
    }
}

/// The member found for `key` is the first one carrying it.
pub proof fn lemma_member_first(ms: Seq<(Seq<char>, JsonView)>, key: Seq<char>, i: int)
    requires
        0 <= i < ms.len(),
        ms[i].0 == key,
        forall|j: int| 0 <= j < i ==> (#[trigger] ms[j]).0 != key,
    ensures
        member_of(ms, key) == Some(ms[i].1),
{
    assert(ms[i].0 == key);
    let c = choose|c: int|
        0 <= c < ms.len() && #[trigger] ms[c].0 == key && (forall|j: int| 0 <= j < c ==> #[trigger] ms[j].0 != key);
    assert(0 <= c < ms.len() && ms[c].0 == key && (forall|j: int| 0 <= j < c ==> #[trigger] ms[j].0 != key)) by {
        assert(forall|j: int| 0 <= j < i ==> #[trigger] ms[j].0 != key);
    }
    if c < i {
        assert(ms[c].0 != key);
    } else if c > i {
        assert(ms[i].0 != key);
    }
}

/// The value of field `key` of an object, if it is an object with one.
pub open spec fn field_of(v: JsonView, key: Seq<char>) -> Option<JsonView> {
    match v {
        JsonView::Object(ms) => member_of(ms, key),
        _ => None,
    }
}

/// The text of string field `key`, empty when there is no such string.
pub open spec fn text_field(v: JsonView, key: Seq<char>) -> Seq<char> {
    match field_of(v, key) {
        Some(JsonView::Str(s)) => s,
        _ => Seq::empty(),
    }
}

proof fn lemma_member_of_first(ms: Seq<(Seq<char>, JsonView)>, key: Seq<char>, i: int)
    requires
        0 <= i < ms.len(),
        ms[i].0 == key,
        forall|j: int| 0 <= j < i ==> #[trigger] ms[j].0 != key,
    ensures
        member_of(ms, key) == Some(ms[i].1),
{
    assert(exists|i: int| 0 <= i < ms.len() && #[trigger] ms[i].0 == key);
    assert(0 <= i < ms.len() && ms[i].0 == key && (forall|j: int| 0 <= j < i ==> #[trigger] ms[j].0 != key));
    let k = choose|k: int|
        0 <= k < ms.len() && #[trigger] ms[k].0 == key && (forall|j: int| 0 <= j < k ==> #[trigger] ms[j].0 != key);
    if k < i {
        assert(ms[k].0 != key);
    } else if k > i {
        assert(ms[i].0 != key);
    }
}

impl Json {
    /// The value of field `key`, when this is an object with such a field
    /// (the first such member).
    pub fn get(&self, key: &str) -> (res: Option<&Json>)
        ensures
            match res {
                Some(r) => field_of(self@, key@) == Some(r@),
                None => field_of(self@, key@) is None,
            },
    {
        match self {
            Json::Object(members) => {
                proof { lemma_view_members_len(members@); }
                match find_member(members, key) {
                    Some(i) => {
                        proof {
                            let ms = view_members(members@);
                            lemma_member_of_first(ms, key@, i as int);
                        }
                        Some(&members[i].1)
                    },
                    None => None,
                }
            },
            _ => None,
        }
    }

    /// The text of this value when it is a string.
    pub fn as_text(&self) -> (res: Option<&String>)
        ensures
            match res {
                Some(s) => self@ == JsonView::Str(s@),
                None => !(self@ is Str),
            },
    {
        match self {
            Json::Str(s) => Some(s),
            _ => None,
        }
    }
}


/// Removes the member named `key`, if any, from members kept in key order.
pub fn remove_member(members: &mut Vec<(String, Json)>, key: &str)
    requires
        keys_sorted(view_members(old(members)@)),
    ensures
        keys_sorted(view_members(final(members)@)),
        forall|k: Seq<char>| #[trigger] lookup(view_members(final(members)@), k) == (if k == key@ {
            None
        } else {
            lookup(view_members(old(members)@), k)
        }),
{
    let ghost a = view_members(members@);
    proof { lemma_view_members_len(members@); }
    match find_member(members, key) {
        Some(i) => {
            let ghost p = i as int;
            members.remove(i);
            let ghost b = view_members(members@);
            proof {
                lemma_view_members_len(members@);
                assert(b =~= a.remove(p));
                assert forall|j1: int, j2: int| 0 <= j1 < j2 < b.len() implies key_less(#[trigger] b[j1].0, #[trigger] b[j2].0) by {
                    if j2 < p {
                        assert(key_less(a[j1].0, a[j2].0));
                    } else if j1 < p {
                        assert(key_less(a[j1].0, a[j2 + 1].0));
                    } else {
                        assert(key_less(a[j1 + 1].0, a[j2 + 1].0));
                    }
                }
                assert forall|k: Seq<char>| #[trigger] lookup(b, k) == (if k == key@ { None } else { lookup(a, k) }) by {
                    if k == key@ {
                        assert forall|j: int| 0 <= j < b.len() implies #[trigger] b[j].0 != k by {
                            let jj = if j < p { j } else { j + 1 };
                            assert(b[j] == a[jj]);
                            lemma_key_less_irreflexive(k);
                            if jj < p {
                                assert(key_less(a[jj].0, a[p].0));
                            } else {
                                assert(key_less(a[p].0, a[jj].0));
                            }
                        }
                    } else {
                        lemma_lookup_via(a, b, k, |j: int| if j < p { j } else { j - 1 }, |j: int| if j < p { j } else { j + 1 });
                    }
                }
            }
        },
        None => {
            assert forall|k: Seq<char>| #[trigger] lookup(a, k) == (if k == key@ { None } else { lookup(a, k) }) by {
                if k == key@ {
                    assert(!(exists|j: int| 0 <= j < a.len() && #[trigger] a[j].0 == k));
                }
            }
        },
    }
}

} // verus!
