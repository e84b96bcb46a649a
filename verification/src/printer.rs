//! The printer: from a value to the canonical text that denotes it.

use crate::ast::{
    any_comment, any_entry_comment, entry_views, lemma_entry_views, lemma_no_comment,
    lemma_no_entry_comment, lemma_views, views, Expr, Value,
};
use crate::number::{float_text, integer_text};
use crate::text::chars_of;
use vstd::prelude::*;

verus! {

/// How a character of a string is written: the quote, the backslash, the line
/// end, the tab and the return behind a backslash, any other as it is.
pub open spec fn escape_of(c: char) -> Seq<char> {
    if c == '"' {
        seq!['\\', '"']
    } else if c == '\\' {
        seq!['\\', '\\']
    } else if c == '\n' {
        seq!['\\', 'n']
    } else if c == '\t' {
        seq!['\\', 't']
    } else if c == '\r' {
        seq!['\\', 'r']
    } else {
        seq![c]
    }
}

/// The content of a string as it is written between the quotes.
pub open spec fn escaped(t: Seq<char>) -> Seq<char>
    decreases t.len(),
{
    if t.len() == 0 {
        Seq::empty()
    } else {
        escaped(t.drop_last()) + escape_of(t.last())
    }
}

/// How a string is written.
pub open spec fn string_text(t: Seq<char>) -> Seq<char> {
    seq!['"'] + escaped(t) + seq!['"']
}

/// How a namespace and a name are written: a slash parts them.
pub open spec fn identifier_text(namespace: Option<Seq<char>>, name: Seq<char>) -> Seq<char> {
    match namespace {
        Some(n) => n + seq!['/'] + name,
        None => name,
    }
}

/// What is written behind the backslash for a character: the name of the line
/// end, the return, the tab, the backspace and the space; the code of `n`, `r`,
/// `t` and `b`, which alone would mean another character; any other character
/// itself.
pub open spec fn character_name(c: char) -> Seq<char> {
    if c == '\n' {
        seq!['n', 'e', 'w', 'l', 'i', 'n', 'e']
    } else if c == '\r' {
        seq!['r', 'e', 't', 'u', 'r', 'n']
    } else if c == '\t' {
        seq!['t', 'a', 'b']
    } else if c == '\u{8}' {
        seq!['b', 'a', 'c', 'k', 's', 'p', 'a', 'c', 'e']
    } else if c == ' ' {
        seq!['s', 'p', 'a', 'c', 'e']
    } else if c == 'n' {
        seq!['u', '0', '0', '6', 'E']
    } else if c == 'r' {
        seq!['u', '0', '0', '7', '2']
    } else if c == 't' {
        seq!['u', '0', '0', '7', '4']
    } else if c == 'b' {
        seq!['u', '0', '0', '6', '2']
    } else {
        seq![c]
    }
}

/// How a character is written.
pub open spec fn character_text(c: char) -> Seq<char> {
    seq!['\\'] + character_name(c)
}

/// The canonical text of a value. A comment has none: what it said is not
/// kept. Here it stands for the empty text, and the printer refuses a value
/// that holds one.
pub open spec fn text_of(v: Value) -> Seq<char>
    decreases v, 0int,
{
    match v {
        Value::String(t) => string_text(t),
        Value::Symbol { namespace, name } => identifier_text(namespace, name),
        Value::Keyword { namespace, name } => seq![':'] + identifier_text(namespace, name),
        Value::Character(c) => character_text(c),
        Value::Integer(i) => integer_text(i),
        Value::Float(f) => float_text(f),
        Value::Nil => seq!['n', 'i', 'l'],
        Value::Comment => Seq::empty(),
        Value::List(items) => seq!['('] + joined(items, 0) + seq![')'],
        Value::Vector(items) => seq!['['] + joined(items, 0) + seq![']'],
        Value::SortedSet(items) => seq!['#', '{'] + joined(items, 0) + seq!['}'],
        Value::SortedMap(entries) => seq!['{'] + joined_entries(entries, 0) + seq!['}'],
    }
}

/// The texts of the values from index `i` on, with one space between two.
pub open spec fn joined(items: Seq<Value>, i: int) -> Seq<char>
    decreases items, items.len() - i,
{
    if i < 0 || i >= items.len() {
        Seq::empty()
    } else if i == items.len() - 1 {
        text_of(items[i])
    } else {
        text_of(items[i]) + seq![' '] + joined(items, i + 1)
    }
}

/// The texts of the entries from index `i` on: a space between a key and its
/// value, a comma and a space between two entries.
pub open spec fn joined_entries(entries: Seq<(Value, Value)>, i: int) -> Seq<char>
    decreases entries, entries.len() - i,
{
    if i < 0 || i >= entries.len() {
        Seq::empty()
    } else if i == entries.len() - 1 {
        text_of(entries[i].0) + seq![' '] + text_of(entries[i].1)
    } else {
        text_of(entries[i].0) + seq![' '] + text_of(entries[i].1) + seq![',', ' ']
            + joined_entries(entries, i + 1)
    }
}

/// Appends a string as it is written, with its quotes.
fn append_string(content: &str, out: &mut String)
    ensures
        final(out)@ == old(out)@ + string_text(content@),
{
    let chars = chars_of(content);
    out.push('"');
    let ghost start = out@;
    let mut i: usize = 0;
    assert(chars@.take(0) =~= Seq::<char>::empty());
    assert(start + escaped(chars@.take(0)) =~= start);
    while i < chars.len()
        invariant
            i <= chars.len(),
            out@ == start + escaped(chars@.take(i as int)),
        decreases chars.len() - i,
    {
        let c = chars[i];
        let ghost before = out@;
        if c == '"' {
            out.push('\\');
            out.push('"');
        } else if c == '\\' {
            out.push('\\');
            out.push('\\');
        } else if c == '\n' {
            out.push('\\');
            out.push('n');
        } else if c == '\t' {
            out.push('\\');
            out.push('t');
        } else if c == '\r' {
            out.push('\\');
            out.push('r');
        } else {
            out.push(c);
        }
        assert(out@ =~= before + escape_of(c));
        proof {
            assert(chars@.take(i + 1).drop_last() =~= chars@.take(i as int));
            assert(chars@.take(i + 1).last() == c);
            assert(start + (escaped(chars@.take(i as int)) + escape_of(c)) =~= before + escape_of(
                c,
            ));
        }
        i += 1;
    }
    assert(chars@.take(chars.len() as int) =~= chars@);
    out.push('"');
    assert(out@ =~= old(out)@ + string_text(content@));
}

/// Appends a namespace and a name as they are written.
fn append_identifier(namespace: &Option<String>, name: &String, out: &mut String)
    ensures
        final(out)@ == old(out)@ + identifier_text(crate::ast::optional_text(*namespace), name@),
{
    match namespace {
        Some(n) => {
            out.append(n.as_str());
            out.push('/');
            out.append(name.as_str());
            assert(out@ =~= old(out)@ + (n@ + seq!['/'] + name@));
        },
        None => {
            out.append(name.as_str());
        },
    }
}

/// Appends a character as it is written.
fn append_character(c: char, out: &mut String)
    ensures
        final(out)@ == old(out)@ + character_text(c),
{
    out.push('\\');
    proof {
        reveal_strlit("newline");
        reveal_strlit("return");
        reveal_strlit("tab");
        reveal_strlit("backspace");
        reveal_strlit("space");
        reveal_strlit("u006E");
        reveal_strlit("u0072");
        reveal_strlit("u0074");
        reveal_strlit("u0062");
    }
    if c == '\n' {
        out.append("newline");
        assert("newline"@ =~= character_name(c));
    } else if c == '\r' {
        out.append("return");
        assert("return"@ =~= character_name(c));
    } else if c == '\t' {
        out.append("tab");
        assert("tab"@ =~= character_name(c));
    } else if c == '\u{8}' {
        out.append("backspace");
        assert("backspace"@ =~= character_name(c));
    } else if c == ' ' {
        out.append("space");
        assert("space"@ =~= character_name(c));
    } else if c == 'n' {
        out.append("u006E");
        assert("u006E"@ =~= character_name(c));
    } else if c == 'r' {
        out.append("u0072");
        assert("u0072"@ =~= character_name(c));
    } else if c == 't' {
        out.append("u0074");
        assert("u0074"@ =~= character_name(c));
    } else if c == 'b' {
        out.append("u0062");
        assert("u0062"@ =~= character_name(c));
    } else {
        out.push(c);
    }
    assert(out@ =~= old(out)@ + character_text(c));
}

/// Whether a comment stands anywhere among the values.
fn any_has_comment(items: &Vec<Expr>) -> (r: bool)
    ensures
        r == any_comment(views(items@), 0),
    decreases items,
{
    let ghost all = views(items@);
    proof {
        lemma_views(items@);
    }
    let mut i: usize = 0;
    while i < items.len()
        invariant
            i <= items.len(),
            all == views(items@),
            all.len() == items@.len(),
            forall|j: int| 0 <= j < items@.len() ==> (#[trigger] all[j]) == items@[j]@,
            any_comment(all, 0) == any_comment(all, i as int),
        decreases items.len() - i,
    {
        proof {
            vstd::std_specs::vec::axiom_vec_index_decreases(*items, i as int);
        }
        if items[i].has_comment() {
            return true;
        }
        i += 1;
    }
    false
}

/// Whether a comment stands in any key or value of the entries.
fn any_entry_has_comment(entries: &Vec<(Expr, Expr)>) -> (r: bool)
    ensures
        r == any_entry_comment(entry_views(entries@), 0),
    decreases entries,
{
    let ghost all = entry_views(entries@);
    proof {
        lemma_entry_views(entries@);
    }
    let mut i: usize = 0;
    while i < entries.len()
        invariant
            i <= entries.len(),
            all == entry_views(entries@),
            all.len() == entries@.len(),
            forall|j: int|
                0 <= j < entries@.len() ==> (#[trigger] all[j]) == (
                    entries@[j].0@,
                    entries@[j].1@,
                ),
            any_entry_comment(all, 0) == any_entry_comment(all, i as int),
        decreases entries.len() - i,
    {
        proof {
            vstd::std_specs::vec::axiom_vec_index_decreases(*entries, i as int);
        }
        if entries[i].0.has_comment() || entries[i].1.has_comment() {
            return true;
        }
        i += 1;
    }
    false
}

/// Appends the values as they are written, with one space between two.
fn append_joined(items: &Vec<Expr>, out: &mut String)
    requires
        !any_comment(views(items@), 0),
    ensures
        final(out)@ == old(out)@ + joined(views(items@), 0),
    decreases items,
{
    let ghost all = views(items@);
    proof {
        lemma_views(items@);
        lemma_no_comment(all, 0);
    }
    let mut i: usize = 0;
    while i < items.len()
        invariant
            i <= items.len(),
            all == views(items@),
            all.len() == items@.len(),
            forall|j: int| 0 <= j < items@.len() ==> (#[trigger] all[j]) == items@[j]@,
            forall|j: int| 0 <= j < all.len() ==> !(#[trigger] all[j]).has_comment(),
            old(out)@ + joined(all, 0) == out@ + joined(all, i as int),
        decreases items.len() - i,
    {
        proof {
            vstd::std_specs::vec::axiom_vec_index_decreases(*items, i as int);
        }
        let ghost before = out@;
        items[i].append_text(out);
        if i + 1 < items.len() {
            out.push(' ');
            assert(before + (text_of(all[i as int]) + seq![' '] + joined(all, i + 1)) =~= out@
                + joined(all, i + 1));
        } else {
            assert(joined(all, i + 1) =~= Seq::<char>::empty());
            assert(before + text_of(all[i as int]) =~= out@ + joined(all, i + 1));
        }
        i += 1;
    }
    assert(out@ + joined(all, i as int) =~= out@);
}

/// Appends the entries as they are written.
fn append_entries(entries: &Vec<(Expr, Expr)>, out: &mut String)
    requires
        !any_entry_comment(entry_views(entries@), 0),
    ensures
        final(out)@ == old(out)@ + joined_entries(entry_views(entries@), 0),
    decreases entries,
{
    let ghost all = entry_views(entries@);
    proof {
        lemma_entry_views(entries@);
        lemma_no_entry_comment(all, 0);
    }
    let mut i: usize = 0;
    while i < entries.len()
        invariant
            i <= entries.len(),
            all == entry_views(entries@),
            all.len() == entries@.len(),
            forall|j: int|
                0 <= j < entries@.len() ==> (#[trigger] all[j]) == (
                    entries@[j].0@,
                    entries@[j].1@,
                ),
            forall|j: int|
                0 <= j < all.len() ==> !(#[trigger] all[j]).0.has_comment()
                    && !all[j].1.has_comment(),
            old(out)@ + joined_entries(all, 0) == out@ + joined_entries(all, i as int),
        decreases entries.len() - i,
    {
        proof {
            vstd::std_specs::vec::axiom_vec_index_decreases(*entries, i as int);
        }
        let ghost before = out@;
        entries[i].0.append_text(out);
        out.push(' ');
        entries[i].1.append_text(out);
        let ghost entry = text_of(all[i as int].0) + seq![' '] + text_of(all[i as int].1);
        assert(out@ =~= before + entry);
        if i + 1 < entries.len() {
            out.push(',');
            out.push(' ');
            assert(before + (entry + seq![',', ' '] + joined_entries(all, i + 1)) =~= out@
                + joined_entries(all, i + 1));
        } else {
            assert(joined_entries(all, i + 1) =~= Seq::<char>::empty());
            assert(before + entry =~= out@ + joined_entries(all, i + 1));
        }
        i += 1;
    }
    assert(out@ + joined_entries(all, i as int) =~= out@);
}

impl Expr {
    /// Whether a comment stands anywhere in the value.
    pub fn has_comment(&self) -> (r: bool)
        ensures
            r == self@.has_comment(),
        decreases self,
    {
        match self {
            Expr::Comment => true,
            Expr::List(items) => any_has_comment(items),
            Expr::Vector(items) => any_has_comment(items),
            Expr::SortedSet(items) => any_has_comment(items),
            Expr::SortedMap(entries) => any_entry_has_comment(entries),
            _ => false,
        }
    }

    /// Appends the canonical text of the value.
    pub fn append_text(&self, out: &mut String)
        requires
            !self@.has_comment(),
        ensures
            final(out)@ == old(out)@ + text_of(self@),
        decreases self,
    {
        match self {
            Expr::String(t) => append_string(t.as_str(), out),
            Expr::Symbol { namespace, name } => append_identifier(namespace, name, out),
            Expr::Keyword { namespace, name } => {
                out.push(':');
                append_identifier(namespace, name, out);
                assert(out@ =~= old(out)@ + text_of(self@));
            },
            Expr::Character(c) => append_character(*c, out),
            Expr::Integer(i) => i.append_text(out),
            Expr::Float(f) => f.append_text(out),
            Expr::Nil => {
                out.push('n');
                out.push('i');
                out.push('l');
                assert(out@ =~= old(out)@ + text_of(self@));
            },
            Expr::Comment => {},
            Expr::List(items) => {
                out.push('(');
                append_joined(items, out);
                out.push(')');
                assert(out@ =~= old(out)@ + text_of(self@));
            },
            Expr::Vector(items) => {
                out.push('[');
                append_joined(items, out);
                out.push(']');
                assert(out@ =~= old(out)@ + text_of(self@));
            },
            Expr::SortedSet(items) => {
                out.push('#');
                out.push('{');
                append_joined(items, out);
                out.push('}');
                assert(out@ =~= old(out)@ + text_of(self@));
            },
            Expr::SortedMap(entries) => {
                out.push('{');
                append_entries(entries, out);
                out.push('}');
                assert(out@ =~= old(out)@ + text_of(self@));
            },
        }
    }

    /// The canonical text of a value that holds no comment.
    pub fn to_string(&self) -> (text: String)
        requires
            !self@.has_comment(),
        ensures
            text@ == text_of(self@),
    {
        let mut out = String::new();
        self.append_text(&mut out);
        assert(out@ =~= text_of(self@));
        out
    }

    /// The canonical text of a value, or `None` where the value holds a comment.
    pub fn try_to_string(&self) -> (text: Option<String>)
        ensures
            text is Some <==> !self@.has_comment(),
            text matches Some(t) ==> t@ == text_of(self@),
    {
        if self.has_comment() {
            None
        } else {
            Some(self.to_string())
        }
    }
}

} // verus!
