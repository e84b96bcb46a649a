//! Strings, characters, symbols and keywords are read again from their texts.

use crate::ast::Value;
use crate::grammar::{
    character_at, hex_value, identifier, keyword_at, name_backspace, name_newline, name_return,
    name_space, name_tab, named_character, string_at, string_body, symbol_at,
};
use crate::occurs::{
    all_constituent, lemma_first_slash_end, lemma_occurs_concat, lemma_occurs_one,
    lemma_occurs_subrange, lemma_slash_after, lemma_token_run, occurs, token_stops,
};
use crate::printer::{
    character_name, character_text, escape_of, escaped, identifier_text, string_text,
};
use crate::readable::{is_name, is_symbol_name};
use crate::text::is_constituent;
use vstd::prelude::*;

verus! {

/// The first character of a string is written in front of the rest.
pub proof fn lemma_escaped_front(c: char, rest: Seq<char>)
    ensures
        escaped(seq![c] + rest) == escape_of(c) + escaped(rest),
    decreases rest.len(),
{
    let t = seq![c] + rest;
    if rest.len() == 0 {
        assert(t =~= seq![c]);
        assert(t.drop_last() =~= Seq::<char>::empty());
        assert(escaped(t.drop_last()) =~= Seq::<char>::empty());
        assert(escaped(t) =~= escape_of(c));
        assert(escape_of(c) + escaped(rest) =~= escape_of(c));
    } else {
        assert(t.drop_last() =~= seq![c] + rest.drop_last());
        assert(t.last() == rest.last());
        lemma_escaped_front(c, rest.drop_last());
        assert(escaped(t) =~= escape_of(c) + escaped(rest));
    }
}

/// What is written between the quotes is read as the content it was written for.
pub proof fn lemma_string_body(s: Seq<char>, pos: int, t: Seq<char>)
    requires
        occurs(s, pos, escaped(t) + seq!['"']),
    ensures
        string_body(s, pos) == Some((t, pos + escaped(t).len() + 1)),
    decreases t.len(),
{
    let quote = seq!['"'];
    if t.len() == 0 {
        assert(escaped(t) + quote =~= quote);
        lemma_occurs_one(s, pos, '"');
        assert(t =~= Seq::<char>::empty());
    } else {
        let c = t[0];
        let rest = t.drop_first();
        assert(t =~= seq![c] + rest);
        lemma_escaped_front(c, rest);
        let e = escape_of(c);
        assert(escaped(t) + quote =~= e + (escaped(rest) + quote));
        lemma_occurs_concat(s, pos, e, escaped(rest) + quote);
        lemma_string_body(s, pos + e.len(), rest);
        assert(s[pos + 0] == e[0]);
        if e.len() == 2 {
            assert(s[pos + 1] == e[1]);
        }
        assert(seq![c] + rest =~= t);
    }
}

/// A string is read again from its text.
pub proof fn lemma_reread_string(s: Seq<char>, pos: int, t: Seq<char>)
    requires
        occurs(s, pos, string_text(t)),
    ensures
        string_at(s, pos) == Ok::<(Value, int), (crate::error::ErrorKind, int)>(
            (Value::String(t), pos + string_text(t).len()),
        ),
{
    let quote = seq!['"'];
    assert(string_text(t) =~= quote + (escaped(t) + quote));
    lemma_occurs_concat(s, pos, quote, escaped(t) + quote);
    lemma_string_body(s, pos + 1, t);
}

/// The text of a name is made of characters that may stand in a token.
pub proof fn lemma_identifier_constituent(namespace: Option<Seq<char>>, name: Seq<char>)
    requires
        is_name(namespace, name),
    ensures
        all_constituent(identifier_text(namespace, name)),
        identifier_text(namespace, name).len() >= 1,
{
    let t = identifier_text(namespace, name);
    match namespace {
        Some(n) => {
            assert forall|i: int| 0 <= i < t.len() implies is_constituent(#[trigger] t[i]) by {
                if i < n.len() {
                    assert(t[i] == n[i]);
                } else if i == n.len() {
                    assert(t[i] == '/');
                } else {
                    assert(t[i] == name[i - n.len() - 1]);
                }
            }
        },
        None => {
            if name == seq!['/'] {
                assert(name[0] == '/');
            }
        },
    }
}

/// The text of a namespace and a name denotes them.
pub proof fn lemma_identifier(namespace: Option<Seq<char>>, name: Seq<char>)
    requires
        is_name(namespace, name),
    ensures
        identifier(identifier_text(namespace, name)) == Some((namespace, name)),
{
    let t = identifier_text(namespace, name);
    match namespace {
        Some(n) => {
            lemma_first_slash_end(n, 0);
            lemma_slash_after(n, name, 0);
            assert(t.len() == n.len() + 1 + name.len());
            assert(t.subrange(0, n.len() as int) =~= n);
            assert(t.subrange(n.len() as int + 1, t.len() as int) =~= name);
            assert(t != seq!['/']) by {
                assert(t.len() >= 3);
                assert(seq!['/'].len() == 1);
            }
        },
        None => {
            if name == seq!['/'] {
            } else {
            }
        },
    }
}

/// A keyword is read again from its text.
pub proof fn lemma_reread_keyword(
    s: Seq<char>,
    pos: int,
    namespace: Option<Seq<char>>,
    name: Seq<char>,
)
    requires
        is_name(namespace, name),
        occurs(s, pos, seq![':'] + identifier_text(namespace, name)),
        token_stops(s, pos + 1 + identifier_text(namespace, name).len()),
    ensures
        keyword_at(s, pos) == Ok::<(Value, int), (crate::error::ErrorKind, int)>(
            (Value::Keyword { namespace, name }, pos + 1 + identifier_text(namespace, name).len()),
        ),
{
    let t = identifier_text(namespace, name);
    lemma_occurs_concat(s, pos, seq![':'], t);
    lemma_identifier_constituent(namespace, name);
    lemma_token_run(s, pos + 1, t);
    lemma_occurs_subrange(s, pos + 1, t);
    lemma_identifier(namespace, name);
}

/// A symbol is read again from its text.
pub proof fn lemma_reread_symbol(
    s: Seq<char>,
    pos: int,
    namespace: Option<Seq<char>>,
    name: Seq<char>,
)
    requires
        is_symbol_name(namespace, name),
        occurs(s, pos, identifier_text(namespace, name)),
        token_stops(s, pos + identifier_text(namespace, name).len()),
    ensures
        symbol_at(s, pos) == Ok::<(Value, int), (crate::error::ErrorKind, int)>(
            (Value::Symbol { namespace, name }, pos + identifier_text(namespace, name).len()),
        ),
{
    let t = identifier_text(namespace, name);
    lemma_identifier_constituent(namespace, name);
    lemma_token_run(s, pos, t);
    lemma_occurs_subrange(s, pos, t);
    lemma_identifier(namespace, name);
}

/// The name that is written for a character denotes it, and is made of
/// characters that may stand in a token where the character itself may.
pub proof fn lemma_character_name(c: char)
    ensures
        is_constituent(character_name(c)[0]) ==> all_constituent(character_name(c))
            && named_character(character_name(c)) == Some(c),
        !is_constituent(character_name(c)[0]) ==> character_name(c) == seq![c],
        character_name(c).len() >= 1,
{
    let t = character_name(c);
    if c == '\n' {
        assert(t =~= name_newline());
    } else if c == '\r' {
        assert(t =~= name_return());
        assert(t != name_newline()) by {
            assert(t.len() != name_newline().len());
        }
    } else if c == '\t' {
        assert(t =~= name_tab());
        assert(t.len() == 3);
        assert(name_newline().len() == 7);
        assert(name_return().len() == 6);
        assert(name_space().len() == 5);
    } else if c == '\u{8}' {
        assert(t =~= name_backspace());
        assert(t.len() == 9);
        assert(name_newline().len() == 7);
        assert(name_return().len() == 6);
        assert(name_space().len() == 5);
        assert(name_tab().len() == 3);
    } else if c == ' ' {
        assert(t =~= name_space());
        assert(t.len() == 5);
        assert(name_newline().len() == 7);
        assert(name_return().len() == 6);
    } else if c == 'n' || c == 'r' || c == 't' || c == 'b' {
        assert(t.len() == 5);
        assert(name_newline().len() == 7);
        assert(name_return().len() == 6);
        assert(name_tab().len() == 3);
        assert(name_backspace().len() == 9);
        assert(t[0] == 'u');
        assert(name_space()[0] == 's');
        let h = t.subrange(1, 5);
        assert(h[0] == t[1] && h[1] == t[2] && h[2] == t[3] && h[3] == t[4]);
        assert(hex_value(h) == c as int);
    } else {
        assert(t.len() == 1);
        assert(t[0] == c);
    }
}

/// A character is read again from its text.
pub proof fn lemma_reread_character(s: Seq<char>, pos: int, c: char)
    requires
        occurs(s, pos, character_text(c)),
        token_stops(s, pos + character_text(c).len()),
    ensures
        character_at(s, pos) == Ok::<(Value, int), (crate::error::ErrorKind, int)>(
            (Value::Character(c), pos + character_text(c).len()),
        ),
{
    let t = character_name(c);
    lemma_character_name(c);
    lemma_occurs_concat(s, pos, seq!['\\'], t);
    assert(s[pos + 1 + 0] == t[0]);
    if is_constituent(t[0]) {
        lemma_token_run(s, pos + 1, t);
        lemma_occurs_subrange(s, pos + 1, t);
    }
}

} // verus!
