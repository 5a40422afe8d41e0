use vstd::prelude::*;

use crate::str_map::string_views;

verus! {

/// Text that a JSON writer puts between quotes unchanged: it holds no quote, no
/// backslash and no control character below U+0020.
pub open spec fn plain_text(s: Seq<char>) -> bool {
    forall|i: int|
        0 <= i < s.len() ==> #[trigger] s[i] != '"' && s[i] != '\\' && (s[i] as u32) >= 0x20
}

/// `s` between double quotes.
pub open spec fn quoted(s: Seq<char>) -> Seq<char> {
    seq!['"'] + s + seq!['"']
}

/// The lowercase hexadecimal digits, by value.
pub open spec fn hex_digits() -> Seq<char> {
    seq!['0', '1', '2', '3', '4', '5', '6', '7', '8', '9', 'a', 'b', 'c', 'd', 'e', 'f']
}

/// How serde_json writes one character inside a string: a quote and a backslash behind a
/// backslash; backspace, tab, line feed, form feed and carriage return as `\b`, `\t`, `\n`,
/// `\f`, `\r`; any other character below U+0020 as `\u00` and two lowercase hex digits;
/// every other character as itself.
pub open spec fn escaped_char(c: char) -> Seq<char> {
    let n = c as u32;
    if c == '"' {
        seq!['\\', '"']
    } else if c == '\\' {
        seq!['\\', '\\']
    } else if n == 0x08 {
        seq!['\\', 'b']
    } else if n == 0x09 {
        seq!['\\', 't']
    } else if n == 0x0a {
        seq!['\\', 'n']
    } else if n == 0x0c {
        seq!['\\', 'f']
    } else if n == 0x0d {
        seq!['\\', 'r']
    } else if n < 0x20 {
        seq!['\\', 'u', '0', '0', hex_digits()[(n / 16) as int], hex_digits()[(n % 16) as int]]
    } else {
        seq![c]
    }
}

/// The characters of `s`, each written as serde_json writes it inside a string.
pub open spec fn escaped(s: Seq<char>) -> Seq<char>
    decreases s.len(),
{
    if s.len() == 0 {
        Seq::empty()
    } else {
        escaped(s.drop_last()) + escaped_char(s.last())
    }
}

/// The JSON string that serde_json writes for `s`: its escaped characters between quotes.
pub open spec fn json_text(s: Seq<char>) -> Seq<char> {
    quoted(escaped(s))
}

/// The JSON strings of the items, separated by commas.
pub open spec fn json_items(items: Seq<Seq<char>>) -> Seq<char>
    decreases items.len(),
{
    if items.len() == 0 {
        Seq::empty()
    } else if items.len() == 1 {
        json_text(items[0])
    } else {
        json_items(items.drop_last()) + seq![','] + json_text(items.last())
    }
}

/// The compact JSON array that serde_json writes for a list of strings.
pub open spec fn json_array_text(items: Seq<Seq<char>>) -> Seq<char> {
    seq!['['] + json_items(items) + seq![']']
}

/// Plain text is written unchanged between the quotes.
pub proof fn lemma_plain_text_unescaped(s: Seq<char>)
    requires
        plain_text(s),
    ensures
        escaped(s) == s,
        json_text(s) == quoted(s),
    decreases s.len(),
{
    if s.len() > 0 {
        let t = s.drop_last();
        assert(plain_text(t)) by {
            assert forall|i: int| 0 <= i < t.len() implies #[trigger] t[i] != '"' && t[i] != '\\'
                && (t[i] as u32) >= 0x20 by {
                assert(t[i] == s[i]);
            }
        }
        lemma_plain_text_unescaped(t);
        let c = s.last();
        assert(s[s.len() - 1] == c);
        assert(escaped_char(c) == seq![c]);
        assert(s =~= t + seq![c]);
    }
}

/// What `serde_json::from_str` reads from `text` as a list of strings, if it reads one.
pub uninterp spec fn json_string_array_parse(text: Seq<char>) -> Option<Seq<Seq<char>>>;

/// The views of an optional list of strings.
pub open spec fn list_views(items: Option<Vec<String>>) -> Option<Seq<Seq<char>>> {
    match items {
        Some(v) => Some(string_views(v@)),
        None => None,
    }
}

/// Calls `serde_json::to_string` on a list of strings. Writing strings cannot fail; the
/// compact writer brackets the items and separates them by commas, each item quoted with
/// its characters escaped as `escaped_char` says.
#[verifier::external_body]
pub(crate) fn encode_string_array(items: &Vec<String>) -> (json: String)
    ensures
        json@ == json_array_text(string_views(items@)),
{
    serde_json::to_string(items).unwrap()
}

/// Calls `serde_json::to_string` on a string. Writing a string cannot fail; the text is
/// the string quoted, its characters escaped as `escaped_char` says.
#[verifier::external_body]
pub(crate) fn encode_string(text: &str) -> (json: String)
    ensures
        json@ == json_text(text@),
{
    serde_json::to_string(text).unwrap()
}

/// Calls `serde_json::from_str` to read a list of strings, `None` where serde_json reports
/// an error. What it reads is named `json_string_array_parse`; an array as
/// `encode_string_array` writes it reads back as its strings, since the reader undoes
/// each escape that the writer makes.
#[verifier::external_body]
pub(crate) fn parse_string_array(text: &str) -> (items: Option<Vec<String>>)
    ensures
        json_string_array_parse(text@) == list_views(items),
        forall|xs: Seq<Seq<char>>|
            text@ == #[trigger] json_array_text(xs) ==> list_views(items) == Some(xs),
{
    serde_json::from_str::<Vec<String>>(text).ok()
}

} // verus!
