use crate::text::chars_of;
use ::config::{FileFormat, Format, Value, ValueKind};
use vstd::prelude::*;
use vstd::string::*;

verus! {

/// What a structured text holds under a key.
pub enum Found {
    /// The text has no value under the key.
    Missing,
    /// The text is not well formed.
    Invalid,
    /// A single text.
    Text(Seq<char>),
    /// An array, with its values in order: each a text, or nothing where it
    /// is of another kind.
    List(Seq<Option<Seq<char>>>),
    /// A table, with the value of each of its keys: a text, or nothing
    /// where it is of another kind.
    Table(Map<Seq<char>, Option<Seq<char>>>),
    /// A value of another kind.
    Other,
}

/// What is wrong with a structured text.
pub enum Fault {
    /// The text as a whole cannot be read.
    Unreadable,
    /// What the text holds under this key is of the wrong kind.
    Malformed(Seq<char>),
}

/// The view of a value read from an array or a table.
pub open spec fn entry_of(item: Option<String>) -> Option<Seq<char>> {
    match item {
        Some(text) => Some(text@),
        None => None,
    }
}

/// The views of a sequence of such values.
pub open spec fn entries_of(items: Seq<Option<String>>) -> Seq<Option<Seq<char>>> {
    Seq::new(items.len(), |i: int| entry_of(items[i]))
}

/// The keys of a table that comes as pairs of a key and its value.
pub open spec fn keys_of(pairs: Seq<(String, Option<String>)>) -> Seq<Seq<char>> {
    Seq::new(pairs.len(), |i: int| pairs[i].0@)
}

/// The table that comes as `pairs` of a key and its value. Should a key
/// come twice, its first pair counts.
pub open spec fn table_of(pairs: Seq<(String, Option<String>)>) -> Map<
    Seq<char>,
    Option<Seq<char>>,
> {
    Map::new(
        |key: Seq<char>| keys_of(pairs).contains(key),
        |key: Seq<char>| entry_of(pairs[keys_of(pairs).index_of_first(key)->Some_0].1),
    )
}

/// What was read from a structured text under a key. The values of an array
/// or a table are texts, or nothing where they are of another kind. A table
/// comes as pairs of a key and its value, in no particular order.
#[derive(Debug)]
pub enum Lookup {
    Missing,
    Invalid,
    Text(String),
    List(Vec<Option<String>>),
    Table(Vec<(String, Option<String>)>),
    Other,
}

impl View for Lookup {
    type V = Found;

    open spec fn view(&self) -> Found {
        match self {
            Lookup::Missing => Found::Missing,
            Lookup::Invalid => Found::Invalid,
            Lookup::Text(text) => Found::Text(text@),
            Lookup::List(items) => Found::List(entries_of(items@)),
            Lookup::Table(pairs) => Found::Table(table_of(pairs@)),
            Lookup::Other => Found::Other,
        }
    }
}

/// The value that a table given as `pairs` has under `key`, if it has one.
pub fn entry_at<'a>(pairs: &'a Vec<(String, Option<String>)>, key: &str) -> (entry: Option<
    &'a Option<String>,
>)
    ensures
        entry is Some <==> table_of(pairs@).contains_key(key@),
        entry matches Some(value) ==> entry_of(*value) == table_of(pairs@)[key@],
{
    let wanted = String::from_str(key);
    let ghost keys = keys_of(pairs@);
    let mut i: usize = 0;
    while i < pairs.len()
        invariant
            i <= pairs.len(),
            wanted@ == key@,
            keys == keys_of(pairs@),
            forall|k: int| 0 <= k < i ==> #[trigger] keys[k] != key@,
        decreases pairs.len() - i,
    {
        if pairs[i].0 == wanted {
            proof {
                assert(keys[i as int] == key@);
                keys.index_of_first_ensures(key@);
                let first = keys.index_of_first(key@)->Some_0;
                if first < i {
                    assert(keys[first] != key@);
                }
            }
            return Some(&pairs[i].1);
        }
        i = i + 1;
    }
    None
}

/// The deepest nesting of values that is read from a text.
pub const MAX_NESTING: usize = 128;

/// How many of the characters of `text` open an array or a table.
pub open spec fn openers(text: Seq<char>) -> nat
    decreases text.len(),
{
    if text.len() == 0 {
        0
    } else {
        openers(text.drop_last()) + if text.last() == '[' || text.last() == '{' {
            1nat
        } else {
            0nat
        }
    }
}

/// How many dots the last line of `text` holds.
pub open spec fn dots_in_last_line(text: Seq<char>) -> nat
    decreases text.len(),
{
    if text.len() == 0 || text.last() == '\n' {
        0
    } else {
        dots_in_last_line(text.drop_last()) + if text.last() == '.' {
            1nat
        } else {
            0nat
        }
    }
}

/// The greatest number of dots that one line of `text` holds.
pub open spec fn most_dots(text: Seq<char>) -> nat
    decreases text.len(),
{
    if text.len() == 0 {
        0
    } else if most_dots(text.drop_last()) >= dots_in_last_line(text) {
        most_dots(text.drop_last())
    } else {
        dots_in_last_line(text)
    }
}

/// A bound on how deeply the values of the TOML document `text` are nested.
/// A value lies one level deeper for each array or inline table around it,
/// which each take an opening character, and for each part of the dotted
/// key and of the dotted table header that lead to it, which each stand on
/// one line.
pub open spec fn nesting_bound(text: Seq<char>) -> nat {
    openers(text) + 2 * most_dots(text) + 2
}

/// Whether the values of `text` are nested no deeper than `MAX_NESTING`.
pub fn nests_within_limit(text: &str) -> (within: bool)
    ensures
        within == (nesting_bound(text@) <= MAX_NESTING),
{
    let chars = chars_of(text);
    let mut opened: usize = 0;
    let mut dots: usize = 0;
    let mut most: usize = 0;
    let mut i: usize = 0;
    proof {
        assert(text@.take(0) =~= Seq::<char>::empty());
    }
    while i < chars.len()
        invariant
            chars@ == text@,
            i <= chars.len(),
            opened == openers(text@.take(i as int)),
            dots == dots_in_last_line(text@.take(i as int)),
            most == most_dots(text@.take(i as int)),
            opened <= i,
            dots <= i,
            most <= i,
        decreases chars.len() - i,
    {
        proof {
            let next = text@.take(i + 1);
            assert(next.drop_last() =~= text@.take(i as int));
            assert(next.last() == chars@[i as int]);
        }
        let c = chars[i];
        if c == '[' || c == '{' {
            opened = opened + 1;
        }
        if c == '\n' {
            dots = 0;
        } else if c == '.' {
            dots = dots + 1;
        }
        if dots > most {
            most = dots;
        }
        i = i + 1;
    }
    proof {
        assert(text@.take(chars.len() as int) =~= text@);
    }
    opened <= MAX_NESTING && most <= MAX_NESTING && opened + 2 * most + 2 <= MAX_NESTING
}

/// What the TOML document `text` holds under `key` in its top table.
pub uninterp spec fn toml_value_at(text: Seq<char>, key: Seq<char>) -> Found;

/// Parses `text` as a TOML document with `config::Format::parse` on
/// `config::FileFormat::Toml`, which gives the top table of the document,
/// and takes from that table what stands under `key`. The contract gives the
/// outcome a name, `toml_value_at`, and claims that it depends on `text` and
/// `key` alone; nothing is claimed of what the outcome is for a given text. A
/// text that does not parse is `Invalid`. The parser descends once for each
/// level of nesting, so texts nested deeper than `MAX_NESTING` are left out.
#[verifier::external_body]
pub(crate) fn lookup(text: &str, key: &str) -> (found: Lookup)
    requires
        nesting_bound(text@) <= MAX_NESTING,
    ensures
        found@ == toml_value_at(text@, key@),
{
    let item = |v: Value| match v.kind { ValueKind::String(s) => Some(s), _ => None };
    match FileFormat::Toml.parse(None, text).map(|mut table| table.remove(key)) {
        Err(_) => Lookup::Invalid,
        Ok(None) => Lookup::Missing,
        Ok(Some(value)) => match value.kind {
            ValueKind::String(s) => Lookup::Text(s),
            ValueKind::Array(values) => Lookup::List(values.into_iter().map(item).collect()),
            ValueKind::Table(table) => Lookup::Table(
                table.into_iter().map(|(k, v)| (k, item(v))).collect(),
            ),
            _ => Lookup::Other,
        },
    }
}

} // verus!
