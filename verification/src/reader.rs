//! Reading a manifest: `toml_edit` parses the text, and this module copies
//! what it parsed into a [`TomlDocument`], node by node.
//!
//! The functions marked `external_body` are the only ones that touch
//! `toml_edit`: each hands over one node, or one field of a node. Their
//! contracts are not proved. They say, over names for what `toml_edit`
//! holds, which node or field it is; from them the reading is proved to give
//! the document that was parsed.

use vstd::prelude::*;
use crate::document::{
    entries_model, inline_entries_model, lemma_item_view, lemma_table_view, lemma_value_view,
    tables_model, values_model, Array, Decor, DecorModel, DocumentModel, Entry, EntryModel,
    InlineEntry, InlineEntryModel, InlineTable, InlineTableModel, ItemModel, KeyModel, Scalar,
    ScalarKind, TableModel, TomlDocument, TomlItem, TomlKey, TomlTable, TomlValue, ValueModel,
};
use crate::render::{or_default, render_inline_table};
use crate::text::{from_chars, slice_chars, to_chars};

verus! {

/// A document as `toml_edit` parsed it.
#[verifier::external_type_specification]
#[verifier::external_body]
pub struct ExDocument(toml_edit::Document);

/// A table of such a document.
#[verifier::external_type_specification]
#[verifier::external_body]
pub struct ExTable(toml_edit::Table);

/// What stands under a key of such a table.
#[verifier::external_type_specification]
#[verifier::external_body]
pub struct ExItem(toml_edit::Item);

/// A value of such a document.
#[verifier::external_type_specification]
#[verifier::external_body]
pub struct ExValue(toml_edit::Value);

/// A key of such a document.
#[verifier::external_type_specification]
#[verifier::external_body]
pub struct ExKey(toml_edit::Key);

/// The error of `toml_edit` for a text that is no manifest.
#[verifier::external_type_specification]
#[verifier::external_body]
pub struct ExTomlError(toml_edit::TomlError);

/// Whether a name can be written as a key without quotes: it is not
/// empty and made of ASCII letters, digits, `-` and `_` only.
pub open spec fn is_bare_key(name: Seq<char>) -> bool {
    name.len() > 0 && forall|i: int|
        0 <= i < name.len() ==> {
            let c = #[trigger] name[i];
            ('a' <= c && c <= 'z') || ('A' <= c && c <= 'Z') || ('0' <= c && c <= '9') || c == '-'
                || c == '_'
        }
}

/// The way `toml_edit` writes a key of this name when the key has no written
/// form of its own: the name itself where it can be written without quotes,
/// and a quoted string otherwise, also for the empty name.
pub uninterp spec fn key_default_repr(name: Seq<char>) -> Seq<char>;

/// `toml_edit::Key::new` and `Key::to_repr`: the written form that
/// `toml_edit` gives to a key made from a name alone. A name that needs no
/// quotes is written as it is.
#[verifier::external_body]
pub(crate) fn default_key_repr(name: &str) -> (r: String)
    ensures
        r@ == key_default_repr(name@),
        is_bare_key(name@) ==> r@ == name@,
{
    toml_edit::Key::new(name).to_repr().as_raw().to_string()
}

/// What `toml_edit` makes of a text: the document that it parses, as this
/// library holds documents; nothing for a text that is no manifest.
pub uninterp spec fn parsed(text: Seq<char>) -> Option<DocumentModel>;

/// A document of `toml_edit` as this library holds documents; nothing where
/// its root is no table.
pub uninterp spec fn document_of(document: toml_edit::Document) -> Option<DocumentModel>;

/// A table of `toml_edit` as this library holds tables: the entries that
/// `Table::iter` yields, in its order.
pub uninterp spec fn table_of(table: toml_edit::Table) -> TableModel;

/// An item of `toml_edit` as this library holds items.
pub uninterp spec fn item_of(item: toml_edit::Item) -> ItemModel;

/// A value of `toml_edit` as this library holds values. The preamble of an
/// inline table is held only where the table has no entries.
pub uninterp spec fn value_of(value: toml_edit::Value) -> ValueModel;

/// A key of `toml_edit` as this library holds keys.
pub uninterp spec fn key_of(key: toml_edit::Key) -> KeyModel;

/// Where a reader of a text stands: in code, in a comment, or in a string of
/// one of the four kinds, with the quotes that it has seen of a delimiter.
#[derive(Clone, Copy, Debug, PartialEq, Eq, Structural)]
pub enum Lexing {
    /// Between strings and comments.
    Code,
    /// After a `#`, up to the end of the line.
    Comment,
    /// After one `"` in code: a string begins, or a delimiter of three.
    Quote,
    /// After two `"` in code: an empty string, or a delimiter of three.
    TwoQuotes,
    /// In a string between single `"`.
    Basic,
    /// After a `\` in such a string.
    BasicEscape,
    /// In a string between delimiters of three `"`.
    MultiBasic,
    /// After a `\` in such a string.
    MultiBasicEscape,
    /// After one `"` in such a string.
    MultiBasicQuote,
    /// After two `"` in such a string.
    MultiBasicTwoQuotes,
    /// After three or more `"` in such a string, which close it.
    MultiBasicClosed,
    /// After one apostrophe in code.
    Apostrophe,
    /// After two apostrophes in code.
    TwoApostrophes,
    /// In a string between single apostrophes.
    Literal,
    /// In a string between delimiters of three apostrophes.
    MultiLiteral,
    /// After one apostrophe in such a string.
    MultiLiteralApostrophe,
    /// After two apostrophes in such a string.
    MultiLiteralTwoApostrophes,
    /// After three or more apostrophes in such a string, which close it.
    MultiLiteralClosed,
}

/// Where the reader stands after a character that it reads as code.
pub open spec fn after_code(c: char) -> Lexing {
    if c == '#' {
        Lexing::Comment
    } else if c == '"' {
        Lexing::Quote
    } else if c == '\'' {
        Lexing::Apostrophe
    } else {
        Lexing::Code
    }
}

/// Whether the reader reads a character as code: it stands in code, or a
/// string has just been closed and the character is no further quote.
pub open spec fn reads_as_code(mode: Lexing, c: char) -> bool {
    match mode {
        Lexing::Code => true,
        Lexing::TwoQuotes | Lexing::MultiBasicClosed => c != '"',
        Lexing::TwoApostrophes | Lexing::MultiLiteralClosed => c != '\'',
        _ => false,
    }
}

/// Where the reader stands after a character. A string on one line ends
/// with its line at the latest; a string of several lines ends where three
/// or more of its quotes stand together.
pub open spec fn after_char(mode: Lexing, c: char) -> Lexing {
    match mode {
        Lexing::Code => after_code(c),
        Lexing::Comment => if c == '\n' {
            Lexing::Code
        } else {
            Lexing::Comment
        },
        Lexing::Quote => if c == '"' {
            Lexing::TwoQuotes
        } else if c == '\\' {
            Lexing::BasicEscape
        } else if c == '\n' {
            Lexing::Code
        } else {
            Lexing::Basic
        },
        Lexing::TwoQuotes => if c == '"' {
            Lexing::MultiBasic
        } else {
            after_code(c)
        },
        Lexing::Basic => if c == '"' || c == '\n' {
            Lexing::Code
        } else if c == '\\' {
            Lexing::BasicEscape
        } else {
            Lexing::Basic
        },
        Lexing::BasicEscape => if c == '\n' {
            Lexing::Code
        } else {
            Lexing::Basic
        },
        Lexing::MultiBasic => if c == '"' {
            Lexing::MultiBasicQuote
        } else if c == '\\' {
            Lexing::MultiBasicEscape
        } else {
            Lexing::MultiBasic
        },
        Lexing::MultiBasicQuote => if c == '"' {
            Lexing::MultiBasicTwoQuotes
        } else if c == '\\' {
            Lexing::MultiBasicEscape
        } else {
            Lexing::MultiBasic
        },
        Lexing::MultiBasicTwoQuotes => if c == '"' {
            Lexing::MultiBasicClosed
        } else if c == '\\' {
            Lexing::MultiBasicEscape
        } else {
            Lexing::MultiBasic
        },
        Lexing::MultiBasicEscape => Lexing::MultiBasic,
        Lexing::MultiBasicClosed => if c == '"' {
            Lexing::MultiBasicClosed
        } else {
            after_code(c)
        },
        Lexing::Apostrophe => if c == '\'' {
            Lexing::TwoApostrophes
        } else if c == '\n' {
            Lexing::Code
        } else {
            Lexing::Literal
        },
        Lexing::TwoApostrophes => if c == '\'' {
            Lexing::MultiLiteral
        } else {
            after_code(c)
        },
        Lexing::Literal => if c == '\'' || c == '\n' {
            Lexing::Code
        } else {
            Lexing::Literal
        },
        Lexing::MultiLiteral => if c == '\'' {
            Lexing::MultiLiteralApostrophe
        } else {
            Lexing::MultiLiteral
        },
        Lexing::MultiLiteralApostrophe => if c == '\'' {
            Lexing::MultiLiteralTwoApostrophes
        } else {
            Lexing::MultiLiteral
        },
        Lexing::MultiLiteralTwoApostrophes => if c == '\'' {
            Lexing::MultiLiteralClosed
        } else {
            Lexing::MultiLiteral
        },
        Lexing::MultiLiteralClosed => if c == '\'' {
            Lexing::MultiLiteralClosed
        } else {
            after_code(c)
        },
    }
}

/// Where the reader stands at the end of a text.
pub open spec fn lexing_after(text: Seq<char>) -> Lexing
    decreases text.len(),
{
    if text.len() == 0 {
        Lexing::Code
    } else {
        after_char(lexing_after(text.drop_last()), text.last())
    }
}

/// How many brackets and braces are open at the end of a text. Those in
/// strings and comments do not count.
pub open spec fn open_brackets(text: Seq<char>) -> nat
    decreases text.len(),
{
    if text.len() == 0 {
        0
    } else {
        let before = open_brackets(text.drop_last());
        let c = text.last();
        if !reads_as_code(lexing_after(text.drop_last()), c) {
            before
        } else if c == '[' || c == '{' {
            before + 1
        } else if (c == ']' || c == '}') && before > 0 {
            (before - 1) as nat
        } else {
            before
        }
    }
}

/// The most brackets and braces that are open at any place of a text: how
/// deep its arrays and inline tables are nested.
pub open spec fn deepest_brackets(text: Seq<char>) -> nat
    decreases text.len(),
{
    if text.len() == 0 {
        0
    } else if open_brackets(text) > deepest_brackets(text.drop_last()) {
        open_brackets(text)
    } else {
        deepest_brackets(text.drop_last())
    }
}

/// How deep arrays and inline tables may be nested in a text that is handed
/// to the parser. The parser descends once for each bracket that is open,
/// and with inline tables it fills the stack of a thread of 2 MB at some
/// sixty of them; manifests nest a few levels.
pub const MAX_BRACKETS: usize = 48;

/// Whether a character that is read as code ends a key or a value: what
/// follows it belongs to another.
pub open spec fn ends_run(c: char) -> bool {
    c == '=' || c == ',' || c == '[' || c == ']' || c == '{' || c == '}'
}

/// How many dots stand in the key or value at the end of a text: those
/// read as code since the last line feed and the last character that ends
/// a key or a value. The dots of a dotted key or of a header stand in one
/// such run.
pub open spec fn open_dots(text: Seq<char>) -> nat
    decreases text.len(),
{
    if text.len() == 0 {
        0
    } else {
        let before = open_dots(text.drop_last());
        let c = text.last();
        if c == '\n' {
            0
        } else if !reads_as_code(lexing_after(text.drop_last()), c) {
            before
        } else if c == '.' {
            before + 1
        } else if ends_run(c) {
            0
        } else {
            before
        }
    }
}

/// The most dots that stand in one key or value of a text: no dotted key
/// and no header of it has more.
pub open spec fn most_dots(text: Seq<char>) -> nat
    decreases text.len(),
{
    if text.len() == 0 {
        0
    } else if open_dots(text) > most_dots(text.drop_last()) {
        open_dots(text)
    } else {
        most_dots(text.drop_last())
    }
}

/// How many dots may stand in one dotted key or header of a text that is
/// handed to the parser. Each dot is a table within a table, and what the
/// parser makes of them is given up table by table, each within the other.
pub const MAX_DOTS: usize = 64;

/// Whether a text is within the limits for the parser: no more than
/// [`MAX_BRACKETS`] brackets and braces are open at any place of it, and no
/// key has more than [`MAX_DOTS`] dots, those in strings and comments not
/// counted.
pub open spec fn within_limits(text: Seq<char>) -> bool {
    deepest_brackets(text) <= MAX_BRACKETS && most_dots(text) <= MAX_DOTS
}

/// `str::parse::<toml_edit::Document>`: parses a manifest. The parser calls
/// itself for every array and inline table within another, and the tables
/// of a dotted key are given up each within the other, so a text in which
/// they are nested deeply is kept from it.
#[verifier::external_body]
fn parse_text(text: &str) -> (r: Result<toml_edit::Document, toml_edit::TomlError>)
    requires
        within_limits(text@),
    ensures
        match r {
            Ok(document) => parsed(text@) == document_of(document),
            Err(_) => parsed(text@) is None,
        },
{
    text.parse::<toml_edit::Document>()
}

fn code_step(c: char) -> (r: Lexing)
    ensures
        r == after_code(c),
{
    if c == '#' {
        Lexing::Comment
    } else if c == '"' {
        Lexing::Quote
    } else if c == '\'' {
        Lexing::Apostrophe
    } else {
        Lexing::Code
    }
}

fn is_read_as_code(mode: Lexing, c: char) -> (r: bool)
    ensures
        r == reads_as_code(mode, c),
{
    match mode {
        Lexing::Code => true,
        Lexing::TwoQuotes | Lexing::MultiBasicClosed => c != '"',
        Lexing::TwoApostrophes | Lexing::MultiLiteralClosed => c != '\'',
        _ => false,
    }
}

fn step(mode: Lexing, c: char) -> (r: Lexing)
    ensures
        r == after_char(mode, c),
{
    match mode {
        Lexing::Code => code_step(c),
        Lexing::Comment => if c == '\n' {
            Lexing::Code
        } else {
            Lexing::Comment
        },
        Lexing::Quote => if c == '"' {
            Lexing::TwoQuotes
        } else if c == '\\' {
            Lexing::BasicEscape
        } else if c == '\n' {
            Lexing::Code
        } else {
            Lexing::Basic
        },
        Lexing::TwoQuotes => if c == '"' {
            Lexing::MultiBasic
        } else {
            code_step(c)
        },
        Lexing::Basic => if c == '"' || c == '\n' {
            Lexing::Code
        } else if c == '\\' {
            Lexing::BasicEscape
        } else {
            Lexing::Basic
        },
        Lexing::BasicEscape => if c == '\n' {
            Lexing::Code
        } else {
            Lexing::Basic
        },
        Lexing::MultiBasic => if c == '"' {
            Lexing::MultiBasicQuote
        } else if c == '\\' {
            Lexing::MultiBasicEscape
        } else {
            Lexing::MultiBasic
        },
        Lexing::MultiBasicQuote => if c == '"' {
            Lexing::MultiBasicTwoQuotes
        } else if c == '\\' {
            Lexing::MultiBasicEscape
        } else {
            Lexing::MultiBasic
        },
        Lexing::MultiBasicTwoQuotes => if c == '"' {
            Lexing::MultiBasicClosed
        } else if c == '\\' {
            Lexing::MultiBasicEscape
        } else {
            Lexing::MultiBasic
        },
        Lexing::MultiBasicEscape => Lexing::MultiBasic,
        Lexing::MultiBasicClosed => if c == '"' {
            Lexing::MultiBasicClosed
        } else {
            code_step(c)
        },
        Lexing::Apostrophe => if c == '\'' {
            Lexing::TwoApostrophes
        } else if c == '\n' {
            Lexing::Code
        } else {
            Lexing::Literal
        },
        Lexing::TwoApostrophes => if c == '\'' {
            Lexing::MultiLiteral
        } else {
            code_step(c)
        },
        Lexing::Literal => if c == '\'' || c == '\n' {
            Lexing::Code
        } else {
            Lexing::Literal
        },
        Lexing::MultiLiteral => if c == '\'' {
            Lexing::MultiLiteralApostrophe
        } else {
            Lexing::MultiLiteral
        },
        Lexing::MultiLiteralApostrophe => if c == '\'' {
            Lexing::MultiLiteralTwoApostrophes
        } else {
            Lexing::MultiLiteral
        },
        Lexing::MultiLiteralTwoApostrophes => if c == '\'' {
            Lexing::MultiLiteralClosed
        } else {
            Lexing::MultiLiteral
        },
        Lexing::MultiLiteralClosed => if c == '\'' {
            Lexing::MultiLiteralClosed
        } else {
            code_step(c)
        },
    }
}

/// Whether a text is within the limits for the parser.
pub fn is_shallow(text: &str) -> (r: bool)
    ensures
        r == within_limits(text@),
{
    let chars = to_chars(text);
    let mut mode = Lexing::Code;
    let mut open: usize = 0;
    let mut dots: usize = 0;
    let mut i: usize = 0;
    proof {
        assert(chars@.take(0) =~= Seq::<char>::empty());
    }
    while i < chars.len()
        invariant
            i <= chars.len(),
            chars@ == text@,
            mode == lexing_after(chars@.take(i as int)),
            open == open_brackets(chars@.take(i as int)),
            dots == open_dots(chars@.take(i as int)),
            open <= MAX_BRACKETS,
            dots <= MAX_DOTS,
            deepest_brackets(chars@.take(i as int)) <= MAX_BRACKETS,
            most_dots(chars@.take(i as int)) <= MAX_DOTS,
        decreases chars.len() - i,
    {
        proof {
            assert(chars@.take(i + 1).drop_last() =~= chars@.take(i as int));
            assert(chars@.take(i + 1).last() == chars@[i as int]);
        }
        let c = chars[i];
        let code = is_read_as_code(mode, c);
        if code {
            if c == '[' || c == '{' {
                open += 1;
            } else if (c == ']' || c == '}') && open > 0 {
                open -= 1;
            }
        }
        if c == '\n' {
            dots = 0;
        } else if code {
            if c == '.' {
                dots += 1;
            } else if c == '=' || c == ',' || c == '[' || c == ']' || c == '{' || c == '}' {
                dots = 0;
            }
        }
        mode = step(mode, c);
        proof {
            assert(open == open_brackets(chars@.take(i + 1)));
            assert(dots == open_dots(chars@.take(i + 1)));
        }
        if open > MAX_BRACKETS || dots > MAX_DOTS {
            proof {
                assert(deepest_brackets(chars@.take(i + 1)) >= open_brackets(chars@.take(i + 1)));
                assert(most_dots(chars@.take(i + 1)) >= open_dots(chars@.take(i + 1)));
                lemma_deepest_grows(chars@, i + 1);
            }
            return false;
        }
        i += 1;
    }
    proof {
        assert(chars@.take(chars.len() as int) =~= chars@);
    }
    true
}

/// A text is at least as deep as any of its beginnings, and has at least
/// as many dots in a key.
pub proof fn lemma_deepest_grows(text: Seq<char>, k: int)
    requires
        0 <= k <= text.len(),
    ensures
        deepest_brackets(text.take(k)) <= deepest_brackets(text),
        most_dots(text.take(k)) <= most_dots(text),
    decreases text.len() - k,
{
    if k == text.len() {
        assert(text.take(k) =~= text);
    } else {
        assert(text.take(k + 1).drop_last() =~= text.take(k));
        lemma_deepest_grows(text, k + 1);
    }
}

/// `TomlError`'s `Display`: the message of a parse error.
#[verifier::external_body]
fn error_message(error: &toml_edit::TomlError) -> String {
    error.to_string()
}

/// `Document::as_item` and `Item::as_table`: the table that holds the
/// top-level entries; none where the root is no table.
#[verifier::external_body]
fn document_root(document: &toml_edit::Document) -> (r: Option<&toml_edit::Table>)
    ensures
        match r {
            Some(table) => document_of(*document) matches Some(m) && m.root == table_of(*table),
            None => document_of(*document) is None,
        },
{
    document.as_item().as_table()
}

/// `Document::trailing`: the text after the last entry.
#[verifier::external_body]
fn document_trailing(document: &toml_edit::Document) -> (r: String)
    ensures
        document_of(*document) matches Some(m) ==> m.trailing == r@,
{
    document.trailing().to_string()
}

/// A table without its entries: `Table::decor`, `is_implicit`, `is_dotted`
/// and `position`.
#[verifier::external_body]
fn table_frame(table: &toml_edit::Table) -> (r: TomlTable)
    ensures
        r.entries@.len() == 0,
        r.decor@ == table_of(*table).decor,
        r.implicit == table_of(*table).implicit,
        r.dotted == table_of(*table).dotted,
        r.position == table_of(*table).position,
{
    TomlTable {
        entries: Vec::new(),
        decor: Decor {
            prefix: table.decor().prefix().map(str::to_string),
            suffix: table.decor().suffix().map(str::to_string),
        },
        implicit: table.is_implicit(),
        dotted: table.is_dotted(),
        position: table.position(),
    }
}

/// `Table::len`: the number of entries that `Table::iter` yields.
#[verifier::external_body]
fn table_len(table: &toml_edit::Table) -> (r: usize)
    ensures
        r == table_of(*table).entries.len(),
{
    table.len()
}

/// The entry that `Table::iter` yields at `index`, with its key from
/// `Table::get_key_value`; `None` past the last entry.
#[verifier::external_body]
fn table_entry(table: &toml_edit::Table, index: usize) -> (r: Option<
    (&toml_edit::Key, &toml_edit::Item),
>)
    ensures
        match r {
            Some(entry) => index < table_of(*table).entries.len() && table_of(
                *table,
            ).entries[index as int] == (EntryModel {
                key: key_of(*entry.0),
                item: item_of(*entry.1),
            }),
            None => index >= table_of(*table).entries.len(),
        },
{
    table.iter().nth(index).and_then(|(name, _)| table.get_key_value(name))
}

/// A key: `Key::get`, `to_repr` and `decor`.
#[verifier::external_body]
fn key_from(key: &toml_edit::Key) -> (r: TomlKey)
    ensures
        r@ == key_of(*key),
{
    TomlKey {
        name: key.get().to_string(),
        repr: key.to_repr().as_raw().to_string(),
        decor: Decor {
            prefix: key.decor().prefix().map(str::to_string),
            suffix: key.decor().suffix().map(str::to_string),
        },
    }
}

/// `Item::as_value`.
#[verifier::external_body]
fn item_value(item: &toml_edit::Item) -> (r: Option<&toml_edit::Value>)
    ensures
        match r {
            Some(value) => item_of(*item) == ItemModel::Value(value_of(*value)),
            None => !(item_of(*item) is Value),
        },
{
    item.as_value()
}

/// `Item::as_table`.
#[verifier::external_body]
fn item_table(item: &toml_edit::Item) -> (r: Option<&toml_edit::Table>)
    ensures
        match r {
            Some(table) => item_of(*item) == ItemModel::Table(table_of(*table)),
            None => !(item_of(*item) is Table),
        },
{
    item.as_table()
}

/// `Item::as_array_of_tables` and `ArrayOfTables::len`: the number of
/// tables of an array of tables; `None` for any other item.
#[verifier::external_body]
fn item_tables_len(item: &toml_edit::Item) -> (r: Option<usize>)
    ensures
        match r {
            Some(n) => item_of(*item) matches ItemModel::ArrayOfTables(ts) && ts.len() == n,
            None => !(item_of(*item) is ArrayOfTables),
        },
{
    item.as_array_of_tables().map(|tables| tables.len())
}

/// `Item::as_array_of_tables` and `ArrayOfTables::get`: the table at
/// `index` of an array of tables; `None` past the last one, and for any
/// other item.
#[verifier::external_body]
fn item_table_at(item: &toml_edit::Item, index: usize) -> (r: Option<&toml_edit::Table>)
    ensures
        match r {
            Some(table) => item_of(*item) matches ItemModel::ArrayOfTables(ts) && index < ts.len()
                && ts[index as int] == table_of(*table),
            None => !(item_of(*item) matches ItemModel::ArrayOfTables(ts) && index < ts.len()),
        },
{
    item.as_array_of_tables().and_then(|tables| tables.get(index))
}

/// The kind of a string, integer, float, boolean or date-time, and
/// `Formatted::to_repr`: the way it is written. `None` for an array or an
/// inline table.
#[verifier::external_body]
fn scalar_repr(value: &toml_edit::Value) -> (r: Option<(ScalarKind, String)>)
    ensures
        match r {
            Some(written) => value_of(*value) matches ValueModel::Scalar(s) && s.kind == written.0
                && s.repr == written.1@,
            None => !(value_of(*value) is Scalar),
        },
{
    match value {
        toml_edit::Value::String(f) => Some((ScalarKind::String, f.to_repr().as_raw().to_string())),
        toml_edit::Value::Integer(f) => Some((ScalarKind::Integer, f.to_repr().as_raw().to_string())),
        toml_edit::Value::Float(f) => Some((ScalarKind::Float, f.to_repr().as_raw().to_string())),
        toml_edit::Value::Boolean(f) => Some((ScalarKind::Boolean, f.to_repr().as_raw().to_string())),
        toml_edit::Value::Datetime(f) => Some((ScalarKind::Datetime, f.to_repr().as_raw().to_string())),
        _ => None,
    }
}

/// `Value::as_str`: the text that a string stands for; `None` for any
/// other value, which is held with an empty text.
#[verifier::external_body]
fn string_value(value: &toml_edit::Value) -> (r: Option<String>)
    ensures
        value_of(*value) matches ValueModel::Scalar(s) ==> match r {
            Some(text) => s.value == text@,
            None => s.value.len() == 0,
        },
{
    value.as_str().map(str::to_string)
}

/// `Value::decor`: the text before and after a value.
#[verifier::external_body]
fn value_decor(value: &toml_edit::Value) -> (r: Decor)
    ensures
        r@ == crate::render::value_decor(value_of(*value)),
{
    Decor {
        prefix: value.decor().prefix().map(str::to_string),
        suffix: value.decor().suffix().map(str::to_string),
    }
}

/// `Array::len` and `InlineTable::len`: the number of elements of an
/// array, or of entries of an inline table; 0 for any other value.
#[verifier::external_body]
fn value_len(value: &toml_edit::Value) -> (r: usize)
    ensures
        r == match value_of(*value) {
            ValueModel::Scalar(_) => 0,
            ValueModel::Array(a) => a.values.len(),
            ValueModel::InlineTable(t) => t.entries.len(),
        },
{
    match value {
        toml_edit::Value::Array(a) => a.len(),
        toml_edit::Value::InlineTable(t) => t.len(),
        _ => 0,
    }
}

/// `Array::trailing` and `Array::trailing_comma`: the text before the
/// closing bracket, and whether a comma follows the last element. `None`
/// for any value that is no array.
#[verifier::external_body]
fn array_trailing(value: &toml_edit::Value) -> (r: Option<(String, bool)>)
    ensures
        match r {
            Some(end) => value_of(*value) matches ValueModel::Array(a) && a.trailing == end.0@
                && a.trailing_comma == end.1,
            None => !(value_of(*value) is Array),
        },
{
    value.as_array().map(|a| (a.trailing().to_string(), a.trailing_comma()))
}

/// `Array::get`: the element at `index` of an array; `None` past the last
/// one, and for any other value.
#[verifier::external_body]
fn array_element(value: &toml_edit::Value, index: usize) -> (r: Option<&toml_edit::Value>)
    ensures
        match r {
            Some(element) => value_of(*value) matches ValueModel::Array(a) && index
                < a.values.len() && a.values[index as int] == value_of(*element),
            None => !(value_of(*value) matches ValueModel::Array(a) && index < a.values.len()),
        },
{
    value.as_array().and_then(|a| a.get(index))
}

/// `InlineTable::is_dotted`: whether an inline table only carries dotted
/// keys. `None` for any value that is no inline table. Of a table with
/// entries no preamble is held.
#[verifier::external_body]
fn inline_table_dotted(value: &toml_edit::Value) -> (r: Option<bool>)
    ensures
        match r {
            Some(dotted) => value_of(*value) matches ValueModel::InlineTable(t) && t.dotted
                == dotted && (t.entries.len() > 0 ==> t.preamble.len() == 0),
            None => !(value_of(*value) is InlineTable),
        },
{
    value.as_inline_table().map(|t| t.is_dotted())
}

/// The entry that `InlineTable::iter` yields at `index`, with its key from
/// `InlineTable::get_key_value`; `None` past the last entry, and for any
/// value that is no inline table.
#[verifier::external_body]
fn inline_table_entry(value: &toml_edit::Value, index: usize) -> (r: Option<
    (&toml_edit::Key, &toml_edit::Value),
>)
    ensures
        match r {
            Some(entry) => value_of(*value) matches ValueModel::InlineTable(t) && index
                < t.entries.len() && t.entries[index as int] == (InlineEntryModel {
                key: key_of(*entry.0),
                value: value_of(*entry.1),
            }),
            None => !(value_of(*value) matches ValueModel::InlineTable(t) && index
                < t.entries.len()),
        },
{
    let table = value.as_inline_table()?;
    let (name, inner) = table.iter().nth(index)?;
    table.get_key_value(name).map(|(key, _)| (key, inner))
}

/// `InlineTable`'s `Display`: an inline table as `toml_edit` writes it, with
/// its decor. `None` for any other value. Between the braces of a table
/// without entries stands its preamble.
#[verifier::external_body]
fn inline_table_text(value: &toml_edit::Value) -> (r: Option<String>)
    ensures
        match r {
            Some(text) => value_of(*value) matches ValueModel::InlineTable(t) && (t.entries.len()
                == 0 ==> t.preamble == between_braces(t.decor, text@)),
            None => !(value_of(*value) is InlineTable),
        },
{
    value.as_inline_table().map(|t| t.to_string())
}

/// How deep tables and values may be nested in a document that is read.
pub const MAX_DEPTH: usize = 64;

/// Whether a value is nested no deeper than `depth`: a scalar counts one,
/// an array or an inline table one more than the deepest value in it.
pub open spec fn value_within(v: ValueModel, depth: nat) -> bool
    decreases v,
{
    depth > 0 && match v {
        ValueModel::Scalar(_) => true,
        ValueModel::Array(a) => forall|i: int|
            0 <= i < a.values.len() ==> value_within(#[trigger] a.values[i], (depth - 1) as nat),
        ValueModel::InlineTable(t) => forall|i: int|
            0 <= i < t.entries.len() ==> value_within(
                (#[trigger] t.entries[i]).value,
                (depth - 1) as nat,
            ),
    }
}

/// Whether a table is nested no deeper than `depth`: one more than the
/// deepest item under its keys.
pub open spec fn table_within(t: TableModel, depth: nat) -> bool
    decreases t,
{
    depth > 0 && forall|i: int|
        0 <= i < t.entries.len() ==> item_within((#[trigger] t.entries[i]).item, (depth - 1) as nat)
}

/// Whether an item is nested no deeper than `depth`. The tables of an array
/// of tables count as the array does.
pub open spec fn item_within(item: ItemModel, depth: nat) -> bool
    decreases item,
{
    match item {
        ItemModel::Absent => true,
        ItemModel::Value(v) => value_within(v, depth),
        ItemModel::Table(t) => table_within(t, depth),
        ItemModel::ArrayOfTables(ts) => forall|i: int|
            0 <= i < ts.len() ==> table_within(#[trigger] ts[i], depth),
    }
}

/// What stands between the braces of a written inline table: the text
/// after its prefix and the opening brace, up to the closing brace and its
/// suffix; nothing where the text is too short to hold them.
pub open spec fn between_braces(decor: DecorModel, written: Seq<char>) -> Seq<char> {
    let before = or_default(decor.prefix, None).len();
    let after = or_default(decor.suffix, None).len();
    if before + after + 2 <= written.len() {
        written.subrange(before as int + 1, written.len() - after - 1)
    } else {
        Seq::empty()
    }
}

/// Between the braces of an inline table without entries, as it is written
/// with its own decor, stands its preamble.
pub proof fn lemma_preamble_between_braces(t: InlineTableModel)
    requires
        t.entries.len() == 0,
    ensures
        between_braces(t.decor, render_inline_table(t, None, None)) == t.preamble,
{
    let prefix = or_default(t.decor.prefix, None);
    let suffix = or_default(t.decor.suffix, None);
    let written = render_inline_table(t, None, None);
    assert(written =~= prefix + seq!['{'] + t.preamble + seq!['}'] + suffix);
    assert(written.subrange(prefix.len() as int + 1, written.len() - suffix.len() - 1)
        =~= t.preamble);
}

/// The text between the braces of an inline table without entries, taken
/// from the table as it is written.
fn empty_table_preamble(frame: &InlineTable, written: &str) -> (r: String)
    ensures
        r@ == between_braces(frame@.decor, written@),
        forall|t: InlineTableModel|
            t.entries.len() == 0 && t.decor == frame@.decor && written@
                == #[trigger] render_inline_table(t, None, None) ==> r@ == t.preamble,
{
    let chars = to_chars(written);
    let before: usize = match &frame.decor.prefix {
        Some(p) => to_chars(p.as_str()).len(),
        None => 0,
    };
    let after: usize = match &frame.decor.suffix {
        Some(s) => to_chars(s.as_str()).len(),
        None => 0,
    };
    proof {
        assert forall|t: InlineTableModel|
            t.entries.len() == 0 && t.decor == frame@.decor && written@
                == #[trigger] render_inline_table(t, None, None) implies between_braces(
            frame@.decor,
            written@,
        ) == t.preamble by {
            lemma_preamble_between_braces(t);
        }
    }
    if before < chars.len() && after < chars.len() - before - 1 {
        let inner = slice_chars(&chars, before + 1, chars.len() - after - 1);
        from_chars(&inner)
    } else {
        String::new()
    }
}

/// Reads a value and what it holds, down to `depth` levels; `None` for a
/// value that is nested deeper.
#[verifier::loop_isolation(false)]
fn read_value(value: &toml_edit::Value, depth: usize) -> (r: Option<TomlValue>)
    ensures
        match r {
            Some(v) => v@ == value_of(*value) && value_within(v@, depth as nat),
            None => !value_within(value_of(*value), depth as nat),
        },
    decreases depth,
{
    if depth == 0 {
        return None;
    }
    if let Some((kind, repr)) = scalar_repr(value) {
        let text = match string_value(value) {
            Some(text) => text,
            None => String::new(),
        };
        let scalar = TomlValue::Scalar(
            Scalar { kind, value: text, repr, decor: value_decor(value) },
        );
        proof {
            lemma_value_view(scalar);
            let model = value_of(*value)->Scalar_0;
            assert(scalar@->Scalar_0.value =~= model.value);
            assert(scalar@->Scalar_0 == model);
        }
        return Some(scalar);
    }
    if let Some((trailing, trailing_comma)) = array_trailing(value) {
        let ghost model = value_of(*value)->Array_0;
        let count = value_len(value);
        let mut array = Array {
            values: Vec::new(),
            trailing,
            trailing_comma,
            decor: value_decor(value),
        };
        let mut i: usize = 0;
        proof {
            assert(values_model(array.values@) =~= model.values.take(0));
        }
        while i < count
            invariant
                i <= count,
                count == model.values.len(),
                array.trailing@ == model.trailing,
                array.trailing_comma == model.trailing_comma,
                array.decor@ == model.decor,
                values_model(array.values@) == model.values.take(i as int),
                forall|j: int|
                    0 <= j < i ==> value_within(#[trigger] model.values[j], (depth - 1) as nat),
            decreases count - i,
        {
            match array_element(value, i) {
                Some(element) => match read_value(element, depth - 1) {
                    Some(v) => {
                        let ghost before = values_model(array.values@);
                        array.values.push(v);
                        proof {
                            assert(values_model(array.values@) =~= before.push(v@));
                            assert(model.values.take(i + 1) =~= model.values.take(i as int).push(
                                model.values[i as int],
                            ));
                        }
                    },
                    None => {
                        assert(!value_within(model.values[i as int], (depth - 1) as nat));
                        return None;
                    },
                },
                None => {
                    return None;
                },
            }
            i += 1;
        }
        let out = TomlValue::Array(array);
        proof {
            lemma_value_view(out);
            assert(model.values.take(count as int) =~= model.values);
            assert(out@->Array_0.values =~= model.values);
        }
        return Some(out);
    }
    if let Some(dotted) = inline_table_dotted(value) {
        let ghost model = value_of(*value)->InlineTable_0;
        let count = value_len(value);
        let mut table = InlineTable {
            entries: Vec::new(),
            preamble: String::new(),
            decor: value_decor(value),
            dotted,
        };
        if count == 0 {
            if let Some(written) = inline_table_text(value) {
                table.preamble = empty_table_preamble(&table, written.as_str());
            }
        }
        let mut i: usize = 0;
        proof {
            assert(inline_entries_model(table.entries@) =~= model.entries.take(0));
        }
        while i < count
            invariant
                i <= count,
                count == model.entries.len(),
                table.preamble@ == model.preamble,
                table.dotted == model.dotted,
                table.decor@ == model.decor,
                inline_entries_model(table.entries@) == model.entries.take(i as int),
                forall|j: int|
                    0 <= j < i ==> value_within(
                        (#[trigger] model.entries[j]).value,
                        (depth - 1) as nat,
                    ),
            decreases count - i,
        {
            match inline_table_entry(value, i) {
                Some((key, inner)) => match read_value(inner, depth - 1) {
                    Some(v) => {
                        let entry = InlineEntry { key: key_from(key), value: v };
                        assert(entry@ == model.entries[i as int]);
                        let ghost before = inline_entries_model(table.entries@);
                        let ghost pushed = entry@;
                        table.entries.push(entry);
                        proof {
                            assert(inline_entries_model(table.entries@) =~= before.push(pushed));
                            assert(model.entries.take(i + 1) =~= model.entries.take(i as int).push(
                                model.entries[i as int],
                            ));
                        }
                    },
                    None => {
                        assert(!value_within(model.entries[i as int].value, (depth - 1) as nat));
                        return None;
                    },
                },
                None => {
                    return None;
                },
            }
            i += 1;
        }
        let out = TomlValue::InlineTable(table);
        proof {
            lemma_value_view(out);
            assert(model.entries.take(count as int) =~= model.entries);
            assert(out@->InlineTable_0.entries =~= model.entries);
        }
        return Some(out);
    }
    None
}

/// Reads a table and what it holds, down to `depth` levels; `None` for a
/// table that is nested deeper.
#[verifier::loop_isolation(false)]
fn read_table(table: &toml_edit::Table, depth: usize) -> (r: Option<TomlTable>)
    ensures
        match r {
            Some(t) => t@ == table_of(*table) && table_within(t@, depth as nat),
            None => !table_within(table_of(*table), depth as nat),
        },
    decreases depth, 1nat,
{
    if depth == 0 {
        return None;
    }
    let ghost model = table_of(*table);
    let frame = table_frame(table);
    let count = table_len(table);
    let mut out = TomlTable {
        entries: Vec::new(),
        decor: frame.decor,
        implicit: frame.implicit,
        dotted: frame.dotted,
        position: frame.position,
    };
    let mut i: usize = 0;
    proof {
        assert(entries_model(out.entries@) =~= model.entries.take(0));
    }
    while i < count
        invariant
            i <= count,
            count == model.entries.len(),
            out.decor@ == model.decor,
            out.implicit == model.implicit,
            out.dotted == model.dotted,
            out.position == model.position,
            entries_model(out.entries@) == model.entries.take(i as int),
            forall|j: int|
                0 <= j < i ==> item_within((#[trigger] model.entries[j]).item, (depth - 1) as nat),
        decreases count - i,
    {
        match table_entry(table, i) {
            Some((key, item)) => match read_item(item, depth - 1) {
                Some(it) => {
                    let entry = Entry { key: key_from(key), item: it };
                    assert(entry@ == model.entries[i as int]);
                    let ghost before = entries_model(out.entries@);
                    let ghost pushed = entry@;
                    out.entries.push(entry);
                    proof {
                        assert(entries_model(out.entries@) =~= before.push(pushed));
                        assert(model.entries.take(i + 1) =~= model.entries.take(i as int).push(
                            model.entries[i as int],
                        ));
                    }
                },
                None => {
                    assert(!item_within(model.entries[i as int].item, (depth - 1) as nat));
                    return None;
                },
            },
            None => {
                return None;
            },
        }
        i += 1;
    }
    proof {
        lemma_table_view(out);
        assert(model.entries.take(count as int) =~= model.entries);
        assert(out@.entries =~= model.entries);
    }
    Some(out)
}

/// Reads an item and what it holds, down to `depth` levels; `None` for an
/// item that is nested deeper.
#[verifier::loop_isolation(false)]
fn read_item(item: &toml_edit::Item, depth: usize) -> (r: Option<TomlItem>)
    ensures
        match r {
            Some(it) => it@ == item_of(*item) && item_within(it@, depth as nat),
            None => !item_within(item_of(*item), depth as nat),
        },
    decreases depth, 2nat,
{
    if let Some(value) = item_value(item) {
        return match read_value(value, depth) {
            Some(v) => {
                let out = TomlItem::Value(v);
                proof {
                    lemma_item_view(out);
                }
                Some(out)
            },
            None => None,
        };
    }
    if let Some(table) = item_table(item) {
        return match read_table(table, depth) {
            Some(t) => {
                let out = TomlItem::Table(t);
                proof {
                    lemma_item_view(out);
                }
                Some(out)
            },
            None => None,
        };
    }
    if let Some(count) = item_tables_len(item) {
        let ghost model = item_of(*item)->ArrayOfTables_0;
        let mut tables: Vec<TomlTable> = Vec::new();
        let mut i: usize = 0;
        proof {
            assert(tables_model(tables@) =~= model.take(0));
        }
        while i < count
            invariant
                i <= count,
                count == model.len(),
                tables_model(tables@) == model.take(i as int),
                forall|j: int| 0 <= j < i ==> table_within(#[trigger] model[j], depth as nat),
            decreases count - i,
        {
            match item_table_at(item, i) {
                Some(table) => match read_table(table, depth) {
                    Some(t) => {
                        let ghost before = tables_model(tables@);
                        tables.push(t);
                        proof {
                            assert(tables_model(tables@) =~= before.push(t@));
                            assert(model.take(i + 1) =~= model.take(i as int).push(model[i as int]));
                        }
                    },
                    None => {
                        assert(!table_within(model[i as int], depth as nat));
                        return None;
                    },
                },
                None => {
                    return None;
                },
            }
            i += 1;
        }
        let out = TomlItem::ArrayOfTables(tables);
        proof {
            lemma_item_view(out);
            assert(model.take(count as int) =~= model);
        }
        return Some(out);
    }
    let out = TomlItem::Absent;
    proof {
        lemma_item_view(out);
    }
    Some(out)
}

/// Why a text could not be read.
#[derive(Debug)]
pub enum ReadError {
    /// The text is no manifest; the message says where and why.
    Syntax(String),
    /// The text is beyond the limits for the parser (see
    /// [`within_limits`]), or tables and values are nested deeper than
    /// [`MAX_DEPTH`].
    TooDeep,
}

/// Whether a text can be read: it is within the limits for the parser, it
/// is a manifest, and the document that it gives is nested no deeper than
/// [`MAX_DEPTH`].
pub open spec fn is_readable(text: Seq<char>) -> bool {
    within_limits(text) && match parsed(text) {
        Some(document) => table_within(document.root, MAX_DEPTH as nat),
        None => false,
    }
}

/// Reads a manifest: the document that `toml_edit` parses from the text. A
/// text that is no manifest is refused with the message of the parser, and a
/// text or a document that is nested too deeply as too deep.
pub fn read_document(text: &str) -> (r: Result<TomlDocument, ReadError>)
    ensures
        r is Ok <==> is_readable(text@),
        match r {
            Ok(document) => parsed(text@) == Some(document@),
            Err(ReadError::Syntax(_)) => within_limits(text@) && parsed(text@) is None,
            Err(ReadError::TooDeep) => !within_limits(text@) || parsed(text@) is Some,
        },
{
    if !is_shallow(text) {
        return Err(ReadError::TooDeep);
    }
    match parse_text(text) {
        Ok(parsed_document) => match document_root(&parsed_document) {
            Some(table) => match read_table(table, MAX_DEPTH) {
                Some(root) => Ok(
                    TomlDocument { root, trailing: document_trailing(&parsed_document) },
                ),
                None => Err(ReadError::TooDeep),
            },
            None => Err(ReadError::Syntax("the root of the document is no table".to_string())),
        },
        Err(error) => Err(ReadError::Syntax(error_message(&error))),
    }
}

} // verus!
