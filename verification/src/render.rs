//! The text of a document.
//!
//! [`render_document`] defines what a document model reads as; the functions
//! that write text are proved to produce exactly that.
//!
//! A [`TomlDocument`] holds every piece of text as it was read: the spelling
//! of each key and value, and what stands before and after it. `toml_edit`
//! writes documents of its own only, and a document of its own cannot be
//! put together from such pieces (it keeps the setters for spellings to
//! itself), so the text is written here: the pieces in their order, with
//! the separators of the format between them, and one space or none where
//! a piece was never read.

use vstd::prelude::*;
use crate::document::{
    Array, ArrayModel, DecorModel, DocumentModel, Entry, EntryModel, InlineEntry, InlineEntryModel,
    InlineTable, InlineTableModel, ItemModel, KeyModel, TableModel, TomlDocument, TomlItem,
    TomlKey, TomlTable, TomlValue, ValueModel,
};
use crate::sorting::{lemma_sort_map, sort_by_key, stable_sort, SortKey};
use crate::text::{from_chars, to_chars};

verus! {

/// A default decor: nothing, or one character.
pub open spec fn pad(d: Option<char>) -> Seq<char> {
    match d {
        Some(c) => seq![c],
        None => Seq::empty(),
    }
}

/// The decor that is written: the one given, or else the default of the place.
pub open spec fn or_default(t: Option<Seq<char>>, d: Option<char>) -> Seq<char> {
    match t {
        Some(s) => s,
        None => pad(d),
    }
}

/// A key with its decor.
pub open spec fn render_key(k: KeyModel, before: Option<char>, after: Option<char>) -> Seq<char> {
    or_default(k.decor.prefix, before) + k.repr + or_default(k.decor.suffix, after)
}

/// The keys of a path, with dots between them. The defaults apply to the
/// outer ends of the path; between two keys the default is nothing.
pub open spec fn render_path(path: Seq<KeyModel>, before: Option<char>, after: Option<char>) -> Seq<
    char,
>
    decreases path.len(),
{
    if path.len() == 0 {
        Seq::empty()
    } else if path.len() == 1 {
        render_key(path[0], before, after)
    } else {
        render_path(path.drop_last(), before, None) + seq!['.'] + render_key(
            path.last(),
            None,
            after,
        )
    }
}

/// The decor of a value.
pub open spec fn value_decor(v: ValueModel) -> DecorModel {
    match v {
        ValueModel::Scalar(s) => s.decor,
        ValueModel::Array(a) => a.decor,
        ValueModel::InlineTable(t) => t.decor,
    }
}

/// A value with its decor.
pub open spec fn render_value(v: ValueModel, before: Option<char>, after: Option<char>) -> Seq<char>
    decreases v,
{
    match v {
        ValueModel::Scalar(s) => or_default(s.decor.prefix, before) + s.repr + or_default(
            s.decor.suffix,
            after,
        ),
        ValueModel::Array(a) => render_array(a, before, after),
        ValueModel::InlineTable(t) => render_inline_table(t, before, after),
    }
}

/// An array: its elements between brackets, with commas between them.
pub open spec fn render_array(a: ArrayModel, before: Option<char>, after: Option<char>) -> Seq<char>
    decreases a,
{
    or_default(a.decor.prefix, before) + seq!['['] + render_elements(a.values) + (if a.trailing_comma
        && a.values.len() > 0 {
        seq![',']
    } else {
        Seq::empty()
    }) + a.trailing + seq![']'] + or_default(a.decor.suffix, after)
}

/// An inline table: its keys and values between braces.
pub open spec fn render_inline_table(
    t: InlineTableModel,
    before: Option<char>,
    after: Option<char>,
) -> Seq<char>
    decreases t,
{
    or_default(t.decor.prefix, before) + seq!['{'] + t.preamble + render_inline_children(
        t.entries,
        Seq::empty(),
        true,
    ) + (if ends_open(t.entries) {
        seq![' ']
    } else {
        Seq::empty()
    }) + seq!['}'] + or_default(t.decor.suffix, after)
}

/// The elements of an array: the first without a default decor, each of the
/// others after a comma and a space by default.
pub open spec fn render_elements(vs: Seq<ValueModel>) -> Seq<char>
    decreases vs,
{
    if vs.len() == 0 {
        Seq::empty()
    } else if vs.len() == 1 {
        render_value(vs[0], None, None)
    } else {
        render_elements(vs.drop_last()) + seq![','] + render_value(vs.last(), Some(' '), None)
    }
}

/// Whether the entries write at least one key and value.
pub open spec fn has_leaf(es: Seq<InlineEntryModel>) -> bool
    decreases es,
{
    if es.len() == 0 {
        false
    } else {
        has_leaf(es.drop_last()) || entry_has_leaf(es.last())
    }
}

/// Whether an entry writes at least one key and value.
pub open spec fn entry_has_leaf(e: InlineEntryModel) -> bool
    decreases e,
{
    match e.value {
        ValueModel::InlineTable(t) => if t.dotted {
            has_leaf(t.entries)
        } else {
            true
        },
        _ => true,
    }
}

/// The keys and values between the braces of an inline table. `fresh` says
/// that none was written yet, so that no comma is due.
pub open spec fn render_inline_children(
    es: Seq<InlineEntryModel>,
    path: Seq<KeyModel>,
    fresh: bool,
) -> Seq<char>
    decreases es,
{
    if es.len() == 0 {
        Seq::empty()
    } else {
        render_inline_children(es.drop_last(), path, fresh) + render_inline_child(
            es.last(),
            path,
            fresh && !has_leaf(es.drop_last()),
        )
    }
}

/// What an entry writes between the braces: its key and value, or those
/// of the dotted keys under it.
pub open spec fn render_inline_child(e: InlineEntryModel, path: Seq<KeyModel>, fresh: bool) -> Seq<
    char,
>
    decreases e,
{
    match e.value {
        ValueModel::InlineTable(t) => if t.dotted {
            render_inline_children(t.entries, path.push(e.key), fresh)
        } else {
            render_inline_leaf(path.push(e.key), render_value(e.value, Some(' '), None), fresh)
        },
        _ => render_inline_leaf(path.push(e.key), render_value(e.value, Some(' '), None), fresh),
    }
}

/// A key path and a value between braces, after a comma unless they come first.
pub open spec fn render_inline_leaf(path: Seq<KeyModel>, value: Seq<char>, fresh: bool) -> Seq<
    char,
> {
    (if fresh {
        Seq::empty()
    } else {
        seq![',']
    }) + render_path(path, Some(' '), Some(' ')) + seq!['='] + value
}

/// Whether the last value between the braces has no suffix of its own, so
/// that a space stands before the closing brace.
pub open spec fn ends_open(es: Seq<InlineEntryModel>) -> bool
    decreases es,
{
    if es.len() == 0 {
        false
    } else if entry_has_leaf(es.last()) {
        entry_ends_open(es.last())
    } else {
        ends_open(es.drop_last())
    }
}

/// Whether the last value that an entry writes has no suffix of its own.
pub open spec fn entry_ends_open(e: InlineEntryModel) -> bool
    decreases e,
{
    match e.value {
        ValueModel::InlineTable(t) => if t.dotted {
            ends_open(t.entries)
        } else {
            t.decor.suffix is None
        },
        v => value_decor(v).suffix is None,
    }
}

/// One line of a table: key path, `=`, value, line feed.
pub open spec fn render_line(path: Seq<KeyModel>, v: ValueModel) -> Seq<char> {
    render_path(path, None, Some(' ')) + seq!['='] + render_value(v, Some(' '), None) + seq!['\n']
}

/// The lines under a table's header: its values, those of dotted tables
/// with the path that leads to them.
pub open spec fn render_body(es: Seq<EntryModel>, path: Seq<KeyModel>) -> Seq<char>
    decreases es,
{
    if es.len() == 0 {
        Seq::empty()
    } else {
        render_body(es.drop_last(), path) + render_body_entry(es.last(), path)
    }
}

/// The lines of an entry: one for a value, those of the dotted keys under
/// a table that carries them, none for any other table.
pub open spec fn render_body_entry(e: EntryModel, path: Seq<KeyModel>) -> Seq<char>
    decreases e,
{
    match e.item {
        ItemModel::Table(t) => if t.dotted {
            render_body(t.entries, path.push(e.key))
        } else {
            Seq::empty()
        },
        ItemModel::Value(v) => match v {
            ValueModel::InlineTable(t) => if t.dotted {
                render_inline_lines(t.entries, path.push(e.key))
            } else {
                render_line(path.push(e.key), v)
            },
            _ => render_line(path.push(e.key), v),
        },
        _ => Seq::empty(),
    }
}

/// The lines of the dotted keys under an inline table that carries them.
pub open spec fn render_inline_lines(es: Seq<InlineEntryModel>, path: Seq<KeyModel>) -> Seq<char>
    decreases es,
{
    if es.len() == 0 {
        Seq::empty()
    } else {
        render_inline_lines(es.drop_last(), path) + render_inline_line(es.last(), path)
    }
}

/// The line, or lines, of an entry under dotted keys.
pub open spec fn render_inline_line(e: InlineEntryModel, path: Seq<KeyModel>) -> Seq<char>
    decreases e,
{
    match e.value {
        ValueModel::InlineTable(t) => if t.dotted {
            render_inline_lines(t.entries, path.push(e.key))
        } else {
            render_line(path.push(e.key), e.value)
        },
        _ => render_line(path.push(e.key), e.value),
    }
}

/// Whether a table has a header line: the root has none, and an implicit
/// table has one only if it has lines of its own.
pub open spec fn has_header(t: TableModel, path: Seq<KeyModel>, in_array: bool) -> bool {
    path.len() > 0 && (in_array || !(t.implicit && render_body(t.entries, Seq::empty()).len()
        == 0))
}

/// The header line of a table: its path between brackets, two for a table
/// of an array of tables.
pub open spec fn render_header(t: TableModel, path: Seq<KeyModel>, in_array: bool) -> Seq<char> {
    if !has_header(t, path, in_array) {
        Seq::empty()
    } else if in_array {
        or_default(t.decor.prefix, Some('\n')) + seq!['[', '['] + render_path(path, None, None)
            + seq![']', ']'] + or_default(t.decor.suffix, None) + seq!['\n']
    } else {
        or_default(t.decor.prefix, Some('\n')) + seq!['['] + render_path(path, None, None)
            + seq![']'] + or_default(t.decor.suffix, None) + seq!['\n']
    }
}

/// A table's header and the lines under it.
pub open spec fn render_block(t: TableModel, path: Seq<KeyModel>, in_array: bool) -> Seq<char> {
    render_header(t, path, in_array) + render_body(t.entries, Seq::empty())
}

/// The blocks of a table and of the tables under it, in the order in which
/// they stand in the tree, each with the position that decides where it is
/// printed: its own, or else the last one met before it. The second result
/// is the last position met.
pub open spec fn blocks_of_table(t: TableModel, path: Seq<KeyModel>, in_array: bool, last: usize) -> (
    Seq<(usize, Seq<char>)>,
    usize,
)
    decreases t,
{
    let position = match t.position {
        Some(p) => p,
        None => last,
    };
    let rest = blocks_of_entries(t.entries, path, position);
    (seq![(position, render_block(t, path, in_array))] + rest.0, rest.1)
}

/// The blocks of the tables among the entries of a table.
pub open spec fn blocks_of_entries(es: Seq<EntryModel>, path: Seq<KeyModel>, last: usize) -> (
    Seq<(usize, Seq<char>)>,
    usize,
)
    decreases es,
{
    if es.len() == 0 {
        (Seq::empty(), last)
    } else {
        let head = blocks_of_entries(es.drop_last(), path, last);
        let tail = blocks_of_entry(es.last(), path, head.1);
        (head.0 + tail.0, tail.1)
    }
}

/// The blocks of the table or tables of an entry; none for a table that
/// carries dotted keys.
pub open spec fn blocks_of_entry(e: EntryModel, path: Seq<KeyModel>, last: usize) -> (
    Seq<(usize, Seq<char>)>,
    usize,
)
    decreases e,
{
    match e.item {
        ItemModel::Table(t) => if t.dotted {
            (Seq::empty(), last)
        } else {
            blocks_of_table(t, path.push(e.key), false, last)
        },
        ItemModel::ArrayOfTables(ts) => blocks_of_tables(ts, path.push(e.key), last),
        _ => (Seq::empty(), last),
    }
}

/// The blocks of the tables of an array of tables.
pub open spec fn blocks_of_tables(ts: Seq<TableModel>, path: Seq<KeyModel>, last: usize) -> (
    Seq<(usize, Seq<char>)>,
    usize,
)
    decreases ts,
{
    if ts.len() == 0 {
        (Seq::empty(), last)
    } else {
        let head = blocks_of_tables(ts.drop_last(), path, last);
        let tail = blocks_of_table(ts.last(), path, true, head.1);
        (head.0 + tail.0, tail.1)
    }
}

/// Blocks are printed by position; those with one position in tree order.
pub open spec fn by_position() -> spec_fn((usize, Seq<char>), (usize, Seq<char>)) -> bool {
    |a: (usize, Seq<char>), b: (usize, Seq<char>)| a.0 < b.0
}

/// The texts of blocks, one after the other.
pub open spec fn concat_blocks(bs: Seq<(usize, Seq<char>)>) -> Seq<char>
    decreases bs.len(),
{
    if bs.len() == 0 {
        Seq::empty()
    } else {
        concat_blocks(bs.drop_last()) + bs.last().1
    }
}

/// The text of a document: its blocks in the order of their positions, then
/// the text after the last entry.
pub open spec fn render_document(d: DocumentModel) -> Seq<char> {
    concat_blocks(stable_sort(blocks_of_table(d.root, Seq::empty(), false, 0).0, by_position()))
        + d.trailing
}


/// The models of the keys of a path.
pub open spec fn path_model(path: Seq<&TomlKey>) -> Seq<KeyModel> {
    Seq::new(path.len(), |i: int| path[i]@)
}

fn extend_path<'a>(path: &Vec<&'a TomlKey>, key: &'a TomlKey) -> (r: Vec<&'a TomlKey>)
    ensures
        path_model(r@) == path_model(path@).push(key@),
{
    let mut out: Vec<&'a TomlKey> = Vec::new();
    let mut i: usize = 0;
    while i < path.len()
        invariant
            i <= path.len(),
            out@ == path@.take(i as int),
        decreases path.len() - i,
    {
        out.push(path[i]);
        i += 1;
    }
    out.push(key);
    proof {
        assert(path@.take(path.len() as int) =~= path@);
        assert(path_model(out@) =~= path_model(path@).push(key@));
    }
    out
}

fn write_text(out: &mut Vec<char>, s: &str)
    ensures
        final(out)@ == old(out)@ + s@,
{
    let chars = to_chars(s);
    let mut i: usize = 0;
    while i < chars.len()
        invariant
            i <= chars.len(),
            out@ == old(out)@ + chars@.take(i as int),
        decreases chars.len() - i,
    {
        out.push(chars[i]);
        proof {
            assert(chars@.take(i + 1) =~= chars@.take(i as int).push(chars@[i as int]));
        }
        i += 1;
    }
    proof {
        assert(chars@.take(chars.len() as int) =~= chars@);
    }
}

fn write_chars(out: &mut Vec<char>, chars: &Vec<char>)
    ensures
        final(out)@ == old(out)@ + chars@,
{
    let mut i: usize = 0;
    while i < chars.len()
        invariant
            i <= chars.len(),
            out@ == old(out)@ + chars@.take(i as int),
        decreases chars.len() - i,
    {
        out.push(chars[i]);
        proof {
            assert(chars@.take(i + 1) =~= chars@.take(i as int).push(chars@[i as int]));
        }
        i += 1;
    }
    proof {
        assert(chars@.take(chars.len() as int) =~= chars@);
    }
}

fn write_decor(out: &mut Vec<char>, t: &Option<String>, d: Option<char>)
    ensures
        final(out)@ == old(out)@ + or_default(crate::document::text_model(*t), d),
{
    match t {
        Some(s) => write_text(out, s.as_str()),
        None => match d {
            Some(c) => {
                out.push(c);
            },
            None => {
                assert(out@ =~= old(out)@ + Seq::<char>::empty());
            },
        },
    }
}

fn write_key(out: &mut Vec<char>, k: &TomlKey, before: Option<char>, after: Option<char>)
    ensures
        final(out)@ == old(out)@ + render_key(k@, before, after),
{
    write_decor(out, &k.decor.prefix, before);
    write_text(out, k.repr.as_str());
    write_decor(out, &k.decor.suffix, after);
    proof {
        assert(out@ =~= old(out)@ + render_key(k@, before, after));
    }
}

fn write_path(out: &mut Vec<char>, path: &Vec<&TomlKey>, before: Option<char>, after: Option<char>)
    ensures
        final(out)@ == old(out)@ + render_path(path_model(path@), before, after),
{
    let ghost model = path_model(path@);
    let n: usize = path.len();
    if n == 0 {
        assert(out@ =~= old(out)@ + Seq::<char>::empty());
        return ;
    }
    if n == 1 {
        write_key(out, path[0], before, after);
        return ;
    }
    write_key(out, path[0], before, None);
    let mut i: usize = 1;
    while i < n - 1
        invariant
            1 <= i <= n - 1,
            n == path.len(),
            model == path_model(path@),
            out@ == old(out)@ + render_path(model.take(i as int), before, None),
        decreases n - i,
    {
        out.push('.');
        write_key(out, path[i], None, None);
        proof {
            assert(model.take(i + 1).drop_last() =~= model.take(i as int));
            assert(out@ =~= old(out)@ + render_path(model.take(i + 1), before, None));
        }
        i += 1;
    }
    out.push('.');
    write_key(out, path[n - 1], None, after);
    proof {
        assert(model.drop_last() =~= model.take(n - 1));
        assert(out@ =~= old(out)@ + render_path(model, before, after));
    }
}

/// Writes a value as [`render_value`] defines it.
pub fn write_value(out: &mut Vec<char>, v: &TomlValue, before: Option<char>, after: Option<char>)
    ensures
        final(out)@ == old(out)@ + render_value(v@, before, after),
    decreases v,
{
    proof {
        crate::document::lemma_value_view(*v);
    }
    match v {
        TomlValue::Scalar(s) => {
            write_decor(out, &s.decor.prefix, before);
            write_text(out, s.repr.as_str());
            write_decor(out, &s.decor.suffix, after);
            proof {
                assert(out@ =~= old(out)@ + render_value(v@, before, after));
            }
        },
        TomlValue::Array(a) => write_array(out, a, before, after),
        TomlValue::InlineTable(t) => write_inline_table(out, t, before, after),
    }
}

/// Writes an array as [`render_array`] defines it.
pub fn write_array(out: &mut Vec<char>, a: &Array, before: Option<char>, after: Option<char>)
    ensures
        final(out)@ == old(out)@ + render_array(a@, before, after),
    decreases a,
{
    write_decor(out, &a.decor.prefix, before);
    out.push('[');
    let ghost head = out@;
    write_elements(out, &a.values);
    if a.trailing_comma && a.values.len() > 0 {
        out.push(',');
    }
    write_text(out, a.trailing.as_str());
    out.push(']');
    write_decor(out, &a.decor.suffix, after);
    proof {
        assert(out@ =~= old(out)@ + render_array(a@, before, after));
    }
}

fn write_elements(out: &mut Vec<char>, values: &Vec<TomlValue>)
    ensures
        final(out)@ == old(out)@ + render_elements(crate::document::values_model(values@)),
    decreases values,
{
    let ghost models = crate::document::values_model(values@);
    let mut i: usize = 0;
    proof {
        assert(out@ =~= old(out)@ + render_elements(models.take(0)));
    }
    while i < values.len()
        invariant
            i <= values.len(),
            models == crate::document::values_model(values@),
            out@ == old(out)@ + render_elements(models.take(i as int)),
        decreases values.len() - i,
    {
        let ghost now = out@;
        if i == 0 {
            write_value(out, &values[i], None, None);
        } else {
            out.push(',');
            write_value(out, &values[i], Some(' '), None);
        }
        proof {
            assert(models.take(i + 1).drop_last() =~= models.take(i as int));
            assert(models.take(i + 1).last() == values@[i as int]@);
            assert(out@ =~= old(out)@ + render_elements(models.take(i + 1)));
        }
        i += 1;
    }
    proof {
        assert(models.take(values.len() as int) =~= models);
    }
}

/// Writes an inline table as [`render_inline_table`] defines it.
pub fn write_inline_table(
    out: &mut Vec<char>,
    t: &InlineTable,
    before: Option<char>,
    after: Option<char>,
)
    ensures
        final(out)@ == old(out)@ + render_inline_table(t@, before, after),
    decreases t,
{
    write_decor(out, &t.decor.prefix, before);
    out.push('{');
    write_text(out, t.preamble.as_str());
    let path: Vec<&TomlKey> = Vec::new();
    proof {
        assert(path_model(path@) =~= Seq::<KeyModel>::empty());
    }
    write_inline_children(out, &t.entries, &path, true);
    if inline_ends_open(&t.entries) {
        out.push(' ');
    }
    out.push('}');
    write_decor(out, &t.decor.suffix, after);
    proof {
        assert(out@ =~= old(out)@ + render_inline_table(t@, before, after));
    }
}

/// Writes what stands between the braces, and returns whether still nothing
/// is written after it.
#[verifier::loop_isolation(false)]
fn write_inline_children(
    out: &mut Vec<char>,
    es: &Vec<InlineEntry>,
    path: &Vec<&TomlKey>,
    fresh: bool,
) -> (r: bool)
    ensures
        final(out)@ == old(out)@ + render_inline_children(
            crate::document::inline_entries_model(es@),
            path_model(path@),
            fresh,
        ),
        r == (fresh && !has_leaf(crate::document::inline_entries_model(es@))),
    decreases es,
{
    let ghost models = crate::document::inline_entries_model(es@);
    let ghost p = path_model(path@);
    let mut now_fresh: bool = fresh;
    let mut i: usize = 0;
    proof {
        assert(out@ =~= old(out)@ + Seq::<char>::empty());
    }
    while i < es.len()
        invariant
            i <= es.len(),
            out@ == old(out)@ + render_inline_children(models.take(i as int), p, fresh),
            now_fresh == (fresh && !has_leaf(models.take(i as int))),
        decreases es.len() - i,
    {
        proof {
            assert(models.take(i + 1).drop_last() =~= models.take(i as int));
            assert(models.take(i + 1).last() == es@[i as int]@);
        }
        now_fresh = write_inline_child(out, &es[i], path, now_fresh);
        proof {
            assert(out@ =~= old(out)@ + render_inline_children(models.take(i + 1), p, fresh));
        }
        i += 1;
    }
    proof {
        assert(models.take(es.len() as int) =~= models);
    }
    now_fresh
}

fn write_inline_child(out: &mut Vec<char>, e: &InlineEntry, path: &Vec<&TomlKey>, fresh: bool) -> (r:
    bool)
    ensures
        final(out)@ == old(out)@ + render_inline_child(e@, path_model(path@), fresh),
        r == (fresh && !entry_has_leaf(e@)),
    decreases e,
{
    proof {
        crate::document::lemma_value_view(e.value);
    }
    let deeper = extend_path(path, &e.key);
    match &e.value {
        TomlValue::InlineTable(t) if t.dotted => write_inline_children(out, &t.entries, &deeper, fresh),
        _ => {
            if !fresh {
                out.push(',');
            }
            write_path(out, &deeper, Some(' '), Some(' '));
            out.push('=');
            write_value(out, &e.value, Some(' '), None);
            proof {
                assert(out@ =~= old(out)@ + render_inline_leaf(
                    path_model(path@).push(e.key@),
                    render_value(e.value@, Some(' '), None),
                    fresh,
                ));
            }
            false
        },
    }
}

/// Whether the entries write at least one key and value.
#[verifier::loop_isolation(false)]
fn inline_has_leaf(es: &Vec<InlineEntry>) -> (r: bool)
    ensures
        r == has_leaf(crate::document::inline_entries_model(es@)),
    decreases es,
{
    let ghost models = crate::document::inline_entries_model(es@);
    let mut found: bool = false;
    let mut i: usize = 0;
    while i < es.len()
        invariant
            i <= es.len(),
            found == has_leaf(models.take(i as int)),
        decreases es.len() - i,
    {
        proof {
            assert(models.take(i + 1).drop_last() =~= models.take(i as int));
            assert(models.take(i + 1).last() == es@[i as int]@);
        }
        let here = inline_entry_has_leaf(&es[i]);
        found = found || here;
        i += 1;
    }
    proof {
        assert(models.take(es.len() as int) =~= models);
    }
    found
}

fn inline_entry_has_leaf(e: &InlineEntry) -> (r: bool)
    ensures
        r == entry_has_leaf(e@),
    decreases e,
{
    proof {
        crate::document::lemma_value_view(e.value);
    }
    match &e.value {
        TomlValue::InlineTable(t) if t.dotted => inline_has_leaf(&t.entries),
        _ => true,
    }
}

fn inline_entry_ends_open(e: &InlineEntry) -> (r: bool)
    ensures
        r == entry_ends_open(e@),
    decreases e,
{
    proof {
        crate::document::lemma_value_view(e.value);
    }
    match &e.value {
        TomlValue::InlineTable(t) => {
            if t.dotted {
                inline_ends_open(&t.entries)
            } else {
                t.decor.suffix.is_none()
            }
        },
        TomlValue::Scalar(s) => s.decor.suffix.is_none(),
        TomlValue::Array(a) => a.decor.suffix.is_none(),
    }
}

/// Whether a space is due before the closing brace.
#[verifier::loop_isolation(false)]
fn inline_ends_open(es: &Vec<InlineEntry>) -> (r: bool)
    ensures
        r == ends_open(crate::document::inline_entries_model(es@)),
    decreases es,
{
    let ghost models = crate::document::inline_entries_model(es@);
    let mut i: usize = es.len();
    proof {
        assert(models.take(es.len() as int) =~= models);
    }
    while i > 0
        invariant
            i <= es.len(),
            ends_open(models) == ends_open(models.take(i as int)),
        decreases i,
    {
        proof {
            assert(models.take(i as int).drop_last() =~= models.take(i - 1));
            assert(models.take(i as int).last() == es@[i - 1]@);
            crate::document::lemma_value_view(es@[i - 1].value);
        }
        let e = &es[i - 1];
        if inline_entry_has_leaf(e) {
            let open = inline_entry_ends_open(e);
            return open;
        }
        i -= 1;
    }
    false
}


fn write_line(out: &mut Vec<char>, path: &Vec<&TomlKey>, v: &TomlValue)
    ensures
        final(out)@ == old(out)@ + render_line(path_model(path@), v@),
{
    write_path(out, path, None, Some(' '));
    out.push('=');
    write_value(out, v, Some(' '), None);
    out.push('\n');
    proof {
        assert(out@ =~= old(out)@ + render_line(path_model(path@), v@));
    }
}

fn write_inline_lines(out: &mut Vec<char>, es: &Vec<InlineEntry>, path: &Vec<&TomlKey>)
    ensures
        final(out)@ == old(out)@ + render_inline_lines(
            crate::document::inline_entries_model(es@),
            path_model(path@),
        ),
    decreases es,
{
    let ghost models = crate::document::inline_entries_model(es@);
    let ghost p = path_model(path@);
    let mut i: usize = 0;
    proof {
        assert(out@ =~= old(out)@ + Seq::<char>::empty());
    }
    while i < es.len()
        invariant
            i <= es.len(),
            models == crate::document::inline_entries_model(es@),
            p == path_model(path@),
            out@ == old(out)@ + render_inline_lines(models.take(i as int), p),
        decreases es.len() - i,
    {
        proof {
            assert(models.take(i + 1).drop_last() =~= models.take(i as int));
            assert(models.take(i + 1).last() == es@[i as int]@);
        }
        write_inline_line(out, &es[i], path);
        proof {
            assert(out@ =~= old(out)@ + render_inline_lines(models.take(i + 1), p));
        }
        i += 1;
    }
    proof {
        assert(models.take(es.len() as int) =~= models);
    }
}

fn write_inline_line(out: &mut Vec<char>, e: &InlineEntry, path: &Vec<&TomlKey>)
    ensures
        final(out)@ == old(out)@ + render_inline_line(e@, path_model(path@)),
    decreases e,
{
    proof {
        crate::document::lemma_value_view(e.value);
    }
    let deeper = extend_path(path, &e.key);
    match &e.value {
        TomlValue::InlineTable(t) if t.dotted => write_inline_lines(out, &t.entries, &deeper),
        _ => write_line(out, &deeper, &e.value),
    }
}

/// Writes the lines under a table's header, as [`render_body`] defines them.
fn write_body(out: &mut Vec<char>, es: &Vec<Entry>, path: &Vec<&TomlKey>)
    ensures
        final(out)@ == old(out)@ + render_body(crate::document::entries_model(es@), path_model(path@)),
    decreases es,
{
    let ghost models = crate::document::entries_model(es@);
    let ghost p = path_model(path@);
    let mut i: usize = 0;
    proof {
        assert(out@ =~= old(out)@ + Seq::<char>::empty());
    }
    while i < es.len()
        invariant
            i <= es.len(),
            models == crate::document::entries_model(es@),
            p == path_model(path@),
            out@ == old(out)@ + render_body(models.take(i as int), p),
        decreases es.len() - i,
    {
        proof {
            assert(models.take(i + 1).drop_last() =~= models.take(i as int));
            assert(models.take(i + 1).last() == es@[i as int]@);
        }
        write_body_entry(out, &es[i], path);
        proof {
            assert(out@ =~= old(out)@ + render_body(models.take(i + 1), p));
        }
        i += 1;
    }
    proof {
        assert(models.take(es.len() as int) =~= models);
    }
}

fn write_body_entry(out: &mut Vec<char>, e: &Entry, path: &Vec<&TomlKey>)
    ensures
        final(out)@ == old(out)@ + render_body_entry(e@, path_model(path@)),
    decreases e,
{
    proof {
        crate::document::lemma_item_view(e.item);
    }
    match &e.item {
        TomlItem::Table(t) => {
            proof {
                crate::document::lemma_table_view(*t);
            }
            if t.dotted {
                let deeper = extend_path(path, &e.key);
                write_body(out, &t.entries, &deeper);
            } else {
                assert(out@ =~= old(out)@ + Seq::<char>::empty());
            }
        },
        TomlItem::Value(v) => {
            proof {
                crate::document::lemma_value_view(*v);
            }
            let deeper = extend_path(path, &e.key);
            match v {
                TomlValue::InlineTable(t) if t.dotted => write_inline_lines(out, &t.entries, &deeper),
                _ => write_line(out, &deeper, v),
            }
        },
        _ => {
            assert(out@ =~= old(out)@ + Seq::<char>::empty());
        },
    }
}

/// The text of a table's header and lines, as [`render_block`] defines it.
fn block_chars(t: &TomlTable, path: &Vec<&TomlKey>, in_array: bool) -> (r: Vec<char>)
    ensures
        r@ == render_block(t@, path_model(path@), in_array),
{
    proof {
        crate::document::lemma_table_view(*t);
    }
    let mut lines: Vec<char> = Vec::new();
    let top: Vec<&TomlKey> = Vec::new();
    proof {
        assert(path_model(top@) =~= Seq::<KeyModel>::empty());
    }
    write_body(&mut lines, &t.entries, &top);
    assert(lines@ =~= render_body(t@.entries, Seq::empty()));
    let mut out: Vec<char> = Vec::new();
    if path.len() > 0 && (in_array || !(t.implicit && lines.len() == 0)) {
        write_decor(&mut out, &t.decor.prefix, Some('\n'));
        out.push('[');
        if in_array {
            out.push('[');
        }
        write_path(&mut out, path, None, None);
        out.push(']');
        if in_array {
            out.push(']');
        }
        write_decor(&mut out, &t.decor.suffix, None);
        out.push('\n');
        proof {
            assert(out@ =~= render_header(t@, path_model(path@), in_array));
        }
    }
    write_chars(&mut out, &lines);
    out
}

/// The position that decides where a block is printed.
pub struct Position(pub usize);

impl SortKey for Position {
    open spec fn before(&self, other: &Self) -> bool {
        self.0 < other.0
    }

    fn is_before(&self, other: &Self) -> (r: bool) {
        self.0 < other.0
    }
}

/// The model of a block: its position and its text.
pub open spec fn block_model(b: (Position, Vec<char>)) -> (usize, Seq<char>) {
    (b.0.0, b.1@)
}

/// The models of blocks, one for one.
pub open spec fn blocks_model(bs: Seq<(Position, Vec<char>)>) -> Seq<(usize, Seq<char>)> {
    bs.map_values(|b: (Position, Vec<char>)| block_model(b))
}

fn collect_table(
    blocks: &mut Vec<(Position, Vec<char>)>,
    t: &TomlTable,
    path: &Vec<&TomlKey>,
    in_array: bool,
    last: usize,
) -> (r: usize)
    ensures
        blocks_model(final(blocks)@) == blocks_model(old(blocks)@) + blocks_of_table(
            t@,
            path_model(path@),
            in_array,
            last,
        ).0,
        r == blocks_of_table(t@, path_model(path@), in_array, last).1,
    decreases t,
{
    proof {
        crate::document::lemma_table_view(*t);
    }
    let position: usize = match t.position {
        Some(p) => p,
        None => last,
    };
    let text = block_chars(t, path, in_array);
    blocks.push((Position(position), text));
    proof {
        assert(blocks_model(blocks@) =~= blocks_model(old(blocks)@) + seq![
            (position, render_block(t@, path_model(path@), in_array)),
        ]);
    }
    let r = collect_entries(blocks, &t.entries, path, position);
    proof {
        assert(blocks_model(blocks@) =~= blocks_model(old(blocks)@) + blocks_of_table(
            t@,
            path_model(path@),
            in_array,
            last,
        ).0);
    }
    r
}

fn collect_entries(
    blocks: &mut Vec<(Position, Vec<char>)>,
    es: &Vec<Entry>,
    path: &Vec<&TomlKey>,
    last: usize,
) -> (r: usize)
    ensures
        blocks_model(final(blocks)@) == blocks_model(old(blocks)@) + blocks_of_entries(
            crate::document::entries_model(es@),
            path_model(path@),
            last,
        ).0,
        r == blocks_of_entries(crate::document::entries_model(es@), path_model(path@), last).1,
    decreases es,
{
    let ghost models = crate::document::entries_model(es@);
    let ghost p = path_model(path@);
    let mut now: usize = last;
    let mut i: usize = 0;
    proof {
        assert(blocks_model(blocks@) =~= blocks_model(old(blocks)@) + Seq::empty());
    }
    while i < es.len()
        invariant
            i <= es.len(),
            models == crate::document::entries_model(es@),
            p == path_model(path@),
            blocks_model(blocks@) == blocks_model(old(blocks)@) + blocks_of_entries(
                models.take(i as int),
                p,
                last,
            ).0,
            now == blocks_of_entries(models.take(i as int), p, last).1,
        decreases es.len() - i,
    {
        proof {
            assert(models.take(i + 1).drop_last() =~= models.take(i as int));
            assert(models.take(i + 1).last() == es@[i as int]@);
        }
        now = collect_entry(blocks, &es[i], path, now);
        proof {
            assert(blocks_model(blocks@) =~= blocks_model(old(blocks)@) + blocks_of_entries(
                models.take(i + 1),
                p,
                last,
            ).0);
        }
        i += 1;
    }
    proof {
        assert(models.take(es.len() as int) =~= models);
    }
    now
}

fn collect_entry(
    blocks: &mut Vec<(Position, Vec<char>)>,
    e: &Entry,
    path: &Vec<&TomlKey>,
    last: usize,
) -> (r: usize)
    ensures
        blocks_model(final(blocks)@) == blocks_model(old(blocks)@) + blocks_of_entry(
            e@,
            path_model(path@),
            last,
        ).0,
        r == blocks_of_entry(e@, path_model(path@), last).1,
    decreases e,
{
    proof {
        crate::document::lemma_item_view(e.item);
    }
    match &e.item {
        TomlItem::Table(t) => {
            proof {
                crate::document::lemma_table_view(*t);
            }
            if t.dotted {
                assert(blocks_model(blocks@) =~= blocks_model(old(blocks)@) + Seq::empty());
                last
            } else {
                let deeper = extend_path(path, &e.key);
                collect_table(blocks, t, &deeper, false, last)
            }
        },
        TomlItem::ArrayOfTables(ts) => {
            let deeper = extend_path(path, &e.key);
            collect_tables(blocks, ts, &deeper, last)
        },
        _ => {
            assert(blocks_model(blocks@) =~= blocks_model(old(blocks)@) + Seq::empty());
            last
        },
    }
}

fn collect_tables(
    blocks: &mut Vec<(Position, Vec<char>)>,
    ts: &Vec<TomlTable>,
    path: &Vec<&TomlKey>,
    last: usize,
) -> (r: usize)
    ensures
        blocks_model(final(blocks)@) == blocks_model(old(blocks)@) + blocks_of_tables(
            crate::document::tables_model(ts@),
            path_model(path@),
            last,
        ).0,
        r == blocks_of_tables(crate::document::tables_model(ts@), path_model(path@), last).1,
    decreases ts,
{
    let ghost models = crate::document::tables_model(ts@);
    let ghost p = path_model(path@);
    let mut now: usize = last;
    let mut i: usize = 0;
    proof {
        assert(blocks_model(blocks@) =~= blocks_model(old(blocks)@) + Seq::empty());
    }
    while i < ts.len()
        invariant
            i <= ts.len(),
            models == crate::document::tables_model(ts@),
            p == path_model(path@),
            blocks_model(blocks@) == blocks_model(old(blocks)@) + blocks_of_tables(
                models.take(i as int),
                p,
                last,
            ).0,
            now == blocks_of_tables(models.take(i as int), p, last).1,
        decreases ts.len() - i,
    {
        proof {
            assert(models.take(i + 1).drop_last() =~= models.take(i as int));
            assert(models.take(i + 1).last() == ts@[i as int]@);
        }
        now = collect_table(blocks, &ts[i], path, true, now);
        proof {
            assert(blocks_model(blocks@) =~= blocks_model(old(blocks)@) + blocks_of_tables(
                models.take(i + 1),
                p,
                last,
            ).0);
        }
        i += 1;
    }
    proof {
        assert(models.take(ts.len() as int) =~= models);
    }
    now
}

impl TomlDocument {
    /// The text of the document.
    pub fn to_string(&self) -> (r: String)
        ensures
            r@ == render_document(self@),
    {
        let mut blocks: Vec<(Position, Vec<char>)> = Vec::new();
        let top: Vec<&TomlKey> = Vec::new();
        proof {
            assert(path_model(top@) =~= Seq::<KeyModel>::empty());
            assert(blocks_model(blocks@) =~= Seq::empty());
        }
        let _ = collect_table(&mut blocks, &self.root, &top, false, 0);
        let ghost collected = blocks@;
        proof {
            assert(blocks_model(collected) =~= blocks_of_table(
                self@.root,
                Seq::empty(),
                false,
                0,
            ).0);
        }
        let sorted = sort_by_key(blocks);
        proof {
            lemma_sort_map(
                collected,
                crate::sorting::by_key::<Position, Vec<char>>(),
                |b: (Position, Vec<char>)| block_model(b),
                by_position(),
                |b: (Position, Vec<char>)| true,
            );
        }
        let ghost models = blocks_model(sorted@);
        let mut out: Vec<char> = Vec::new();
        let mut i: usize = 0;
        while i < sorted.len()
            invariant
                i <= sorted.len(),
                models == blocks_model(sorted@),
                out@ == concat_blocks(models.take(i as int)),
            decreases sorted.len() - i,
        {
            proof {
                assert(models.take(i + 1).drop_last() =~= models.take(i as int));
                assert(models.take(i + 1).last() == block_model(sorted@[i as int]));
            }
            write_chars(&mut out, &sorted[i].1);
            i += 1;
        }
        proof {
            assert(models.take(sorted.len() as int) =~= models);
        }
        write_text(&mut out, self.trailing.as_str());
        from_chars(&out)
    }
}

impl Array {
    /// The text of the array, with its own decor and no defaults around it.
    pub fn to_string(&self) -> (r: String)
        ensures
            r@ == render_array(self@, None, None),
    {
        let mut out: Vec<char> = Vec::new();
        write_array(&mut out, self, None, None);
        from_chars(&out)
    }
}

impl InlineTable {
    /// The text of the table, with its own decor and no defaults around it.
    pub fn to_string(&self) -> (r: String)
        ensures
            r@ == render_inline_table(self@, None, None),
    {
        let mut out: Vec<char> = Vec::new();
        write_inline_table(&mut out, self, None, None);
        from_chars(&out)
    }
}

} // verus!
