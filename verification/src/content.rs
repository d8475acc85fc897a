//! What a document holds, apart from how it is written: every key path
//! with what stands under it.

use vstd::multiset::Multiset;
use vstd::prelude::*;
use crate::document::{
    DocumentModel, EntryModel, InlineEntryModel, ItemModel, ScalarKind, TableModel, ValueModel,
};
use crate::sorting::{insert_stable, stable_sort};

verus! {

/// A step of a path: into a table by a key, into an array by an index.
pub enum Step {
    Key(Seq<char>),
    Index(int),
}

/// The way to something in a document.
pub type Path = Seq<Step>;

/// What stands at the end of a path: a scalar by kind, meaning and written
/// form; an array by its length; or a table, inline or not.
pub enum Held {
    Scalar(ScalarKind, Seq<char>, Seq<char>),
    Array(nat),
    Table,
}

/// What a document holds: every path with what stands at its end.
pub type Contents = Multiset<(Path, Held)>;

/// The contents of a place that holds one thing.
pub open spec fn one(path: Path, held: Held) -> Contents {
    Multiset::singleton((path, held))
}

/// The contents of a value that stands at `path`.
pub open spec fn value_contents(v: ValueModel, path: Path) -> Contents
    decreases v,
{
    match v {
        ValueModel::Scalar(s) => one(path, Held::Scalar(s.kind, s.value, s.repr)),
        ValueModel::Array(a) => one(path, Held::Array(a.values.len())).add(
            values_contents(a.values, path),
        ),
        ValueModel::InlineTable(t) => one(path, Held::Table).add(
            inline_entries_contents(t.entries, path),
        ),
    }
}

/// The contents of the elements of an array, each under its index.
pub open spec fn values_contents(vs: Seq<ValueModel>, path: Path) -> Contents
    decreases vs,
{
    if vs.len() == 0 {
        Multiset::empty()
    } else {
        values_contents(vs.drop_last(), path).add(
            value_contents(vs.last(), path.push(Step::Index(vs.len() - 1))),
        )
    }
}

/// The contents of the entries of an inline table.
pub open spec fn inline_entries_contents(es: Seq<InlineEntryModel>, path: Path) -> Contents
    decreases es,
{
    if es.len() == 0 {
        Multiset::empty()
    } else {
        inline_entries_contents(es.drop_last(), path).add(inline_entry_contents(es.last(), path))
    }
}

/// The contents of an entry of an inline table, under its key.
pub open spec fn inline_entry_contents(e: InlineEntryModel, path: Path) -> Contents
    decreases e,
{
    value_contents(e.value, path.push(Step::Key(e.key.name)))
}

/// The contents of a table that stands at `path`.
pub open spec fn table_contents(t: TableModel, path: Path) -> Contents
    decreases t,
{
    one(path, Held::Table).add(entries_contents(t.entries, path))
}

/// The contents of the entries of a table.
pub open spec fn entries_contents(es: Seq<EntryModel>, path: Path) -> Contents
    decreases es,
{
    if es.len() == 0 {
        Multiset::empty()
    } else {
        entries_contents(es.drop_last(), path).add(entry_contents(es.last(), path))
    }
}

/// The contents of an entry of a table, under its key.
pub open spec fn entry_contents(e: EntryModel, path: Path) -> Contents
    decreases e,
{
    match e.item {
        ItemModel::Absent => Multiset::empty(),
        ItemModel::Value(v) => value_contents(v, path.push(Step::Key(e.key.name))),
        ItemModel::Table(t) => table_contents(t, path.push(Step::Key(e.key.name))),
        ItemModel::ArrayOfTables(ts) => one(
            path.push(Step::Key(e.key.name)),
            Held::Array(ts.len()),
        ).add(tables_contents(ts, path.push(Step::Key(e.key.name)))),
    }
}

/// The contents of the tables of an array of tables, each under its index.
pub open spec fn tables_contents(ts: Seq<TableModel>, path: Path) -> Contents
    decreases ts,
{
    if ts.len() == 0 {
        Multiset::empty()
    } else {
        tables_contents(ts.drop_last(), path).add(
            table_contents(ts.last(), path.push(Step::Index(ts.len() - 1))),
        )
    }
}

/// The contents of a document: of every key path what stands under it.
pub open spec fn document_contents(d: DocumentModel) -> Contents {
    entries_contents(d.root.entries, Seq::empty())
}

/// Entries that agree one by one have the same contents.
pub proof fn lemma_entries_alike(a: Seq<EntryModel>, b: Seq<EntryModel>, path: Path)
    requires
        a.len() == b.len(),
        forall|i: int| 0 <= i < a.len() ==> entry_contents(a[i], path) == entry_contents(b[i], path),
    ensures
        entries_contents(a, path) == entries_contents(b, path),
    decreases a.len(),
{
    if a.len() > 0 {
        lemma_entries_alike(a.drop_last(), b.drop_last(), path);
    }
}

pub proof fn lemma_inline_entries_alike(
    a: Seq<InlineEntryModel>,
    b: Seq<InlineEntryModel>,
    path: Path,
)
    requires
        a.len() == b.len(),
        forall|i: int|
            0 <= i < a.len() ==> inline_entry_contents(a[i], path) == inline_entry_contents(
                b[i],
                path,
            ),
    ensures
        inline_entries_contents(a, path) == inline_entries_contents(b, path),
    decreases a.len(),
{
    if a.len() > 0 {
        lemma_inline_entries_alike(a.drop_last(), b.drop_last(), path);
    }
}

pub proof fn lemma_values_alike(a: Seq<ValueModel>, b: Seq<ValueModel>, path: Path)
    requires
        a.len() == b.len(),
        forall|i: int|
            0 <= i < a.len() ==> value_contents(a[i], path.push(Step::Index(i))) == value_contents(
                b[i],
                path.push(Step::Index(i)),
            ),
    ensures
        values_contents(a, path) == values_contents(b, path),
    decreases a.len(),
{
    if a.len() > 0 {
        lemma_values_alike(a.drop_last(), b.drop_last(), path);
    }
}

pub proof fn lemma_tables_alike(a: Seq<TableModel>, b: Seq<TableModel>, path: Path)
    requires
        a.len() == b.len(),
        forall|i: int|
            0 <= i < a.len() ==> table_contents(a[i], path.push(Step::Index(i))) == table_contents(
                b[i],
                path.push(Step::Index(i)),
            ),
    ensures
        tables_contents(a, path) == tables_contents(b, path),
    decreases a.len(),
{
    if a.len() > 0 {
        lemma_tables_alike(a.drop_last(), b.drop_last(), path);
    }
}

/// The contents of entries one after the other are the contents of both.
pub proof fn lemma_entries_joined(a: Seq<EntryModel>, b: Seq<EntryModel>, path: Path)
    ensures
        entries_contents(a + b, path) == entries_contents(a, path).add(entries_contents(b, path)),
    decreases b.len(),
{
    if b.len() == 0 {
        assert(a + b =~= a);
        assert(entries_contents(a, path).add(Multiset::empty()) =~= entries_contents(a, path));
    } else {
        lemma_entries_joined(a, b.drop_last(), path);
        assert((a + b).drop_last() =~= a + b.drop_last());
        assert(entries_contents(a, path).add(entries_contents(b.drop_last(), path)).add(
            entry_contents(b.last(), path),
        ) =~= entries_contents(a, path).add(entries_contents(b, path)));
    }
}

pub proof fn lemma_entry_inserted(
    s: Seq<EntryModel>,
    x: EntryModel,
    before: spec_fn(EntryModel, EntryModel) -> bool,
    path: Path,
)
    ensures
        entries_contents(insert_stable(s, x, before), path) == entries_contents(s, path).add(
            entry_contents(x, path),
        ),
    decreases s.len(),
{
    if s.len() > 0 && before(x, s.last()) {
        lemma_entry_inserted(s.drop_last(), x, before, path);
        let r = insert_stable(s.drop_last(), x, before).push(s.last());
        assert(r.drop_last() =~= insert_stable(s.drop_last(), x, before));
        assert(entries_contents(s.drop_last(), path).add(entry_contents(x, path)).add(
            entry_contents(s.last(), path),
        ) =~= entries_contents(s, path).add(entry_contents(x, path)));
    } else {
        assert(s.push(x).drop_last() =~= s);
    }
}

/// Sorting the entries of a table changes nothing of its contents.
pub proof fn lemma_entries_sorted(
    s: Seq<EntryModel>,
    before: spec_fn(EntryModel, EntryModel) -> bool,
    path: Path,
)
    ensures
        entries_contents(stable_sort(s, before), path) == entries_contents(s, path),
    decreases s.len(),
{
    if s.len() > 0 {
        lemma_entries_sorted(s.drop_last(), before, path);
        lemma_entry_inserted(stable_sort(s.drop_last(), before), s.last(), before, path);
    }
}

pub proof fn lemma_inline_entry_inserted(
    s: Seq<InlineEntryModel>,
    x: InlineEntryModel,
    before: spec_fn(InlineEntryModel, InlineEntryModel) -> bool,
    path: Path,
)
    ensures
        inline_entries_contents(insert_stable(s, x, before), path) == inline_entries_contents(
            s,
            path,
        ).add(inline_entry_contents(x, path)),
    decreases s.len(),
{
    if s.len() > 0 && before(x, s.last()) {
        lemma_inline_entry_inserted(s.drop_last(), x, before, path);
        let r = insert_stable(s.drop_last(), x, before).push(s.last());
        assert(r.drop_last() =~= insert_stable(s.drop_last(), x, before));
        assert(inline_entries_contents(s.drop_last(), path).add(
            inline_entry_contents(x, path),
        ).add(inline_entry_contents(s.last(), path)) =~= inline_entries_contents(s, path).add(
            inline_entry_contents(x, path),
        ));
    } else {
        assert(s.push(x).drop_last() =~= s);
    }
}

pub proof fn lemma_inline_entries_sorted(
    s: Seq<InlineEntryModel>,
    before: spec_fn(InlineEntryModel, InlineEntryModel) -> bool,
    path: Path,
)
    ensures
        inline_entries_contents(stable_sort(s, before), path) == inline_entries_contents(s, path),
    decreases s.len(),
{
    if s.len() > 0 {
        lemma_inline_entries_sorted(s.drop_last(), before, path);
        lemma_inline_entry_inserted(stable_sort(s.drop_last(), before), s.last(), before, path);
    }
}

} // verus!
