//! How long an item is: the measure by which dependencies are sorted.

use vstd::prelude::*;
use vstd::string::StrSliceExecFns;
use crate::document::{
    entries_model, inline_entries_model, lemma_item_view, lemma_table_view, lemma_value_view,
    tables_model, values_model, Entry, EntryModel, InlineEntry, InlineEntryModel, ItemModel,
    ScalarKind, TableModel, TomlItem, TomlTable, TomlValue, ValueModel,
};

verus! {

/// The length of a value: of a string the number of its characters, of
/// another scalar the number of characters it is written with, of an array
/// the sum over its elements, of an inline table the sum over its keys and
/// values.
pub open spec fn value_length(v: ValueModel) -> nat
    decreases v,
{
    match v {
        ValueModel::Scalar(s) => if s.kind == ScalarKind::String {
            s.value.len()
        } else {
            s.repr.len()
        },
        ValueModel::Array(a) => values_length(a.values),
        ValueModel::InlineTable(t) => inline_entries_length(t.entries, 0),
    }
}

/// The sum over the elements of an array.
pub open spec fn values_length(vs: Seq<ValueModel>) -> nat
    decreases vs,
{
    if vs.len() == 0 {
        0
    } else {
        values_length(vs.drop_last()) + value_length(vs.last())
    }
}

/// The sum over the keys and values of an inline table. A value under
/// dotted keys counts with every key of its path; `path` is the length of
/// the keys that lead here.
pub open spec fn inline_entries_length(es: Seq<InlineEntryModel>, path: nat) -> nat
    decreases es,
{
    if es.len() == 0 {
        0
    } else {
        inline_entries_length(es.drop_last(), path) + inline_entry_length(es.last(), path)
    }
}

/// The length of an entry of an inline table: its keys and its value.
pub open spec fn inline_entry_length(e: InlineEntryModel, path: nat) -> nat
    decreases e,
{
    match e.value {
        ValueModel::InlineTable(t) => if t.dotted {
            inline_entries_length(t.entries, path + e.key.name.len())
        } else {
            path + e.key.name.len() + value_length(e.value)
        },
        _ => path + e.key.name.len() + value_length(e.value),
    }
}

/// The sum over the keys and values of a table. Tables under it do not
/// count, unless they only carry dotted keys.
pub open spec fn entries_length(es: Seq<EntryModel>, path: nat) -> nat
    decreases es,
{
    if es.len() == 0 {
        0
    } else {
        entries_length(es.drop_last(), path) + entry_length(es.last(), path)
    }
}

/// The length of an entry of a table: its keys and its value; nothing for
/// a table that is no carrier of dotted keys.
pub open spec fn entry_length(e: EntryModel, path: nat) -> nat
    decreases e,
{
    match e.item {
        ItemModel::Table(t) => if t.dotted {
            entries_length(t.entries, path + e.key.name.len())
        } else {
            0
        },
        ItemModel::Value(v) => match v {
            ValueModel::InlineTable(t) => if t.dotted {
                inline_entries_length(t.entries, path + e.key.name.len())
            } else {
                path + e.key.name.len() + value_length(v)
            },
            _ => path + e.key.name.len() + value_length(v),
        },
        _ => 0,
    }
}

/// The sum over the tables of an array of tables.
pub open spec fn tables_length(ts: Seq<TableModel>) -> nat
    decreases ts,
{
    if ts.len() == 0 {
        0
    } else {
        tables_length(ts.drop_last()) + entries_length(ts.last().entries, 0)
    }
}

/// The length of an item: nothing for none, of a table the sum over its
/// keys and values, of an array of tables the sum over its tables.
pub open spec fn item_length(item: ItemModel) -> nat {
    match item {
        ItemModel::Absent => 0,
        ItemModel::Value(v) => value_length(v),
        ItemModel::Table(t) => entries_length(t.entries, 0),
        ItemModel::ArrayOfTables(ts) => tables_length(ts),
    }
}

/// A length as a `usize` holds it: the largest `usize` stands for
/// anything beyond it.
pub open spec fn clamp(n: nat) -> usize {
    if n > usize::MAX {
        usize::MAX
    } else {
        n as usize
    }
}

/// The sum of two lengths, as [`clamp`] holds it.
pub fn add_lengths(a: usize, b: usize) -> (r: usize)
    ensures
        r == clamp((a + b) as nat),
{
    if a > usize::MAX - b {
        usize::MAX
    } else {
        a + b
    }
}

#[verifier::loop_isolation(false)]
fn value_len(v: &TomlValue) -> (r: usize)
    ensures
        r == clamp(value_length(v@)),
    decreases v,
{
    proof {
        lemma_value_view(*v);
    }
    match v {
        TomlValue::Scalar(s) => match s.kind {
            ScalarKind::String => s.value.as_str().unicode_len(),
            _ => s.repr.as_str().unicode_len(),
        },
        TomlValue::Array(a) => {
            let ghost models = values_model(a.values@);
            let mut total: usize = 0;
            let mut i: usize = 0;
            while i < a.values.len()
                invariant
                    i <= a.values.len(),
                    models == values_model(a.values@),
                    total == clamp(values_length(models.take(i as int))),
                decreases a.values.len() - i,
            {
                proof {
                    assert(models.take(i + 1).drop_last() =~= models.take(i as int));
                    assert(models.take(i + 1).last() == a.values@[i as int]@);
                }
                total = add_lengths(total, value_len(&a.values[i]));
                i += 1;
            }
            proof {
                assert(models.take(a.values.len() as int) =~= models);
            }
            total
        },
        TomlValue::InlineTable(t) => inline_entries_len(&t.entries, 0, Ghost(0)),
    }
}

fn inline_entries_len(es: &Vec<InlineEntry>, path: usize, Ghost(p): Ghost<nat>) -> (r: usize)
    requires
        path == clamp(p),
    ensures
        r == clamp(inline_entries_length(inline_entries_model(es@), p)),
    decreases es,
{
    let ghost models = inline_entries_model(es@);
    let mut total: usize = 0;
    let mut i: usize = 0;
    while i < es.len()
        invariant
            i <= es.len(),
            path == clamp(p),
            models == inline_entries_model(es@),
            total == clamp(inline_entries_length(models.take(i as int), p)),
        decreases es.len() - i,
    {
        proof {
            assert(models.take(i + 1).drop_last() =~= models.take(i as int));
            assert(models.take(i + 1).last() == es@[i as int]@);
        }
        total = add_lengths(total, inline_entry_len(&es[i], path, Ghost(p)));
        i += 1;
    }
    proof {
        assert(models.take(es.len() as int) =~= models);
    }
    total
}

fn inline_entry_len(e: &InlineEntry, path: usize, Ghost(p): Ghost<nat>) -> (r: usize)
    requires
        path == clamp(p),
    ensures
        r == clamp(inline_entry_length(e@, p)),
    decreases e,
{
    proof {
        lemma_value_view(e.value);
    }
    let key_len = e.key.name.as_str().unicode_len();
    let deeper = add_lengths(path, key_len);
    match &e.value {
        TomlValue::InlineTable(t) => {
            if t.dotted {
                inline_entries_len(&t.entries, deeper, Ghost(p + e.key@.name.len()))
            } else {
                add_lengths(deeper, value_len(&e.value))
            }
        },
        _ => add_lengths(deeper, value_len(&e.value)),
    }
}

fn entries_len(es: &Vec<Entry>, path: usize, Ghost(p): Ghost<nat>) -> (r: usize)
    requires
        path == clamp(p),
    ensures
        r == clamp(entries_length(entries_model(es@), p)),
    decreases es,
{
    let ghost models = entries_model(es@);
    let mut total: usize = 0;
    let mut i: usize = 0;
    while i < es.len()
        invariant
            i <= es.len(),
            path == clamp(p),
            models == entries_model(es@),
            total == clamp(entries_length(models.take(i as int), p)),
        decreases es.len() - i,
    {
        proof {
            assert(models.take(i + 1).drop_last() =~= models.take(i as int));
            assert(models.take(i + 1).last() == es@[i as int]@);
        }
        total = add_lengths(total, entry_len(&es[i], path, Ghost(p)));
        i += 1;
    }
    proof {
        assert(models.take(es.len() as int) =~= models);
    }
    total
}

fn entry_len(e: &Entry, path: usize, Ghost(p): Ghost<nat>) -> (r: usize)
    requires
        path == clamp(p),
    ensures
        r == clamp(entry_length(e@, p)),
    decreases e,
{
    proof {
        lemma_item_view(e.item);
    }
    let key_len = e.key.name.as_str().unicode_len();
    let deeper = add_lengths(path, key_len);
    match &e.item {
        TomlItem::Table(t) => {
            proof {
                lemma_table_view(*t);
            }
            if t.dotted {
                entries_len(&t.entries, deeper, Ghost(p + e.key@.name.len()))
            } else {
                0
            }
        },
        TomlItem::Value(v) => {
            proof {
                lemma_value_view(*v);
            }
            match v {
                TomlValue::InlineTable(t) => {
                    if t.dotted {
                        inline_entries_len(&t.entries, deeper, Ghost(p + e.key@.name.len()))
                    } else {
                        add_lengths(deeper, value_len(v))
                    }
                },
                _ => add_lengths(deeper, value_len(v)),
            }
        },
        _ => 0,
    }
}

/// The length of a table: the sum over its keys and values.
pub fn table_len(table: &TomlTable) -> (r: usize)
    ensures
        r == clamp(entries_length(table@.entries, 0)),
{
    proof {
        lemma_table_view(*table);
    }
    entries_len(&table.entries, 0, Ghost(0))
}

/// The length of an item, as [`item_length`] defines it.
pub fn item_len(item: &TomlItem) -> (r: usize)
    ensures
        r == clamp(item_length(item@)),
{
    proof {
        lemma_item_view(*item);
    }
    match item {
        TomlItem::Absent => 0,
        TomlItem::Value(v) => value_len(v),
        TomlItem::Table(t) => table_len(t),
        TomlItem::ArrayOfTables(ts) => {
            let ghost models = tables_model(ts@);
            let mut total: usize = 0;
            let mut i: usize = 0;
            while i < ts.len()
                invariant
                    i <= ts.len(),
                    models == tables_model(ts@),
                    total == clamp(tables_length(models.take(i as int))),
                decreases ts.len() - i,
            {
                proof {
                    assert(models.take(i + 1).drop_last() =~= models.take(i as int));
                    assert(models.take(i + 1).last() == ts@[i as int]@);
                }
                total = add_lengths(total, table_len(&ts[i]));
                i += 1;
            }
            proof {
                assert(models.take(ts.len() as int) =~= models);
            }
            total
        },
    }
}

} // verus!
