//! The positions of the tables of a document, and what the ordering of
//! sections makes of them.

use vstd::prelude::*;
use crate::document::{EntryModel, ItemModel, TableModel};
use crate::ordering::{numbered_entries, numbered_entry, numbered_table, numbered_tables};

verus! {

/// The positions of a table and of the tables under it, in the order of
/// the tree.
pub open spec fn table_positions(t: TableModel) -> Seq<usize>
    decreases t,
{
    (match t.position {
        Some(p) => seq![p],
        None => Seq::empty(),
    }) + entries_positions(t.entries)
}

/// The positions of the tables among the entries of a table.
pub open spec fn entries_positions(es: Seq<EntryModel>) -> Seq<usize>
    decreases es,
{
    if es.len() == 0 {
        Seq::empty()
    } else {
        entries_positions(es.drop_last()) + entry_positions(es.last())
    }
}

/// The positions of the table or tables of an entry.
pub open spec fn entry_positions(e: EntryModel) -> Seq<usize>
    decreases e,
{
    match e.item {
        ItemModel::Table(t) => table_positions(t),
        ItemModel::ArrayOfTables(ts) => tables_positions(ts),
        _ => Seq::empty(),
    }
}

/// The positions of the tables of an array of tables.
pub open spec fn tables_positions(ts: Seq<TableModel>) -> Seq<usize>
    decreases ts,
{
    if ts.len() == 0 {
        Seq::empty()
    } else {
        tables_positions(ts.drop_last()) + table_positions(ts.last())
    }
}

/// The numbers after `from` up to `to`, in order.
pub open spec fn counted(from: usize, to: usize) -> Seq<usize> {
    Seq::new((to - from) as nat, |i: int| (from + 1 + i) as usize)
}

pub proof fn lemma_counted_on(from: usize, mid: usize, to: usize)
    requires
        from <= mid <= to,
    ensures
        counted(from, mid) + counted(mid, to) =~= counted(from, to),
{
}

pub proof fn lemma_table_positions(t: TableModel, next: usize, under: Option<bool>)
    requires
        numbered_table(t, next, under) is Some,
    ensures
        next <= numbered_table(t, next, under)->Some_0.1,
        table_positions(numbered_table(t, next, under)->Some_0.0) == counted(
            next,
            numbered_table(t, next, under)->Some_0.1,
        ),
    decreases t,
{
    let mine: usize = if t.position is Some {
        (next + 1) as usize
    } else {
        next
    };
    lemma_entries_positions(t.entries, mine, Some(t.position is Some));
    let r = numbered_entries(t.entries, mine, Some(t.position is Some))->Some_0;
    if t.position is Some {
        assert(seq![mine] =~= counted(next, mine));
    } else {
        assert(Seq::<usize>::empty() =~= counted(next, mine));
    }
    lemma_counted_on(next, mine, r.1);
}

pub proof fn lemma_entries_positions(es: Seq<EntryModel>, next: usize, under: Option<bool>)
    requires
        numbered_entries(es, next, under) is Some,
    ensures
        next <= numbered_entries(es, next, under)->Some_0.1,
        entries_positions(numbered_entries(es, next, under)->Some_0.0) == counted(
            next,
            numbered_entries(es, next, under)->Some_0.1,
        ),
    decreases es,
{
    if es.len() == 0 {
        assert(Seq::<usize>::empty() =~= counted(next, next));
    } else {
        let head = numbered_entries(es.drop_last(), next, under)->Some_0;
        lemma_entries_positions(es.drop_last(), next, under);
        lemma_entry_positions(es.last(), head.1, under);
        let last = numbered_entry(es.last(), head.1, under)->Some_0;
        assert(head.0.push(last.0).drop_last() =~= head.0);
        lemma_counted_on(next, head.1, last.1);
    }
}

pub proof fn lemma_entry_positions(e: EntryModel, next: usize, under: Option<bool>)
    requires
        numbered_entry(e, next, under) is Some,
    ensures
        next <= numbered_entry(e, next, under)->Some_0.1,
        entry_positions(numbered_entry(e, next, under)->Some_0.0) == counted(
            next,
            numbered_entry(e, next, under)->Some_0.1,
        ),
    decreases e,
{
    match e.item {
        ItemModel::Table(t) => {
            lemma_table_positions(t, next, under);
        },
        ItemModel::ArrayOfTables(ts) => {
            lemma_tables_positions(ts, next);
        },
        _ => {
            assert(Seq::<usize>::empty() =~= counted(next, next));
        },
    }
}

pub proof fn lemma_tables_positions(ts: Seq<TableModel>, next: usize)
    requires
        numbered_tables(ts, next) is Some,
    ensures
        next <= numbered_tables(ts, next)->Some_0.1,
        tables_positions(numbered_tables(ts, next)->Some_0.0) == counted(
            next,
            numbered_tables(ts, next)->Some_0.1,
        ),
    decreases ts,
{
    if ts.len() == 0 {
        assert(Seq::<usize>::empty() =~= counted(next, next));
    } else {
        let head = numbered_tables(ts.drop_last(), next)->Some_0;
        lemma_tables_positions(ts.drop_last(), next);
        lemma_table_positions(ts.last(), head.1, None);
        let last = numbered_table(ts.last(), head.1, None)->Some_0;
        assert(head.0.push(last.0).drop_last() =~= head.0);
        lemma_counted_on(next, head.1, last.1);
    }
}

} // verus!
