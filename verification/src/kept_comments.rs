//! Every formatting rule keeps the comments of a document: the lemmas, rule
//! by rule.

use vstd::multiset::Multiset;
use vstd::prelude::*;
use crate::comments::{
    entries_comments, entry_comments, lemma_comments_alike,
    lemma_comments_joined, lemma_comments_sorted, lemma_table_comments_alike, noted,
    table_comments, tables_comments,
};
use crate::content::{Path, Step};
use crate::document::{
    DecorModel, EntryModel, InlineEntryModel, InlineTableModel, ItemModel, KeyModel, TableModel,
    ValueModel,
};
use crate::formatting::{
    formatted_entry, formatted_table, no_decor, or_empty, placed_entry,
    placed_inline_entry, promoted_decor, promoted_entry, split_entries, split_inline_entries,
    unquoted_entry, unquoted_table, wrapped_table, AppendLineAfterOpening, InlineTableWrapAt,
    KeyQuoteTrimmer, KeyTrimmer, SectionKeyNameTrimmer, TableFormatting, WrapArrayAt,
};
use crate::comments::{lemma_comment_of_trimmed_lines, lemma_comment_put_back};
use crate::ordering::{
    alphabetical_before, dependency_before, finished_group, group_before, grouping,
    numbered_entries, numbered_entry, numbered_table, numbered_tables, ordered_entries,
    ordered_entry, ordered_item, ordered_table, package_before, with_groups_in_order,
    with_package_in_order, with_prefix, with_sorted_dependencies,
};
use crate::sorting::{lemma_sort_permutes, stable_sort};
use crate::toml_config::ConfigModel;
use crate::{has_section, map_entry, map_sections, map_tables, SectionRule};

verus! {

/// A rule for sections keeps the comments if it keeps the name of the key
/// and the comments of the table, wherever the table stands.
pub open spec fn keeps_comments<R: SectionRule>(rule: R) -> bool {
    forall|key: KeyModel, t: TableModel, first: bool, path: Path|
        rule.section(key, t, first).0.name == key.name && #[trigger] table_comments(
            rule.section(key, t, first).1,
            path,
        ) == table_comments(t, path)
}

pub proof fn lemma_mapped_table_comments<R: SectionRule>(
    rule: R,
    key: KeyModel,
    ts: Seq<TableModel>,
    first: bool,
    path: Path,
)
    requires
        keeps_comments(rule),
    ensures
        map_tables(rule, key, ts, first).0.name == key.name,
        tables_comments(map_tables(rule, key, ts, first).1, path) == tables_comments(ts, path),
        map_tables(rule, key, ts, first).1.len() == ts.len(),
    decreases ts.len(),
{
    if ts.len() > 0 {
        lemma_mapped_table_comments(rule, key, ts.drop_last(), first, path);
        let head = map_tables(rule, key, ts.drop_last(), first);
        let last = rule.section(head.0, ts.last(), first && ts.len() == 1);
        let p = path.push(Step::Index(ts.len() - 1));
        assert(table_comments(last.1, p) == table_comments(ts.last(), p));
        assert(head.1.push(last.1).drop_last() =~= head.1);
    }
}

pub proof fn lemma_mapped_entry_comments<R: SectionRule>(
    rule: R,
    e: EntryModel,
    first: bool,
    path: Path,
)
    requires
        keeps_comments(rule),
    ensures
        entry_comments(map_entry(rule, e, first), path) == entry_comments(e, path),
{
    match e.item {
        ItemModel::Table(t) => {
            let r = rule.section(e.key, t, first);
            let p = path.push(Step::Key(e.key.name));
            assert(table_comments(r.1, p) == table_comments(t, p));
        },
        ItemModel::ArrayOfTables(ts) => {
            lemma_mapped_table_comments(rule, e.key, ts, first, path.push(Step::Key(e.key.name)));
        },
        _ => {},
    }
}

/// A rule for sections that keeps the comments of every section keeps the
/// comments of the document.
pub proof fn lemma_mapped_comments<R: SectionRule>(rule: R, es: Seq<EntryModel>, path: Path)
    requires
        keeps_comments(rule),
    ensures
        entries_comments(map_sections(rule, es), path) == entries_comments(es, path),
    decreases es.len(),
{
    if es.len() > 0 {
        lemma_mapped_comments(rule, es.drop_last(), path);
        lemma_mapped_entry_comments(rule, es.last(), !has_section(es.drop_last()), path);
        let head = map_sections(rule, es.drop_last());
        let last = map_entry(rule, es.last(), !has_section(es.drop_last()));
        assert(head.push(last).drop_last() =~= head);
    }
}

pub proof fn lemma_line_keeps_comments(opening: Option<usize>)
    ensures
        keeps_comments(AppendLineAfterOpening { opening }),
{
}

pub proof fn lemma_trimmers_keep_comments()
    ensures
        keeps_comments(SectionKeyNameTrimmer),
        keeps_comments(KeyTrimmer),
{
    assert forall|key: KeyModel, t: TableModel, first: bool, path: Path|
        KeyTrimmer.section(key, t, first).0.name == key.name && #[trigger] table_comments(
            KeyTrimmer.section(key, t, first).1,
            path,
        ) == table_comments(t, path) by {
        let out = KeyTrimmer.section(key, t, first).1;
        lemma_comment_of_trimmed_lines(or_empty(t.decor.suffix));
        lemma_comments_alike(out.entries, t.entries, path);
    }
}

pub proof fn lemma_unquoted_table_comments(t: TableModel, path: Path)
    ensures
        table_comments(unquoted_table(t), path) == table_comments(t, path),
    decreases t,
{
    let out = unquoted_table(t);
    assert forall|i: int| 0 <= i < t.entries.len() implies entry_comments(out.entries[i], path)
        == entry_comments(t.entries[i], path) by {
        lemma_unquoted_entry_comments(t.entries[i], path);
    }
    lemma_comments_alike(out.entries, t.entries, path);
}

pub proof fn lemma_unquoted_entry_comments(e: EntryModel, path: Path)
    ensures
        entry_comments(unquoted_entry(e), path) == entry_comments(e, path),
    decreases e,
{
    let p = path.push(Step::Key(e.key.name));
    match e.item {
        ItemModel::Table(t) => {
            lemma_unquoted_table_comments(t, p);
        },
        ItemModel::ArrayOfTables(ts) => {
            let out = unquoted_entry(e).item->ArrayOfTables_0;
            assert forall|i: int| 0 <= i < ts.len() implies table_comments(
                out[i],
                p.push(Step::Index(i)),
            ) == table_comments(ts[i], p.push(Step::Index(i))) by {
                lemma_unquoted_table_comments(ts[i], p.push(Step::Index(i)));
            }
            lemma_table_comments_alike(out, ts, p);
        },
        _ => {},
    }
}

pub proof fn lemma_formatted_table_comments(t: TableModel, path: Path)
    ensures
        table_comments(formatted_table(t), path) == table_comments(t, path),
    decreases t,
{
    let out = formatted_table(t);
    assert forall|i: int| 0 <= i < t.entries.len() implies entry_comments(out.entries[i], path)
        == entry_comments(t.entries[i], path) by {
        lemma_formatted_entry_comments(t.entries[i], path);
    }
    lemma_comments_alike(out.entries, t.entries, path);
}

pub proof fn lemma_formatted_entry_comments(e: EntryModel, path: Path)
    ensures
        entry_comments(formatted_entry(e), path) == entry_comments(e, path),
    decreases e,
{
    let p = path.push(Step::Key(e.key.name));
    match e.item {
        ItemModel::Value(v) => {
            lemma_comment_put_back(or_empty(crate::render::value_decor(v).suffix));
        },
        ItemModel::Table(t) => {
            lemma_formatted_table_comments(t, p);
        },
        ItemModel::ArrayOfTables(ts) => {
            let out = formatted_entry(e).item->ArrayOfTables_0;
            assert forall|i: int| 0 <= i < ts.len() implies table_comments(
                out[i],
                p.push(Step::Index(i)),
            ) == table_comments(ts[i], p.push(Step::Index(i))) by {
                lemma_formatted_table_comments(ts[i], p.push(Step::Index(i)));
            }
            lemma_table_comments_alike(out, ts, p);
        },
        _ => {},
    }
}

pub proof fn lemma_rewriters_keep_comments(width: usize)
    ensures
        keeps_comments(KeyQuoteTrimmer),
        keeps_comments(TableFormatting),
        keeps_comments(WrapArrayAt { width }),
        keeps_comments(InlineTableWrapAt { width }),
{
    assert forall|key: KeyModel, t: TableModel, first: bool, path: Path|
        KeyQuoteTrimmer.section(key, t, first).0.name == key.name && #[trigger] table_comments(
            KeyQuoteTrimmer.section(key, t, first).1,
            path,
        ) == table_comments(t, path) by {
        lemma_unquoted_table_comments(t, path);
    }
    assert forall|key: KeyModel, t: TableModel, first: bool, path: Path|
        TableFormatting.section(key, t, first).0.name == key.name && #[trigger] table_comments(
            TableFormatting.section(key, t, first).1,
            path,
        ) == table_comments(t, path) by {
        lemma_formatted_table_comments(t, path);
        lemma_comment_put_back(or_empty(t.decor.suffix));
    }
    let wrap = WrapArrayAt { width };
    assert forall|key: KeyModel, t: TableModel, first: bool, path: Path|
        wrap.section(key, t, first).0.name == key.name && #[trigger] table_comments(
            wrap.section(key, t, first).1,
            path,
        ) == table_comments(t, path) by {
        let out = wrap.section(key, t, first).1;
        lemma_comments_alike(out.entries, t.entries, path);
    }
    let promote = InlineTableWrapAt { width };
    assert forall|key: KeyModel, t: TableModel, first: bool, path: Path|
        promote.section(key, t, first).0.name == key.name && #[trigger] table_comments(
            promote.section(key, t, first).1,
            path,
        ) == table_comments(t, path) by {
        lemma_wrapped_table_comments(t, width, path);
    }
}

/// The entries of an inline table that becomes a table have no comments.
pub proof fn lemma_inline_entries_silent(es: Seq<InlineEntryModel>, width: usize, path: Path)
    ensures
        entries_comments(split_inline_entries(es, width).0, path) == Multiset::<
            (Path, Seq<char>),
        >::empty(),
        entries_comments(split_inline_entries(es, width).1, path) == Multiset::<
            (Path, Seq<char>),
        >::empty(),
    decreases es,
{
    if es.len() > 0 {
        lemma_inline_entries_silent(es.drop_last(), width, path);
        let head = split_inline_entries(es.drop_last(), width);
        let e = es.last();
        let last = placed_inline_entry(e, width);
        match e.value {
            ValueModel::InlineTable(t) => {
                if crate::formatting::is_long(e.key, t, width) {
                    lemma_promoted_comments(e.key, t, width, no_decor(), path);
                }
            },
            _ => {},
        }
        assert(entry_comments(last.0, path) =~= Multiset::empty());
        if last.1 {
            assert(head.1.push(last.0).drop_last() =~= head.1);
        } else {
            assert(head.0.push(last.0).drop_last() =~= head.0);
        }
        assert(Multiset::<(Path, Seq<char>)>::empty().add(Multiset::empty()) =~= Multiset::empty());
    }
}

/// The section that an inline table becomes has the comment of its header
/// and no other.
pub proof fn lemma_promoted_comments(
    key: KeyModel,
    t: InlineTableModel,
    width: usize,
    header: DecorModel,
    path: Path,
)
    ensures
        entry_comments(promoted_entry(key, t, width, header), path) == noted(
            path.push(Step::Key(key.name)),
            header,
        ),
    decreases t,
{
    let p = path.push(Step::Key(key.name));
    let parts = split_inline_entries(t.entries, width);
    lemma_inline_entries_silent(t.entries, width, p);
    lemma_comments_joined(parts.0, parts.1, p);
    assert(noted(p, header).add(Multiset::empty().add(Multiset::empty())) =~= noted(p, header));
}

pub proof fn lemma_split_comments(es: Seq<EntryModel>, width: usize, path: Path)
    ensures
        entries_comments(split_entries(es, width).0, path).add(
            entries_comments(split_entries(es, width).1, path),
        ) == entries_comments(es, path),
    decreases es,
{
    if es.len() == 0 {
        assert(Multiset::<(Path, Seq<char>)>::empty().add(Multiset::empty()) =~= Multiset::empty());
    } else {
        lemma_split_comments(es.drop_last(), width, path);
        lemma_placed_comments(es.last(), width, path);
        let head = split_entries(es.drop_last(), width);
        let last = placed_entry(es.last(), width);
        if last.1 {
            assert(head.1.push(last.0).drop_last() =~= head.1);
            assert(entries_comments(head.0, path).add(
                entries_comments(head.1, path).add(entry_comments(last.0, path)),
            ) =~= entries_comments(head.0, path).add(entries_comments(head.1, path)).add(
                entry_comments(last.0, path),
            ));
        } else {
            assert(head.0.push(last.0).drop_last() =~= head.0);
            assert(entries_comments(head.0, path).add(entry_comments(last.0, path)).add(
                entries_comments(head.1, path),
            ) =~= entries_comments(head.0, path).add(entries_comments(head.1, path)).add(
                entry_comments(last.0, path),
            ));
        }
    }
}

pub proof fn lemma_placed_comments(e: EntryModel, width: usize, path: Path)
    ensures
        entry_comments(placed_entry(e, width).0, path) == entry_comments(e, path),
    decreases e,
{
    let p = path.push(Step::Key(e.key.name));
    match e.item {
        ItemModel::Value(v) => match v {
            ValueModel::InlineTable(t) => {
                if crate::formatting::is_long(e.key, t, width) {
                    lemma_promoted_comments(e.key, t, width, promoted_decor(t.decor), path);
                    lemma_comment_put_back(or_empty(t.decor.suffix));
                }
            },
            _ => {},
        },
        ItemModel::Table(t) => {
            lemma_wrapped_table_comments(t, width, p);
        },
        ItemModel::ArrayOfTables(ts) => {
            let out = placed_entry(e, width).0.item->ArrayOfTables_0;
            assert forall|i: int| 0 <= i < ts.len() implies table_comments(
                out[i],
                p.push(Step::Index(i)),
            ) == table_comments(ts[i], p.push(Step::Index(i))) by {
                lemma_wrapped_table_comments(ts[i], width, p.push(Step::Index(i)));
            }
            lemma_table_comments_alike(out, ts, p);
        },
        ItemModel::Absent => {},
    }
}

pub proof fn lemma_wrapped_table_comments(t: TableModel, width: usize, path: Path)
    ensures
        table_comments(wrapped_table(t, width), path) == table_comments(t, path),
    decreases t,
{
    let parts = split_entries(t.entries, width);
    lemma_split_comments(t.entries, width, path);
    lemma_comments_joined(parts.0, parts.1, path);
}

pub proof fn lemma_ordered_table_comments(t: TableModel, pins: Seq<Seq<char>>, path: Path)
    ensures
        table_comments(ordered_table(t, pins), path) == table_comments(t, path),
    decreases t,
{
    let mapped = ordered_entries(t.entries, pins);
    assert forall|i: int| 0 <= i < t.entries.len() implies entry_comments(mapped[i], path)
        == entry_comments(t.entries[i], path) by {
        lemma_ordered_entry_comments(t.entries[i], pins, path);
    }
    lemma_comments_alike(mapped, t.entries, path);
    lemma_comments_sorted(mapped, alphabetical_before(pins), path);
}

pub proof fn lemma_ordered_entry_comments(e: EntryModel, pins: Seq<Seq<char>>, path: Path)
    ensures
        entry_comments(ordered_entry(e, pins), path) == entry_comments(e, path),
    decreases e,
{
    let p = path.push(Step::Key(e.key.name));
    match e.item {
        ItemModel::Table(t) => {
            lemma_ordered_table_comments(t, pins, p);
        },
        ItemModel::ArrayOfTables(ts) => {
            let out = ordered_item(e.item, pins)->ArrayOfTables_0;
            assert forall|i: int| 0 <= i < ts.len() implies table_comments(
                out[i],
                p.push(Step::Index(i)),
            ) == table_comments(ts[i], p.push(Step::Index(i))) by {
                lemma_ordered_table_comments(ts[i], pins, p.push(Step::Index(i)));
            }
            lemma_table_comments_alike(out, ts, p);
        },
        _ => {},
    }
}

pub proof fn lemma_sorted_entry_comments(e: EntryModel, config: ConfigModel, path: Path)
    ensures
        entry_comments(with_package_in_order(e), path) == entry_comments(e, path),
        entry_comments(with_sorted_dependencies(e, config), path) == entry_comments(e, path),
        entry_comments(with_groups_in_order(e), path) == entry_comments(e, path),
{
    match e.item {
        ItemModel::Table(t) => {
            let p = path.push(Step::Key(e.key.name));
            lemma_comments_sorted(t.entries, package_before(), p);
            lemma_comments_sorted(
                t.entries,
                dependency_before(
                    crate::ordering::sorts_by_name(config),
                    crate::ordering::sorts_by_length(config),
                ),
                p,
            );
            let state = grouping(t.entries);
            lemma_grouping_comments(t.entries, p);
            lemma_group_comments(state.1, state.2, p);
            lemma_comments_joined(state.0, finished_group(state.1, state.2), p);
        },
        _ => {},
    }
}

pub proof fn lemma_group_comments(header: Option<Seq<char>>, members: Seq<EntryModel>, path: Path)
    ensures
        entries_comments(finished_group(header, members), path) == entries_comments(members, path),
{
    if members.len() > 0 {
        let sorted = stable_sort(members, group_before());
        lemma_comments_sorted(members, group_before(), path);
        lemma_sort_permutes(members, group_before());
        lemma_comments_alike(finished_group(header, members), sorted, path);
    }
}

pub proof fn lemma_grouping_comments(es: Seq<EntryModel>, path: Path)
    ensures
        entries_comments(grouping(es).0, path).add(entries_comments(grouping(es).2, path))
            == entries_comments(es, path),
    decreases es.len(),
{
    if es.len() == 0 {
        assert(Multiset::<(Path, Seq<char>)>::empty().add(Multiset::empty()) =~= Multiset::empty());
    } else {
        lemma_grouping_comments(es.drop_last(), path);
        let state = grouping(es.drop_last());
        let e = es.last();
        if state.2.len() == 0 || crate::ordering::starts_group(e) {
            lemma_group_comments(state.1, state.2, path);
            lemma_comments_joined(state.0, finished_group(state.1, state.2), path);
            let first = seq![with_prefix(e, Some(Seq::empty()))];
            assert(first.drop_last() =~= Seq::<EntryModel>::empty());
            assert(first.last() == with_prefix(e, Some(Seq::empty())));
            assert(entry_comments(first.last(), path) == entry_comments(e, path));
            assert(entries_comments(first.drop_last(), path) =~= Multiset::empty());
            assert(entries_comments(first, path) =~= entry_comments(e, path));
        } else {
            assert(state.2.push(e).drop_last() =~= state.2);
            assert(entries_comments(state.0, path).add(
                entries_comments(state.2, path).add(entry_comments(e, path)),
            ) =~= entries_comments(state.0, path).add(entries_comments(state.2, path)).add(
                entry_comments(e, path),
            ));
        }
    }
}

pub proof fn lemma_numbered_table_comments(
    t: TableModel,
    next: usize,
    under: Option<bool>,
    path: Path,
)
    requires
        numbered_table(t, next, under) is Some,
    ensures
        table_comments(numbered_table(t, next, under)->Some_0.0, path) == table_comments(t, path),
    decreases t,
{
    let mine: usize = if t.position is Some {
        (next + 1) as usize
    } else {
        next
    };
    lemma_numbered_comments(t.entries, mine, Some(t.position is Some), path);
}

pub proof fn lemma_numbered_comments(
    es: Seq<EntryModel>,
    next: usize,
    under: Option<bool>,
    path: Path,
)
    requires
        numbered_entries(es, next, under) is Some,
    ensures
        entries_comments(numbered_entries(es, next, under)->Some_0.0, path) == entries_comments(
            es,
            path,
        ),
    decreases es,
{
    if es.len() > 0 {
        let head = numbered_entries(es.drop_last(), next, under)->Some_0;
        lemma_numbered_comments(es.drop_last(), next, under, path);
        lemma_numbered_entry_comments(es.last(), head.1, under, path);
        let last = numbered_entry(es.last(), head.1, under)->Some_0;
        assert(head.0.push(last.0).drop_last() =~= head.0);
    }
}

pub proof fn lemma_numbered_entry_comments(
    e: EntryModel,
    next: usize,
    under: Option<bool>,
    path: Path,
)
    requires
        numbered_entry(e, next, under) is Some,
    ensures
        entry_comments(numbered_entry(e, next, under)->Some_0.0, path) == entry_comments(e, path),
    decreases e,
{
    let p = path.push(Step::Key(e.key.name));
    match e.item {
        ItemModel::Table(t) => {
            lemma_numbered_table_comments(t, next, under, p);
        },
        ItemModel::ArrayOfTables(ts) => {
            lemma_numbered_tables_comments(ts, next, p);
        },
        _ => {},
    }
}

pub proof fn lemma_numbered_tables_comments(ts: Seq<TableModel>, next: usize, path: Path)
    requires
        numbered_tables(ts, next) is Some,
    ensures
        tables_comments(numbered_tables(ts, next)->Some_0.0, path) == tables_comments(ts, path),
        numbered_tables(ts, next)->Some_0.0.len() == ts.len(),
    decreases ts,
{
    if ts.len() > 0 {
        let head = numbered_tables(ts.drop_last(), next)->Some_0;
        lemma_numbered_tables_comments(ts.drop_last(), next, path);
        lemma_numbered_table_comments(
            ts.last(),
            head.1,
            None,
            path.push(Step::Index(ts.len() - 1)),
        );
        let last = numbered_table(ts.last(), head.1, None)->Some_0;
        assert(head.0.push(last.0).drop_last() =~= head.0);
    }
}

} // verus!
