//! Every formatting rule keeps the contents of a document: the lemmas,
//! rule by rule.

use vstd::multiset::Multiset;
use vstd::prelude::*;
use crate::content::{
    entries_contents, entry_contents, inline_entries_contents, inline_entry_contents,
    lemma_entries_alike, lemma_entries_joined, lemma_entries_sorted, lemma_inline_entries_alike,
    lemma_inline_entries_sorted, lemma_tables_alike, lemma_values_alike, table_contents,
    tables_contents, value_contents, Held, Path, Step,
};
use crate::document::{
    ArrayModel, DecorModel, EntryModel, InlineEntryModel, InlineTableModel, ItemModel, KeyModel,
    TableModel, ValueModel,
};
use crate::formatting::{
    formatted_entry, formatted_table, formatted_value, one_line_array, one_per_line_array,
    placed_entry, placed_inline_entry, promoted_entry, split_entries, split_inline_entries,
    unquoted_entry, unquoted_table, unquoted_value, wrapped_array, wrapped_table,
    AppendLineAfterOpening, InlineTableWrapAt, KeyQuoteTrimmer, KeyTrimmer, SectionKeyNameTrimmer,
    TableFormatting, WrapArrayAt,
};
use crate::ordering::{
    alphabetical_before, dependency_before, finished_group, group_before, grouping,
    inline_alphabetical_before, numbered_entries, numbered_entry, numbered_table, numbered_tables,
    ordered_entries, ordered_entry, ordered_table, ordered_value, package_before,
    with_groups_in_order, with_ordered_values, with_package_in_order, with_prefix,
    with_sorted_dependencies,
};
use crate::sorting::{lemma_sort_permutes, stable_sort};
use crate::toml_config::ConfigModel;
use crate::{has_section, map_entry, map_sections, map_tables, SectionRule};

verus! {

/// A rule for sections keeps the contents if it keeps the name of the key
/// and the contents of the table, wherever the table stands.
pub open spec fn keeps_contents<R: SectionRule>(rule: R) -> bool {
    forall|key: KeyModel, t: TableModel, first: bool, path: Path|
        rule.section(key, t, first).0.name == key.name && #[trigger] table_contents(
            rule.section(key, t, first).1,
            path,
        ) == table_contents(t, path)
}

pub proof fn lemma_mapped_tables<R: SectionRule>(
    rule: R,
    key: KeyModel,
    ts: Seq<TableModel>,
    first: bool,
    path: Path,
)
    requires
        keeps_contents(rule),
    ensures
        map_tables(rule, key, ts, first).0.name == key.name,
        map_tables(rule, key, ts, first).1.len() == ts.len(),
        tables_contents(map_tables(rule, key, ts, first).1, path) == tables_contents(ts, path),
    decreases ts.len(),
{
    if ts.len() > 0 {
        lemma_mapped_tables(rule, key, ts.drop_last(), first, path);
        let head = map_tables(rule, key, ts.drop_last(), first);
        let last = rule.section(head.0, ts.last(), first && ts.len() == 1);
        let p = path.push(Step::Index(ts.len() - 1));
        assert(table_contents(last.1, p) == table_contents(ts.last(), p));
        assert(head.1.push(last.1).drop_last() =~= head.1);
    }
}

pub proof fn lemma_mapped_entry<R: SectionRule>(rule: R, e: EntryModel, first: bool, path: Path)
    requires
        keeps_contents(rule),
    ensures
        entry_contents(map_entry(rule, e, first), path) == entry_contents(e, path),
{
    match e.item {
        ItemModel::Table(t) => {
            let r = rule.section(e.key, t, first);
            let p = path.push(Step::Key(e.key.name));
            assert(table_contents(r.1, p) == table_contents(t, p));
        },
        ItemModel::ArrayOfTables(ts) => {
            lemma_mapped_tables(rule, e.key, ts, first, path.push(Step::Key(e.key.name)));
        },
        _ => {},
    }
}

/// A rule for sections that keeps the contents of every section keeps the
/// contents of the document.
pub proof fn lemma_mapped_sections<R: SectionRule>(rule: R, es: Seq<EntryModel>, path: Path)
    requires
        keeps_contents(rule),
    ensures
        entries_contents(map_sections(rule, es), path) == entries_contents(es, path),
    decreases es.len(),
{
    if es.len() > 0 {
        lemma_mapped_sections(rule, es.drop_last(), path);
        lemma_mapped_entry(rule, es.last(), !crate::has_section(es.drop_last()), path);
        let head = map_sections(rule, es.drop_last());
        let last = map_entry(rule, es.last(), !crate::has_section(es.drop_last()));
        assert(head.push(last).drop_last() =~= head);
    }
}

pub proof fn lemma_section_names_trimmed()
    ensures
        keeps_contents(SectionKeyNameTrimmer),
{
}

pub proof fn lemma_keys_trimmed()
    ensures
        keeps_contents(KeyTrimmer),
{
    assert forall|key: KeyModel, t: TableModel, first: bool, path: Path|
        KeyTrimmer.section(key, t, first).0.name == key.name && #[trigger] table_contents(
            KeyTrimmer.section(key, t, first).1,
            path,
        ) == table_contents(t, path) by {
        let out = KeyTrimmer.section(key, t, first).1;
        lemma_entries_alike(out.entries, t.entries, path);
    }
}

pub proof fn lemma_line_appended(opening: Option<usize>)
    ensures
        keeps_contents(AppendLineAfterOpening { opening }),
{
}

pub proof fn lemma_array_wrapped(key: KeyModel, a: ArrayModel, width: usize, path: Path)
    ensures
        value_contents(ValueModel::Array(wrapped_array(key, a, width)), path) == value_contents(
            ValueModel::Array(a),
            path,
        ),
{
    let one_line = one_line_array(a);
    lemma_values_alike(one_line.values, a.values, path);
    lemma_values_alike(one_per_line_array(one_line).values, a.values, path);
}

pub proof fn lemma_arrays_wrapped(width: usize)
    ensures
        keeps_contents(WrapArrayAt { width }),
{
    let rule = WrapArrayAt { width };
    assert forall|key: KeyModel, t: TableModel, first: bool, path: Path|
        rule.section(key, t, first).0.name == key.name && #[trigger] table_contents(
            rule.section(key, t, first).1,
            path,
        ) == table_contents(t, path) by {
        let out = rule.section(key, t, first).1;
        assert forall|i: int| 0 <= i < out.entries.len() implies entry_contents(
            out.entries[i],
            path,
        ) == entry_contents(t.entries[i], path) by {
            let e = t.entries[i];
            match e.item {
                ItemModel::Value(ValueModel::Array(a)) => {
                    lemma_array_wrapped(e.key, a, width, path.push(Step::Key(e.key.name)));
                },
                _ => {},
            }
        }
        lemma_entries_alike(out.entries, t.entries, path);
    }
}

pub proof fn lemma_package_in_order(e: EntryModel, path: Path)
    ensures
        entry_contents(with_package_in_order(e), path) == entry_contents(e, path),
{
    match e.item {
        ItemModel::Table(t) => {
            lemma_entries_sorted(t.entries, package_before(), path.push(Step::Key(e.key.name)));
        },
        _ => {},
    }
}

pub proof fn lemma_dependencies_sorted(e: EntryModel, config: ConfigModel, path: Path)
    ensures
        entry_contents(with_sorted_dependencies(e, config), path) == entry_contents(e, path),
{
    match e.item {
        ItemModel::Table(t) => {
            lemma_entries_sorted(
                t.entries,
                dependency_before(
                    crate::ordering::sorts_by_name(config),
                    crate::ordering::sorts_by_length(config),
                ),
                path.push(Step::Key(e.key.name)),
            );
        },
        _ => {},
    }
}

pub proof fn lemma_value_unquoted(v: ValueModel, path: Path)
    ensures
        value_contents(unquoted_value(v), path) == value_contents(v, path),
    decreases v,
{
    match v {
        ValueModel::InlineTable(t) => {
            let out = unquoted_value(v)->InlineTable_0;
            assert forall|i: int| 0 <= i < t.entries.len() implies inline_entry_contents(
                out.entries[i],
                path,
            ) == inline_entry_contents(t.entries[i], path) by {
                lemma_value_unquoted(t.entries[i].value, path.push(Step::Key(t.entries[i].key.name)));
            }
            lemma_inline_entries_alike(out.entries, t.entries, path);
        },
        _ => {},
    }
}

pub proof fn lemma_table_unquoted(t: TableModel, path: Path)
    ensures
        table_contents(unquoted_table(t), path) == table_contents(t, path),
    decreases t,
{
    let out = unquoted_table(t);
    assert forall|i: int| 0 <= i < t.entries.len() implies entry_contents(out.entries[i], path)
        == entry_contents(t.entries[i], path) by {
        lemma_entry_unquoted(t.entries[i], path);
    }
    lemma_entries_alike(out.entries, t.entries, path);
}

pub proof fn lemma_entry_unquoted(e: EntryModel, path: Path)
    ensures
        entry_contents(unquoted_entry(e), path) == entry_contents(e, path),
    decreases e,
{
    let p = path.push(Step::Key(e.key.name));
    match e.item {
        ItemModel::Absent => {},
        ItemModel::Value(v) => {
            lemma_value_unquoted(v, p);
        },
        ItemModel::Table(t) => {
            lemma_table_unquoted(t, p);
        },
        ItemModel::ArrayOfTables(ts) => {
            let out = unquoted_entry(e).item->ArrayOfTables_0;
            assert forall|i: int| 0 <= i < ts.len() implies table_contents(
                out[i],
                p.push(Step::Index(i)),
            ) == table_contents(ts[i], p.push(Step::Index(i))) by {
                lemma_table_unquoted(ts[i], p.push(Step::Index(i)));
            }
            lemma_tables_alike(out, ts, p);
        },
    }
}

pub proof fn lemma_quotes_trimmed()
    ensures
        keeps_contents(KeyQuoteTrimmer),
{
    assert forall|key: KeyModel, t: TableModel, first: bool, path: Path|
        KeyQuoteTrimmer.section(key, t, first).0.name == key.name && #[trigger] table_contents(
            KeyQuoteTrimmer.section(key, t, first).1,
            path,
        ) == table_contents(t, path) by {
        lemma_table_unquoted(t, path);
    }
}

pub proof fn lemma_value_formatted(v: ValueModel, path: Path)
    ensures
        value_contents(formatted_value(v), path) == value_contents(v, path),
    decreases v,
{
    match v {
        ValueModel::Scalar(_) => {},
        ValueModel::Array(a) => {
            let out = formatted_value(v)->Array_0;
            assert forall|i: int| 0 <= i < a.values.len() implies value_contents(
                out.values[i],
                path.push(Step::Index(i)),
            ) == value_contents(a.values[i], path.push(Step::Index(i))) by {
                lemma_value_formatted(a.values[i], path.push(Step::Index(i)));
            }
            lemma_values_alike(out.values, a.values, path);
        },
        ValueModel::InlineTable(t) => {
            let out = formatted_value(v)->InlineTable_0;
            assert forall|i: int| 0 <= i < t.entries.len() implies inline_entry_contents(
                out.entries[i],
                path,
            ) == inline_entry_contents(t.entries[i], path) by {
                lemma_value_formatted(
                    t.entries[i].value,
                    path.push(Step::Key(t.entries[i].key.name)),
                );
            }
            lemma_inline_entries_alike(out.entries, t.entries, path);
        },
    }
}

pub proof fn lemma_table_formatted(t: TableModel, path: Path)
    ensures
        table_contents(formatted_table(t), path) == table_contents(t, path),
    decreases t,
{
    let out = formatted_table(t);
    assert forall|i: int| 0 <= i < t.entries.len() implies entry_contents(out.entries[i], path)
        == entry_contents(t.entries[i], path) by {
        lemma_entry_formatted(t.entries[i], path);
    }
    lemma_entries_alike(out.entries, t.entries, path);
}

pub proof fn lemma_entry_formatted(e: EntryModel, path: Path)
    ensures
        entry_contents(formatted_entry(e), path) == entry_contents(e, path),
    decreases e,
{
    let p = path.push(Step::Key(e.key.name));
    match e.item {
        ItemModel::Absent => {},
        ItemModel::Value(v) => {
            lemma_value_formatted(v, p);
        },
        ItemModel::Table(t) => {
            lemma_table_formatted(t, p);
        },
        ItemModel::ArrayOfTables(ts) => {
            let out = formatted_entry(e).item->ArrayOfTables_0;
            assert forall|i: int| 0 <= i < ts.len() implies table_contents(
                out[i],
                p.push(Step::Index(i)),
            ) == table_contents(ts[i], p.push(Step::Index(i))) by {
                lemma_table_formatted(ts[i], p.push(Step::Index(i)));
            }
            lemma_tables_alike(out, ts, p);
        },
    }
}

pub proof fn lemma_tables_formatted()
    ensures
        keeps_contents(TableFormatting),
{
    assert forall|key: KeyModel, t: TableModel, first: bool, path: Path|
        TableFormatting.section(key, t, first).0.name == key.name && #[trigger] table_contents(
            TableFormatting.section(key, t, first).1,
            path,
        ) == table_contents(t, path) by {
        lemma_table_formatted(t, path);
    }
}

pub proof fn lemma_value_ordered(v: ValueModel, path: Path)
    ensures
        value_contents(ordered_value(v), path) == value_contents(v, path),
    decreases v,
{
    match v {
        ValueModel::Scalar(_) => {},
        ValueModel::Array(a) => {
            let out = ordered_value(v)->Array_0;
            assert forall|i: int| 0 <= i < a.values.len() implies value_contents(
                out.values[i],
                path.push(Step::Index(i)),
            ) == value_contents(a.values[i], path.push(Step::Index(i))) by {
                lemma_value_ordered(a.values[i], path.push(Step::Index(i)));
            }
            lemma_values_alike(out.values, a.values, path);
        },
        ValueModel::InlineTable(t) => {
            let mapped = with_ordered_values(t.entries);
            assert forall|i: int| 0 <= i < t.entries.len() implies inline_entry_contents(
                mapped[i],
                path,
            ) == inline_entry_contents(t.entries[i], path) by {
                lemma_value_ordered(t.entries[i].value, path.push(Step::Key(t.entries[i].key.name)));
            }
            lemma_inline_entries_alike(mapped, t.entries, path);
            lemma_inline_entries_sorted(mapped, inline_alphabetical_before(), path);
        },
    }
}

pub proof fn lemma_table_ordered(t: TableModel, pins: Seq<Seq<char>>, path: Path)
    ensures
        table_contents(ordered_table(t, pins), path) == table_contents(t, path),
    decreases t,
{
    let mapped = ordered_entries(t.entries, pins);
    assert forall|i: int| 0 <= i < t.entries.len() implies entry_contents(mapped[i], path)
        == entry_contents(t.entries[i], path) by {
        lemma_entry_ordered(t.entries[i], pins, path);
    }
    lemma_entries_alike(mapped, t.entries, path);
    lemma_entries_sorted(mapped, alphabetical_before(pins), path);
}

pub proof fn lemma_entry_ordered(e: EntryModel, pins: Seq<Seq<char>>, path: Path)
    ensures
        entry_contents(ordered_entry(e, pins), path) == entry_contents(e, path),
    decreases e,
{
    let p = path.push(Step::Key(e.key.name));
    match e.item {
        ItemModel::Absent => {},
        ItemModel::Value(v) => {
            lemma_value_ordered(v, p);
        },
        ItemModel::Table(t) => {
            lemma_table_ordered(t, pins, p);
        },
        ItemModel::ArrayOfTables(ts) => {
            let out = crate::ordering::ordered_item(e.item, pins)->ArrayOfTables_0;
            assert forall|i: int| 0 <= i < ts.len() implies table_contents(
                out[i],
                p.push(Step::Index(i)),
            ) == table_contents(ts[i], p.push(Step::Index(i))) by {
                lemma_table_ordered(ts[i], pins, p.push(Step::Index(i)));
            }
            lemma_tables_alike(out, ts, p);
        },
    }
}

pub proof fn lemma_inline_entries_split(es: Seq<InlineEntryModel>, width: usize, path: Path)
    ensures
        entries_contents(split_inline_entries(es, width).0, path).add(
            entries_contents(split_inline_entries(es, width).1, path),
        ) == inline_entries_contents(es, path),
    decreases es,
{
    if es.len() == 0 {
        assert(Multiset::<(Path, Held)>::empty().add(Multiset::empty()) =~= Multiset::empty());
    } else {
        lemma_inline_entries_split(es.drop_last(), width, path);
        lemma_inline_entry_placed(es.last(), width, path);
        let head = split_inline_entries(es.drop_last(), width);
        let last = placed_inline_entry(es.last(), width);
        if last.1 {
            assert(head.1.push(last.0).drop_last() =~= head.1);
            assert(entries_contents(head.0, path).add(
                entries_contents(head.1, path).add(entry_contents(last.0, path)),
            ) =~= entries_contents(head.0, path).add(entries_contents(head.1, path)).add(
                entry_contents(last.0, path),
            ));
        } else {
            assert(head.0.push(last.0).drop_last() =~= head.0);
            assert(entries_contents(head.0, path).add(entry_contents(last.0, path)).add(
                entries_contents(head.1, path),
            ) =~= entries_contents(head.0, path).add(entries_contents(head.1, path)).add(
                entry_contents(last.0, path),
            ));
        }
    }
}

pub proof fn lemma_inline_entry_placed(e: InlineEntryModel, width: usize, path: Path)
    ensures
        entry_contents(placed_inline_entry(e, width).0, path) == inline_entry_contents(e, path),
    decreases e,
{
    let p = path.push(Step::Key(e.key.name));
    match e.value {
        ValueModel::InlineTable(t) => {
            if crate::formatting::is_long(e.key, t, width) {
                lemma_promoted(e.key, t, width, crate::formatting::no_decor(), path);
            }
        },
        _ => {},
    }
}

/// An inline table that becomes a section holds what it held.
pub proof fn lemma_promoted(
    key: KeyModel,
    t: InlineTableModel,
    width: usize,
    header: DecorModel,
    path: Path,
)
    ensures
        entry_contents(promoted_entry(key, t, width, header), path) == value_contents(
            ValueModel::InlineTable(t),
            path.push(Step::Key(key.name)),
        ),
    decreases t,
{
    let p = path.push(Step::Key(key.name));
    let parts = split_inline_entries(t.entries, width);
    lemma_inline_entries_split(t.entries, width, p);
    lemma_entries_joined(parts.0, parts.1, p);
}

pub proof fn lemma_entries_split(es: Seq<EntryModel>, width: usize, path: Path)
    ensures
        entries_contents(split_entries(es, width).0, path).add(
            entries_contents(split_entries(es, width).1, path),
        ) == entries_contents(es, path),
    decreases es,
{
    if es.len() == 0 {
        assert(Multiset::<(Path, Held)>::empty().add(Multiset::empty()) =~= Multiset::empty());
    } else {
        lemma_entries_split(es.drop_last(), width, path);
        lemma_entry_placed(es.last(), width, path);
        let head = split_entries(es.drop_last(), width);
        let last = placed_entry(es.last(), width);
        if last.1 {
            assert(head.1.push(last.0).drop_last() =~= head.1);
            assert(entries_contents(head.0, path).add(
                entries_contents(head.1, path).add(entry_contents(last.0, path)),
            ) =~= entries_contents(head.0, path).add(entries_contents(head.1, path)).add(
                entry_contents(last.0, path),
            ));
        } else {
            assert(head.0.push(last.0).drop_last() =~= head.0);
            assert(entries_contents(head.0, path).add(entry_contents(last.0, path)).add(
                entries_contents(head.1, path),
            ) =~= entries_contents(head.0, path).add(entries_contents(head.1, path)).add(
                entry_contents(last.0, path),
            ));
        }
    }
}

pub proof fn lemma_entry_placed(e: EntryModel, width: usize, path: Path)
    ensures
        entry_contents(placed_entry(e, width).0, path) == entry_contents(e, path),
    decreases e,
{
    let p = path.push(Step::Key(e.key.name));
    match e.item {
        ItemModel::Value(v) => match v {
            ValueModel::InlineTable(t) => {
                if crate::formatting::is_long(e.key, t, width) {
                    lemma_promoted(
                        e.key,
                        t,
                        width,
                        crate::formatting::promoted_decor(t.decor),
                        path,
                    );
                }
            },
            _ => {},
        },
        ItemModel::Table(t) => {
            lemma_table_wrapped(t, width, p);
        },
        ItemModel::ArrayOfTables(ts) => {
            let out = placed_entry(e, width).0.item->ArrayOfTables_0;
            assert forall|i: int| 0 <= i < ts.len() implies table_contents(
                out[i],
                p.push(Step::Index(i)),
            ) == table_contents(ts[i], p.push(Step::Index(i))) by {
                lemma_table_wrapped(ts[i], width, p.push(Step::Index(i)));
            }
            lemma_tables_alike(out, ts, p);
        },
        ItemModel::Absent => {},
    }
}

pub proof fn lemma_table_wrapped(t: TableModel, width: usize, path: Path)
    ensures
        table_contents(wrapped_table(t, width), path) == table_contents(t, path),
    decreases t,
{
    let parts = split_entries(t.entries, width);
    lemma_entries_split(t.entries, width, path);
    lemma_entries_joined(parts.0, parts.1, path);
}

pub proof fn lemma_inline_tables_wrapped(width: usize)
    ensures
        keeps_contents(InlineTableWrapAt { width }),
{
    let rule = InlineTableWrapAt { width };
    assert forall|key: KeyModel, t: TableModel, first: bool, path: Path|
        rule.section(key, t, first).0.name == key.name && #[trigger] table_contents(
            rule.section(key, t, first).1,
            path,
        ) == table_contents(t, path) by {
        lemma_table_wrapped(t, width, path);
    }
}

pub proof fn lemma_group_finished(header: Option<Seq<char>>, members: Seq<EntryModel>, path: Path)
    ensures
        entries_contents(finished_group(header, members), path) == entries_contents(members, path),
{
    if members.len() > 0 {
        let sorted = stable_sort(members, group_before());
        lemma_entries_sorted(members, group_before(), path);
        lemma_sort_permutes(members, group_before());
        lemma_entries_alike(finished_group(header, members), sorted, path);
    }
}

pub proof fn lemma_grouping(es: Seq<EntryModel>, path: Path)
    ensures
        entries_contents(grouping(es).0, path).add(entries_contents(grouping(es).2, path))
            == entries_contents(es, path),
    decreases es.len(),
{
    if es.len() == 0 {
        assert(Multiset::<(Path, Held)>::empty().add(Multiset::empty()) =~= Multiset::empty());
    } else {
        lemma_grouping(es.drop_last(), path);
        let state = grouping(es.drop_last());
        let e = es.last();
        if state.2.len() == 0 || crate::ordering::starts_group(e) {
            lemma_group_finished(state.1, state.2, path);
            lemma_entries_joined(state.0, finished_group(state.1, state.2), path);
            let first = seq![with_prefix(e, Some(Seq::empty()))];
            assert(first.drop_last() =~= Seq::<EntryModel>::empty());
            assert(first.last() == with_prefix(e, Some(Seq::empty())));
            assert(entry_contents(first.last(), path) == entry_contents(e, path));
            assert(entries_contents(first.drop_last(), path) =~= Multiset::empty());
            assert(entries_contents(first, path) =~= entry_contents(e, path));
        } else {
            assert(state.2.push(e).drop_last() =~= state.2);
            assert(entries_contents(state.0, path).add(
                entries_contents(state.2, path).add(entry_contents(e, path)),
            ) =~= entries_contents(state.0, path).add(entries_contents(state.2, path)).add(
                entry_contents(e, path),
            ));
        }
    }
}

pub proof fn lemma_groups_in_order(e: EntryModel, path: Path)
    ensures
        entry_contents(with_groups_in_order(e), path) == entry_contents(e, path),
{
    match e.item {
        ItemModel::Table(t) => {
            let p = path.push(Step::Key(e.key.name));
            let state = grouping(t.entries);
            lemma_grouping(t.entries, p);
            lemma_group_finished(state.1, state.2, p);
            lemma_entries_joined(state.0, finished_group(state.1, state.2), p);
        },
        _ => {},
    }
}

pub proof fn lemma_table_numbered(t: TableModel, next: usize, under: Option<bool>, path: Path)
    requires
        numbered_table(t, next, under) is Some,
    ensures
        table_contents(numbered_table(t, next, under)->Some_0.0, path) == table_contents(t, path),
    decreases t,
{
    let mine: usize = if t.position is Some {
        (next + 1) as usize
    } else {
        next
    };
    lemma_entries_numbered(t.entries, mine, Some(t.position is Some), path);
}

pub proof fn lemma_entries_numbered(
    es: Seq<EntryModel>,
    next: usize,
    under: Option<bool>,
    path: Path,
)
    requires
        numbered_entries(es, next, under) is Some,
    ensures
        entries_contents(numbered_entries(es, next, under)->Some_0.0, path) == entries_contents(
            es,
            path,
        ),
        numbered_entries(es, next, under)->Some_0.0.len() == es.len(),
        forall|i: int|
            0 <= i < es.len() ==> (#[trigger] numbered_entries(es, next, under)->Some_0.0[i]).key
                == es[i].key,
    decreases es,
{
    if es.len() > 0 {
        let head = numbered_entries(es.drop_last(), next, under)->Some_0;
        lemma_entries_numbered(es.drop_last(), next, under, path);
        lemma_entry_numbered(es.last(), head.1, under, path);
        let last = numbered_entry(es.last(), head.1, under)->Some_0;
        assert(head.0.push(last.0).drop_last() =~= head.0);
        assert forall|i: int| 0 <= i < es.len() implies (#[trigger] head.0.push(last.0)[i]).key
            == es[i].key by {
            if i < es.len() - 1 {
                assert(head.0[i].key == es.drop_last()[i].key);
            }
        }
    }
}

pub proof fn lemma_entry_numbered(e: EntryModel, next: usize, under: Option<bool>, path: Path)
    requires
        numbered_entry(e, next, under) is Some,
    ensures
        entry_contents(numbered_entry(e, next, under)->Some_0.0, path) == entry_contents(e, path),
        numbered_entry(e, next, under)->Some_0.0.key == e.key,
    decreases e,
{
    let p = path.push(Step::Key(e.key.name));
    match e.item {
        ItemModel::Table(t) => {
            lemma_table_numbered(t, next, under, p);
        },
        ItemModel::ArrayOfTables(ts) => {
            lemma_tables_numbered(ts, next, p);
        },
        _ => {},
    }
}

pub proof fn lemma_tables_numbered(ts: Seq<TableModel>, next: usize, path: Path)
    requires
        numbered_tables(ts, next) is Some,
    ensures
        tables_contents(numbered_tables(ts, next)->Some_0.0, path) == tables_contents(ts, path),
        numbered_tables(ts, next)->Some_0.0.len() == ts.len(),
    decreases ts,
{
    if ts.len() > 0 {
        let head = numbered_tables(ts.drop_last(), next)->Some_0;
        lemma_tables_numbered(ts.drop_last(), next, path);
        lemma_table_numbered(ts.last(), head.1, None, path.push(Step::Index(ts.len() - 1)));
        let last = numbered_table(ts.last(), head.1, None)->Some_0;
        assert(head.0.push(last.0).drop_last() =~= head.0);
    }
}

} // verus!
