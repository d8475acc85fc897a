//! What a formatting rule made is left as it is by the same rule: the
//! lemmas, rule by rule.

use vstd::prelude::*;
use vstd::utf8::encode_utf8;
use crate::comments::lemma_comment_put_back;
use crate::content::one;
use crate::document::{
    ArrayModel, DecorModel, EntryModel, InlineEntryModel, InlineTableModel, ItemModel, KeyModel,
    TableModel, ValueModel,
};
use crate::formatting::{
    formatted_entry, formatted_table, formatted_value, is_long, is_package, least_position,
    no_decor, one_line_array, one_per_line_array, opening_position, opens_document, or_empty,
    placed_entry, placed_inline_entry, promoted_decor, promoted_entry, split_entries,
    split_inline_entries, unquoted_entry, unquoted_table, unquoted_value, with_blank_line,
    with_decor, wrapped_array, wrapped_table, AppendLineAfterOpening, InlineTableWrapAt,
};
use crate::ordering::{
    alphabetical_before, finished_group, group_before, grouped_entries, grouping, has_blank_line,
    inline_alphabetical_before, numbered_entries, numbered_entry, numbered_table, numbered_tables,
    ordered_entries, ordered_entry, ordered_table, ordered_value, starts_group, with_ordered_values,
    with_prefix,
};
use crate::render::{or_default, render_inline_table};
use crate::sorting::stable_sort;
use crate::text::{
    byte_len, is_white_space, lemma_first_index_of_is, lemma_lex_asymmetric, lemma_trim_idempotent,
    lemma_trim_span, trim,
};
use crate::{has_section, is_section, map_entry, map_sections, map_tables, SectionRule};

verus! {

/// What a rule for sections does, as two functions: one for the key, and
/// one for the table, which may look at the key.
pub open spec fn works_as<R: SectionRule>(
    rule: R,
    on_key: spec_fn(KeyModel) -> KeyModel,
    on_table: spec_fn(KeyModel, TableModel) -> TableModel,
) -> bool {
    forall|key: KeyModel, t: TableModel, first: bool| #[trigger]
        rule.section(key, t, first) == (on_key(key), on_table(key, t))
}

/// Whether doing the work a second time changes nothing.
pub open spec fn is_settled(
    on_key: spec_fn(KeyModel) -> KeyModel,
    on_table: spec_fn(KeyModel, TableModel) -> TableModel,
) -> bool {
    &&& forall|k: KeyModel| #[trigger] on_key(on_key(k)) == on_key(k)
    &&& forall|k: KeyModel, t: TableModel| #[trigger]
        on_table(on_key(k), t) == on_table(k, t)
    &&& forall|k: KeyModel, t: TableModel| #[trigger]
        on_table(k, on_table(k, t)) == on_table(k, t)
}

pub proof fn lemma_tables_worked<R: SectionRule>(
    rule: R,
    on_key: spec_fn(KeyModel) -> KeyModel,
    on_table: spec_fn(KeyModel, TableModel) -> TableModel,
    key: KeyModel,
    ts: Seq<TableModel>,
    first: bool,
)
    requires
        works_as(rule, on_key, on_table),
        is_settled(on_key, on_table),
    ensures
        map_tables(rule, key, ts, first) == (
            if ts.len() > 0 {
                on_key(key)
            } else {
                key
            },
            ts.map_values(|t: TableModel| on_table(key, t)),
        ),
    decreases ts.len(),
{
    let f = |t: TableModel| on_table(key, t);
    if ts.len() == 0 {
        assert(ts.map_values(f) =~= Seq::<TableModel>::empty());
    } else {
        lemma_tables_worked(rule, on_key, on_table, key, ts.drop_last(), first);
        let head = map_tables(rule, key, ts.drop_last(), first);
        assert(rule.section(head.0, ts.last(), first && ts.len() == 1) == (
            on_key(head.0),
            on_table(head.0, ts.last()),
        ));
        assert(on_table(on_key(key), ts.last()) == on_table(key, ts.last()));
        assert(ts.drop_last().map_values(f).push(f(ts.last())) =~= ts.map_values(f));
    }
}

pub proof fn lemma_sections_kept<R: SectionRule>(rule: R, es: Seq<EntryModel>)
    ensures
        map_sections(rule, es).len() == es.len(),
        has_section(map_sections(rule, es)) == has_section(es),
        forall|i: int|
            0 <= i < es.len() ==> is_section(#[trigger] map_sections(rule, es)[i]) == is_section(
                es[i],
            ),
    decreases es.len(),
{
    if es.len() > 0 {
        lemma_sections_kept(rule, es.drop_last());
        let e = es.last();
        let first = !has_section(es.drop_last());
        match e.item {
            ItemModel::ArrayOfTables(ts) => {
                lemma_mapped_tables_len(rule, e.key, ts, first);
            },
            _ => {},
        }
        let head = map_sections(rule, es.drop_last());
        let last = map_entry(rule, e, first);
        assert(head.push(last).drop_last() =~= head);
    }
}

pub proof fn lemma_mapped_tables_len<R: SectionRule>(
    rule: R,
    key: KeyModel,
    ts: Seq<TableModel>,
    first: bool,
)
    ensures
        map_tables(rule, key, ts, first).1.len() == ts.len(),
    decreases ts.len(),
{
    if ts.len() > 0 {
        lemma_mapped_tables_len(rule, key, ts.drop_last(), first);
    }
}

/// A rule whose work is settled leaves what it made of a document as it
/// is.
pub proof fn lemma_sections_settled<R: SectionRule>(
    rule: R,
    on_key: spec_fn(KeyModel) -> KeyModel,
    on_table: spec_fn(KeyModel, TableModel) -> TableModel,
    es: Seq<EntryModel>,
)
    requires
        works_as(rule, on_key, on_table),
        is_settled(on_key, on_table),
    ensures
        map_sections(rule, map_sections(rule, es)) == map_sections(rule, es),
    decreases es.len(),
{
    if es.len() > 0 {
        lemma_sections_settled(rule, on_key, on_table, es.drop_last());
        lemma_sections_kept(rule, es.drop_last());
        let e = es.last();
        let first = !has_section(es.drop_last());
        let head = map_sections(rule, es.drop_last());
        let last = map_entry(rule, e, first);
        let once = head.push(last);
        assert(once.drop_last() =~= head);
        match e.item {
            ItemModel::Table(t) => {
                assert(rule.section(e.key, t, first) == (on_key(e.key), on_table(e.key, t)));
                assert(rule.section(on_key(e.key), on_table(e.key, t), first) == (
                    on_key(on_key(e.key)),
                    on_table(on_key(e.key), on_table(e.key, t)),
                ));
                assert(on_table(on_key(e.key), on_table(e.key, t)) == on_table(
                    e.key,
                    on_table(e.key, t),
                ));
            },
            ItemModel::ArrayOfTables(ts) => {
                lemma_tables_worked(rule, on_key, on_table, e.key, ts, first);
                let mapped = map_tables(rule, e.key, ts, first);
                lemma_tables_worked(rule, on_key, on_table, mapped.0, mapped.1, first);
                let f = |t: TableModel| on_table(e.key, t);
                let g = |t: TableModel| on_table(mapped.0, t);
                assert forall|i: int| 0 <= i < ts.len() implies g(f(ts[i])) == f(ts[i]) by {
                    if ts.len() > 0 {
                        assert(on_table(on_key(e.key), f(ts[i])) == on_table(e.key, f(ts[i])));
                    }
                }
                assert(ts.map_values(f).map_values(g) =~= ts.map_values(f));
            },
            _ => {},
        }
    }
}

pub proof fn lemma_value_unquoted_twice(v: ValueModel)
    ensures
        unquoted_value(unquoted_value(v)) == unquoted_value(v),
    decreases v,
{
    match v {
        ValueModel::InlineTable(t) => {
            let once = unquoted_value(v)->InlineTable_0;
            let twice = unquoted_value(unquoted_value(v))->InlineTable_0;
            assert forall|i: int| 0 <= i < once.entries.len() implies twice.entries[i]
                == once.entries[i] by {
                lemma_value_unquoted_twice(t.entries[i].value);
            }
            assert(twice.entries =~= once.entries);
        },
        _ => {},
    }
}

pub proof fn lemma_table_unquoted_twice(t: TableModel)
    ensures
        unquoted_table(unquoted_table(t)) == unquoted_table(t),
    decreases t,
{
    let once = unquoted_table(t);
    let twice = unquoted_table(once);
    assert forall|i: int| 0 <= i < once.entries.len() implies twice.entries[i]
        == once.entries[i] by {
        lemma_entry_unquoted_twice(t.entries[i]);
    }
    assert(twice.entries =~= once.entries);
}

pub proof fn lemma_entry_unquoted_twice(e: EntryModel)
    ensures
        unquoted_entry(unquoted_entry(e)) == unquoted_entry(e),
    decreases e,
{
    match e.item {
        ItemModel::Absent => {},
        ItemModel::Value(v) => {
            lemma_value_unquoted_twice(v);
        },
        ItemModel::Table(t) => {
            lemma_table_unquoted_twice(t);
        },
        ItemModel::ArrayOfTables(ts) => {
            let once = unquoted_entry(e).item->ArrayOfTables_0;
            let twice = unquoted_entry(unquoted_entry(e)).item->ArrayOfTables_0;
            assert forall|i: int| 0 <= i < once.len() implies twice[i] == once[i] by {
                lemma_table_unquoted_twice(ts[i]);
            }
            assert(twice =~= once);
        },
    }
}

/// An array that was wrapped is wrapped the same way again.
pub proof fn lemma_array_wrapped_twice(key: KeyModel, a: ArrayModel, width: usize)
    ensures
        wrapped_array(key, wrapped_array(key, a, width), width) == wrapped_array(key, a, width),
{
    let line = one_line_array(a);
    lemma_formatted_array_comment(a);
    assert(one_line_array(line).values =~= line.values);
    assert(one_line_array(one_per_line_array(line)).values =~= line.values);
}

pub proof fn lemma_value_ordered_twice(v: ValueModel)
    ensures
        ordered_value(ordered_value(v)) == ordered_value(v),
    decreases v,
{
    match v {
        ValueModel::Scalar(_) => {},
        ValueModel::Array(a) => {
            let once = ordered_value(v)->Array_0;
            let twice = ordered_value(ordered_value(v))->Array_0;
            assert forall|i: int| 0 <= i < once.values.len() implies twice.values[i]
                == once.values[i] by {
                lemma_value_ordered_twice(a.values[i]);
            }
            assert(twice.values =~= once.values);
        },
        ValueModel::InlineTable(t) => {
            let before = inline_alphabetical_before();
            let g = |e: InlineEntryModel|
                InlineEntryModel { key: e.key, value: ordered_value(e.value) };
            let mapped = with_ordered_values(t.entries);
            let sorted = stable_sort(mapped, before);
            assert forall|a: Seq<char>, b: Seq<char>| #[trigger] crate::text::lex_less(a, b) implies
                !crate::text::lex_less(b, a) by {
                lemma_lex_asymmetric(a, b);
            }
            crate::sorting::lemma_sort_map(
                mapped,
                before,
                g,
                before,
                |e: InlineEntryModel| true,
            );
            assert(with_ordered_values(sorted) =~= sorted.map_values(g));
            assert forall|i: int| 0 <= i < mapped.len() implies mapped.map_values(g)[i]
                == mapped[i] by {
                lemma_value_ordered_twice(t.entries[i].value);
            }
            assert(mapped.map_values(g) =~= mapped);
            crate::sorting::lemma_sort_idempotent(mapped, before);
        },
    }
}

pub proof fn lemma_table_ordered_twice(t: TableModel, pins: Seq<Seq<char>>)
    ensures
        ordered_table(ordered_table(t, pins), pins) == ordered_table(t, pins),
    decreases t,
{
    let before = alphabetical_before(pins);
    let g = |e: EntryModel| ordered_entry(e, pins);
    let mapped = ordered_entries(t.entries, pins);
    let sorted = stable_sort(mapped, before);
    assert forall|a: Seq<char>, b: Seq<char>| #[trigger] crate::text::lex_less(a, b) implies
        !crate::text::lex_less(b, a) by {
        lemma_lex_asymmetric(a, b);
    }
    crate::sorting::lemma_sort_map(mapped, before, g, before, |e: EntryModel| true);
    assert(ordered_entries(sorted, pins) =~= sorted.map_values(g));
    assert forall|i: int| 0 <= i < mapped.len() implies mapped.map_values(g)[i] == mapped[i] by {
        lemma_entry_ordered_twice(t.entries[i], pins);
    }
    assert(mapped.map_values(g) =~= mapped);
    crate::sorting::lemma_sort_idempotent(mapped, before);
}

pub proof fn lemma_entry_ordered_twice(e: EntryModel, pins: Seq<Seq<char>>)
    ensures
        ordered_entry(ordered_entry(e, pins), pins) == ordered_entry(e, pins),
    decreases e,
{
    match e.item {
        ItemModel::Absent => {},
        ItemModel::Value(v) => {
            lemma_value_ordered_twice(v);
        },
        ItemModel::Table(t) => {
            lemma_table_ordered_twice(t, pins);
        },
        ItemModel::ArrayOfTables(ts) => {
            let once = crate::ordering::ordered_item(e.item, pins)->ArrayOfTables_0;
            let twice = crate::ordering::ordered_item(
                crate::ordering::ordered_item(e.item, pins),
                pins,
            )->ArrayOfTables_0;
            assert forall|i: int| 0 <= i < once.len() implies twice[i] == once[i] by {
                lemma_table_ordered_twice(ts[i], pins);
            }
            assert(twice =~= once);
        },
    }
}

pub proof fn lemma_table_numbered_twice(t: TableModel, next: usize, under: Option<bool>)
    requires
        numbered_table(t, next, under) is Some,
    ensures
        numbered_table(numbered_table(t, next, under)->Some_0.0, next, under) == numbered_table(
            t,
            next,
            under,
        ),
    decreases t,
{
    let mine: usize = if t.position is Some {
        (next + 1) as usize
    } else {
        next
    };
    lemma_entries_numbered_twice(t.entries, mine, Some(t.position is Some));
}

pub proof fn lemma_entries_numbered_twice(es: Seq<EntryModel>, next: usize, under: Option<bool>)
    requires
        numbered_entries(es, next, under) is Some,
    ensures
        numbered_entries(numbered_entries(es, next, under)->Some_0.0, next, under)
            == numbered_entries(es, next, under),
    decreases es,
{
    if es.len() > 0 {
        let head = numbered_entries(es.drop_last(), next, under)->Some_0;
        lemma_entries_numbered_twice(es.drop_last(), next, under);
        lemma_entry_numbered_twice(es.last(), head.1, under);
        let last = numbered_entry(es.last(), head.1, under)->Some_0;
        assert(head.0.push(last.0).drop_last() =~= head.0);
    }
}

pub proof fn lemma_entry_numbered_twice(e: EntryModel, next: usize, under: Option<bool>)
    requires
        numbered_entry(e, next, under) is Some,
    ensures
        numbered_entry(numbered_entry(e, next, under)->Some_0.0, next, under) == numbered_entry(
            e,
            next,
            under,
        ),
    decreases e,
{
    match e.item {
        ItemModel::Table(t) => {
            lemma_table_numbered_twice(t, next, under);
        },
        ItemModel::ArrayOfTables(ts) => {
            lemma_tables_numbered_twice(ts, next);
        },
        _ => {},
    }
}

pub proof fn lemma_tables_numbered_twice(ts: Seq<TableModel>, next: usize)
    requires
        numbered_tables(ts, next) is Some,
    ensures
        numbered_tables(numbered_tables(ts, next)->Some_0.0, next) == numbered_tables(ts, next),
    decreases ts,
{
    if ts.len() > 0 {
        let head = numbered_tables(ts.drop_last(), next)->Some_0;
        lemma_tables_numbered_twice(ts.drop_last(), next);
        lemma_table_numbered_twice(ts.last(), head.1, None);
        let last = numbered_table(ts.last(), head.1, None)->Some_0;
        assert(head.0.push(last.0).drop_last() =~= head.0);
    }
}

/// The lines that a tidy prefix is made of: those that are not blank,
/// trimmed.
pub open spec fn kept_lines(ls: Seq<Seq<char>>) -> Seq<Seq<char>>
    decreases ls.len(),
{
    if ls.len() == 0 {
        Seq::empty()
    } else if trim(ls.last()).len() == 0 {
        kept_lines(ls.drop_last())
    } else {
        kept_lines(ls.drop_last()).push(trim(ls.last()))
    }
}

pub proof fn lemma_compact_lines(ls: Seq<Seq<char>>)
    requires
        forall|k: int| 0 <= k < ls.len() ==> crate::text::is_one_line(#[trigger] ls[k]),
    ensures
        crate::text::lines(crate::formatting::compact_lines(ls)) == kept_lines(ls),
        crate::formatting::compact_lines(kept_lines(ls)) == crate::formatting::compact_lines(ls),
        crate::formatting::compact_lines(ls).len() == 0 || crate::formatting::compact_lines(
            ls,
        ).last() == '\n',
        forall|k: int|
            0 <= k < kept_lines(ls).len() ==> crate::text::is_one_line(#[trigger] kept_lines(ls)[k]),
    decreases ls.len(),
{
    if ls.len() > 0 {
        let head = ls.drop_last();
        assert forall|k: int| 0 <= k < head.len() implies crate::text::is_one_line(
            #[trigger] head[k],
        ) by {
            assert(head[k] == ls[k]);
        }
        lemma_compact_lines(head);
        let last = trim(ls.last());
        if last.len() > 0 {
            let span = lemma_trim_span(ls.last());
            crate::text::lemma_trim_bounds(ls.last());
            lemma_trim_idempotent(ls.last());
            assert(crate::text::is_one_line(ls[ls.len() - 1]));
            assert(crate::text::is_one_line(last)) by {
                assert forall|j: int| 0 <= j < last.len() implies last[j] != '\n' by {
                    assert(last[j] == ls.last()[span.0 + j]);
                }
            }
            assert(is_white_space('\r'));
            let before = crate::formatting::compact_lines(head);
            crate::text::lemma_lines_after_line(last, Seq::empty());
            assert(last + seq!['\n'] + Seq::<char>::empty() =~= last + seq!['\n']);
            assert(crate::text::lines(Seq::<char>::empty()) =~= Seq::<Seq<char>>::empty());
            crate::text::lemma_lines_joined(before, last + seq!['\n']);
            assert(before + last + seq!['\n'] =~= before + (last + seq!['\n']));
            assert(kept_lines(head) + seq![last] =~= kept_lines(head).push(last));
            let kept = kept_lines(ls);
            assert(kept.drop_last() =~= kept_lines(head));
            assert forall|k: int| 0 <= k < kept.len() implies crate::text::is_one_line(
                #[trigger] kept[k],
            ) by {
                if k < kept.len() - 1 {
                    assert(kept[k] == kept_lines(head)[k]);
                }
            }
        }
    } else {
        assert(crate::text::lines(Seq::<char>::empty()) =~= Seq::<Seq<char>>::empty());
    }
}

/// A tidy prefix is left as it is.
pub proof fn lemma_tidy_twice(s: Seq<char>)
    ensures
        crate::formatting::tidy_prefix(crate::formatting::tidy_prefix(s))
            == crate::formatting::tidy_prefix(s),
{
    crate::text::lemma_lines_are_lines(s);
    lemma_compact_lines(crate::text::lines(s));
}

/// A formatted decor is left as it is.
pub proof fn lemma_decor_formatted_twice(d: DecorModel)
    ensures
        crate::formatting::formatted_decor(crate::formatting::formatted_decor(d))
            == crate::formatting::formatted_decor(d),
{
    lemma_comment_put_back(or_empty(d.prefix));
    lemma_comment_put_back(or_empty(d.suffix));
    lemma_first_index_of_is(seq![' '], '#', 1);
}

/// The decor that a rule gives to the elements of an array holds no
/// comment.
pub proof fn lemma_element_decor_silent(a: ArrayModel, i: int)
    ensures
        !crate::formatting::holds_comment(crate::formatting::element_decor(i)),
        0 <= i < a.values.len() ==> !crate::formatting::holds_comment(
            crate::formatting::line_decor(one_line_array(a), i),
        ),
        crate::formatting::comment_of(Seq::empty()) is None,
{
    if 0 <= i < a.values.len() {
        assert(crate::render::value_decor(one_line_array(a).values[i])
            == crate::formatting::element_decor(i));
    }
    lemma_first_index_of_is(seq![' '], '#', 1);
    lemma_first_index_of_is(seq!['\n'], '#', 1);
    lemma_first_index_of_is(seq!['\n', ' ', ' ', ' ', ' '], '#', 5);
}

/// An array has a comment between its brackets after formatting if and
/// only if it had one before.
pub proof fn lemma_formatted_array_comment(a: ArrayModel)
    ensures
        crate::formatting::array_has_comment(formatted_value(ValueModel::Array(a))->Array_0)
            == crate::formatting::array_has_comment(a),
        !crate::formatting::array_has_comment(one_line_array(a)),
        !crate::formatting::array_has_comment(one_per_line_array(one_line_array(a))),
{
    let once = formatted_value(ValueModel::Array(a))->Array_0;
    lemma_element_decor_silent(a, 0);
    if crate::formatting::array_has_comment(a) {
        if crate::formatting::comment_of(a.trailing) is None {
            let i = choose|i: int|
                0 <= i < a.values.len() && crate::formatting::holds_comment(
                    crate::render::value_decor(#[trigger] a.values[i]),
                );
            assert(crate::formatting::holds_comment(crate::render::value_decor(once.values[i])));
        }
    } else {
        assert forall|i: int| 0 <= i < once.values.len() implies !crate::formatting::holds_comment(
            crate::render::value_decor(#[trigger] once.values[i]),
        ) by {
            lemma_element_decor_silent(a, i);
        }
    }
    let line = one_line_array(a);
    assert forall|i: int| 0 <= i < line.values.len() implies !crate::formatting::holds_comment(
        crate::render::value_decor(#[trigger] line.values[i]),
    ) by {
        lemma_element_decor_silent(a, i);
    }
    let broken = one_per_line_array(line);
    assert forall|i: int| 0 <= i < broken.values.len() implies !crate::formatting::holds_comment(
        crate::render::value_decor(#[trigger] broken.values[i]),
    ) by {
        lemma_element_decor_silent(a, i);
        assert(crate::render::value_decor(line.values[i]) == crate::formatting::element_decor(i));
    }
}

pub proof fn lemma_value_formatted_twice(v: ValueModel)
    ensures
        formatted_value(formatted_value(v)) == formatted_value(v),
    decreases v,
{
    match v {
        ValueModel::Scalar(s) => {
            lemma_decor_formatted_twice(s.decor);
        },
        ValueModel::Array(a) => {
            lemma_decor_formatted_twice(a.decor);
            lemma_formatted_array_comment(a);
            let once = formatted_value(v)->Array_0;
            let twice = formatted_value(formatted_value(v))->Array_0;
            assert forall|i: int| 0 <= i < once.values.len() implies twice.values[i]
                == once.values[i] by {
                lemma_value_formatted_twice(a.values[i]);
                lemma_formatted_with_decor(
                    formatted_value(a.values[i]),
                    crate::render::value_decor(once.values[i]),
                );
            }
            assert(twice.values =~= once.values);
        },
        ValueModel::InlineTable(t) => {
            lemma_decor_formatted_twice(t.decor);
            let once = formatted_value(v)->InlineTable_0;
            let twice = formatted_value(formatted_value(v))->InlineTable_0;
            assert forall|i: int| 0 <= i < once.entries.len() implies twice.entries[i]
                == once.entries[i] by {
                lemma_value_formatted_twice(t.entries[i].value);
                lemma_formatted_with_decor(
                    formatted_value(t.entries[i].value),
                    crate::formatting::no_decor(),
                );
            }
            assert(twice.entries =~= once.entries);
        },
    }
}

/// Formatting a value works on its decor and on what it holds apart.
pub proof fn lemma_formatted_with_decor(v: ValueModel, d: DecorModel)
    ensures
        formatted_value(with_decor(v, d)) == with_decor(
            formatted_value(v),
            crate::formatting::formatted_decor(d),
        ),
        forall|other: DecorModel| with_decor(with_decor(v, d), other) == with_decor(v, other),
{
    match v {
        ValueModel::Scalar(_) => {},
        ValueModel::Array(a) => {
            assert(formatted_value(with_decor(v, d))->Array_0.values =~= formatted_value(
                v,
            )->Array_0.values);
        },
        ValueModel::InlineTable(t) => {
            assert(formatted_value(with_decor(v, d))->InlineTable_0.entries =~= formatted_value(
                v,
            )->InlineTable_0.entries);
        },
    }
}

pub proof fn lemma_table_formatted_twice(t: TableModel)
    ensures
        formatted_table(formatted_table(t)) == formatted_table(t),
    decreases t,
{
    let once = formatted_table(t);
    let twice = formatted_table(once);
    assert forall|i: int| 0 <= i < once.entries.len() implies twice.entries[i]
        == once.entries[i] by {
        lemma_entry_formatted_twice(t.entries[i]);
    }
    assert(twice.entries =~= once.entries);
}

pub proof fn lemma_entry_formatted_twice(e: EntryModel)
    ensures
        formatted_entry(formatted_entry(e)) == formatted_entry(e),
    decreases e,
{
    lemma_tidy_twice(or_empty(e.key.decor.prefix));
    match e.item {
        ItemModel::Absent => {},
        ItemModel::Value(v) => {
            lemma_value_formatted_twice(v);
        },
        ItemModel::Table(t) => {
            lemma_table_formatted_twice(t);
        },
        ItemModel::ArrayOfTables(ts) => {
            let once = formatted_entry(e).item->ArrayOfTables_0;
            let twice = formatted_entry(formatted_entry(e)).item->ArrayOfTables_0;
            assert forall|i: int| 0 <= i < once.len() implies twice[i] == once[i] by {
                lemma_table_formatted_twice(ts[i]);
            }
            assert(twice =~= once);
        },
    }
}

/// The tables of an array of tables after the blank lines were put before
/// them: each has one, but for the one that opens the document.
pub proof fn lemma_tables_spaced(
    opening: Option<usize>,
    key: KeyModel,
    ts: Seq<TableModel>,
    first: bool,
)
    ensures
        map_tables(AppendLineAfterOpening { opening }, key, ts, first) == (
            key,
            Seq::new(
                ts.len(),
                |i: int|
                    if opens_document(ts[i], first && i == 0, opening) {
                        ts[i]
                    } else {
                        with_blank_line(ts[i])
                    },
            ),
        ),
    decreases ts.len(),
{
    let rule = AppendLineAfterOpening { opening };
    let target = Seq::new(
        ts.len(),
        |i: int|
            if opens_document(ts[i], first && i == 0, opening) {
                ts[i]
            } else {
                with_blank_line(ts[i])
            },
    );
    if ts.len() == 0 {
        assert(target =~= Seq::<TableModel>::empty());
    } else {
        lemma_tables_spaced(opening, key, ts.drop_last(), first);
        let head = map_tables(rule, key, ts.drop_last(), first);
        let last = rule.section(head.0, ts.last(), first && ts.len() == 1);
        assert(head.1.push(last.1) =~= target);
    }
}

/// Where the blank lines stand before the sections, putting them there
/// again changes nothing.
pub proof fn lemma_blank_lines_settled(es: Seq<EntryModel>, opening: Option<usize>)
    ensures
        map_sections(
            AppendLineAfterOpening { opening },
            map_sections(AppendLineAfterOpening { opening }, es),
        ) == map_sections(AppendLineAfterOpening { opening }, es),
    decreases es.len(),
{
    let rule = AppendLineAfterOpening { opening };
    if es.len() > 0 {
        lemma_blank_lines_settled(es.drop_last(), opening);
        lemma_sections_kept(rule, es.drop_last());
        let e = es.last();
        let first = !has_section(es.drop_last());
        let head = map_sections(rule, es.drop_last());
        let last = map_entry(rule, e, first);
        let once = head.push(last);
        assert(once.drop_last() =~= head);
        match e.item {
            ItemModel::ArrayOfTables(ts) => {
                lemma_tables_spaced(opening, e.key, ts, first);
                let mapped = map_tables(rule, e.key, ts, first);
                lemma_tables_spaced(opening, mapped.0, mapped.1, first);
                assert(map_tables(rule, mapped.0, mapped.1, first).1 =~= mapped.1);
            },
            _ => {},
        }
    }
}

/// The blank lines move no section: the tables keep their positions.
pub proof fn lemma_spaced_positions(
    opening: Option<usize>,
    key: KeyModel,
    ts: Seq<TableModel>,
    first: bool,
)
    ensures
        least_position(map_tables(AppendLineAfterOpening { opening }, key, ts, first).1)
            == least_position(ts),
    decreases ts.len(),
{
    if ts.len() > 0 {
        lemma_spaced_positions(opening, key, ts.drop_last(), first);
        let rule = AppendLineAfterOpening { opening };
        let head = map_tables(rule, key, ts.drop_last(), first);
        let last = rule.section(head.0, ts.last(), first && ts.len() == 1);
        assert(head.1.push(last.1).drop_last() =~= head.1);
    }
}

/// The blank lines leave the section that opens the document where it is.
pub proof fn lemma_opening_kept(es: Seq<EntryModel>, opening: Option<usize>)
    ensures
        opening_position(map_sections(AppendLineAfterOpening { opening }, es))
            == opening_position(es),
    decreases es.len(),
{
    let rule = AppendLineAfterOpening { opening };
    if es.len() > 0 {
        lemma_opening_kept(es.drop_last(), opening);
        let e = es.last();
        let first = !has_section(es.drop_last());
        let head = map_sections(rule, es.drop_last());
        let last = map_entry(rule, e, first);
        assert(head.push(last).drop_last() =~= head);
        match e.item {
            ItemModel::ArrayOfTables(ts) => {
                lemma_spaced_positions(opening, e.key, ts, first);
            },
            _ => {},
        }
    }
}

/// No table stands at a lower position than the least.
pub proof fn lemma_least_position(ts: Seq<TableModel>, j: int)
    requires
        0 <= j < ts.len(),
        ts[j].position is Some,
    ensures
        least_position(ts) matches Some(p) && p <= ts[j].position->Some_0,
    decreases ts.len(),
{
    if j < ts.len() - 1 {
        lemma_least_position(ts.drop_last(), j);
    }
}

/// No top-level table stands at a lower position than the section that
/// opens the document.
pub proof fn lemma_opening_is_lowest(es: Seq<EntryModel>, i: int)
    requires
        0 <= i < es.len(),
    ensures
        match es[i].item {
            ItemModel::Table(t) => t.position matches Some(q) ==> opening_position(
                es,
            ) matches Some(p) && p <= q,
            ItemModel::ArrayOfTables(ts) => forall|j: int|
                0 <= j < ts.len() ==> ((#[trigger] ts[j]).position matches Some(q)
                    ==> opening_position(es) matches Some(p) && p <= q),
            _ => true,
        },
    decreases es.len(),
{
    if i < es.len() - 1 {
        lemma_opening_is_lowest(es.drop_last(), i);
    } else {
        match es[i].item {
            ItemModel::ArrayOfTables(ts) => {
                assert forall|j: int| 0 <= j < ts.len() implies ((#[trigger] ts[j]).position matches Some(
                    q,
                ) ==> opening_position(es) matches Some(p) && p <= q) by {
                    if ts[j].position is Some {
                        lemma_least_position(ts, j);
                    }
                }
            },
            _ => {},
        }
    }
}

/// What the blank lines make of one top-level entry.
pub proof fn lemma_spaced_entry(es: Seq<EntryModel>, opening: Option<usize>, i: int)
    requires
        0 <= i < es.len(),
    ensures
        map_sections(AppendLineAfterOpening { opening }, es).len() == es.len(),
        map_sections(AppendLineAfterOpening { opening }, es)[i] == map_entry(
            AppendLineAfterOpening { opening },
            es[i],
            !has_section(es.take(i)),
        ),
    decreases es.len(),
{
    let rule = AppendLineAfterOpening { opening };
    lemma_sections_kept(rule, es);
    if i < es.len() - 1 {
        lemma_spaced_entry(es.drop_last(), opening, i);
        assert(es.drop_last().take(i) =~= es.take(i));
    } else {
        assert(es.take(i) =~= es.drop_last());
    }
}

/// The groups that are finished, the prefix of the group that is open, and
/// its members: where the reading of entries into groups stands.
pub type Groups = (Seq<EntryModel>, Option<Seq<char>>, Seq<EntryModel>);

/// Where the reading stands after one more entry.
pub open spec fn group_step(state: Groups, e: EntryModel) -> Groups {
    if state.2.len() == 0 || starts_group(e) {
        (
            state.0 + finished_group(state.1, state.2),
            e.key.decor.prefix,
            seq![with_prefix(e, Some(Seq::empty()))],
        )
    } else {
        (state.0, state.1, state.2.push(e))
    }
}

/// Where the reading stands after more entries.
pub open spec fn group_run(state: Groups, es: Seq<EntryModel>) -> Groups
    decreases es.len(),
{
    if es.len() == 0 {
        state
    } else {
        group_step(group_run(state, es.drop_last()), es.last())
    }
}

pub proof fn lemma_grouping_runs(es: Seq<EntryModel>)
    ensures
        grouping(es) == group_run((Seq::empty(), None, Seq::empty()), es),
    decreases es.len(),
{
    if es.len() > 0 {
        lemma_grouping_runs(es.drop_last());
    }
}

pub proof fn lemma_group_run_joined(state: Groups, a: Seq<EntryModel>, b: Seq<EntryModel>)
    ensures
        group_run(state, a + b) == group_run(group_run(state, a), b),
    decreases b.len(),
{
    if b.len() == 0 {
        assert(a + b =~= a);
    } else {
        lemma_group_run_joined(state, a, b.drop_last());
        assert((a + b).drop_last() =~= a + b.drop_last());
    }
}

/// Whether no entry starts a group.
pub open spec fn is_quiet(es: Seq<EntryModel>) -> bool {
    forall|i: int| 0 <= i < es.len() ==> !starts_group(#[trigger] es[i])
}

/// An entry that starts a group and entries that start none are read as
/// one group.
pub proof fn lemma_group_read(state: Groups, x: EntryModel, quiet: Seq<EntryModel>)
    requires
        state.2.len() == 0 || starts_group(x),
        is_quiet(quiet),
    ensures
        group_run(state, seq![x] + quiet) == (
            state.0 + finished_group(state.1, state.2),
            x.key.decor.prefix,
            seq![with_prefix(x, Some(Seq::empty()))] + quiet,
        ),
    decreases quiet.len(),
{
    let all = seq![x] + quiet;
    if quiet.len() == 0 {
        assert(all =~= seq![x]);
        assert(all.drop_last() =~= Seq::<EntryModel>::empty());
        assert(group_run(state, all.drop_last()) == state);
        assert(group_run(state, all) == group_step(state, x));
        assert(seq![with_prefix(x, Some(Seq::empty()))] + quiet =~= seq![
            with_prefix(x, Some(Seq::empty())),
        ]);
    } else {
        assert forall|i: int| 0 <= i < quiet.drop_last().len() implies !starts_group(
            #[trigger] quiet.drop_last()[i],
        ) by {
            assert(quiet.drop_last()[i] == quiet[i]);
        }
        lemma_group_read(state, x, quiet.drop_last());
        assert(all.drop_last() =~= seq![x] + quiet.drop_last());
        assert(all.last() == quiet.last());
        assert(group_run(state, all) == group_step(group_run(state, all.drop_last()), quiet.last()));
        assert(!starts_group(quiet[quiet.len() - 1]));
        assert((seq![with_prefix(x, Some(Seq::empty()))] + quiet.drop_last()).push(
            quiet.last(),
        ) =~= seq![with_prefix(x, Some(Seq::empty()))] + quiet);
    }
}

/// The members of a group in order, the first without a prefix: the group
/// as it is read again.
pub open spec fn group_read_again(members: Seq<EntryModel>) -> Seq<EntryModel> {
    let sorted = stable_sort(members, group_before());
    sorted.update(0, with_prefix(sorted[0], Some(Seq::empty())))
}

/// A finished group is read again as one group, and finished as it was.
pub proof fn lemma_group_settled(state: Groups, header: Option<Seq<char>>, members: Seq<EntryModel>)
    requires
        members.len() > 0,
        is_quiet(members),
        state.2.len() == 0 || (header matches Some(p) && has_blank_line(p)),
    ensures
        group_run(state, finished_group(header, members)) == (
            state.0 + finished_group(state.1, state.2),
            Some(or_empty(header)),
            group_read_again(members),
        ),
        finished_group(Some(or_empty(header)), group_read_again(members))
            == finished_group(header, members),
        is_quiet(group_read_again(members)),
        group_read_again(members).len() == members.len(),
{
    let before = group_before();
    let sorted = stable_sort(members, before);
    let block = finished_group(header, members);
    let again = group_read_again(members);
    crate::sorting::lemma_sort_permutes(members, before);
    crate::sorting::lemma_sort_map(
        members,
        before,
        |e: EntryModel| e,
        before,
        |e: EntryModel| !starts_group(e),
    );
    assert forall|a: Seq<char>, b: Seq<char>| #[trigger] crate::text::lex_less(a, b) implies
        !crate::text::lex_less(b, a) by {
        lemma_lex_asymmetric(a, b);
    }
    crate::sorting::lemma_sort_idempotent(members, before);
    let first = block[0];
    let rest = sorted.subrange(1, sorted.len() as int);
    assert(block =~= seq![first] + rest);
    assert(crate::text::lines(Seq::<char>::empty()) =~= Seq::<Seq<char>>::empty());
    assert forall|i: int| 0 <= i < rest.len() implies !starts_group(
        #[trigger] rest[i],
    ) by {
        assert(rest[i] == sorted[i + 1]);
    }
    lemma_group_read(state, first, rest);
    assert(seq![with_prefix(first, Some(Seq::empty()))] + rest =~= again);
    assert forall|i: int| 0 <= i < again.len() implies !starts_group(
        #[trigger] again[i],
    ) by {
        if i > 0 {
            assert(again[i] == sorted[i]);
        }
    }
    assert forall|i: int| 0 < i < again.len() implies !before(#[trigger] again[i], again[i - 1]) by {
        assert(again[i].key.name == sorted[i].key.name);
        assert(again[i - 1].key.name == sorted[i - 1].key.name);
        assert(!before(sorted[i], sorted[i - 1]));
    }
    crate::sorting::lemma_sort_without_inversion(again, before);
    assert(finished_group(Some(or_empty(header)), again) =~= block);
}

/// What the reading of entries into groups keeps at every step: the
/// finished groups are read again as they are, the open group has members
/// and none of them starts a group, and after the first group every group
/// began with a blank line.
pub proof fn lemma_grouping_kept(es: Seq<EntryModel>)
    ensures
        ({
            let state = grouping(es);
            &&& grouped_entries(state.0) == state.0
            &&& is_quiet(state.2)
            &&& (es.len() > 0 ==> state.2.len() > 0)
            &&& (state.0.len() > 0 ==> (state.1 matches Some(p) && has_blank_line(p)))
        }),
    decreases es.len(),
{
    assert(crate::text::lines(Seq::<char>::empty()) =~= Seq::<Seq<char>>::empty());
    if es.len() == 0 {
        assert(grouped_entries(Seq::empty()) =~= Seq::<EntryModel>::empty());
    } else {
        lemma_grouping_kept(es.drop_last());
        let state = grouping(es.drop_last());
        let e = es.last();
        let next = grouping(es);
        if state.2.len() == 0 || starts_group(e) {
            if state.2.len() > 0 {
                lemma_finished_read_again(state);
            } else {
                assert(next.0 =~= state.0);
            }
            assert(is_quiet(next.2));
        } else {
            assert forall|i: int| 0 <= i < next.2.len() implies !starts_group(
                #[trigger] next.2[i],
            ) by {
                if i < state.2.len() {
                    assert(next.2[i] == state.2[i]);
                }
            }
        }
    }
}

/// Finished groups, with one more group finished after them, are read
/// again as they are.
pub proof fn lemma_finished_read_again(state: Groups)
    requires
        grouped_entries(state.0) == state.0,
        is_quiet(state.2),
        state.2.len() > 0,
        state.0.len() > 0 ==> (state.1 matches Some(p) && has_blank_line(p)),
    ensures
        grouped_entries(
            state.0 + finished_group(state.1, state.2),
        ) == state.0 + finished_group(state.1, state.2),
{
    let start: Groups = (Seq::empty(), None, Seq::empty());
    let block = finished_group(state.1, state.2);
    let read = grouping(state.0);
    lemma_grouping_runs(state.0);
    lemma_grouping_runs(state.0 + block);
    lemma_group_run_joined(start, state.0, block);
    if state.0.len() == 0 {
        assert(read.2.len() == 0);
    }
    lemma_group_settled(read, state.1, state.2);
}

/// Putting the keys of the groups in order twice is putting them in order
/// once.
pub proof fn lemma_groups_settled(es: Seq<EntryModel>)
    ensures
        grouped_entries(grouped_entries(es))
            == grouped_entries(es),
{
    lemma_grouping_kept(es);
    let state = grouping(es);
    if es.len() > 0 {
        lemma_finished_read_again(state);
    } else {
        assert(grouped_entries(es) =~= Seq::<EntryModel>::empty());
        assert(grouped_entries(Seq::empty()) =~= Seq::<EntryModel>::empty());
    }
}

/// The bytes of a text made of two are the bytes of both.
pub proof fn lemma_bytes_joined(a: Seq<char>, b: Seq<char>)
    ensures
        encode_utf8(a + b).len() == encode_utf8(a).len()
            + encode_utf8(b).len(),
    decreases a.len(),
{
    if a.len() == 0 {
        assert(a + b =~= b);
    } else {
        lemma_bytes_joined(a.drop_first(), b);
        assert((a + b).drop_first() =~= a.drop_first() + b);
        assert((a + b)[0] == a[0]);
    }
}

/// Whether the text of an inline table has a length that the machine can
/// count.
pub open spec fn is_measured(t: InlineTableModel) -> bool {
    encode_utf8(render_inline_table(t, None, None)).len() <= usize::MAX
}

/// Whether that holds of the inline tables directly under an inline
/// table, and under those.
pub open spec fn is_measured_within(t: InlineTableModel) -> bool
    decreases t,
{
    forall|i: int|
        0 <= i < t.entries.len() ==> match (#[trigger] t.entries[i]).value {
            ValueModel::InlineTable(x) => is_measured(x) && is_measured_within(x),
            _ => true,
        }
}

/// Whether that holds of the inline tables of the entries of a table,
/// and of the tables under it.
pub open spec fn is_measured_table(t: TableModel) -> bool
    decreases t,
{
    forall|i: int| 0 <= i < t.entries.len() ==> is_measured_item((#[trigger] t.entries[i]).item)
}

/// Whether that holds of an item.
pub open spec fn is_measured_item(item: ItemModel) -> bool
    decreases item,
{
    match item {
        ItemModel::Value(ValueModel::InlineTable(t)) => is_measured_within(t),
        ItemModel::Table(t) => is_measured_table(t),
        ItemModel::ArrayOfTables(ts) => forall|i: int|
            0 <= i < ts.len() ==> is_measured_table(#[trigger] ts[i]),
        _ => true,
    }
}

/// An inline table without the text around it is no longer than with it.
pub proof fn lemma_bare_is_shorter(t: InlineTableModel)
    requires
        is_measured(t),
    ensures
        byte_len(render_inline_table(InlineTableModel { decor: no_decor(), ..t }, None, None))
            <= byte_len(render_inline_table(t, None, None)),
{
    let bare = render_inline_table(InlineTableModel { decor: no_decor(), ..t }, None, None);
    let before = or_default(t.decor.prefix, None);
    let after = or_default(t.decor.suffix, None);
    assert(render_inline_table(t, None, None) =~= before + bare + after);
    lemma_bytes_joined(before + bare, after);
    lemma_bytes_joined(before, bare);
}

/// Whether the wrapping of inline tables leaves an entry as it is.
pub open spec fn stays_placed(e: EntryModel, width: usize) -> bool {
    placed_entry(e, width) == (e, false)
}

pub proof fn lemma_placed_split(es: Seq<EntryModel>, width: usize)
    requires
        forall|i: int| 0 <= i < es.len() ==> stays_placed(#[trigger] es[i], width),
    ensures
        split_entries(es, width) == (es, Seq::<EntryModel>::empty()),
    decreases es.len(),
{
    if es.len() > 0 {
        assert forall|i: int| 0 <= i < es.drop_last().len() implies stays_placed(
            #[trigger] es.drop_last()[i],
            width,
        ) by {
            assert(es.drop_last()[i] == es[i]);
        }
        lemma_placed_split(es.drop_last(), width);
        assert(stays_placed(es[es.len() - 1], width));
        assert(es.drop_last().push(es.last()) =~= es);
    }
}

/// The section that a long inline table became stays as it is.
pub proof fn lemma_promoted_stays(
    key: KeyModel,
    t: InlineTableModel,
    width: usize,
    header: DecorModel,
)
    requires
        is_measured_within(t),
    ensures
        stays_placed(promoted_entry(key, t, width, header), width),
    decreases t, 1nat,
{
    let parts = split_inline_entries(t.entries, width);
    let all = parts.0 + parts.1;
    lemma_inline_split_stays(t.entries, width);
    lemma_placed_split(all, width);
    let made = promoted_entry(key, t, width, header);
    assert(made.item->Table_0.entries == all);
    assert(all + Seq::<EntryModel>::empty() =~= all);
    assert(wrapped_table(made.item->Table_0, width) == made.item->Table_0);
}

pub proof fn lemma_inline_split_stays(es: Seq<InlineEntryModel>, width: usize)
    requires
        forall|i: int|
            0 <= i < es.len() ==> match (#[trigger] es[i]).value {
                ValueModel::InlineTable(x) => is_measured(x) && is_measured_within(x),
                _ => true,
            },
    ensures
        forall|i: int|
            0 <= i < split_inline_entries(es, width).0.len() ==> stays_placed(
                #[trigger] split_inline_entries(es, width).0[i],
                width,
            ),
        forall|i: int|
            0 <= i < split_inline_entries(es, width).1.len() ==> stays_placed(
                #[trigger] split_inline_entries(es, width).1[i],
                width,
            ),
    decreases es, 0nat,
{
    if es.len() > 0 {
        assert forall|i: int| 0 <= i < es.drop_last().len() implies match (
        #[trigger] es.drop_last()[i]).value {
            ValueModel::InlineTable(x) => is_measured(x) && is_measured_within(x),
            _ => true,
        } by {
            assert(es.drop_last()[i] == es[i]);
        }
        lemma_inline_split_stays(es.drop_last(), width);
        let e = es.last();
        assert(e == es[es.len() - 1]);
        let head = split_inline_entries(es.drop_last(), width);
        let last = placed_inline_entry(e, width);
        match e.value {
            ValueModel::InlineTable(x) => {
                if is_long(e.key, x, width) {
                    lemma_promoted_stays(e.key, x, width, no_decor());
                } else {
                    lemma_bare_is_shorter(x);
                }
            },
            _ => {},
        }
        assert(stays_placed(last.0, width));
    }
}

pub proof fn lemma_table_wrapped_twice(t: TableModel, width: usize)
    requires
        is_measured_table(t),
    ensures
        wrapped_table(wrapped_table(t, width), width) == wrapped_table(t, width),
    decreases t, 1nat,
{
    let parts = split_entries(t.entries, width);
    let all = parts.0 + parts.1;
    lemma_split_stays(t.entries, width);
    lemma_placed_split(all, width);
    assert(all + Seq::<EntryModel>::empty() =~= all);
}

pub proof fn lemma_split_stays(es: Seq<EntryModel>, width: usize)
    requires
        forall|i: int| 0 <= i < es.len() ==> is_measured_item((#[trigger] es[i]).item),
    ensures
        forall|i: int|
            0 <= i < split_entries(es, width).0.len() ==> stays_placed(
                #[trigger] split_entries(es, width).0[i],
                width,
            ),
        forall|i: int|
            0 <= i < split_entries(es, width).1.len() ==> stays_placed(
                #[trigger] split_entries(es, width).1[i],
                width,
            ),
    decreases es, 0nat,
{
    if es.len() > 0 {
        assert forall|i: int| 0 <= i < es.drop_last().len() implies is_measured_item(
            (#[trigger] es.drop_last()[i]).item,
        ) by {
            assert(es.drop_last()[i] == es[i]);
        }
        lemma_split_stays(es.drop_last(), width);
        let e = es.last();
        assert(e == es[es.len() - 1]);
        lemma_placed_stays(e, width);
        let head = split_entries(es.drop_last(), width);
        let last = placed_entry(e, width);
        let parts = split_entries(es, width);
        assert(stays_placed(last.0, width));
        assert forall|i: int| 0 <= i < parts.0.len() implies stays_placed(
            #[trigger] parts.0[i],
            width,
        ) by {
            if i < head.0.len() {
                assert(parts.0[i] == head.0[i]);
            }
        }
        assert forall|i: int| 0 <= i < parts.1.len() implies stays_placed(
            #[trigger] parts.1[i],
            width,
        ) by {
            if i < head.1.len() {
                assert(parts.1[i] == head.1[i]);
            }
        }
    }
}

pub proof fn lemma_placed_stays(e: EntryModel, width: usize)
    requires
        is_measured_item(e.item),
    ensures
        stays_placed(placed_entry(e, width).0, width),
    decreases e,
{
    match e.item {
        ItemModel::Value(ValueModel::InlineTable(t)) => {
            if is_long(e.key, t, width) {
                lemma_promoted_stays(e.key, t, width, promoted_decor(t.decor));
            }
        },
        ItemModel::Table(t) => {
            lemma_table_wrapped_twice(t, width);
        },
        ItemModel::ArrayOfTables(ts) => {
            let once = placed_entry(e, width).0.item->ArrayOfTables_0;
            let twice = placed_entry(placed_entry(e, width).0, width).0.item->ArrayOfTables_0;
            assert forall|i: int| 0 <= i < ts.len() implies twice[i] == once[i] by {
                lemma_table_wrapped_twice(ts[i], width);
            }
            assert(twice =~= once);
        },
        _ => {},
    }
}

pub proof fn lemma_tables_wrapped(width: usize, key: KeyModel, ts: Seq<TableModel>, first: bool)
    ensures
        map_tables(InlineTableWrapAt { width }, key, ts, first) == (
            key,
            ts.map_values(
                |t: TableModel|
                    if is_package(key) {
                        t
                    } else {
                        wrapped_table(t, width)
                    },
            ),
        ),
    decreases ts.len(),
{
    let f = |t: TableModel|
        if is_package(key) {
            t
        } else {
            wrapped_table(t, width)
        };
    if ts.len() == 0 {
        assert(ts.map_values(f) =~= Seq::<TableModel>::empty());
    } else {
        lemma_tables_wrapped(width, key, ts.drop_last(), first);
        assert(ts.drop_last().map_values(f).push(f(ts.last())) =~= ts.map_values(f));
    }
}

/// Wrapping the inline tables of sections twice is wrapping them once.
pub proof fn lemma_wrapping_settled(es: Seq<EntryModel>, width: usize)
    requires
        forall|i: int| 0 <= i < es.len() ==> is_measured_item((#[trigger] es[i]).item),
    ensures
        map_sections(InlineTableWrapAt { width }, map_sections(InlineTableWrapAt { width }, es))
            == map_sections(InlineTableWrapAt { width }, es),
    decreases es.len(),
{
    let rule = InlineTableWrapAt { width };
    if es.len() > 0 {
        assert forall|i: int| 0 <= i < es.drop_last().len() implies is_measured_item(
            (#[trigger] es.drop_last()[i]).item,
        ) by {
            assert(es.drop_last()[i] == es[i]);
        }
        lemma_wrapping_settled(es.drop_last(), width);
        lemma_sections_kept(rule, es.drop_last());
        let e = es.last();
        assert(e == es[es.len() - 1]);
        let first = !has_section(es.drop_last());
        let head = map_sections(rule, es.drop_last());
        let last = map_entry(rule, e, first);
        let once = head.push(last);
        assert(once.drop_last() =~= head);
        match e.item {
            ItemModel::Table(t) => {
                lemma_table_wrapped_twice(t, width);
            },
            ItemModel::ArrayOfTables(ts) => {
                lemma_tables_wrapped(width, e.key, ts, first);
                let mapped = map_tables(rule, e.key, ts, first);
                lemma_tables_wrapped(width, e.key, mapped.1, first);
                let again = map_tables(rule, e.key, mapped.1, first);
                assert forall|i: int| 0 <= i < ts.len() implies again.1[i] == mapped.1[i] by {
                    lemma_table_wrapped_twice(ts[i], width);
                }
                assert(again.1 =~= mapped.1);
            },
            _ => {},
        }
    }
}

} // verus!
