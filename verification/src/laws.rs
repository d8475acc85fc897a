//! What holds of the formatting rules, whatever the document.

use vstd::prelude::*;
use crate::cargo_toml::{
    after_all_stages, after_stage, all_named, FormatRule, FormattingStage, StagedRule,
};
use crate::comments::lemma_comment_put_back;
use crate::content::{
    document_contents, entry_contents, lemma_entries_alike, lemma_entries_sorted, Held, Path,
};
use crate::document::{
    ArrayModel, DecorModel, DocumentModel, EntryModel, ItemModel, KeyModel, TableModel, ValueModel,
};
use crate::formatting::{
    formatted_table, one_line_array, or_empty, trimmed_decor, unquoted_table, with_trimmed_key,
    wrapped_array, wrapped_entry, AppendLineAfterOpening, AppendLineAfterSection,
    InlineTableWrapAt, KeyQuoteTrimmer,
    KeyTrimmer, SectionKeyNameTrimmer, TableFormatting, WrapArrayAt,
};
use crate::kept_contents::{
    lemma_arrays_wrapped, lemma_dependencies_sorted, lemma_entries_numbered, lemma_entry_ordered,
    lemma_groups_in_order, lemma_inline_tables_wrapped, lemma_keys_trimmed, lemma_line_appended,
    lemma_mapped_sections, lemma_package_in_order, lemma_quotes_trimmed,
    lemma_section_names_trimmed, lemma_tables_formatted,
};
use crate::ordering::{
    alphabetical_before, dependency_before, group_before, is_dependencies, numbered_entries,
    package_before, place_in, section_before, section_order, sections_in_order,
    with_package_in_order, with_sorted_dependencies, OrderDependencies, OrderPackageSection,
    OrderSections,
};
use crate::positions::{entries_positions, lemma_entries_positions};
use crate::settled::{
    lemma_array_wrapped_twice, lemma_entries_numbered_twice, lemma_entry_ordered_twice,
    lemma_sections_settled, lemma_table_formatted_twice, lemma_table_unquoted_twice,
    lemma_tidy_twice,
};
use crate::sorting::{keep, lemma_sort_permutes, lemma_sort_sorted, lemma_sort_stable, stable_sort};
use crate::text::{lemma_lex_asymmetric, trim, trim_lines};
use crate::toml_config::ConfigModel;
use crate::{PassError, TomlFormatter};

verus! {

/// Every rule keeps the contents of a document: each key path leads to
/// what it led to before, and there is no other. Only order, white space
/// and the way of writing differ.
pub proof fn law_rule_keeps_contents(rule: FormatRule, document: DocumentModel, config: ConfigModel)
    requires
        rule.formatted(document, config) is Ok,
    ensures
        document_contents(rule.formatted(document, config)->Ok_0) == document_contents(document),
{
    let es = document.root.entries;
    let out = rule.formatted(document, config)->Ok_0.root.entries;
    let top: Path = Seq::empty();
    match rule {
        FormatRule::OrderSections => {
            if config.order_sections {
                let sorted = sections_in_order(es, config);
                lemma_entries_sorted(es, section_before(section_order(config)), top);
                lemma_entries_numbered(sorted, 0, None, top);
            }
        },
        FormatRule::OrderPackageSection => {
            if config.order_package_section {
                assert forall|i: int| 0 <= i < es.len() implies entry_contents(out[i], top)
                    == entry_contents(es[i], top) by {
                    lemma_package_in_order(es[i], top);
                }
                lemma_entries_alike(out, es, top);
            }
        },
        FormatRule::OrderTableKeysAlphabetically => {
            assert forall|i: int| 0 <= i < es.len() implies entry_contents(out[i], top)
                == entry_contents(es[i], top) by {
                lemma_entry_ordered(es[i], config.exclude_keys_from_ordering, top);
            }
            lemma_entries_alike(out, es, top);
        },
        FormatRule::OrderDependencies => {
            if crate::ordering::sorts_by_name(config) || crate::ordering::sorts_by_length(config) {
                assert forall|i: int| 0 <= i < es.len() implies entry_contents(out[i], top)
                    == entry_contents(es[i], top) by {
                    lemma_dependencies_sorted(es[i], config, top);
                }
                lemma_entries_alike(out, es, top);
            }
        },
        FormatRule::OrderSectionKeysByGroupAlphabetically => {
            if config.order_section_keys_by_group_alphabetically {
                assert forall|i: int| 0 <= i < es.len() implies entry_contents(out[i], top)
                    == entry_contents(es[i], top) by {
                    lemma_groups_in_order(es[i], top);
                }
                lemma_entries_alike(out, es, top);
            }
        },
        FormatRule::KeyQuoteTrimmer => {
            lemma_quotes_trimmed();
            lemma_mapped_sections(KeyQuoteTrimmer, es, top);
        },
        FormatRule::KeyTrimmer => {
            lemma_keys_trimmed();
            lemma_mapped_sections(KeyTrimmer, es, top);
        },
        FormatRule::SectionKeyNameTrimmer => {
            lemma_section_names_trimmed();
            lemma_mapped_sections(SectionKeyNameTrimmer, es, top);
        },
        FormatRule::TableFormatting => {
            lemma_tables_formatted();
            lemma_mapped_sections(TableFormatting, es, top);
        },
        FormatRule::WrapArray => {
            match config.wrap_array {
                Some(width) => {
                    lemma_arrays_wrapped(width);
                    lemma_mapped_sections(WrapArrayAt { width }, es, top);
                },
                None => {},
            }
        },
        FormatRule::InlineTableWrap => {
            match config.wrap_table {
                Some(width) => {
                    lemma_inline_tables_wrapped(width);
                    lemma_mapped_sections(InlineTableWrapAt { width }, es, top);
                },
                None => {},
            }
        },
        FormatRule::AppendLineAfterSection => {
            let opening = crate::formatting::opening_position(es);
            lemma_line_appended(opening);
            lemma_mapped_sections(AppendLineAfterOpening { opening }, es, top);
        },
    }
}

pub proof fn lemma_stage_keeps_contents(
    rules: Seq<StagedRule>,
    stage: FormattingStage,
    document: DocumentModel,
    config: ConfigModel,
)
    requires
        all_named(rules),
        after_stage(rules, stage, document, config) is Ok,
    ensures
        document_contents(after_stage(rules, stage, document, config)->Ok_0) == document_contents(
            document,
        ),
    decreases rules.len(),
{
    if rules.len() > 0 {
        assert forall|i: int| 0 <= i < rules.drop_last().len() implies (
        #[trigger] rules.drop_last()[i]).2 is Named by {
            assert(rules.drop_last()[i] == rules[i]);
        }
        lemma_stage_keeps_contents(rules.drop_last(), stage, document, config);
        let d = after_stage(rules.drop_last(), stage, document, config)->Ok_0;
        let rule = rules.last();
        assert(rule == rules[rules.len() - 1]);
        if rule.0 && rule.1 == stage {
            law_rule_keeps_contents(rule.2->Named_0, d, config);
        }
    }
}

/// Formatting keeps the contents of a document, whatever the rules of this
/// library that a manifest holds, and their order.
pub proof fn law_formatting_keeps_contents(
    rules: Seq<StagedRule>,
    document: DocumentModel,
    config: ConfigModel,
)
    requires
        all_named(rules),
        after_all_stages(rules, document, config) is Ok,
    ensures
        document_contents(after_all_stages(rules, document, config)->Ok_0) == document_contents(
            document,
        ),
{
    lemma_stage_keeps_contents(rules, FormattingStage::BeforeFormatting, document, config);
    let d1 = after_stage(rules, FormattingStage::BeforeFormatting, document, config)->Ok_0;
    lemma_stage_keeps_contents(rules, FormattingStage::WhileFormatting, d1, config);
    let d2 = after_stage(rules, FormattingStage::WhileFormatting, d1, config)->Ok_0;
    lemma_stage_keeps_contents(rules, FormattingStage::AfterFormatting, d2, config);
}

/// Whether the order of the sections does not hold the name of an entry.
pub open spec fn is_unknown(order: Seq<Seq<char>>) -> spec_fn(EntryModel) -> bool {
    |e: EntryModel| place_in(order, e.key.name) == order.len()
}

/// With the ordering of sections, the sections stand in the order of the
/// manifest, or of the configuration: no section stands before one with a
/// lower place. The sections are those of the document, and those that the
/// order does not know stand last, in the order in which they stood.
pub proof fn law_sections_in_order(document: DocumentModel, config: ConfigModel)
    requires
        config.order_sections,
        OrderSections.formatted(document, config) is Ok,
    ensures
        ({
            let order = section_order(config);
            let sorted = sections_in_order(document.root.entries, config);
            let out = OrderSections.formatted(document, config)->Ok_0.root.entries;
            &&& out.len() == sorted.len()
            &&& forall|i: int| 0 <= i < out.len() ==> (#[trigger] out[i]).key == sorted[i].key
            &&& forall|i: int, j: int|
                0 <= i < j < sorted.len() ==> place_in(order, sorted[i].key.name) <= place_in(
                    order,
                    sorted[j].key.name,
                )
            &&& sorted.to_multiset() == document.root.entries.to_multiset()
            &&& keep(sorted, is_unknown(order)) == keep(document.root.entries, is_unknown(order))
        }),
{
    let order = section_order(config);
    let es = document.root.entries;
    let sorted = sections_in_order(es, config);
    let before = section_before(order);
    lemma_entries_numbered(sorted, 0, None, Seq::empty());
    lemma_sort_sorted(es, before);
    lemma_sort_permutes(es, before);
    assert forall|a: EntryModel, b: EntryModel|
        is_unknown(order)(a) && is_unknown(order)(b) implies !#[trigger] before(a, b) by {}
    lemma_sort_stable(es, before, is_unknown(order));
    assert forall|i: int, j: int| 0 <= i < j < sorted.len() implies place_in(
        order,
        sorted[i].key.name,
    ) <= place_in(order, sorted[j].key.name) by {
        assert(!before(sorted[j], sorted[i]));
    }
}

/// An array without a comment between its brackets stays on one line if
/// it fits there with its key and `=`; otherwise each of its elements
/// stands on a line of its own, indented, and the closing bracket on the
/// line after the last.
pub proof fn law_width_threshold(key: KeyModel, a: ArrayModel, width: usize)
    requires
        !crate::formatting::array_has_comment(a),
    ensures
        ({
            let out = wrapped_array(key, a, width);
            let line = one_line_array(a);
            let fits = crate::text::byte_len(key.name) + 1 + crate::render::render_array(
                line,
                None,
                None,
            ).len() <= width;
            &&& fits ==> out == line
            &&& !fits ==> out.values.len() == a.values.len() && forall|i: int|
                0 <= i < out.values.len() ==> (#[trigger] crate::render::value_decor(
                    out.values[i],
                )).prefix == Some(seq!['\n', ' ', ' ', ' ', ' '])
            &&& !fits && a.values.len() > 0 ==> crate::render::value_decor(
                out.values.last(),
            ).suffix == Some(seq!['\n'])
        }),
{
}

/// An array with a comment between its brackets keeps its lines: the
/// wrapping leaves it as it is, and the formatting of tables leaves the
/// decor of its elements, the text before its closing bracket and its
/// trailing comma as they are.
pub proof fn law_array_comments_kept(key: KeyModel, a: ArrayModel, width: usize)
    requires
        crate::formatting::array_has_comment(a),
    ensures
        wrapped_array(key, a, width) == a,
        ({
            let out = crate::formatting::formatted_value(ValueModel::Array(a))->Array_0;
            &&& out.values.len() == a.values.len()
            &&& out.trailing == a.trailing
            &&& out.trailing_comma == a.trailing_comma
            &&& forall|i: int|
                0 <= i < a.values.len() ==> crate::render::value_decor(#[trigger] out.values[i])
                    == crate::render::value_decor(a.values[i])
        }),
{
}

/// Every rule keeps the comments of a document: the comment that trails a
/// key and its value, or a table header, still trails it, word for word,
/// and no comment is added.
pub proof fn law_rule_keeps_comments(rule: FormatRule, document: DocumentModel, config: ConfigModel)
    requires
        rule.formatted(document, config) is Ok,
    ensures
        crate::comments::document_comments(rule.formatted(document, config)->Ok_0)
            == crate::comments::document_comments(document),
{
    let es = document.root.entries;
    let out = rule.formatted(document, config)->Ok_0.root.entries;
    let top: Path = Seq::empty();
    crate::kept_comments::lemma_trimmers_keep_comments();
    match rule {
        FormatRule::OrderSections => {
            if config.order_sections {
                let sorted = sections_in_order(es, config);
                crate::comments::lemma_comments_sorted(
                    es,
                    section_before(section_order(config)),
                    top,
                );
                crate::kept_comments::lemma_numbered_comments(sorted, 0, None, top);
            }
        },
        FormatRule::OrderPackageSection => {
            if config.order_package_section {
                assert forall|i: int| 0 <= i < es.len() implies crate::comments::entry_comments(
                    out[i],
                    top,
                ) == crate::comments::entry_comments(es[i], top) by {
                    crate::kept_comments::lemma_sorted_entry_comments(es[i], config, top);
                }
                crate::comments::lemma_comments_alike(out, es, top);
            }
        },
        FormatRule::OrderTableKeysAlphabetically => {
            assert forall|i: int| 0 <= i < es.len() implies crate::comments::entry_comments(
                out[i],
                top,
            ) == crate::comments::entry_comments(es[i], top) by {
                crate::kept_comments::lemma_ordered_entry_comments(
                    es[i],
                    config.exclude_keys_from_ordering,
                    top,
                );
            }
            crate::comments::lemma_comments_alike(out, es, top);
        },
        FormatRule::OrderDependencies => {
            if crate::ordering::sorts_by_name(config) || crate::ordering::sorts_by_length(config) {
                assert forall|i: int| 0 <= i < es.len() implies crate::comments::entry_comments(
                    out[i],
                    top,
                ) == crate::comments::entry_comments(es[i], top) by {
                    crate::kept_comments::lemma_sorted_entry_comments(es[i], config, top);
                }
                crate::comments::lemma_comments_alike(out, es, top);
            }
        },
        FormatRule::OrderSectionKeysByGroupAlphabetically => {
            if config.order_section_keys_by_group_alphabetically {
                assert forall|i: int| 0 <= i < es.len() implies crate::comments::entry_comments(
                    out[i],
                    top,
                ) == crate::comments::entry_comments(es[i], top) by {
                    crate::kept_comments::lemma_sorted_entry_comments(es[i], config, top);
                }
                crate::comments::lemma_comments_alike(out, es, top);
            }
        },
        FormatRule::KeyQuoteTrimmer => {
            crate::kept_comments::lemma_rewriters_keep_comments(0);
            crate::kept_comments::lemma_mapped_comments(KeyQuoteTrimmer, es, top);
        },
        FormatRule::KeyTrimmer => {
            crate::kept_comments::lemma_mapped_comments(KeyTrimmer, es, top);
        },
        FormatRule::SectionKeyNameTrimmer => {
            crate::kept_comments::lemma_mapped_comments(SectionKeyNameTrimmer, es, top);
        },
        FormatRule::TableFormatting => {
            crate::kept_comments::lemma_rewriters_keep_comments(0);
            crate::kept_comments::lemma_mapped_comments(TableFormatting, es, top);
        },
        FormatRule::WrapArray => {
            match config.wrap_array {
                Some(width) => {
                    crate::kept_comments::lemma_rewriters_keep_comments(width);
                    crate::kept_comments::lemma_mapped_comments(WrapArrayAt { width }, es, top);
                },
                None => {},
            }
        },
        FormatRule::InlineTableWrap => {
            match config.wrap_table {
                Some(width) => {
                    crate::kept_comments::lemma_rewriters_keep_comments(width);
                    crate::kept_comments::lemma_mapped_comments(
                        InlineTableWrapAt { width },
                        es,
                        top,
                    );
                },
                None => {},
            }
        },
        FormatRule::AppendLineAfterSection => {
            let opening = crate::formatting::opening_position(es);
            crate::kept_comments::lemma_line_keeps_comments(opening);
            crate::kept_comments::lemma_mapped_comments(
                AppendLineAfterOpening { opening },
                es,
                top,
            );
        },
    }
}

pub proof fn lemma_stage_keeps_comments(
    rules: Seq<StagedRule>,
    stage: FormattingStage,
    document: DocumentModel,
    config: ConfigModel,
)
    requires
        all_named(rules),
        after_stage(rules, stage, document, config) is Ok,
    ensures
        crate::comments::document_comments(after_stage(rules, stage, document, config)->Ok_0)
            == crate::comments::document_comments(document),
    decreases rules.len(),
{
    if rules.len() > 0 {
        assert forall|i: int| 0 <= i < rules.drop_last().len() implies (
        #[trigger] rules.drop_last()[i]).2 is Named by {
            assert(rules.drop_last()[i] == rules[i]);
        }
        lemma_stage_keeps_comments(rules.drop_last(), stage, document, config);
        let d = after_stage(rules.drop_last(), stage, document, config)->Ok_0;
        let rule = rules.last();
        assert(rule == rules[rules.len() - 1]);
        if rule.0 && rule.1 == stage {
            law_rule_keeps_comments(rule.2->Named_0, d, config);
        }
    }
}

/// Formatting keeps the comments of a document, whatever the rules of this
/// library that a manifest holds, and their order.
pub proof fn law_formatting_keeps_comments(
    rules: Seq<StagedRule>,
    document: DocumentModel,
    config: ConfigModel,
)
    requires
        all_named(rules),
        after_all_stages(rules, document, config) is Ok,
    ensures
        crate::comments::document_comments(after_all_stages(rules, document, config)->Ok_0)
            == crate::comments::document_comments(document),
{
    lemma_stage_keeps_comments(rules, FormattingStage::BeforeFormatting, document, config);
    let d1 = after_stage(rules, FormattingStage::BeforeFormatting, document, config)->Ok_0;
    lemma_stage_keeps_comments(rules, FormattingStage::WhileFormatting, d1, config);
    let d2 = after_stage(rules, FormattingStage::WhileFormatting, d1, config)->Ok_0;
    lemma_stage_keeps_comments(rules, FormattingStage::AfterFormatting, d2, config);
}

/// Trimming is idempotent: a trimmed text, and a trimmed decor, is left as
/// it is. Trimming loses no comment either, and no line feed that closes
/// one.
pub proof fn law_trimming_idempotent(s: Seq<char>, d: DecorModel)
    ensures
        trim(trim(s)) == trim(s),
        trim_lines(trim_lines(s)) == trim_lines(s),
        trimmed_decor(trimmed_decor(d)) == trimmed_decor(d),
        crate::formatting::comment_of(trim_lines(s)) == crate::formatting::comment_of(s),
        trim(s).len() > 0 && crate::text::ends_line(s) ==> trim_lines(s).last() == '\n',
{
    crate::text::lemma_trim_idempotent(s);
    crate::text::lemma_trim_lines_idempotent(s);
    crate::text::lemma_trim_lines_idempotent(or_empty(d.prefix));
    crate::text::lemma_trim_lines_idempotent(or_empty(d.suffix));
    crate::comments::lemma_comment_of_trimmed_lines(s);
}

/// The rules that sort are idempotent on the tables they sort: a table in
/// order is left as it is.
pub proof fn law_sorting_idempotent(
    es: Seq<EntryModel>,
    config: ConfigModel,
    pins: Seq<Seq<char>>,
    by_name: bool,
    by_length: bool,
)
    ensures
        stable_sort(stable_sort(es, package_before()), package_before()) == stable_sort(
            es,
            package_before(),
        ),
        stable_sort(
            stable_sort(es, dependency_before(by_name, by_length)),
            dependency_before(by_name, by_length),
        ) == stable_sort(es, dependency_before(by_name, by_length)),
        stable_sort(stable_sort(es, alphabetical_before(pins)), alphabetical_before(pins))
            == stable_sort(es, alphabetical_before(pins)),
        stable_sort(stable_sort(es, group_before()), group_before()) == stable_sort(
            es,
            group_before(),
        ),
        sections_in_order(sections_in_order(es, config), config) == sections_in_order(es, config),
{
    assert forall|a: Seq<char>, b: Seq<char>| #[trigger] crate::text::lex_less(a, b) implies
        !crate::text::lex_less(b, a) by {
        lemma_lex_asymmetric(a, b);
    }
    crate::sorting::lemma_sort_idempotent(es, package_before());
    crate::sorting::lemma_sort_idempotent(es, dependency_before(by_name, by_length));
    crate::sorting::lemma_sort_idempotent(es, alphabetical_before(pins));
    crate::sorting::lemma_sort_idempotent(es, group_before());
    crate::sorting::lemma_sort_idempotent(es, section_before(section_order(config)));
}

/// Ordering twice is ordering once: the ordering of sections, of the keys
/// of tables by name, and of the keys of each group of a section.
pub proof fn law_ordering_idempotent(document: DocumentModel, config: ConfigModel)
    ensures
        crate::ordering::OrderSectionKeysByGroupAlphabetically.formatted(
            crate::ordering::OrderSectionKeysByGroupAlphabetically.formatted(document, config)->Ok_0,
            config,
        ) == crate::ordering::OrderSectionKeysByGroupAlphabetically.formatted(document, config),
        OrderSections.formatted(document, config) is Ok ==> OrderSections.formatted(
            OrderSections.formatted(document, config)->Ok_0,
            config,
        ) == OrderSections.formatted(document, config),
        crate::ordering::OrderTableKeysAlphabetically.formatted(
            crate::ordering::OrderTableKeysAlphabetically.formatted(document, config)->Ok_0,
            config,
        ) == crate::ordering::OrderTableKeysAlphabetically.formatted(document, config),
{
    let es = document.root.entries;
    if config.order_sections && OrderSections.formatted(document, config) is Ok {
        let order = section_order(config);
        let before = section_before(order);
        let sorted = sections_in_order(es, config);
        let out = numbered_entries(sorted, 0, None)->Some_0.0;
        crate::sorting::lemma_sort_idempotent(es, before);
        lemma_entries_numbered(sorted, 0, None, Seq::empty());
        assert forall|i: int| 0 < i < out.len() implies !before(#[trigger] out[i], out[i - 1]) by {
            assert(out[i].key == sorted[i].key);
            assert(out[i - 1].key == sorted[i - 1].key);
            assert(!before(sorted[i], sorted[i - 1]));
        }
        crate::sorting::lemma_sort_without_inversion(out, before);
        lemma_entries_numbered_twice(sorted, 0, None);
    }
    let once = es.map_values(|e: EntryModel| crate::ordering::ordered_section(e, config));
    let twice = once.map_values(|e: EntryModel| crate::ordering::ordered_section(e, config));
    assert forall|i: int| 0 <= i < once.len() implies twice[i] == once[i] by {
        lemma_entry_ordered_twice(es[i], config.exclude_keys_from_ordering);
    }
    assert(twice =~= once);
    let grouped = es.map_values(|e: EntryModel| crate::ordering::with_groups_in_order(e));
    let regrouped = grouped.map_values(|e: EntryModel| crate::ordering::with_groups_in_order(e));
    assert forall|i: int| 0 <= i < grouped.len() implies regrouped[i] == grouped[i] by {
        match es[i].item {
            ItemModel::Table(t) => {
                crate::settled::lemma_groups_settled(t.entries);
            },
            _ => {},
        }
    }
    assert(regrouped =~= grouped);
}

/// Formatting tables twice is formatting them once.
pub proof fn law_table_formatting_idempotent(document: DocumentModel, config: ConfigModel)
    ensures
        TableFormatting.formatted(TableFormatting.formatted(document, config)->Ok_0, config)
            == TableFormatting.formatted(document, config),
{
    let on_key = |k: KeyModel|
        KeyModel {
            name: k.name,
            repr: crate::reader::key_default_repr(k.name),
            decor: crate::formatting::no_decor(),
        };
    let on_table = |k: KeyModel, t: TableModel|
        TableModel { decor: crate::formatting::formatted_header(t.decor), ..formatted_table(t) };
    assert forall|k: KeyModel, t: TableModel| #[trigger]
        on_table(k, on_table(k, t)) == on_table(k, t) by {
        lemma_table_formatted_twice(t);
        lemma_tidy_twice(or_empty(t.decor.prefix));
        lemma_comment_put_back(or_empty(t.decor.suffix));
        let once = on_table(k, t);
        assert(formatted_table(once).entries =~= formatted_table(formatted_table(t)).entries);
    }
    lemma_sections_settled(TableFormatting, on_key, on_table, document.root.entries);
}

/// A blank line is put before every top-level section but the one that
/// opens the document, which is the one at the lowest position: a table
/// at that position keeps its decor, any other table with a position has a
/// prefix that begins with a line feed, and no table stands lower than the
/// one that opens the document.
pub proof fn law_blank_line_before_sections(document: DocumentModel, config: ConfigModel, i: int)
    requires
        0 <= i < document.root.entries.len(),
        document.root.entries[i].item is Table,
        document.root.entries[i].item->Table_0.position is Some,
    ensures
        ({
            let before = document.root.entries[i].item->Table_0;
            let out = AppendLineAfterSection.formatted(document, config)->Ok_0.root.entries;
            let opening = crate::formatting::opening_position(document.root.entries);
            &&& out.len() == document.root.entries.len()
            &&& out[i].key == document.root.entries[i].key
            &&& opening matches Some(p) && p <= before.position->Some_0
            &&& out[i].item == ItemModel::Table(
                if before.position == opening {
                    before
                } else {
                    crate::formatting::with_blank_line(before)
                },
            )
            &&& before.position != opening ==> crate::formatting::begins_with_blank_line(
                or_empty(out[i].item->Table_0.decor.prefix),
            )
        }),
{
    let es = document.root.entries;
    let opening = crate::formatting::opening_position(es);
    crate::settled::lemma_opening_is_lowest(es, i);
    crate::settled::lemma_spaced_entry(es, opening, i);
    let before = es[i].item->Table_0;
    if before.position != opening {
        let spaced = crate::formatting::with_blank_line(before);
        if !crate::formatting::begins_with_blank_line(or_empty(before.decor.prefix)) {
            assert(or_empty(spaced.decor.prefix)[0] == '\n');
        }
    }
}

/// Turning long inline tables into sections twice is turning them into
/// sections once, in a document that memory can hold: the text of each of
/// its inline tables has a length that the machine can count.
pub proof fn law_table_wrapping_idempotent(document: DocumentModel, config: ConfigModel)
    requires
        crate::settled::is_measured_table(document.root),
    ensures
        crate::formatting::InlineTableWrap.formatted(
            crate::formatting::InlineTableWrap.formatted(document, config)->Ok_0,
            config,
        ) == crate::formatting::InlineTableWrap.formatted(document, config),
{
    match config.wrap_table {
        Some(width) => {
            crate::settled::lemma_wrapping_settled(document.root.entries, width);
        },
        None => {},
    }
}

/// Formatting twice is formatting once for these rules: the trimming of
/// section names, of keys and of quotes, the blank lines before sections,
/// the wrapping of arrays, and the ordering of the `package` section and of
/// the dependencies.
pub proof fn law_rules_idempotent(document: DocumentModel, config: ConfigModel)
    ensures
        AppendLineAfterSection.formatted(
            AppendLineAfterSection.formatted(document, config)->Ok_0,
            config,
        ) == AppendLineAfterSection.formatted(document, config),
        SectionKeyNameTrimmer.formatted(
            SectionKeyNameTrimmer.formatted(document, config)->Ok_0,
            config,
        ) == SectionKeyNameTrimmer.formatted(document, config),
        KeyTrimmer.formatted(KeyTrimmer.formatted(document, config)->Ok_0, config)
            == KeyTrimmer.formatted(document, config),
        KeyQuoteTrimmer.formatted(KeyQuoteTrimmer.formatted(document, config)->Ok_0, config)
            == KeyQuoteTrimmer.formatted(document, config),
        crate::formatting::WrapArray.formatted(
            crate::formatting::WrapArray.formatted(document, config)->Ok_0,
            config,
        ) == crate::formatting::WrapArray.formatted(document, config),
        OrderPackageSection.formatted(
            OrderPackageSection.formatted(document, config)->Ok_0,
            config,
        ) == OrderPackageSection.formatted(document, config),
        OrderDependencies.formatted(document, config) is Ok ==> OrderDependencies.formatted(
            OrderDependencies.formatted(document, config)->Ok_0,
            config,
        ) == OrderDependencies.formatted(document, config),
{
    let es = document.root.entries;
    crate::settled::lemma_blank_lines_settled(es, crate::formatting::opening_position(es));
    crate::settled::lemma_opening_kept(es, crate::formatting::opening_position(es));
    let trim_key = |k: KeyModel| KeyModel { decor: trimmed_decor(k.decor), ..k };
    let same_table = |k: KeyModel, t: TableModel| t;
    assert forall|k: KeyModel| #[trigger] trim_key(trim_key(k)) == trim_key(k) by {
        law_trimming_idempotent(Seq::empty(), k.decor);
    }
    lemma_sections_settled(SectionKeyNameTrimmer, trim_key, same_table, es);

    let same_key = |k: KeyModel| k;
    let trim_table = |k: KeyModel, t: TableModel|
        TableModel {
            decor: trimmed_decor(t.decor),
            entries: t.entries.map_values(|e: EntryModel| with_trimmed_key(e)),
            ..t
        };
    assert forall|k: KeyModel, t: TableModel| #[trigger]
        trim_table(k, trim_table(k, t)) == trim_table(k, t) by {
        law_trimming_idempotent(Seq::empty(), t.decor);
        let once = t.entries.map_values(|e: EntryModel| with_trimmed_key(e));
        let twice = once.map_values(|e: EntryModel| with_trimmed_key(e));
        assert forall|i: int| 0 <= i < once.len() implies twice[i] == once[i] by {
            law_trimming_idempotent(Seq::empty(), t.entries[i].key.decor);
        }
        assert(twice =~= once);
    }
    lemma_sections_settled(KeyTrimmer, same_key, trim_table, es);

    let unquote = |k: KeyModel, t: TableModel| unquoted_table(t);
    assert forall|k: KeyModel, t: TableModel| #[trigger]
        unquote(k, unquote(k, t)) == unquote(k, t) by {
        lemma_table_unquoted_twice(t);
    }
    lemma_sections_settled(KeyQuoteTrimmer, same_key, unquote, es);

    match config.wrap_array {
        Some(width) => {
            let rule = WrapArrayAt { width };
            let wrap = |k: KeyModel, t: TableModel|
                if crate::formatting::is_package(k) {
                    t
                } else {
                    TableModel {
                        entries: t.entries.map_values(|e: EntryModel| wrapped_entry(e, width)),
                        ..t
                    }
                };
            assert forall|k: KeyModel, t: TableModel| #[trigger]
                wrap(k, wrap(k, t)) == wrap(k, t) by {
                if !crate::formatting::is_package(k) {
                    let once = t.entries.map_values(|e: EntryModel| wrapped_entry(e, width));
                    let twice = once.map_values(|e: EntryModel| wrapped_entry(e, width));
                    assert forall|i: int| 0 <= i < once.len() implies twice[i] == once[i] by {
                        let e = t.entries[i];
                        match e.item {
                            ItemModel::Value(ValueModel::Array(a)) => {
                                lemma_array_wrapped_twice(e.key, a, width);
                            },
                            _ => {},
                        }
                    }
                    assert(twice =~= once);
                }
            }
            lemma_sections_settled(rule, same_key, wrap, es);
        },
        None => {},
    }

    if config.order_package_section {
        let once = es.map_values(|e: EntryModel| with_package_in_order(e));
        let twice = once.map_values(|e: EntryModel| with_package_in_order(e));
        assert forall|i: int| 0 <= i < once.len() implies twice[i] == once[i] by {
            match es[i].item {
                ItemModel::Table(t) => {
                    crate::sorting::lemma_sort_idempotent(t.entries, package_before());
                },
                _ => {},
            }
        }
        assert(twice =~= once);
    }
    if OrderDependencies.formatted(document, config) is Ok && (crate::ordering::sorts_by_name(
        config,
    ) || crate::ordering::sorts_by_length(config)) {
        let by_name = crate::ordering::sorts_by_name(config);
        let by_length = crate::ordering::sorts_by_length(config);
        let once = es.map_values(|e: EntryModel| with_sorted_dependencies(e, config));
        let twice = once.map_values(|e: EntryModel| with_sorted_dependencies(e, config));
        assert forall|a: Seq<char>, b: Seq<char>| #[trigger] crate::text::lex_less(a, b) implies
            !crate::text::lex_less(b, a) by {
            lemma_lex_asymmetric(a, b);
        }
        assert forall|i: int| 0 <= i < once.len() implies twice[i] == once[i] by {
            match es[i].item {
                ItemModel::Table(t) => {
                    crate::sorting::lemma_sort_idempotent(
                        t.entries,
                        dependency_before(by_name, by_length),
                    );
                },
                _ => {},
            }
        }
        assert(twice =~= once);
        let i = choose|i: int| 0 <= i < es.len() && is_dependencies(#[trigger] es[i]);
        assert(is_dependencies(once[i]));
    }
}

/// After the ordering of sections no two tables share a position: the
/// positions are 1, 2, 3 and so on, in the order of the tree.
pub proof fn law_positions_distinct(document: DocumentModel, config: ConfigModel)
    requires
        config.order_sections,
        OrderSections.formatted(document, config) is Ok,
    ensures
        ({
            let positions = entries_positions(
                OrderSections.formatted(document, config)->Ok_0.root.entries,
            );
            &&& forall|i: int| 0 <= i < positions.len() ==> #[trigger] positions[i] == i + 1
            &&& forall|i: int, j: int|
                0 <= i < j < positions.len() ==> #[trigger] positions[i] != #[trigger] positions[j]
        }),
{
    lemma_entries_positions(sections_in_order(document.root.entries, config), 0, None);
}

/// Whether no path leads to two things.
pub open spec fn paths_unique(contents: crate::content::Contents) -> bool {
    forall|path: Path, a: Held, b: Held|
        contents.count((path, a)) > 0 && contents.count((path, b)) > 0 ==> a == b
            && contents.count((path, a)) == 1
}

/// A document in which no table holds a key twice stays one under every
/// rule: no path comes to lead to two things.
pub proof fn law_paths_stay_unique(rule: FormatRule, document: DocumentModel, config: ConfigModel)
    requires
        rule.formatted(document, config) is Ok,
        paths_unique(document_contents(document)),
    ensures
        paths_unique(document_contents(rule.formatted(document, config)->Ok_0)),
{
    law_rule_keeps_contents(rule, document, config);
}

/// The rules that sort only move entries: the entries of a sorted table
/// are those that it had, each with all that it held.
pub proof fn law_sorting_permutes(
    es: Seq<EntryModel>,
    config: ConfigModel,
    pins: Seq<Seq<char>>,
    by_name: bool,
    by_length: bool,
)
    ensures
        stable_sort(es, package_before()).to_multiset() == es.to_multiset(),
        stable_sort(es, dependency_before(by_name, by_length)).to_multiset() == es.to_multiset(),
        stable_sort(es, alphabetical_before(pins)).to_multiset() == es.to_multiset(),
        stable_sort(es, group_before()).to_multiset() == es.to_multiset(),
        sections_in_order(es, config).to_multiset() == es.to_multiset(),
{
    lemma_sort_permutes(es, package_before());
    lemma_sort_permutes(es, dependency_before(by_name, by_length));
    lemma_sort_permutes(es, alphabetical_before(pins));
    lemma_sort_permutes(es, group_before());
    lemma_sort_permutes(es, section_before(section_order(config)));
}

/// The configuration that formats nothing asks for no rule, and without
/// rules a document is left as it is.
pub proof fn law_no_formatting(document: DocumentModel)
    ensures
        crate::cargo_toml::rules_for(crate::toml_config::no_formatting()) == Seq::<
            StagedRule,
        >::empty(),
        after_all_stages(Seq::empty(), document, crate::toml_config::no_formatting()) == Ok::<
            DocumentModel,
            (Option<FormatRule>, PassError),
        >(document),
{
    assert(crate::cargo_toml::all_rules(crate::toml_config::no_formatting()).len() == 12);
    reveal_with_fuel(crate::cargo_toml::switched_on, 13);
    assert(crate::cargo_toml::rules_for(crate::toml_config::no_formatting()) =~= Seq::<
        StagedRule,
    >::empty());
}

} // verus!
