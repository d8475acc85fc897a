//! A formatter for Cargo manifests.
//!
//! A manifest is held as a [`document::TomlDocument`]: a tree of tables,
//! arrays and values in which every key and value keeps the white space and
//! comments written around it. Formatting rules rewrite that tree; each
//! rule's contract states the resulting tree as a function of the tree it
//! was given.

use vstd::prelude::*;
use crate::document::{
    entries_model, lemma_item_view, lemma_table_view, tables_model, DocumentModel, Entry,
    EntryModel, ItemModel, KeyModel, TableModel, TomlDocument, TomlItem, TomlKey, TomlTable,
};
use crate::toml_config::{ConfigModel, TomlFormatConfig};

pub mod cargo_toml;
pub mod comments;
pub mod content;
pub mod document;
pub mod formatting;
pub mod kept_comments;
pub mod kept_contents;
pub mod laws;
pub mod ordering;
pub mod package_order;
pub mod positions;
pub mod reader;
pub mod render;
pub mod settled;
pub mod sorting;
pub mod text;
pub mod toml_config;
pub mod utils;

verus! {

/// Why a rule could not be applied to a document.
#[derive(Clone, Copy, Debug, PartialEq, Eq, Structural)]
pub enum PassError {
    /// The rule works on a section that the document does not have.
    MissingSection,
    /// The document breaks a rule of the model: a table without a position
    /// holds a table without a position that is not implicit.
    InvariantViolation,
}

/// A formatting rule.
pub trait TomlFormatter {
    /// What the rule makes of a document, or why it cannot be applied.
    spec fn formatted(&self, document: DocumentModel, config: ConfigModel) -> Result<
        DocumentModel,
        PassError,
    >;

    /// Applies the rule. A document to which it cannot be applied is left
    /// as it is.
    fn visit_document(&mut self, toml_document: &mut TomlDocument, config: &TomlFormatConfig) -> (r:
        Result<(), PassError>)
        ensures
            match old(self).formatted(old(toml_document)@, config@) {
                Ok(m) => r is Ok && final(toml_document)@ == m,
                Err(e) => r == Err::<(), PassError>(e) && final(toml_document)@ == old(
                    toml_document,
                )@,
            },
    ;
}

/// What a rule does to one section: to its key and to its table. `first`
/// says that the section is the first of the document.
pub trait SectionRule {
    spec fn section(&self, key: KeyModel, table: TableModel, first: bool) -> (KeyModel, TableModel);

    fn on_section(&self, key: TomlKey, table: TomlTable, first: bool) -> (r: (TomlKey, TomlTable))
        ensures
            (r.0@, r.1@) == self.section(key@, table@, first),
    ;
}

/// Whether a top-level entry is a section: a table, or an array of tables
/// that is not empty.
pub open spec fn is_section(e: EntryModel) -> bool {
    match e.item {
        ItemModel::Table(_) => true,
        ItemModel::ArrayOfTables(ts) => ts.len() > 0,
        _ => false,
    }
}

/// Whether there is a section among the entries.
pub open spec fn has_section(es: Seq<EntryModel>) -> bool
    decreases es.len(),
{
    if es.len() == 0 {
        false
    } else {
        has_section(es.drop_last()) || is_section(es.last())
    }
}

/// The tables of an array of tables after the rule. They share one key, which
/// the rule sees as the table before left it.
pub open spec fn map_tables<R: SectionRule>(
    rule: R,
    key: KeyModel,
    ts: Seq<TableModel>,
    first: bool,
) -> (KeyModel, Seq<TableModel>)
    decreases ts.len(),
{
    if ts.len() == 0 {
        (key, Seq::empty())
    } else {
        let head = map_tables(rule, key, ts.drop_last(), first);
        let last = rule.section(head.0, ts.last(), first && ts.len() == 1);
        (last.0, head.1.push(last.1))
    }
}

/// A top-level entry after the rule: a section is rewritten, anything else
/// is left as it is.
pub open spec fn map_entry<R: SectionRule>(rule: R, e: EntryModel, first: bool) -> EntryModel {
    match e.item {
        ItemModel::Table(t) => {
            let r = rule.section(e.key, t, first);
            EntryModel { key: r.0, item: ItemModel::Table(r.1) }
        },
        ItemModel::ArrayOfTables(ts) => {
            let r = map_tables(rule, e.key, ts, first);
            EntryModel { key: r.0, item: ItemModel::ArrayOfTables(r.1) }
        },
        _ => e,
    }
}

/// The top-level entries after the rule was applied to every section.
pub open spec fn map_sections<R: SectionRule>(rule: R, es: Seq<EntryModel>) -> Seq<EntryModel>
    decreases es.len(),
{
    if es.len() == 0 {
        Seq::empty()
    } else {
        map_sections(rule, es.drop_last()).push(
            map_entry(rule, es.last(), !has_section(es.drop_last())),
        )
    }
}

/// The document after the rule was applied to every section.
pub open spec fn map_document<R: SectionRule>(rule: R, d: DocumentModel) -> DocumentModel {
    DocumentModel {
        root: TableModel { entries: map_sections(rule, d.root.entries), ..d.root },
        trailing: d.trailing,
    }
}

fn map_tables_of<R: SectionRule>(rule: &R, key: TomlKey, ts: Vec<TomlTable>, first: bool) -> (r: (
    TomlKey,
    Vec<TomlTable>,
))
    ensures
        (r.0@, tables_model(r.1@)) == map_tables(*rule, key@, tables_model(ts@), first),
{
    let ghost models = tables_model(ts@);
    let mut out: Vec<TomlTable> = Vec::new();
    let mut now = key;
    proof {
        assert(tables_model(out@) =~= Seq::empty());
    }
    for t in it: ts
        invariant
            it.seq() == ts@,
            models == tables_model(ts@),
            (now@, tables_model(out@)) == map_tables(
                *rule,
                key@,
                models.take(it.index() as int),
                first,
            ),
    {
        let ghost i = it.index() as int;
        proof {
            assert(models.take(i + 1).drop_last() =~= models.take(i));
            assert(models.take(i + 1).last() == t@);
        }
        let ghost before = tables_model(out@);
        let r = rule.on_section(now, t, first && out.len() == 0);
        now = r.0;
        out.push(r.1);
        proof {
            assert(tables_model(out@) =~= before.push(r.1@));
        }
    }
    proof {
        assert(models.take(ts@.len() as int) =~= models);
    }
    (now, out)
}

fn map_entry_of<R: SectionRule>(rule: &R, e: Entry, first: bool) -> (r: Entry)
    ensures
        r@ == map_entry(*rule, e@, first),
{
    proof {
        lemma_item_view(e.item);
    }
    match e.item {
        TomlItem::Table(t) => {
            let r = rule.on_section(e.key, t, first);
            let out = Entry { key: r.0, item: TomlItem::Table(r.1) };
            proof {
                lemma_item_view(out.item);
            }
            out
        },
        TomlItem::ArrayOfTables(ts) => {
            let r = map_tables_of(rule, e.key, ts, first);
            let out = Entry { key: r.0, item: TomlItem::ArrayOfTables(r.1) };
            proof {
                lemma_item_view(out.item);
            }
            out
        },
        other => {
            let out = Entry { key: e.key, item: other };
            out
        },
    }
}

fn entry_is_section(e: &Entry) -> (r: bool)
    ensures
        r == is_section(e@),
{
    proof {
        lemma_item_view(e.item);
    }
    match &e.item {
        TomlItem::Table(_) => true,
        TomlItem::ArrayOfTables(ts) => ts.len() > 0,
        _ => false,
    }
}

/// Applies a rule to every section of a document.
pub fn apply_to_sections<R: SectionRule>(document: &mut TomlDocument, rule: &R)
    ensures
        final(document)@ == map_document(*rule, old(document)@),
{
    proof {
        lemma_table_view(document.root);
    }
    let mut entries: Vec<Entry> = Vec::new();
    core::mem::swap(&mut document.root.entries, &mut entries);
    let ghost models = entries_model(entries@);
    let ghost input = entries@;
    let mut out: Vec<Entry> = Vec::new();
    let mut seen: bool = false;
    proof {
        assert(entries_model(out@) =~= Seq::empty());
    }
    for e in it: entries
        invariant
            it.seq() == input,
            models == entries_model(input),
            entries_model(out@) == map_sections(*rule, models.take(it.index() as int)),
            seen == has_section(models.take(it.index() as int)),
    {
        let ghost i = it.index() as int;
        proof {
            assert(models.take(i + 1).drop_last() =~= models.take(i));
            assert(models.take(i + 1).last() == e@);
        }
        let ghost before = entries_model(out@);
        let here = entry_is_section(&e);
        let mapped = map_entry_of(rule, e, !seen);
        out.push(mapped);
        seen = seen || here;
        proof {
            assert(entries_model(out@) =~= before.push(mapped@));
        }
    }
    proof {
        assert(models.take(input.len() as int) =~= models);
    }
    document.root.entries = out;
    proof {
        lemma_table_view(document.root);
    }
}

} // verus!
