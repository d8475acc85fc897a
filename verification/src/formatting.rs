//! The rules that change white space and layout: trimming, spacing,
//! wrapping.

use vstd::prelude::*;
use crate::document::{
    entries_model, inline_entries_model, lemma_item_view, lemma_table_view, lemma_value_view,
    tables_model, values_model, Array, ArrayModel, Decor, DecorModel, DocumentModel, Entry,
    EntryModel, InlineEntry, InlineEntryModel, InlineTable, InlineTableModel, ItemModel, KeyModel,
    Scalar, ScalarModel, TableModel, TomlDocument, TomlItem, TomlKey, TomlTable, TomlValue,
    ValueModel,
};
use crate::reader::{default_key_repr, key_default_repr};
use crate::render::{render_array, render_inline_table, value_decor, write_array, write_inline_table};
use crate::text::{
    byte_len, find_char, first_index_of, from_chars, lines, slice_chars, split_lines, to_chars,
    trim, trim_chars, trim_end, trim_end_chars, trim_lines, trim_lines_chars,
};
use crate::toml_config::{ConfigModel, TomlFormatConfig};
use crate::{apply_to_sections, map_document, PassError, SectionRule, TomlFormatter};

verus! {

/// The text of a decor, nothing where there is none.
pub open spec fn or_empty(t: Option<Seq<char>>) -> Seq<char> {
    match t {
        Some(s) => s,
        None => Seq::empty(),
    }
}

/// The comment in a decor: what follows the first `#`, without the white
/// space at its end.
pub open spec fn comment_of(s: Seq<char>) -> Option<Seq<char>> {
    let i = first_index_of(s, '#');
    if 0 <= i < s.len() {
        Some(trim_end(s.subrange(i + 1, s.len() as int)))
    } else {
        None
    }
}

/// The lines that are not blank, each without the white space around it
/// and closed by a line feed.
pub open spec fn compact_lines(ls: Seq<Seq<char>>) -> Seq<char>
    decreases ls.len(),
{
    if ls.len() == 0 {
        Seq::empty()
    } else if trim(ls.last()).len() == 0 {
        compact_lines(ls.drop_last())
    } else {
        compact_lines(ls.drop_last()) + trim(ls.last()) + seq!['\n']
    }
}

/// A prefix without blank lines and indentation: its comment lines remain.
pub open spec fn tidy_prefix(s: Seq<char>) -> Seq<char> {
    compact_lines(lines(s))
}

/// A decor with both texts trimmed: no blank lines and no white space at
/// either end, but for the line feed that closes the last line.
pub open spec fn trimmed_decor(d: DecorModel) -> DecorModel {
    DecorModel {
        prefix: Some(trim_lines(or_empty(d.prefix))),
        suffix: Some(trim_lines(or_empty(d.suffix))),
    }
}

/// Removes the blank lines and the white space at both ends of a text.
/// What stands between them stays as it is.
pub fn trim_blank_lines(s: &str) -> (r: String)
    ensures
        r@ == trim(s@),
{
    let chars = to_chars(s);
    let trimmed = trim_chars(&chars);
    from_chars(&trimmed)
}

fn text_or_empty(t: &Option<String>) -> (r: Vec<char>)
    ensures
        r@ == or_empty(crate::document::text_model(*t)),
{
    match t {
        Some(s) => to_chars(s.as_str()),
        None => Vec::new(),
    }
}

fn trim_decor_blank_lines(decor: &Decor) -> (r: Decor)
    ensures
        r@ == trimmed_decor(decor@),
{
    let prefix = trim_lines_chars(&text_or_empty(&decor.prefix));
    let suffix = trim_lines_chars(&text_or_empty(&decor.suffix));
    Decor { prefix: Some(from_chars(&prefix)), suffix: Some(from_chars(&suffix)) }
}

fn comment_in(chars: &Vec<char>) -> (r: Option<Vec<char>>)
    ensures
        match r {
            Some(c) => comment_of(chars@) == Some(c@),
            None => comment_of(chars@) is None,
        },
{
    proof {
        assert(chars@.subrange(0, chars@.len() as int) =~= chars@);
    }
    let at = find_char(chars, '#', 0);
    if at < chars.len() {
        let rest = slice_chars(chars, at + 1, chars.len());
        Some(trim_end_chars(&rest))
    } else {
        None
    }
}

fn tidy_chars(chars: &Vec<char>) -> (r: Vec<char>)
    ensures
        r@ == tidy_prefix(chars@),
{
    let ls = split_lines(chars);
    let ghost models = lines(chars@);
    let mut out: Vec<char> = Vec::new();
    let mut i: usize = 0;
    while i < ls.len()
        invariant
            i <= ls.len(),
            ls@.len() == models.len(),
            forall|k: int| 0 <= k < ls@.len() ==> (#[trigger] ls@[k])@ == models[k],
            out@ == compact_lines(models.take(i as int)),
        decreases ls.len() - i,
    {
        proof {
            assert(models.take(i + 1).drop_last() =~= models.take(i as int));
            assert(models.take(i + 1).last() == ls@[i as int]@);
        }
        let line = trim_chars(&ls[i]);
        if line.len() > 0 {
            let mut k: usize = 0;
            let ghost base = out@;
            while k < line.len()
                invariant
                    k <= line.len(),
                    out@ == base + line@.take(k as int),
                decreases line.len() - k,
            {
                out.push(line[k]);
                proof {
                    assert(line@.take(k + 1) =~= line@.take(k as int).push(line@[k as int]));
                }
                k += 1;
            }
            proof {
                assert(line@.take(line.len() as int) =~= line@);
            }
            out.push('\n');
            proof {
                assert(out@ =~= base + line@ + seq!['\n']);
            }
        }
        i += 1;
    }
    proof {
        assert(models.take(ls.len() as int) =~= models);
    }
    out
}

/// Trims the white space around section names: `[ package ]` becomes
/// `[package]`.
pub struct SectionKeyNameTrimmer;

impl SectionRule for SectionKeyNameTrimmer {
    open spec fn section(&self, key: KeyModel, table: TableModel, first: bool) -> (
        KeyModel,
        TableModel,
    ) {
        (KeyModel { decor: trimmed_decor(key.decor), ..key }, table)
    }

    fn on_section(&self, key: TomlKey, table: TomlTable, first: bool) -> (r: (TomlKey, TomlTable)) {
        let decor = trim_decor_blank_lines(&key.decor);
        (TomlKey { name: key.name, repr: key.repr, decor }, table)
    }
}

impl TomlFormatter for SectionKeyNameTrimmer {
    open spec fn formatted(&self, document: DocumentModel, config: ConfigModel) -> Result<
        DocumentModel,
        PassError,
    > {
        Ok(map_document(*self, document))
    }

    fn visit_document(&mut self, toml_document: &mut TomlDocument, config: &TomlFormatConfig) -> (r:
        Result<(), PassError>) {
        apply_to_sections(toml_document, &*self);
        Ok(())
    }
}

/// An entry with the decor of its key trimmed. An entry without an item is
/// left as it is.
pub open spec fn with_trimmed_key(e: EntryModel) -> EntryModel {
    if e.item is Absent {
        e
    } else {
        EntryModel { key: KeyModel { decor: trimmed_decor(e.key.decor), ..e.key }, item: e.item }
    }
}

/// Trims the white space around the header of every section and around
/// the keys of its entries.
pub struct KeyTrimmer;

impl SectionRule for KeyTrimmer {
    open spec fn section(&self, key: KeyModel, table: TableModel, first: bool) -> (
        KeyModel,
        TableModel,
    ) {
        (
            key,
            TableModel {
                decor: trimmed_decor(table.decor),
                entries: table.entries.map_values(|e: EntryModel| with_trimmed_key(e)),
                ..table
            },
        )
    }

    fn on_section(&self, key: TomlKey, table: TomlTable, first: bool) -> (r: (TomlKey, TomlTable)) {
        proof {
            lemma_table_view(table);
        }
        let decor = trim_decor_blank_lines(&table.decor);
        let ghost models = table@.entries;
        let mut entries: Vec<Entry> = Vec::new();
        for e in it: table.entries
            invariant
                it.seq() == table.entries@,
                models == entries_model(table.entries@),
                entries@.len() == it.index(),
                forall|j: int|
                    0 <= j < it.index() ==> (#[trigger] entries@[j])@ == with_trimmed_key(models[j]),
        {
            proof {
                lemma_item_view(e.item);
            }
            let out = match e.item {
                TomlItem::Absent => Entry { key: e.key, item: TomlItem::Absent },
                item => Entry {
                    key: TomlKey {
                        name: e.key.name,
                        repr: e.key.repr,
                        decor: trim_decor_blank_lines(&e.key.decor),
                    },
                    item,
                },
            };
            proof {
                lemma_item_view(out.item);
            }
            entries.push(out);
        }
        let out = TomlTable {
            entries,
            decor,
            implicit: table.implicit,
            dotted: table.dotted,
            position: table.position,
        };
        proof {
            lemma_table_view(out);
            assert(out@.entries =~= models.map_values(|e: EntryModel| with_trimmed_key(e)));
        }
        (key, out)
    }
}

impl TomlFormatter for KeyTrimmer {
    open spec fn formatted(&self, document: DocumentModel, config: ConfigModel) -> Result<
        DocumentModel,
        PassError,
    > {
        Ok(map_document(*self, document))
    }

    fn visit_document(&mut self, toml_document: &mut TomlDocument, config: &TomlFormatConfig) -> (r:
        Result<(), PassError>) {
        apply_to_sections(toml_document, &*self);
        Ok(())
    }
}

/// Whether a prefix begins with a line feed: a blank line stands before
/// what it belongs to.
pub open spec fn begins_with_blank_line(prefix: Seq<char>) -> bool {
    prefix.len() > 0 && prefix[0] == '\n'
}

/// A table with a blank line before its header: a line feed at the start of
/// its prefix, unless one stands there already.
pub open spec fn with_blank_line(table: TableModel) -> TableModel {
    if begins_with_blank_line(or_empty(table.decor.prefix)) {
        table
    } else {
        TableModel {
            decor: DecorModel {
                prefix: Some(seq!['\n'] + or_empty(table.decor.prefix)),
                suffix: table.decor.suffix,
            },
            ..table
        }
    }
}

/// The lower of two positions: the one that is there where the other is
/// not.
pub open spec fn lower_position(a: Option<usize>, b: Option<usize>) -> Option<usize> {
    match (a, b) {
        (Some(x), Some(y)) => if y < x {
            b
        } else {
            a
        },
        (None, _) => b,
        (_, None) => a,
    }
}

/// The least of the positions that tables have; none where none has one.
pub open spec fn least_position(ts: Seq<TableModel>) -> Option<usize>
    decreases ts.len(),
{
    if ts.len() == 0 {
        None
    } else {
        lower_position(least_position(ts.drop_last()), ts.last().position)
    }
}

/// The position of the section that opens a document: the least that a
/// top-level section has. Sections are printed by position, so this is the
/// one whose header comes first, wherever it stands among the entries.
pub open spec fn opening_position(es: Seq<EntryModel>) -> Option<usize>
    decreases es.len(),
{
    if es.len() == 0 {
        None
    } else {
        let head = opening_position(es.drop_last());
        match es.last().item {
            ItemModel::Table(t) => lower_position(head, t.position),
            ItemModel::ArrayOfTables(ts) => lower_position(head, least_position(ts)),
            _ => head,
        }
    }
}

/// Whether a section opens the document: it stands at the position of the
/// opening section. Where no section has a position, the first section
/// opens the document.
pub open spec fn opens_document(table: TableModel, first: bool, opening: Option<usize>) -> bool {
    match opening {
        Some(p) => table.position == Some(p),
        None => first,
    }
}

/// Puts a blank line before every section but the one that opens the
/// document; a section that has one is left as it is.
pub struct AppendLineAfterSection;

/// [`AppendLineAfterSection`] with the position of the section that opens
/// the document.
pub struct AppendLineAfterOpening {
    pub opening: Option<usize>,
}

impl AppendLineAfterSection {
    fn append_empty_line(table: TomlTable) -> (r: TomlTable)
        ensures
            r@ == with_blank_line(table@),
    {
        proof {
            lemma_table_view(table);
        }
        let old_prefix = text_or_empty(&table.decor.prefix);
        if old_prefix.len() > 0 && old_prefix[0] == '\n' {
            return table;
        }
        let mut prefix: Vec<char> = Vec::new();
        prefix.push('\n');
        let mut i: usize = 0;
        while i < old_prefix.len()
            invariant
                i <= old_prefix.len(),
                prefix@ == seq!['\n'] + old_prefix@.take(i as int),
            decreases old_prefix.len() - i,
        {
            prefix.push(old_prefix[i]);
            proof {
                assert(old_prefix@.take(i + 1) =~= old_prefix@.take(i as int).push(
                    old_prefix@[i as int],
                ));
            }
            i += 1;
        }
        proof {
            assert(old_prefix@.take(old_prefix.len() as int) =~= old_prefix@);
        }
        let out = TomlTable {
            entries: table.entries,
            decor: Decor { prefix: Some(from_chars(&prefix)), suffix: table.decor.suffix },
            implicit: table.implicit,
            dotted: table.dotted,
            position: table.position,
        };
        proof {
            lemma_table_view(out);
        }
        out
    }
}

fn least_position_of(ts: &Vec<TomlTable>) -> (r: Option<usize>)
    ensures
        r == least_position(tables_model(ts@)),
{
    let ghost models = tables_model(ts@);
    let mut least: Option<usize> = None;
    let mut i: usize = 0;
    while i < ts.len()
        invariant
            i <= ts.len(),
            models == tables_model(ts@),
            least == least_position(models.take(i as int)),
        decreases ts.len() - i,
    {
        proof {
            lemma_table_view(ts[i as int]);
            assert(models.take(i + 1).drop_last() =~= models.take(i as int));
        }
        least = lower_of(least, ts[i].position);
        i += 1;
    }
    proof {
        assert(models.take(ts.len() as int) =~= models);
    }
    least
}

fn lower_of(a: Option<usize>, b: Option<usize>) -> (r: Option<usize>)
    ensures
        r == lower_position(a, b),
{
    match (a, b) {
        (Some(x), Some(y)) => if y < x {
            b
        } else {
            a
        },
        (None, _) => b,
        (_, None) => a,
    }
}

fn opening_of(entries: &Vec<Entry>) -> (r: Option<usize>)
    ensures
        r == opening_position(entries_model(entries@)),
{
    let ghost models = entries_model(entries@);
    let mut least: Option<usize> = None;
    let mut i: usize = 0;
    while i < entries.len()
        invariant
            i <= entries.len(),
            models == entries_model(entries@),
            least == opening_position(models.take(i as int)),
        decreases entries.len() - i,
    {
        proof {
            lemma_item_view(entries[i as int].item);
            assert(models.take(i + 1).drop_last() =~= models.take(i as int));
            assert(models.take(i + 1).last() == entries[i as int]@);
        }
        match &entries[i].item {
            TomlItem::Table(t) => {
                proof {
                    lemma_table_view(*t);
                }
                least = lower_of(least, t.position);
            },
            TomlItem::ArrayOfTables(ts) => {
                least = lower_of(least, least_position_of(ts));
            },
            _ => {},
        }
        i += 1;
    }
    proof {
        assert(models.take(entries.len() as int) =~= models);
    }
    least
}

impl SectionRule for AppendLineAfterOpening {
    open spec fn section(&self, key: KeyModel, table: TableModel, first: bool) -> (
        KeyModel,
        TableModel,
    ) {
        if opens_document(table, first, self.opening) {
            (key, table)
        } else {
            (key, with_blank_line(table))
        }
    }

    fn on_section(&self, key: TomlKey, table: TomlTable, first: bool) -> (r: (TomlKey, TomlTable)) {
        proof {
            lemma_table_view(table);
        }
        let opens = match self.opening {
            Some(p) => match table.position {
                Some(q) => p == q,
                None => false,
            },
            None => first,
        };
        if opens {
            (key, table)
        } else {
            (key, AppendLineAfterSection::append_empty_line(table))
        }
    }
}

impl TomlFormatter for AppendLineAfterSection {
    open spec fn formatted(&self, document: DocumentModel, config: ConfigModel) -> Result<
        DocumentModel,
        PassError,
    > {
        Ok(
            map_document(
                AppendLineAfterOpening { opening: opening_position(document.root.entries) },
                document,
            ),
        )
    }

    fn visit_document(&mut self, toml_document: &mut TomlDocument, config: &TomlFormatConfig) -> (r:
        Result<(), PassError>) {
        proof {
            lemma_table_view(toml_document.root);
        }
        let opening = opening_of(&toml_document.root.entries);
        apply_to_sections(toml_document, &AppendLineAfterOpening { opening });
        Ok(())
    }
}


/// A key without quotes where its name allows it: a key written in double
/// quotes is written anew, the way a key of its name is written by default.
pub open spec fn unquoted_key(k: KeyModel) -> KeyModel {
    if k.repr.len() > 0 && k.repr[0] == '"' {
        KeyModel { repr: key_default_repr(k.name), ..k }
    } else {
        k
    }
}

/// A value with the keys of its inline tables unquoted. Arrays are left as
/// they are.
pub open spec fn unquoted_value(v: ValueModel) -> ValueModel
    decreases v,
{
    match v {
        ValueModel::InlineTable(t) => ValueModel::InlineTable(
            InlineTableModel {
                entries: Seq::new(
                    t.entries.len(),
                    |i: int|
                        if 0 <= i < t.entries.len() {
                            InlineEntryModel {
                                key: unquoted_key(t.entries[i].key),
                                value: unquoted_value(t.entries[i].value),
                            }
                        } else {
                            arbitrary()
                        },
                ),
                ..t
            },
        ),
        _ => v,
    }
}

/// A table with every key in it unquoted, at any depth.
pub open spec fn unquoted_table(t: TableModel) -> TableModel
    decreases t,
{
    TableModel {
        entries: Seq::new(
            t.entries.len(),
            |i: int|
                if 0 <= i < t.entries.len() {
                    unquoted_entry(t.entries[i])
                } else {
                    arbitrary()
                },
        ),
        ..t
    }
}

/// An entry with its key and every key in it unquoted.
pub open spec fn unquoted_entry(e: EntryModel) -> EntryModel
    decreases e,
{
    match e.item {
        ItemModel::Absent => e,
        ItemModel::Value(v) => EntryModel {
            key: unquoted_key(e.key),
            item: ItemModel::Value(unquoted_value(v)),
        },
        ItemModel::Table(t) => EntryModel {
            key: unquoted_key(e.key),
            item: ItemModel::Table(unquoted_table(t)),
        },
        ItemModel::ArrayOfTables(ts) => EntryModel {
            key: unquoted_key(e.key),
            item: ItemModel::ArrayOfTables(
                Seq::new(
                    ts.len(),
                    |i: int|
                        if 0 <= i < ts.len() {
                            unquoted_table(ts[i])
                        } else {
                            arbitrary()
                        },
                ),
            ),
        },
    }
}

/// Writes the keys of every section without quotes where their names allow
/// it: `"a" = 1` becomes `a = 1`. The decor of a key stays.
pub struct KeyQuoteTrimmer;

impl KeyQuoteTrimmer {
    fn remove_quotes(key: TomlKey) -> (r: TomlKey)
        ensures
            r@ == unquoted_key(key@),
    {
        let chars = to_chars(key.repr.as_str());
        if chars.len() > 0 && chars[0] == '"' {
            let repr = default_key_repr(key.name.as_str());
            TomlKey { name: key.name, repr, decor: key.decor }
        } else {
            key
        }
    }

    #[verifier::loop_isolation(false)]
    fn visit_value(value: TomlValue) -> (r: TomlValue)
        ensures
            r@ == unquoted_value(value@),
        decreases value,
    {
        proof {
            lemma_value_view(value);
        }
        match value {
            TomlValue::InlineTable(t) => {
                let ghost models = t@.entries;
                let mut entries: Vec<InlineEntry> = Vec::new();
                for e in it: t.entries
                    invariant
                        it.seq() == t.entries@,
                        entries@.len() == it.index(),
                        forall|j: int|
                            0 <= j < it.index() ==> (#[trigger] entries@[j])@ == (InlineEntryModel {
                                key: unquoted_key(models[j].key),
                                value: unquoted_value(models[j].value),
                            }),
                {
                    entries.push(
                        InlineEntry {
                            key: Self::remove_quotes(e.key),
                            value: Self::visit_value(e.value),
                        },
                    );
                }
                let out = TomlValue::InlineTable(
                    InlineTable { entries, preamble: t.preamble, decor: t.decor, dotted: t.dotted },
                );
                proof {
                    lemma_value_view(out);
                    assert(out@->InlineTable_0.entries =~= unquoted_value(
                        value@,
                    )->InlineTable_0.entries);
                }
                out
            },
            other => other,
        }
    }

    #[verifier::loop_isolation(false)]
    fn visit_table(table: TomlTable) -> (r: TomlTable)
        ensures
            r@ == unquoted_table(table@),
        decreases table,
    {
        proof {
            lemma_table_view(table);
        }
        let ghost models = table@.entries;
        let mut entries: Vec<Entry> = Vec::new();
        for e in it: table.entries
            invariant
                it.seq() == table.entries@,
                entries@.len() == it.index(),
                forall|j: int|
                    0 <= j < it.index() ==> (#[trigger] entries@[j])@ == unquoted_entry(models[j]),
        {
            entries.push(Self::visit_item(e));
        }
        let out = TomlTable {
            entries,
            decor: table.decor,
            implicit: table.implicit,
            dotted: table.dotted,
            position: table.position,
        };
        proof {
            lemma_table_view(out);
            assert(out@.entries =~= unquoted_table(table@).entries);
        }
        out
    }

    #[verifier::loop_isolation(false)]
    fn visit_item(entry: Entry) -> (r: Entry)
        ensures
            r@ == unquoted_entry(entry@),
        decreases entry,
    {
        proof {
            lemma_item_view(entry.item);
        }
        let out = match entry.item {
            TomlItem::Absent => Entry { key: entry.key, item: TomlItem::Absent },
            TomlItem::Value(v) => Entry {
                key: Self::remove_quotes(entry.key),
                item: TomlItem::Value(Self::visit_value(v)),
            },
            TomlItem::Table(t) => Entry {
                key: Self::remove_quotes(entry.key),
                item: TomlItem::Table(Self::visit_table(t)),
            },
            TomlItem::ArrayOfTables(ts) => {
                let ghost models = tables_model(ts@);
                let mut tables: Vec<TomlTable> = Vec::new();
                for t in it: ts
                    invariant
                        it.seq() == ts@,
                        tables@.len() == it.index(),
                        forall|j: int|
                            0 <= j < it.index() ==> (#[trigger] tables@[j])@ == unquoted_table(
                                models[j],
                            ),
                {
                    tables.push(Self::visit_table(t));
                }
                let out = Entry {
                    key: Self::remove_quotes(entry.key),
                    item: TomlItem::ArrayOfTables(tables),
                };
                proof {
                    lemma_item_view(out.item);
                    assert(out@.item->ArrayOfTables_0 =~= unquoted_entry(
                        entry@,
                    ).item->ArrayOfTables_0);
                }
                out
            },
        };
        proof {
            lemma_item_view(out.item);
        }
        out
    }
}

impl SectionRule for KeyQuoteTrimmer {
    open spec fn section(&self, key: KeyModel, table: TableModel, first: bool) -> (
        KeyModel,
        TableModel,
    ) {
        (key, unquoted_table(table))
    }

    fn on_section(&self, key: TomlKey, table: TomlTable, first: bool) -> (r: (TomlKey, TomlTable)) {
        (key, Self::visit_table(table))
    }
}

impl TomlFormatter for KeyQuoteTrimmer {
    open spec fn formatted(&self, document: DocumentModel, config: ConfigModel) -> Result<
        DocumentModel,
        PassError,
    > {
        Ok(map_document(*self, document))
    }

    fn visit_document(&mut self, toml_document: &mut TomlDocument, config: &TomlFormatConfig) -> (r:
        Result<(), PassError>) {
        apply_to_sections(toml_document, &*self);
        Ok(())
    }
}


/// The decor of something that has none of its own.
pub open spec fn no_decor() -> DecorModel {
    DecorModel { prefix: None, suffix: None }
}

/// A comment as it is put back after a value, or else the text given.
pub open spec fn with_comment(comment: Option<Seq<char>>, otherwise: Seq<char>) -> Seq<char> {
    match comment {
        Some(c) => seq![' ', '#'] + c,
        None => otherwise,
    }
}

/// The decor of a formatted value: one space before it and nothing after
/// it, but for the comment that either side held.
pub open spec fn formatted_decor(d: DecorModel) -> DecorModel {
    DecorModel {
        prefix: Some(with_comment(comment_of(or_empty(d.prefix)), seq![' '])),
        suffix: Some(with_comment(comment_of(or_empty(d.suffix)), Seq::empty())),
    }
}

/// The decor of the element at `i` of an array on one line.
pub open spec fn element_decor(i: int) -> DecorModel {
    DecorModel {
        prefix: Some(
            if i == 0 {
                Seq::empty()
            } else {
                seq![' ']
            },
        ),
        suffix: Some(Seq::empty()),
    }
}

/// A value with another decor.
pub open spec fn with_decor(v: ValueModel, d: DecorModel) -> ValueModel {
    match v {
        ValueModel::Scalar(s) => ValueModel::Scalar(ScalarModel { decor: d, ..s }),
        ValueModel::Array(a) => ValueModel::Array(ArrayModel { decor: d, ..a }),
        ValueModel::InlineTable(t) => ValueModel::InlineTable(InlineTableModel { decor: d, ..t }),
    }
}

/// Whether a decor holds a comment, before or after what it belongs to.
pub open spec fn holds_comment(d: DecorModel) -> bool {
    comment_of(or_empty(d.prefix)) is Some || comment_of(or_empty(d.suffix)) is Some
}

/// Whether a comment stands between the brackets of an array: around one
/// of its elements, or before the closing bracket.
pub open spec fn array_has_comment(a: ArrayModel) -> bool {
    comment_of(a.trailing) is Some || exists|i: int|
        0 <= i < a.values.len() && holds_comment(value_decor(#[trigger] a.values[i]))
}

/// A formatted value. An array comes to stand on one line, its elements
/// formatted and a space after each comma; an array with a comment between
/// its brackets keeps its lines, and only what its elements hold is
/// formatted. The keys and values of an inline table are formatted and get
/// the default decor.
pub open spec fn formatted_value(v: ValueModel) -> ValueModel
    decreases v,
{
    match v {
        ValueModel::Scalar(s) => ValueModel::Scalar(
            ScalarModel { decor: formatted_decor(s.decor), ..s },
        ),
        ValueModel::Array(a) => ValueModel::Array(
            ArrayModel {
                values: Seq::new(
                    a.values.len(),
                    |i: int|
                        if 0 <= i < a.values.len() {
                            with_decor(
                                formatted_value(a.values[i]),
                                if array_has_comment(a) {
                                    value_decor(a.values[i])
                                } else {
                                    element_decor(i)
                                },
                            )
                        } else {
                            arbitrary()
                        },
                ),
                trailing: if array_has_comment(a) {
                    a.trailing
                } else {
                    Seq::empty()
                },
                trailing_comma: array_has_comment(a) && a.trailing_comma,
                decor: formatted_decor(a.decor),
            },
        ),
        ValueModel::InlineTable(t) => ValueModel::InlineTable(
            InlineTableModel {
                entries: Seq::new(
                    t.entries.len(),
                    |i: int|
                        if 0 <= i < t.entries.len() {
                            InlineEntryModel {
                                key: KeyModel { decor: no_decor(), ..t.entries[i].key },
                                value: with_decor(formatted_value(t.entries[i].value), no_decor()),
                            }
                        } else {
                            arbitrary()
                        },
                ),
                decor: formatted_decor(t.decor),
                ..t
            },
        ),
    }
}

/// A key of a table with a tidy prefix and the suffix given.
pub open spec fn formatted_key(k: KeyModel, suffix: Option<Seq<char>>) -> KeyModel {
    KeyModel {
        decor: DecorModel { prefix: Some(tidy_prefix(or_empty(k.decor.prefix))), suffix },
        ..k
    }
}

/// A table with every entry in it formatted, at any depth. Its own decor
/// stays.
pub open spec fn formatted_table(t: TableModel) -> TableModel
    decreases t,
{
    TableModel {
        entries: Seq::new(
            t.entries.len(),
            |i: int|
                if 0 <= i < t.entries.len() {
                    formatted_entry(t.entries[i])
                } else {
                    arbitrary()
                },
        ),
        ..t
    }
}

/// A formatted entry: one space between key and `=`, none before the header
/// of a table.
pub open spec fn formatted_entry(e: EntryModel) -> EntryModel
    decreases e,
{
    match e.item {
        ItemModel::Absent => e,
        ItemModel::Value(v) => EntryModel {
            key: formatted_key(e.key, Some(seq![' '])),
            item: ItemModel::Value(formatted_value(v)),
        },
        ItemModel::Table(t) => EntryModel {
            key: formatted_key(e.key, Some(Seq::empty())),
            item: ItemModel::Table(formatted_table(t)),
        },
        ItemModel::ArrayOfTables(ts) => EntryModel {
            key: formatted_key(
                e.key,
                if ts.len() > 0 {
                    Some(Seq::empty())
                } else {
                    e.key.decor.suffix
                },
            ),
            item: ItemModel::ArrayOfTables(
                Seq::new(
                    ts.len(),
                    |i: int|
                        if 0 <= i < ts.len() {
                            formatted_table(ts[i])
                        } else {
                            arbitrary()
                        },
                ),
            ),
        },
    }
}

/// The header of a formatted section: no blank lines before it, and after
/// it nothing but the comment that stood there.
pub open spec fn formatted_header(d: DecorModel) -> DecorModel {
    DecorModel {
        prefix: Some(tidy_prefix(or_empty(d.prefix))),
        suffix: Some(with_comment(comment_of(or_empty(d.suffix)), Seq::empty())),
    }
}

/// Formats tables and inline tables.
///
/// - Keeps the order of the entries.
/// - Puts one space on either side of `=`.
/// - Removes the white space before keys and after values.
/// - Keeps the comments before keys and after values.
pub struct TableFormatting;

impl TableFormatting {
    /// The lines of a prefix that are not blank, without indentation.
    pub fn fmt_prefix_and_preserve_comments(prefix: &str) -> (r: String)
        ensures
            r@ == tidy_prefix(prefix@),
    {
        let chars = to_chars(prefix);
        let tidy = tidy_chars(&chars);
        from_chars(&tidy)
    }

    /// The comment in a decor, if it holds one.
    pub fn get_comment(input: &str) -> (r: Option<String>)
        ensures
            match r {
                Some(c) => comment_of(input@) == Some(c@),
                None => comment_of(input@) is None,
            },
    {
        let chars = to_chars(input);
        match comment_in(&chars) {
            Some(c) => Some(from_chars(&c)),
            None => None,
        }
    }

    /// The comment of a decor as it is put back: ` #` and the comment.
    fn get_comment_of(text: &Option<String>) -> (r: Option<String>)
        ensures
            crate::document::text_model(r) == (match comment_of(
                or_empty(crate::document::text_model(*text)),
            ) {
                Some(c) => Some(seq![' ', '#'] + c),
                None => None,
            }),
    {
        let chars = text_or_empty(text);
        match comment_in(&chars) {
            Some(_) => Some(Self::set_comment(text, None)),
            None => None,
        }
    }

    fn set_comment(text: &Option<String>, otherwise: Option<char>) -> (r: String)
        ensures
            r@ == with_comment(
                comment_of(or_empty(crate::document::text_model(*text))),
                crate::render::pad(otherwise),
            ),
    {
        let chars = text_or_empty(text);
        let mut out: Vec<char> = Vec::new();
        match comment_in(&chars) {
            Some(c) => {
                out.push(' ');
                out.push('#');
                let mut i: usize = 0;
                while i < c.len()
                    invariant
                        i <= c.len(),
                        out@ == seq![' ', '#'] + c@.take(i as int),
                    decreases c.len() - i,
                {
                    out.push(c[i]);
                    proof {
                        assert(c@.take(i + 1) =~= c@.take(i as int).push(c@[i as int]));
                    }
                    i += 1;
                }
                proof {
                    assert(c@.take(c.len() as int) =~= c@);
                }
            },
            None => {
                match otherwise {
                    Some(ch) => out.push(ch),
                    None => {},
                }
                proof {
                    assert(out@ =~= crate::render::pad(otherwise));
                }
            },
        }
        from_chars(&out)
    }

    fn fmt_decor(decor: &Decor) -> (r: Decor)
        ensures
            r@ == formatted_decor(decor@),
    {
        let prefix = Self::set_comment(&decor.prefix, Some(' '));
        let suffix = Self::set_comment(&decor.suffix, None);
        Decor { prefix: Some(prefix), suffix: Some(suffix) }
    }

    fn fmt_key(key: TomlKey, suffix: Option<String>) -> (r: TomlKey)
        ensures
            r@ == formatted_key(key@, crate::document::text_model(suffix)),
    {
        let chars = text_or_empty(&key.decor.prefix);
        let tidy = tidy_chars(&chars);
        TomlKey {
            name: key.name,
            repr: key.repr,
            decor: Decor { prefix: Some(from_chars(&tidy)), suffix },
        }
    }

    /// Formats a value and what it holds.
    #[verifier::loop_isolation(false)]
    pub fn fmt_value(value: TomlValue) -> (r: TomlValue)
        ensures
            r@ == formatted_value(value@),
        decreases value,
    {
        proof {
            lemma_value_view(value);
        }
        match value {
            TomlValue::Scalar(s) => {
                let out = TomlValue::Scalar(
                    Scalar {
                        kind: s.kind,
                        value: s.value,
                        repr: s.repr,
                        decor: Self::fmt_decor(&s.decor),
                    },
                );
                proof {
                    lemma_value_view(out);
                }
                out
            },
            TomlValue::Array(a) => {
                let ghost models = a@.values;
                let decor = Self::fmt_decor(&a.decor);
                let keep = array_holds_comment(&a);
                let mut values: Vec<TomlValue> = Vec::new();
                for v in it: a.values
                    invariant
                        it.seq() == a.values@,
                        values@.len() == it.index(),
                        forall|j: int|
                            0 <= j < it.index() ==> (#[trigger] values@[j])@ == with_decor(
                                formatted_value(models[j]),
                                if keep {
                                    value_decor(models[j])
                                } else {
                                    element_decor(j)
                                },
                            ),
                {
                    let first = values.len() == 0;
                    let inner = if keep {
                        decor_of(&v).duplicate()
                    } else {
                        Decor {
                            prefix: Some(
                                if first {
                                    String::new()
                                } else {
                                    " ".to_string()
                                },
                            ),
                            suffix: Some(String::new()),
                        }
                    };
                    proof {
                        reveal_strlit(" ");
                        assert(" "@ =~= seq![' ']);
                        if !keep {
                            assert(inner@ == element_decor(it.index() as int));
                        }
                    }
                    let formatted = Self::fmt_value(v);
                    values.push(set_decor(formatted, inner));
                }
                let out = TomlValue::Array(
                    Array {
                        values,
                        trailing: if keep {
                            a.trailing
                        } else {
                            String::new()
                        },
                        trailing_comma: keep && a.trailing_comma,
                        decor,
                    },
                );
                proof {
                    lemma_value_view(out);
                    assert(out@->Array_0.values =~= formatted_value(value@)->Array_0.values);
                }
                out
            },
            TomlValue::InlineTable(t) => {
                let ghost models = t@.entries;
                let decor = Self::fmt_decor(&t.decor);
                let mut entries: Vec<InlineEntry> = Vec::new();
                for e in it: t.entries
                    invariant
                        it.seq() == t.entries@,
                        entries@.len() == it.index(),
                        forall|j: int|
                            0 <= j < it.index() ==> (#[trigger] entries@[j])@ == (InlineEntryModel {
                                key: KeyModel { decor: no_decor(), ..models[j].key },
                                value: with_decor(formatted_value(models[j].value), no_decor()),
                            }),
                {
                    let formatted = Self::fmt_value(e.value);
                    entries.push(
                        InlineEntry {
                            key: TomlKey { name: e.key.name, repr: e.key.repr, decor: Decor::new() },
                            value: set_decor(formatted, Decor::new()),
                        },
                    );
                }
                let out = TomlValue::InlineTable(
                    InlineTable { entries, preamble: t.preamble, decor, dotted: t.dotted },
                );
                proof {
                    lemma_value_view(out);
                    assert(out@->InlineTable_0.entries =~= formatted_value(
                        value@,
                    )->InlineTable_0.entries);
                }
                out
            },
        }
    }

    /// Formats the entries of a table, at any depth.
    #[verifier::loop_isolation(false)]
    pub fn fmt_table(table: TomlTable) -> (r: TomlTable)
        ensures
            r@ == formatted_table(table@),
        decreases table,
    {
        proof {
            lemma_table_view(table);
        }
        let ghost models = table@.entries;
        let mut entries: Vec<Entry> = Vec::new();
        for e in it: table.entries
            invariant
                it.seq() == table.entries@,
                entries@.len() == it.index(),
                forall|j: int|
                    0 <= j < it.index() ==> (#[trigger] entries@[j])@ == formatted_entry(models[j]),
        {
            entries.push(Self::visit_item(e));
        }
        let out = TomlTable {
            entries,
            decor: table.decor,
            implicit: table.implicit,
            dotted: table.dotted,
            position: table.position,
        };
        proof {
            lemma_table_view(out);
            assert(out@.entries =~= formatted_table(table@).entries);
        }
        out
    }

    /// Formats an entry: its key, and its item according to its kind.
    #[verifier::loop_isolation(false)]
    pub fn visit_item(entry: Entry) -> (r: Entry)
        ensures
            r@ == formatted_entry(entry@),
        decreases entry,
    {
        proof {
            lemma_item_view(entry.item);
        }
        let out = match entry.item {
            TomlItem::Absent => Entry { key: entry.key, item: TomlItem::Absent },
            TomlItem::Value(v) => {
                proof {
                    reveal_strlit(" ");
                    assert(" "@ =~= seq![' ']);
                }
                Entry {
                    key: Self::fmt_key(entry.key, Some(" ".to_string())),
                    item: TomlItem::Value(Self::fmt_value(v)),
                }
            },
            TomlItem::Table(t) => Entry {
                key: Self::fmt_key(entry.key, Some(String::new())),
                item: TomlItem::Table(Self::fmt_table(t)),
            },
            TomlItem::ArrayOfTables(ts) => {
                let ghost models = tables_model(ts@);
                let none = ts.len() == 0;
                let mut tables: Vec<TomlTable> = Vec::new();
                for t in it: ts
                    invariant
                        it.seq() == ts@,
                        tables@.len() == it.index(),
                        forall|j: int|
                            0 <= j < it.index() ==> (#[trigger] tables@[j])@ == formatted_table(
                                models[j],
                            ),
                {
                    tables.push(Self::fmt_table(t));
                }
                let ghost key_before = entry.key@;
                let suffix = if none {
                    crate::document::copy_text(&entry.key.decor.suffix)
                } else {
                    Some(String::new())
                };
                let out = Entry {
                    key: Self::fmt_key(entry.key, suffix),
                    item: TomlItem::ArrayOfTables(tables),
                };
                proof {
                    lemma_item_view(out.item);
                    assert(out@.item->ArrayOfTables_0 =~= formatted_entry(
                        entry@,
                    ).item->ArrayOfTables_0);
                }
                out
            },
        };
        proof {
            lemma_item_view(out.item);
        }
        out
    }
}

/// The decor of a value.
pub fn decor_of(value: &TomlValue) -> (r: &Decor)
    ensures
        r@ == value_decor(value@),
{
    proof {
        lemma_value_view(*value);
    }
    match value {
        TomlValue::Scalar(s) => &s.decor,
        TomlValue::Array(a) => &a.decor,
        TomlValue::InlineTable(t) => &t.decor,
    }
}

fn decor_holds_comment(decor: &Decor) -> (r: bool)
    ensures
        r == holds_comment(decor@),
{
    let before = comment_in(&text_or_empty(&decor.prefix));
    let after = comment_in(&text_or_empty(&decor.suffix));
    before.is_some() || after.is_some()
}

/// Whether a comment stands between the brackets of an array.
pub fn array_holds_comment(array: &Array) -> (r: bool)
    ensures
        r == array_has_comment(array@),
{
    let end = comment_in(&to_chars(array.trailing.as_str()));
    if end.is_some() {
        return true;
    }
    let mut i: usize = 0;
    while i < array.values.len()
        invariant
            i <= array.values.len(),
            comment_of(array@.trailing) is None,
            forall|j: int| 0 <= j < i ==> !holds_comment(value_decor(#[trigger] array@.values[j])),
        decreases array.values.len() - i,
    {
        proof {
            assert(array@.values[i as int] == array.values@[i as int]@);
        }
        if decor_holds_comment(decor_of(&array.values[i])) {
            return true;
        }
        i += 1;
    }
    false
}

/// Gives a value another decor.
pub fn set_decor(value: TomlValue, decor: Decor) -> (r: TomlValue)
    ensures
        r@ == with_decor(value@, decor@),
{
    proof {
        lemma_value_view(value);
    }
    let out = match value {
        TomlValue::Scalar(s) => TomlValue::Scalar(
            Scalar { kind: s.kind, value: s.value, repr: s.repr, decor },
        ),
        TomlValue::Array(a) => TomlValue::Array(
            Array {
                values: a.values,
                trailing: a.trailing,
                trailing_comma: a.trailing_comma,
                decor,
            },
        ),
        TomlValue::InlineTable(t) => TomlValue::InlineTable(
            InlineTable { entries: t.entries, preamble: t.preamble, decor, dotted: t.dotted },
        ),
    };
    proof {
        lemma_value_view(out);
    }
    out
}

impl SectionRule for TableFormatting {
    open spec fn section(&self, key: KeyModel, table: TableModel, first: bool) -> (
        KeyModel,
        TableModel,
    ) {
        (
            KeyModel { name: key.name, repr: key_default_repr(key.name), decor: no_decor() },
            TableModel { decor: formatted_header(table.decor), ..formatted_table(table) },
        )
    }

    fn on_section(&self, key: TomlKey, table: TomlTable, first: bool) -> (r: (TomlKey, TomlTable)) {
        proof {
            lemma_table_view(table);
        }
        let repr = default_key_repr(key.name.as_str());
        let prefix = tidy_chars(&text_or_empty(&table.decor.prefix));
        let suffix = Self::set_comment(&table.decor.suffix, None);
        let body = Self::fmt_table(table);
        proof {
            lemma_table_view(body);
        }
        let out = TomlTable {
            entries: body.entries,
            decor: Decor { prefix: Some(from_chars(&prefix)), suffix: Some(suffix) },
            implicit: body.implicit,
            dotted: body.dotted,
            position: body.position,
        };
        proof {
            lemma_table_view(out);
        }
        (TomlKey { name: key.name, repr, decor: Decor::new() }, out)
    }
}

impl TomlFormatter for TableFormatting {
    open spec fn formatted(&self, document: DocumentModel, config: ConfigModel) -> Result<
        DocumentModel,
        PassError,
    > {
        Ok(map_document(*self, document))
    }

    fn visit_document(&mut self, toml_document: &mut TomlDocument, config: &TomlFormatConfig) -> (r:
        Result<(), PassError>) {
        apply_to_sections(toml_document, &*self);
        Ok(())
    }
}


/// Whether `a + 1 + b` is more than `width`.
fn exceeds(a: usize, b: usize, width: usize) -> (r: bool)
    ensures
        r == (a + 1 + b > width),
{
    if a >= width {
        true
    } else {
        b > width - a - 1
    }
}

/// An array on one line: nothing before the first element, one space before
/// each of the others, nothing after any, and no trailing comma.
pub open spec fn one_line_array(a: ArrayModel) -> ArrayModel {
    ArrayModel {
        values: Seq::new(a.values.len(), |i: int| with_decor(a.values[i], element_decor(i))),
        trailing: Seq::empty(),
        trailing_comma: false,
        decor: a.decor,
    }
}

/// Whether a key, `=` and an array fit in `width`: the bytes of the key,
/// one for `=`, and the characters of the array with its decor.
pub open spec fn array_fits(key: KeyModel, a: ArrayModel, width: usize) -> bool {
    byte_len(key.name) + 1 + render_array(a, None, None).len() <= width
}

/// The decor of the element at `i` of an array with one element per line.
pub open spec fn line_decor(a: ArrayModel, i: int) -> DecorModel {
    DecorModel {
        prefix: Some(seq!['\n', ' ', ' ', ' ', ' ']),
        suffix: if i == a.values.len() - 1 {
            Some(seq!['\n'])
        } else {
            value_decor(a.values[i]).suffix
        },
    }
}

/// An array with each element on a line of its own, indented by four
/// spaces, and the closing bracket on the line after the last.
pub open spec fn one_per_line_array(a: ArrayModel) -> ArrayModel {
    ArrayModel {
        values: Seq::new(a.values.len(), |i: int| with_decor(a.values[i], line_decor(a, i))),
        ..a
    }
}

/// An array on one line if it fits there with its key, or else with one
/// element per line. An array with a comment between its brackets is left
/// as it is written.
pub open spec fn wrapped_array(key: KeyModel, a: ArrayModel, width: usize) -> ArrayModel {
    if array_has_comment(a) {
        a
    } else if array_fits(key, one_line_array(a), width) {
        one_line_array(a)
    } else {
        one_per_line_array(one_line_array(a))
    }
}

/// An entry with its array wrapped, if it holds one.
pub open spec fn wrapped_entry(e: EntryModel, width: usize) -> EntryModel {
    match e.item {
        ItemModel::Value(ValueModel::Array(a)) => EntryModel {
            key: e.key,
            item: ItemModel::Value(ValueModel::Array(wrapped_array(e.key, a, width))),
        },
        _ => e,
    }
}

/// Whether a section is named `package`; the wrapping rules leave that
/// section as it is written.
pub open spec fn is_package(key: KeyModel) -> bool {
    key.name == "package"@
}

fn key_is_package(key: &TomlKey) -> (r: bool)
    ensures
        r == is_package(key@),
{
    let chars = to_chars(key.name.as_str());
    crate::package_order::is_text(&chars, "package")
}

/// Wraps the arrays of every section but `package` that would make a line
/// longer than the configured width.
pub struct WrapArray;

/// [`WrapArray`] with its width.
pub struct WrapArrayAt {
    pub width: usize,
}

impl WrapArray {
    /// Puts an array on one line, or, if key and array are longer than
    /// `wrap_array`, each of its elements on a line of its own.
    pub fn format_array(key: &TomlKey, array: Array, wrap_array: usize) -> (r: Array)
        ensures
            r@ == wrapped_array(key@, array@, wrap_array),
            array_has_comment(array@) ==> r@ == array@,
            !array_has_comment(array@) && array_fits(key@, one_line_array(array@), wrap_array)
                ==> r@ == one_line_array(array@),
            !array_has_comment(array@) && !array_fits(key@, one_line_array(array@), wrap_array)
                ==> forall|i: int|
                0 <= i < r@.values.len() ==> (#[trigger] value_decor(r@.values[i])).prefix == Some(
                    seq!['\n', ' ', ' ', ' ', ' '],
                ),
    {
        if array_holds_comment(&array) {
            return array;
        }
        let ghost models = array@.values;
        let count = array.values.len();
        let mut values: Vec<TomlValue> = Vec::new();
        for v in it: array.values
            invariant
                it.seq() == array.values@,
                models == values_model(array.values@),
                values@.len() == it.index(),
                forall|j: int|
                    0 <= j < it.index() ==> (#[trigger] values@[j])@ == with_decor(
                        models[j],
                        element_decor(j),
                    ),
        {
            let first = values.len() == 0;
            let inner = Decor {
                prefix: Some(
                    if first {
                        String::new()
                    } else {
                        " ".to_string()
                    },
                ),
                suffix: Some(String::new()),
            };
            proof {
                reveal_strlit(" ");
                assert(" "@ =~= seq![' ']);
                assert(inner@ == element_decor(it.index() as int));
            }
            values.push(set_decor(v, inner));
        }
        let one_line = Array {
            values,
            trailing: String::new(),
            trailing_comma: false,
            decor: array.decor,
        };
        proof {
            assert(one_line@.values =~= one_line_array(array@).values);
            assert(one_line@ == one_line_array(array@));
        }
        let mut text: Vec<char> = Vec::new();
        write_array(&mut text, &one_line, None, None);
        proof {
            assert(text@ =~= render_array(one_line@, None, None));
        }
        if !exceeds(key.name.as_str().len(), text.len(), wrap_array) {
            return one_line;
        }
        let ghost ones = one_line@;
        let mut lines: Vec<TomlValue> = Vec::new();
        for v in it: one_line.values
            invariant
                it.seq() == one_line.values@,
                ones == one_line@,
                count == ones.values.len(),
                ones == one_line_array(array@),
                lines@.len() == it.index(),
                forall|j: int|
                    0 <= j < it.index() ==> (#[trigger] lines@[j])@ == with_decor(
                        ones.values[j],
                        line_decor(ones, j),
                    ),
        {
            let last = lines.len() == count - 1;
            let inner = Decor {
                prefix: Some("\n    ".to_string()),
                suffix: Some(
                    if last {
                        "\n".to_string()
                    } else {
                        String::new()
                    },
                ),
            };
            proof {
                reveal_strlit("\n    ");
                reveal_strlit("\n");
                assert("\n    "@ =~= seq!['\n', ' ', ' ', ' ', ' ']);
                assert("\n"@ =~= seq!['\n']);
                let j = it.index() as int;
                assert(v@ == ones.values[j]);
                assert(value_decor(ones.values[j]) == element_decor(j));
                assert(inner@ == line_decor(ones, j));
            }
            lines.push(set_decor(v, inner));
        }
        let out = Array {
            values: lines,
            trailing: one_line.trailing,
            trailing_comma: one_line.trailing_comma,
            decor: one_line.decor,
        };
        proof {
            assert(out@.values =~= one_per_line_array(ones).values);
            assert(out@ == one_per_line_array(ones));
        }
        out
    }

    fn visit_table(table: TomlTable, wrap_array: usize) -> (r: TomlTable)
        ensures
            r@ == (TableModel {
                entries: table@.entries.map_values(|e: EntryModel| wrapped_entry(e, wrap_array)),
                ..table@
            }),
    {
        proof {
            lemma_table_view(table);
        }
        let ghost models = table@.entries;
        let mut entries: Vec<Entry> = Vec::new();
        for e in it: table.entries
            invariant
                it.seq() == table.entries@,
                models == entries_model(table.entries@),
                entries@.len() == it.index(),
                forall|j: int|
                    0 <= j < it.index() ==> (#[trigger] entries@[j])@ == wrapped_entry(
                        models[j],
                        wrap_array,
                    ),
        {
            proof {
                lemma_item_view(e.item);
            }
            let out = match e.item {
                TomlItem::Value(v) => {
                    proof {
                        lemma_value_view(v);
                    }
                    match v {
                        TomlValue::Array(a) => {
                            let wrapped = Self::format_array(&e.key, a, wrap_array);
                            let value = TomlValue::Array(wrapped);
                            proof {
                                lemma_value_view(value);
                            }
                            Entry { key: e.key, item: TomlItem::Value(value) }
                        },
                        other => Entry { key: e.key, item: TomlItem::Value(other) },
                    }
                },
                other => Entry { key: e.key, item: other },
            };
            proof {
                lemma_item_view(out.item);
            }
            entries.push(out);
        }
        let out = TomlTable {
            entries,
            decor: table.decor,
            implicit: table.implicit,
            dotted: table.dotted,
            position: table.position,
        };
        proof {
            lemma_table_view(out);
            assert(out@.entries =~= models.map_values(|e: EntryModel| wrapped_entry(e, wrap_array)));
        }
        out
    }
}

impl SectionRule for WrapArrayAt {
    open spec fn section(&self, key: KeyModel, table: TableModel, first: bool) -> (
        KeyModel,
        TableModel,
    ) {
        if is_package(key) {
            (key, table)
        } else {
            (
                key,
                TableModel {
                    entries: table.entries.map_values(|e: EntryModel| wrapped_entry(e, self.width)),
                    ..table
                },
            )
        }
    }

    fn on_section(&self, key: TomlKey, table: TomlTable, first: bool) -> (r: (TomlKey, TomlTable)) {
        if key_is_package(&key) {
            (key, table)
        } else {
            (key, WrapArray::visit_table(table, self.width))
        }
    }
}

impl TomlFormatter for WrapArray {
    open spec fn formatted(&self, document: DocumentModel, config: ConfigModel) -> Result<
        DocumentModel,
        PassError,
    > {
        match config.wrap_array {
            Some(width) => Ok(map_document(WrapArrayAt { width }, document)),
            None => Ok(document),
        }
    }

    fn visit_document(&mut self, toml_document: &mut TomlDocument, config: &TomlFormatConfig) -> (r:
        Result<(), PassError>) {
        match config.wrap_array {
            Some(width) => {
                apply_to_sections(toml_document, &WrapArrayAt { width });
            },
            None => {},
        }
        Ok(())
    }
}

/// Whether a key, `=` and an inline table do not fit in `width`, counted
/// in bytes. A table that only carries dotted keys is never too long.
pub open spec fn is_long(key: KeyModel, t: InlineTableModel, width: usize) -> bool {
    !t.dotted && byte_len(key.name) + 1 + byte_len(render_inline_table(t, None, None)) > width
}

/// The header decor of a table that was an inline table: the comment after
/// the inline table stands after the header.
pub open spec fn promoted_decor(d: DecorModel) -> DecorModel {
    DecorModel {
        prefix: None,
        suffix: match comment_of(or_empty(d.suffix)) {
            Some(c) => Some(seq![' ', '#'] + c),
            None => None,
        },
    }
}

/// An entry of an inline table that becomes a table, and whether it is a
/// long inline table itself, which becomes a table under it, with the
/// default decor. Any other entry stays a value, with default decor.
pub open spec fn placed_inline_entry(e: InlineEntryModel, width: usize) -> (EntryModel, bool)
    decreases e,
{
    match e.value {
        ValueModel::InlineTable(t) => if is_long(e.key, t, width) {
            (promoted_entry(e.key, t, width, no_decor()), true)
        } else {
            (plain_entry(e), false)
        },
        _ => (plain_entry(e), false),
    }
}

/// The entries of an inline table that becomes a table, in two parts:
/// those that stay values, and those that become tables.
pub open spec fn split_inline_entries(es: Seq<InlineEntryModel>, width: usize) -> (
    Seq<EntryModel>,
    Seq<EntryModel>,
)
    decreases es,
{
    if es.len() == 0 {
        (Seq::empty(), Seq::empty())
    } else {
        let head = split_inline_entries(es.drop_last(), width);
        let last = placed_inline_entry(es.last(), width);
        if last.1 {
            (head.0, head.1.push(last.0))
        } else {
            (head.0.push(last.0), head.1)
        }
    }
}

/// An entry of an inline table as an entry of a table: the same key and
/// value, the decor of both cleared, which is what `toml_edit`'s
/// `InlineTable::into_table` makes of an entry.
pub open spec fn plain_entry(e: InlineEntryModel) -> EntryModel {
    EntryModel {
        key: KeyModel { decor: no_decor(), ..e.key },
        item: ItemModel::Value(with_decor(e.value, no_decor())),
    }
}

/// The section that a long inline table becomes: a table under the same
/// key, written the default way, with the decor given for its header. The
/// values come first in it, then the tables.
pub open spec fn promoted_entry(
    key: KeyModel,
    t: InlineTableModel,
    width: usize,
    header: DecorModel,
) -> EntryModel
    decreases t,
{
    let parts = split_inline_entries(t.entries, width);
    EntryModel {
        key: KeyModel { name: key.name, repr: key_default_repr(key.name), decor: no_decor() },
        item: ItemModel::Table(
            TableModel {
                entries: parts.0 + parts.1,
                decor: header,
                implicit: false,
                dotted: false,
                position: None,
            },
        ),
    }
}

/// An entry of a table after wrapping, and whether it is a long inline
/// table that became a section. Tables are wrapped in turn; anything else
/// stays as it is.
pub open spec fn placed_entry(e: EntryModel, width: usize) -> (EntryModel, bool)
    decreases e,
{
    match e.item {
        ItemModel::Value(v) => match v {
            ValueModel::InlineTable(t) => if is_long(e.key, t, width) {
                (promoted_entry(e.key, t, width, promoted_decor(t.decor)), true)
            } else {
                (e, false)
            },
            _ => (e, false),
        },
        ItemModel::Table(t) => (
            EntryModel { key: e.key, item: ItemModel::Table(wrapped_table(t, width)) },
            false,
        ),
        ItemModel::ArrayOfTables(ts) => (
            EntryModel {
                key: e.key,
                item: ItemModel::ArrayOfTables(
                    Seq::new(
                        ts.len(),
                        |i: int|
                            if 0 <= i < ts.len() {
                                wrapped_table(ts[i], width)
                            } else {
                                arbitrary()
                            },
                    ),
                ),
            },
            false,
        ),
        ItemModel::Absent => (e, false),
    }
}

/// The entries of a table in two parts: those that stay where they are,
/// and the long inline tables as the sections they become.
pub open spec fn split_entries(es: Seq<EntryModel>, width: usize) -> (
    Seq<EntryModel>,
    Seq<EntryModel>,
)
    decreases es,
{
    if es.len() == 0 {
        (Seq::empty(), Seq::empty())
    } else {
        let head = split_entries(es.drop_last(), width);
        let last = placed_entry(es.last(), width);
        if last.1 {
            (head.0, head.1.push(last.0))
        } else {
            (head.0.push(last.0), head.1)
        }
    }
}

/// A table in which every inline table that is too long for its line has
/// become a section of its own, placed after the entries that stay.
pub open spec fn wrapped_table(t: TableModel, width: usize) -> TableModel
    decreases t,
{
    let parts = split_entries(t.entries, width);
    TableModel { entries: parts.0 + parts.1, ..t }
}

/// Turns the inline tables that are too long for their line into sections
/// of their own.
///
/// ```text
/// [dependency]
/// a = { version = "0.4.1", path = "some_very_long_path_to_directory" }
/// ```
///
/// becomes
///
/// ```text
/// [dependency.a]
/// version = "0.4.1"
/// path = "some_very_long_path_to_directory"
/// ```
///
/// An inline table is measured as it stands, with the inline tables in it.
/// One that fits its line stays as it is, with all that it holds; one that
/// does not becomes a section, and then the inline tables in it are
/// measured in their turn. So no section ever stands under a table that
/// stays inline.
pub struct InlineTableWrap;

/// [`InlineTableWrap`] with its width.
pub struct InlineTableWrapAt {
    pub width: usize,
}

impl InlineTableWrap {
    /// The rule; it keeps nothing between documents.
    pub fn new() -> (r: InlineTableWrap) {
        InlineTableWrap
    }

    fn too_long(key: &TomlKey, t: &InlineTable, max_width: usize) -> (r: bool)
        ensures
            r == is_long(key@, t@, max_width),
    {
        if t.dotted {
            return false;
        }
        let mut text: Vec<char> = Vec::new();
        write_inline_table(&mut text, t, None, None);
        proof {
            assert(text@ =~= render_inline_table(t@, None, None));
        }
        let written = from_chars(&text);
        exceeds(key.name.as_str().len(), written.as_str().len(), max_width)
    }

    fn promote(key: TomlKey, t: InlineTable, max_width: usize, header: Decor) -> (r: Entry)
        ensures
            r@ == promoted_entry(key@, t@, max_width, header@),
        decreases t,
    {
        let ghost models = t@.entries;
        let mut kept: Vec<Entry> = Vec::new();
        let mut moved: Vec<Entry> = Vec::new();
        proof {
            assert(entries_model(kept@) =~= Seq::empty());
            assert(entries_model(moved@) =~= Seq::empty());
        }
        for e in it: t.entries
            invariant
                it.seq() == t.entries@,
                models == inline_entries_model(t.entries@),
                (entries_model(kept@), entries_model(moved@)) == split_inline_entries(
                    models.take(it.index() as int),
                    max_width,
                ),
        {
            let ghost i = it.index() as int;
            let ghost kept_before = entries_model(kept@);
            let ghost moved_before = entries_model(moved@);
            proof {
                assert(models.take(i + 1).drop_last() =~= models.take(i));
                assert(models.take(i + 1).last() == e@);
            }
            let out = Self::place_inline(e, max_width);
            if out.1 {
                moved.push(out.0);
                proof {
                    assert(entries_model(moved@) =~= moved_before.push(out.0@));
                }
            } else {
                kept.push(out.0);
                proof {
                    assert(entries_model(kept@) =~= kept_before.push(out.0@));
                }
            }
        }
        proof {
            assert(models.take(models.len() as int) =~= models);
        }
        append_entries(&mut kept, moved);
        let repr = default_key_repr(key.name.as_str());
        let table = TomlTable {
            entries: kept,
            decor: header,
            implicit: false,
            dotted: false,
            position: None,
        };
        proof {
            lemma_table_view(table);
        }
        let out = Entry {
            key: TomlKey { name: key.name, repr, decor: Decor::new() },
            item: TomlItem::Table(table),
        };
        proof {
            lemma_item_view(out.item);
        }
        out
    }

    fn place_inline(e: InlineEntry, max_width: usize) -> (r: (Entry, bool))
        ensures
            (r.0@, r.1) == placed_inline_entry(e@, max_width),
        decreases e,
    {
        proof {
            lemma_value_view(e.value);
        }
        match e.value {
            TomlValue::InlineTable(inner) => {
                if Self::too_long(&e.key, &inner, max_width) {
                    (Self::promote(e.key, inner, max_width, Decor::new()), true)
                } else {
                    let value = TomlValue::InlineTable(inner);
                    proof {
                        lemma_value_view(value);
                    }
                    let entry = Entry {
                        key: TomlKey { name: e.key.name, repr: e.key.repr, decor: Decor::new() },
                        item: TomlItem::Value(set_decor(value, Decor::new())),
                    };
                    proof {
                        lemma_item_view(entry.item);
                    }
                    (entry, false)
                }
            },
            other => {
                let entry = Entry {
                    key: TomlKey { name: e.key.name, repr: e.key.repr, decor: Decor::new() },
                    item: TomlItem::Value(set_decor(other, Decor::new())),
                };
                proof {
                    lemma_item_view(entry.item);
                }
                (entry, false)
            },
        }
    }

    /// Wraps the inline tables of a table, at any depth.
    pub fn fmt_table(table: TomlTable, max_width: usize) -> (r: TomlTable)
        ensures
            r@ == wrapped_table(table@, max_width),
        decreases table,
    {
        proof {
            lemma_table_view(table);
        }
        let ghost models = table@.entries;
        let mut kept: Vec<Entry> = Vec::new();
        let mut moved: Vec<Entry> = Vec::new();
        proof {
            assert(entries_model(kept@) =~= Seq::empty());
            assert(entries_model(moved@) =~= Seq::empty());
        }
        for e in it: table.entries
            invariant
                it.seq() == table.entries@,
                models == entries_model(table.entries@),
                (entries_model(kept@), entries_model(moved@)) == split_entries(
                    models.take(it.index() as int),
                    max_width,
                ),
        {
            let ghost i = it.index() as int;
            let ghost kept_before = entries_model(kept@);
            let ghost moved_before = entries_model(moved@);
            proof {
                assert(models.take(i + 1).drop_last() =~= models.take(i));
                assert(models.take(i + 1).last() == e@);
            }
            let out = Self::visit_item(e, max_width);
            if out.1 {
                moved.push(out.0);
                proof {
                    assert(entries_model(moved@) =~= moved_before.push(out.0@));
                }
            } else {
                kept.push(out.0);
                proof {
                    assert(entries_model(kept@) =~= kept_before.push(out.0@));
                }
            }
        }
        proof {
            assert(models.take(models.len() as int) =~= models);
        }
        append_entries(&mut kept, moved);
        let out = TomlTable {
            entries: kept,
            decor: table.decor,
            implicit: table.implicit,
            dotted: table.dotted,
            position: table.position,
        };
        proof {
            lemma_table_view(out);
        }
        out
    }

    /// An entry after wrapping, and whether it is a long inline table that
    /// became a section.
    #[verifier::loop_isolation(false)]
    fn visit_item(e: Entry, max_width: usize) -> (r: (Entry, bool))
        ensures
            (r.0@, r.1) == placed_entry(e@, max_width),
        decreases e,
    {
        proof {
            lemma_item_view(e.item);
        }
        match e.item {
            TomlItem::Value(v) => {
                proof {
                    lemma_value_view(v);
                }
                match v {
                    TomlValue::InlineTable(t) => {
                        if Self::too_long(&e.key, &t, max_width) {
                            let header = Decor {
                                prefix: None,
                                suffix: TableFormatting::get_comment_of(&t.decor.suffix),
                            };
                            (Self::promote(e.key, t, max_width, header), true)
                        } else {
                            let value = TomlValue::InlineTable(t);
                            proof {
                                lemma_value_view(value);
                            }
                            let out = Entry { key: e.key, item: TomlItem::Value(value) };
                            proof {
                                lemma_item_view(out.item);
                            }
                            (out, false)
                        }
                    },
                    other => {
                        let out = Entry { key: e.key, item: TomlItem::Value(other) };
                        proof {
                            lemma_item_view(out.item);
                        }
                        (out, false)
                    },
                }
            },
            TomlItem::Table(t) => {
                let out = Entry { key: e.key, item: TomlItem::Table(Self::fmt_table(t, max_width)) };
                proof {
                    lemma_item_view(out.item);
                }
                (out, false)
            },
            TomlItem::ArrayOfTables(ts) => {
                let ghost models = tables_model(ts@);
                let mut tables: Vec<TomlTable> = Vec::new();
                for t in it: ts
                    invariant
                        it.seq() == ts@,
                        tables@.len() == it.index(),
                        forall|j: int|
                            0 <= j < it.index() ==> (#[trigger] tables@[j])@ == wrapped_table(
                                models[j],
                                max_width,
                            ),
                {
                    tables.push(Self::fmt_table(t, max_width));
                }
                let out = Entry { key: e.key, item: TomlItem::ArrayOfTables(tables) };
                proof {
                    lemma_item_view(out.item);
                    assert(out@.item->ArrayOfTables_0 =~= placed_entry(
                        e@,
                        max_width,
                    ).0.item->ArrayOfTables_0);
                }
                (out, false)
            },
            TomlItem::Absent => {
                let out = Entry { key: e.key, item: TomlItem::Absent };
                proof {
                    lemma_item_view(out.item);
                }
                (out, false)
            },
        }
    }
}

/// Moves the entries of `more` to the end of `entries`.
fn append_entries(entries: &mut Vec<Entry>, more: Vec<Entry>)
    ensures
        entries_model(final(entries)@) == entries_model(old(entries)@) + entries_model(more@),
{
    let ghost before = entries_model(entries@);
    let ghost models = entries_model(more@);
    proof {
        assert(before =~= before + models.take(0));
    }
    for e in it: more
        invariant
            it.seq() == more@,
            models == entries_model(more@),
            entries_model(entries@) == before + models.take(it.index() as int),
    {
        let ghost now = entries_model(entries@);
        entries.push(e);
        proof {
            assert(entries_model(entries@) =~= now.push(e@));
            assert(models.take(it.index() + 1) =~= models.take(it.index() as int).push(e@));
        }
    }
    proof {
        assert(models.take(models.len() as int) =~= models);
    }
}

impl SectionRule for InlineTableWrapAt {
    open spec fn section(&self, key: KeyModel, table: TableModel, first: bool) -> (
        KeyModel,
        TableModel,
    ) {
        if is_package(key) {
            (key, table)
        } else {
            (key, wrapped_table(table, self.width))
        }
    }

    fn on_section(&self, key: TomlKey, table: TomlTable, first: bool) -> (r: (TomlKey, TomlTable)) {
        if key_is_package(&key) {
            (key, table)
        } else {
            (key, InlineTableWrap::fmt_table(table, self.width))
        }
    }
}

impl TomlFormatter for InlineTableWrap {
    open spec fn formatted(&self, document: DocumentModel, config: ConfigModel) -> Result<
        DocumentModel,
        PassError,
    > {
        match config.wrap_table {
            Some(width) => Ok(map_document(InlineTableWrapAt { width }, document)),
            None => Ok(document),
        }
    }

    fn visit_document(&mut self, toml_document: &mut TomlDocument, config: &TomlFormatConfig) -> (r:
        Result<(), PassError>) {
        match config.wrap_table {
            Some(width) => {
                apply_to_sections(toml_document, &InlineTableWrapAt { width });
            },
            None => {},
        }
        Ok(())
    }
}

} // verus!
