//! The rules that change the order of sections and keys.

use vstd::prelude::*;
use crate::document::{
    entries_model, lemma_item_view, lemma_table_view, lemma_value_view,
    tables_model, Array, ArrayModel, Decor, DecorModel, DocumentModel, Entry,
    EntryModel, InlineEntry, InlineEntryModel, InlineTable, InlineTableModel, ItemModel, KeyModel,
    TableModel, TomlDocument, TomlItem, TomlKey, TomlTable, TomlValue, ValueModel,
};
use crate::package_order::{is_text, texts, PackageOrder, TomlSection, TomlSort};
use crate::sorting::{by_key, lemma_sort_map, sort_by_key, stable_sort, SortKey};
use crate::text::{
    contains, contains_chars, lex_less, lex_less_chars, lines, lowercase, same_chars, split_lines,
    to_chars, to_lowercase, trim, trim_chars,
};
use crate::toml_config::{ConfigModel, TomlFormatConfig};
use crate::utils::{add_lengths, clamp, item_len, item_length};
use crate::{PassError, TomlFormatter};

verus! {

/// A sort key made of a name: names are compared as strings are, and a
/// pinned name is compared with none.
pub struct Name {
    pub chars: Vec<char>,
    pub pinned: bool,
}

impl SortKey for Name {
    open spec fn before(&self, other: &Self) -> bool {
        !self.pinned && !other.pinned && lex_less(self.chars@, other.chars@)
    }

    fn is_before(&self, other: &Self) -> (r: bool) {
        !self.pinned && !other.pinned && lex_less_chars(&self.chars, &other.chars)
    }
}

/// A sort key made of a name and a number, either of which may be left
/// out: the names decide first, and between equal names, or where one is
/// left out, the numbers. What is left out on either side decides nothing.
pub struct Measure {
    pub name: Option<Vec<char>>,
    pub number: Option<usize>,
}

/// Whether both names are there and the first comes before the second.
pub open spec fn name_before(a: Option<Vec<char>>, b: Option<Vec<char>>) -> bool {
    match (a, b) {
        (Some(x), Some(y)) => lex_less(x@, y@),
        _ => false,
    }
}

/// Whether the names do not decide: one is left out, or they are the same.
pub open spec fn name_ties(a: Option<Vec<char>>, b: Option<Vec<char>>) -> bool {
    match (a, b) {
        (Some(x), Some(y)) => x@ == y@,
        _ => true,
    }
}

/// Whether both numbers are there and the first is the lower.
pub open spec fn number_before(a: Option<usize>, b: Option<usize>) -> bool {
    match (a, b) {
        (Some(x), Some(y)) => x < y,
        _ => false,
    }
}

impl SortKey for Measure {
    open spec fn before(&self, other: &Self) -> bool {
        name_before(self.name, other.name) || (name_ties(self.name, other.name) && number_before(
            self.number,
            other.number,
        ))
    }

    fn is_before(&self, other: &Self) -> (r: bool) {
        let by_number = match (&self.number, &other.number) {
            (Some(x), Some(y)) => *x < *y,
            _ => false,
        };
        match (&self.name, &other.name) {
            (Some(x), Some(y)) => lex_less_chars(x, y) || (same_chars(x, y) && by_number),
            _ => by_number,
        }
    }
}

/// The entries of keyed entries.
pub open spec fn keyed_entries<K>(keyed: Seq<(K, Entry)>) -> Seq<EntryModel> {
    keyed.map_values(|p: (K, Entry)| p.1@)
}

/// Sorts entries by the keys that were made for them. `before` is the
/// relation on entries that the keys decide.
fn sort_keyed<K: SortKey>(
    keyed: Vec<(K, Entry)>,
    Ghost(before): Ghost<spec_fn(EntryModel, EntryModel) -> bool>,
) -> (r: Vec<Entry>)
    requires
        forall|i: int, j: int|
            0 <= i < keyed@.len() && 0 <= j < keyed@.len() ==> (#[trigger] keyed@[i]).0.before(
                &(#[trigger] keyed@[j]).0,
            ) == before(keyed@[i].1@, keyed@[j].1@),
    ensures
        entries_model(r@) == stable_sort(keyed_entries(keyed@), before),
{
    let ghost input = keyed@;
    let ghost among = |p: (K, Entry)| exists|i: int| 0 <= i < input.len() && input[i] == p;
    let ghost f = |p: (K, Entry)| p.1@;
    proof {
        assert forall|a: (K, Entry), b: (K, Entry)| among(a) && among(b) implies #[trigger] by_key::<
            K,
            Entry,
        >()(a, b) == before(f(a), f(b)) by {
            let i = choose|i: int| 0 <= i < input.len() && input[i] == a;
            let j = choose|j: int| 0 <= j < input.len() && input[j] == b;
            assert(input[i].0.before(&input[j].0) == before(input[i].1@, input[j].1@));
        }
        assert forall|i: int| 0 <= i < input.len() implies among(#[trigger] input[i]) by {}
        lemma_sort_map(input, by_key::<K, Entry>(), f, before, among);
    }
    let sorted = sort_by_key(keyed);
    let mut out: Vec<Entry> = Vec::new();
    for p in it: sorted
        invariant
            it.seq() == sorted@,
            out@.len() == it.index(),
            forall|j: int| 0 <= j < it.index() ==> (#[trigger] out@[j])@ == sorted@[j].1@,
    {
        out.push(p.1);
    }
    proof {
        assert(entries_model(out@) =~= sorted@.map_values(f));
    }
    out
}

/// The place of a key in the order of the `package` section; none for a
/// key that the order does not know.
pub open spec fn package_rank(name: Seq<char>) -> Option<usize> {
    match PackageOrder::named(name) {
        Some(v) => Some(v.order_spec() as usize),
        None => None,
    }
}

/// Whether `a` must stand before `b` in the `package` section: both are
/// known, and `a` has the lower place. A key that is not known is compared
/// with none.
pub open spec fn package_before() -> spec_fn(EntryModel, EntryModel) -> bool {
    |a: EntryModel, b: EntryModel| number_before(package_rank(a.key.name), package_rank(b.key.name))
}

/// A top-level entry with the keys of `package` in the order of a manifest.
pub open spec fn with_package_in_order(e: EntryModel) -> EntryModel {
    match e.item {
        ItemModel::Table(t) => if e.key.name == "package"@ {
            EntryModel {
                key: e.key,
                item: ItemModel::Table(
                    TableModel { entries: stable_sort(t.entries, package_before()), ..t },
                ),
            }
        } else {
            e
        },
        _ => e,
    }
}

/// Puts the keys of the `package` section in the order of a manifest:
/// name, version, authors, and so on. The keys that a manifest does not
/// know stay where they are among their neighbours.
pub struct OrderPackageSection;

impl OrderPackageSection {
    fn sort_table(table: TomlTable) -> (r: TomlTable)
        ensures
            r@ == (TableModel {
                entries: stable_sort(table@.entries, package_before()),
                ..table@
            }),
    {
        proof {
            lemma_table_view(table);
        }
        let ghost models = table@.entries;
        let mut keyed: Vec<(Measure, Entry)> = Vec::new();
        for e in it: table.entries
            invariant
                it.seq() == table.entries@,
                models == entries_model(table.entries@),
                keyed@.len() == it.index(),
                forall|j: int|
                    0 <= j < it.index() ==> (#[trigger] keyed@[j]).1@ == models[j]
                        && keyed@[j].0.name is None && keyed@[j].0.number == package_rank(
                        models[j].key.name,
                    ),
        {
            let number = match PackageOrder::from_name(e.key.name.as_str()) {
                Some(v) => {
                    let n: usize = v.order() as usize;
                    Some(n)
                },
                None => None,
            };
            keyed.push((Measure { name: None, number }, e));
        }
        proof {
            assert(keyed_entries(keyed@) =~= models);
        }
        let entries = sort_keyed(keyed, Ghost(package_before()));
        let out = TomlTable {
            entries,
            decor: table.decor,
            implicit: table.implicit,
            dotted: table.dotted,
            position: table.position,
        };
        proof {
            lemma_table_view(out);
        }
        out
    }

    fn visit_entry(e: Entry) -> (r: Entry)
        ensures
            r@ == with_package_in_order(e@),
    {
        proof {
            lemma_item_view(e.item);
        }
        let chars = to_chars(e.key.name.as_str());
        let named = is_text(&chars, "package");
        let out = match e.item {
            TomlItem::Table(t) => {
                if named {
                    Entry { key: e.key, item: TomlItem::Table(Self::sort_table(t)) }
                } else {
                    Entry { key: e.key, item: TomlItem::Table(t) }
                }
            },
            other => Entry { key: e.key, item: other },
        };
        proof {
            lemma_item_view(out.item);
        }
        out
    }
}

impl TomlFormatter for OrderPackageSection {
    open spec fn formatted(&self, document: DocumentModel, config: ConfigModel) -> Result<
        DocumentModel,
        PassError,
    > {
        if config.order_package_section {
            Ok(
                DocumentModel {
                    root: TableModel {
                        entries: document.root.entries.map_values(
                            |e: EntryModel| with_package_in_order(e),
                        ),
                        ..document.root
                    },
                    trailing: document.trailing,
                },
            )
        } else {
            Ok(document)
        }
    }

    fn visit_document(&mut self, toml_document: &mut TomlDocument, config: &TomlFormatConfig) -> (r:
        Result<(), PassError>) {
        if !config.order_package_section {
            return Ok(());
        }
        proof {
            lemma_table_view(toml_document.root);
        }
        let ghost models = toml_document@.root.entries;
        let mut entries: Vec<Entry> = Vec::new();
        core::mem::swap(&mut toml_document.root.entries, &mut entries);
        let ghost input = entries@;
        let mut out: Vec<Entry> = Vec::new();
        for e in it: entries
            invariant
                it.seq() == input,
                models == entries_model(input),
                out@.len() == it.index(),
                forall|j: int|
                    0 <= j < it.index() ==> (#[trigger] out@[j])@ == with_package_in_order(
                        models[j],
                    ),
        {
            out.push(Self::visit_entry(e));
        }
        toml_document.root.entries = out;
        proof {
            lemma_table_view(toml_document.root);
            assert(toml_document@.root.entries =~= models.map_values(
                |e: EntryModel| with_package_in_order(e),
            ));
        }
        Ok(())
    }
}


/// Whether a name contains one of the texts that pin a key to its place.
pub open spec fn is_pinned(name: Seq<char>, pins: Seq<Seq<char>>) -> bool {
    exists|i: int| 0 <= i < pins.len() && contains(name, #[trigger] pins[i])
}

/// Whether `a` must stand before `b` by name. A pinned key is compared
/// with none.
pub open spec fn alphabetical_before(pins: Seq<Seq<char>>) -> spec_fn(EntryModel, EntryModel) -> bool {
    |a: EntryModel, b: EntryModel|
        !is_pinned(a.key.name, pins) && !is_pinned(b.key.name, pins) && lex_less(
            a.key.name,
            b.key.name,
        )
}

/// Whether a key of an inline table must stand before another: by name.
pub open spec fn inline_alphabetical_before() -> spec_fn(InlineEntryModel, InlineEntryModel) -> bool {
    |a: InlineEntryModel, b: InlineEntryModel| lex_less(a.key.name, b.key.name)
}

/// A value with the keys of every inline table in it in the order of their
/// names.
pub open spec fn ordered_value(v: ValueModel) -> ValueModel
    decreases v,
{
    match v {
        ValueModel::Scalar(_) => v,
        ValueModel::Array(a) => ValueModel::Array(
            ArrayModel {
                values: Seq::new(
                    a.values.len(),
                    |i: int|
                        if 0 <= i < a.values.len() {
                            ordered_value(a.values[i])
                        } else {
                            arbitrary()
                        },
                ),
                ..a
            },
        ),
        ValueModel::InlineTable(t) => ValueModel::InlineTable(
            InlineTableModel {
                entries: stable_sort(
                    with_ordered_values(t.entries),
                    inline_alphabetical_before(),
                ),
                ..t
            },
        ),
    }
}

/// The entries of an inline table, each with its value ordered.
pub open spec fn with_ordered_values(es: Seq<InlineEntryModel>) -> Seq<InlineEntryModel>
    decreases es,
{
    Seq::new(
        es.len(),
        |i: int|
            if 0 <= i < es.len() {
                InlineEntryModel { key: es[i].key, value: ordered_value(es[i].value) }
            } else {
                arbitrary()
            },
    )
}

/// A table with its keys in the order of their names, and so every table
/// and inline table in it.
pub open spec fn ordered_table(t: TableModel, pins: Seq<Seq<char>>) -> TableModel
    decreases t,
{
    TableModel {
        entries: stable_sort(ordered_entries(t.entries, pins), alphabetical_before(pins)),
        ..t
    }
}

/// The entries of a table, each with what it holds ordered.
pub open spec fn ordered_entries(es: Seq<EntryModel>, pins: Seq<Seq<char>>) -> Seq<EntryModel>
    decreases es,
{
    Seq::new(
        es.len(),
        |i: int|
            if 0 <= i < es.len() {
                ordered_entry(es[i], pins)
            } else {
                arbitrary()
            },
    )
}

/// An entry with the keys of everything in it in the order of their names.
pub open spec fn ordered_entry(e: EntryModel, pins: Seq<Seq<char>>) -> EntryModel
    decreases e,
{
    EntryModel { key: e.key, item: ordered_item(e.item, pins) }
}

/// An item with the keys of everything in it in the order of their names.
pub open spec fn ordered_item(item: ItemModel, pins: Seq<Seq<char>>) -> ItemModel
    decreases item,
{
    match item {
        ItemModel::Absent => item,
        ItemModel::Value(v) => ItemModel::Value(ordered_value(v)),
        ItemModel::Table(t) => ItemModel::Table(ordered_table(t, pins)),
        ItemModel::ArrayOfTables(ts) => ItemModel::ArrayOfTables(
            Seq::new(
                ts.len(),
                |i: int|
                    if 0 <= i < ts.len() {
                        ordered_table(ts[i], pins)
                    } else {
                        arbitrary()
                    },
            ),
        ),
    }
}

/// Whether `name` is one of `names`.
pub open spec fn is_listed(name: Seq<char>, names: Seq<Seq<char>>) -> bool {
    exists|i: int| 0 <= i < names.len() && #[trigger] names[i] == name
}

/// A top-level entry with its keys in the order of their names, unless its
/// name is among those left out.
pub open spec fn ordered_section(e: EntryModel, config: ConfigModel) -> EntryModel {
    if is_listed(e.key.name, config.exclude_tables_from_ordering) {
        e
    } else {
        ordered_entry(e, config.exclude_keys_from_ordering)
    }
}

/// The texts of a list as characters.
pub open spec fn chars_of_all(v: Seq<Vec<char>>) -> Seq<Seq<char>> {
    Seq::new(v.len(), |i: int| v[i]@)
}

fn all_chars(v: &Vec<String>) -> (r: Vec<Vec<char>>)
    ensures
        chars_of_all(r@) == texts(v@),
{
    let mut out: Vec<Vec<char>> = Vec::new();
    let mut i: usize = 0;
    while i < v.len()
        invariant
            i <= v.len(),
            out@.len() == i,
            forall|j: int| 0 <= j < i ==> (#[trigger] out@[j])@ == v@[j]@,
        decreases v.len() - i,
    {
        out.push(to_chars(v[i].as_str()));
        i += 1;
    }
    proof {
        assert(chars_of_all(out@) =~= texts(v@));
    }
    out
}

fn name_is_pinned(name: &Vec<char>, pins: &Vec<Vec<char>>) -> (r: bool)
    ensures
        r == is_pinned(name@, chars_of_all(pins@)),
{
    let mut i: usize = 0;
    while i < pins.len()
        invariant
            i <= pins.len(),
            forall|j: int| 0 <= j < i ==> !contains(name@, #[trigger] chars_of_all(pins@)[j]),
        decreases pins.len() - i,
    {
        if contains_chars(name, &pins[i]) {
            assert(contains(name@, chars_of_all(pins@)[i as int]));
            return true;
        }
        i += 1;
    }
    false
}

fn name_is_listed(name: &Vec<char>, names: &Vec<Vec<char>>) -> (r: bool)
    ensures
        r == is_listed(name@, chars_of_all(names@)),
{
    let mut i: usize = 0;
    while i < names.len()
        invariant
            i <= names.len(),
            forall|j: int| 0 <= j < i ==> #[trigger] chars_of_all(names@)[j] != name@,
        decreases names.len() - i,
    {
        if same_chars(&names[i], name) {
            assert(chars_of_all(names@)[i as int] == name@);
            return true;
        }
        i += 1;
    }
    false
}

/// Puts the keys of every table and inline table in the order of their
/// names.
pub struct OrderTableKeysAlphabetically;

impl OrderTableKeysAlphabetically {
    #[verifier::loop_isolation(false)]
    fn order_value_of(value: TomlValue) -> (r: TomlValue)
        ensures
            r@ == ordered_value(value@),
        decreases value,
    {
        proof {
            lemma_value_view(value);
        }
        match value {
            TomlValue::Scalar(s) => TomlValue::Scalar(s),
            TomlValue::Array(a) => {
                let ghost models = a@.values;
                let mut values: Vec<TomlValue> = Vec::new();
                for v in it: a.values
                    invariant
                        it.seq() == a.values@,
                        values@.len() == it.index(),
                        forall|j: int|
                            0 <= j < it.index() ==> (#[trigger] values@[j])@ == ordered_value(
                                models[j],
                            ),
                {
                    values.push(Self::order_value_of(v));
                }
                let out = TomlValue::Array(
                    Array {
                        values,
                        trailing: a.trailing,
                        trailing_comma: a.trailing_comma,
                        decor: a.decor,
                    },
                );
                proof {
                    lemma_value_view(out);
                    assert(out@->Array_0.values =~= ordered_value(value@)->Array_0.values);
                }
                out
            },
            TomlValue::InlineTable(t) => {
                let ghost models = t@.entries;
                let ghost mapped = with_ordered_values(models);
                let mut keyed: Vec<(Name, InlineEntry)> = Vec::new();
                for e in it: t.entries
                    invariant
                        it.seq() == t.entries@,
                        keyed@.len() == it.index(),
                        forall|j: int|
                            0 <= j < it.index() ==> (#[trigger] keyed@[j]).1@ == mapped[j]
                                && !keyed@[j].0.pinned && keyed@[j].0.chars@ == mapped[j].key.name,
                {
                    let name = Name { chars: to_chars(e.key.name.as_str()), pinned: false };
                    keyed.push((name, InlineEntry { key: e.key, value: Self::order_value_of(e.value) }));
                }
                let ghost input = keyed@;
                let ghost f = |p: (Name, InlineEntry)| p.1@;
                let ghost among = |p: (Name, InlineEntry)|
                    exists|i: int| 0 <= i < input.len() && input[i] == p;
                proof {
                    assert forall|a: (Name, InlineEntry), b: (Name, InlineEntry)|
                        among(a) && among(b) implies #[trigger] by_key::<Name, InlineEntry>()(a, b)
                        == inline_alphabetical_before()(f(a), f(b)) by {
                        let i = choose|i: int| 0 <= i < input.len() && input[i] == a;
                        let j = choose|j: int| 0 <= j < input.len() && input[j] == b;
                    }
                    assert forall|i: int| 0 <= i < input.len() implies among(
                        #[trigger] input[i],
                    ) by {}
                    lemma_sort_map(
                        input,
                        by_key::<Name, InlineEntry>(),
                        f,
                        inline_alphabetical_before(),
                        among,
                    );
                    assert(input.map_values(f) =~= mapped);
                }
                let sorted = sort_by_key(keyed);
                let mut entries: Vec<InlineEntry> = Vec::new();
                for p in it: sorted
                    invariant
                        it.seq() == sorted@,
                        entries@.len() == it.index(),
                        forall|j: int|
                            0 <= j < it.index() ==> (#[trigger] entries@[j])@ == sorted@[j].1@,
                {
                    entries.push(p.1);
                }
                let out = TomlValue::InlineTable(
                    InlineTable { entries, preamble: t.preamble, decor: t.decor, dotted: t.dotted },
                );
                proof {
                    lemma_value_view(out);
                    assert(out@->InlineTable_0.entries =~= sorted@.map_values(f));
                }
                out
            },
        }
    }

    /// Orders the keys of a table and of everything in it.
    #[verifier::loop_isolation(false)]
    fn order_table_of(table: TomlTable, pins: &Vec<Vec<char>>) -> (r: TomlTable)
        ensures
            r@ == ordered_table(table@, chars_of_all(pins@)),
        decreases table,
    {
        proof {
            lemma_table_view(table);
        }
        let ghost models = table@.entries;
        let ghost p = chars_of_all(pins@);
        let ghost mapped = ordered_entries(models, p);
        let mut keyed: Vec<(Name, Entry)> = Vec::new();
        for e in it: table.entries
            invariant
                it.seq() == table.entries@,
                keyed@.len() == it.index(),
                forall|j: int|
                    0 <= j < it.index() ==> (#[trigger] keyed@[j]).1@ == mapped[j]
                        && keyed@[j].0.pinned == is_pinned(mapped[j].key.name, p)
                        && keyed@[j].0.chars@ == mapped[j].key.name,
        {
            let chars = to_chars(e.key.name.as_str());
            let pinned = name_is_pinned(&chars, pins);
            keyed.push((Name { chars, pinned }, Self::order_entry_of(e, pins)));
        }
        proof {
            assert(keyed_entries(keyed@) =~= mapped);
        }
        let entries = sort_keyed(keyed, Ghost(alphabetical_before(p)));
        let out = TomlTable {
            entries,
            decor: table.decor,
            implicit: table.implicit,
            dotted: table.dotted,
            position: table.position,
        };
        proof {
            lemma_table_view(out);
        }
        out
    }

    fn order_entry_of(entry: Entry, pins: &Vec<Vec<char>>) -> (r: Entry)
        ensures
            r@ == ordered_entry(entry@, chars_of_all(pins@)),
        decreases entry, 1nat,
    {
        Entry { key: entry.key, item: Self::order_item_of(entry.item, pins) }
    }

    #[verifier::loop_isolation(false)]
    fn order_item_of(item: TomlItem, pins: &Vec<Vec<char>>) -> (r: TomlItem)
        ensures
            r@ == ordered_item(item@, chars_of_all(pins@)),
        decreases item, 0nat,
    {
        proof {
            lemma_item_view(item);
        }
        let out = match item {
            TomlItem::Absent => TomlItem::Absent,
            TomlItem::Value(v) => TomlItem::Value(Self::order_value_of(v)),
            TomlItem::Table(t) => TomlItem::Table(Self::order_table_of(t, pins)),
            TomlItem::ArrayOfTables(ts) => {
                let ghost models = tables_model(ts@);
                let mut tables: Vec<TomlTable> = Vec::new();
                for t in it: ts
                    invariant
                        it.seq() == ts@,
                        tables@.len() == it.index(),
                        forall|j: int|
                            0 <= j < it.index() ==> (#[trigger] tables@[j])@ == ordered_table(
                                models[j],
                                chars_of_all(pins@),
                            ),
                {
                    tables.push(Self::order_table_of(t, pins));
                }
                let out = TomlItem::ArrayOfTables(tables);
                proof {
                    lemma_item_view(out);
                    assert(out@->ArrayOfTables_0 =~= ordered_item(
                        item@,
                        chars_of_all(pins@),
                    )->ArrayOfTables_0);
                }
                out
            },
        };
        proof {
            lemma_item_view(out);
        }
        out
    }

    /// Orders the keys of an item and of everything in it.
    pub fn order_item(item: TomlItem, config: &TomlFormatConfig) -> (r: TomlItem)
        ensures
            r@ == ordered_item(item@, config@.exclude_keys_from_ordering),
    {
        let pins = all_chars(&config.exclude_keys_from_ordering);
        Self::order_item_of(item, &pins)
    }

    /// Orders the keys of a table and of everything in it.
    pub fn order_table(table: TomlTable, config: &TomlFormatConfig) -> (r: TomlTable)
        ensures
            r@ == ordered_table(table@, config@.exclude_keys_from_ordering),
    {
        let pins = all_chars(&config.exclude_keys_from_ordering);
        Self::order_table_of(table, &pins)
    }

    /// Orders the keys of the inline tables in a value.
    pub fn order_value(value: TomlValue) -> (r: TomlValue)
        ensures
            r@ == ordered_value(value@),
    {
        Self::order_value_of(value)
    }
}

impl TomlFormatter for OrderTableKeysAlphabetically {
    open spec fn formatted(&self, document: DocumentModel, config: ConfigModel) -> Result<
        DocumentModel,
        PassError,
    > {
        Ok(
            DocumentModel {
                root: TableModel {
                    entries: document.root.entries.map_values(
                        |e: EntryModel| ordered_section(e, config),
                    ),
                    ..document.root
                },
                trailing: document.trailing,
            },
        )
    }

    fn visit_document(&mut self, toml_document: &mut TomlDocument, config: &TomlFormatConfig) -> (r:
        Result<(), PassError>) {
        proof {
            lemma_table_view(toml_document.root);
        }
        let pins = all_chars(&config.exclude_keys_from_ordering);
        let skipped = all_chars(&config.exclude_tables_from_ordering);
        let ghost models = toml_document@.root.entries;
        let mut entries: Vec<Entry> = Vec::new();
        core::mem::swap(&mut toml_document.root.entries, &mut entries);
        let ghost input = entries@;
        let mut out: Vec<Entry> = Vec::new();
        for e in it: entries
            invariant
                it.seq() == input,
                models == entries_model(input),
                chars_of_all(pins@) == config@.exclude_keys_from_ordering,
                chars_of_all(skipped@) == config@.exclude_tables_from_ordering,
                out@.len() == it.index(),
                forall|j: int|
                    0 <= j < it.index() ==> (#[trigger] out@[j])@ == ordered_section(
                        models[j],
                        config@,
                    ),
        {
            let chars = to_chars(e.key.name.as_str());
            if name_is_listed(&chars, &skipped) {
                out.push(e);
            } else {
                out.push(Self::order_entry_of(e, &pins));
            }
        }
        toml_document.root.entries = out;
        proof {
            lemma_table_view(toml_document.root);
            assert(toml_document@.root.entries =~= models.map_values(
                |e: EntryModel| ordered_section(e, config@),
            ));
        }
        Ok(())
    }
}


/// Whether dependencies are sorted by name.
pub open spec fn sorts_by_name(config: ConfigModel) -> bool {
    config.order_dependencies_alphabetically || match config.dependency_sorts {
        Some(sorts) => sorts.contains(TomlSort::Alphabetical),
        None => false,
    }
}

/// Whether dependencies are sorted by length.
pub open spec fn sorts_by_length(config: ConfigModel) -> bool {
    match config.dependency_sorts {
        Some(sorts) => sorts.contains(TomlSort::Length),
        None => false,
    }
}

/// The length of a dependency: the characters of its key and the length
/// of its item.
pub open spec fn dependency_length(e: EntryModel) -> usize {
    clamp(e.key.name.len() + item_length(e.item))
}

/// Whether dependency `a` must stand before `b`: by name without regard to
/// case where names count, and by length where lengths count and the names
/// do not decide.
pub open spec fn dependency_before(by_name: bool, by_length: bool) -> spec_fn(
    EntryModel,
    EntryModel,
) -> bool {
    |a: EntryModel, b: EntryModel|
        (by_name && lex_less(lowercase(a.key.name), lowercase(b.key.name))) || ((!by_name
            || lowercase(a.key.name) == lowercase(b.key.name)) && by_length && dependency_length(a)
            < dependency_length(b))
}

/// An item with its entries sorted as dependencies, if it is a table.
pub open spec fn sorted_dependencies(item: ItemModel, by_name: bool, by_length: bool) -> ItemModel {
    match item {
        ItemModel::Table(t) => ItemModel::Table(
            TableModel { entries: stable_sort(t.entries, dependency_before(by_name, by_length)), ..t },
        ),
        _ => item,
    }
}

/// Whether an entry is the `dependencies` section.
pub open spec fn is_dependencies(e: EntryModel) -> bool {
    e.key.name == "dependencies"@ && !(e.item is Absent)
}

/// Whether a document has a `dependencies` section.
pub open spec fn has_dependencies(es: Seq<EntryModel>) -> bool {
    exists|i: int| 0 <= i < es.len() && is_dependencies(#[trigger] es[i])
}

/// A top-level entry, sorted if it is the `dependencies` section.
pub open spec fn with_sorted_dependencies(e: EntryModel, config: ConfigModel) -> EntryModel {
    if is_dependencies(e) {
        EntryModel {
            key: e.key,
            item: sorted_dependencies(e.item, sorts_by_name(config), sorts_by_length(config)),
        }
    } else {
        e
    }
}

#[verifier::loop_isolation(false)]
fn has_sort(sorts: &Option<Vec<TomlSort>>, wanted: TomlSort) -> (r: bool)
    ensures
        r == match sorts {
            Some(v) => v@.contains(wanted),
            None => false,
        },
{
    match sorts {
        Some(v) => {
            let mut i: usize = 0;
            while i < v.len()
                invariant
                    i <= v.len(),
                    forall|j: int| 0 <= j < i ==> v@[j] != wanted,
                decreases v.len() - i,
            {
                let sort: TomlSort = v[i];
                if sort == wanted {
                    assert(v@[i as int] == wanted);
                    assert(v@.contains(wanted));
                    return true;
                }
                i += 1;
            }
            false
        },
        None => false,
    }
}

/// Sorts the entries of the `dependencies` section.
pub struct OrderDependencies;

impl OrderDependencies {
    /// Sorts the entries of a table as the configuration says: by length,
    /// by name and then by length, or else by name, which is the order
    /// where the configuration names none. Names are compared without
    /// regard to case. Any other item is left as it is.
    pub fn sort_dependencies(&mut self, dependencies: TomlItem, config: &TomlFormatConfig) -> (r:
        TomlItem)
        ensures
            r@ == sorted_dependencies(
                dependencies@,
                sorts_by_name(config@) || !sorts_by_length(config@),
                sorts_by_length(config@),
            ),
    {
        proof {
            lemma_item_view(dependencies);
        }
        let by_length = has_sort(&config.dependency_sorts, TomlSort::Length);
        let by_name = config.order_dependencies_alphabetically || has_sort(
            &config.dependency_sorts,
            TomlSort::Alphabetical,
        ) || !by_length;
        match dependencies {
            TomlItem::Table(table) => {
                proof {
                    lemma_table_view(table);
                }
                let ghost models = table@.entries;
                let ghost before = dependency_before(by_name, by_length);
                let mut keyed: Vec<(Measure, Entry)> = Vec::new();
                for e in it: table.entries
                    invariant
                        it.seq() == table.entries@,
                        models == entries_model(table.entries@),
                        keyed@.len() == it.index(),
                        forall|j: int|
                            0 <= j < it.index() ==> (#[trigger] keyed@[j]).1@ == models[j] && (
                            keyed@[j].0.number == if by_length {
                                Some(dependency_length(models[j]))
                            } else {
                                None
                            }) && match keyed@[j].0.name {
                                Some(n) => by_name && n@ == lowercase(models[j].key.name),
                                None => !by_name,
                            },
                {
                    let name = if by_name {
                        let lower = to_lowercase(e.key.name.as_str());
                        Some(to_chars(lower.as_str()))
                    } else {
                        None
                    };
                    let number = if by_length {
                        Some(add_lengths(e.key.name.as_str().unicode_len(), item_len(&e.item)))
                    } else {
                        None
                    };
                    keyed.push((Measure { name, number }, e));
                }
                proof {
                    assert(keyed_entries(keyed@) =~= models);
                }
                let entries = sort_keyed(keyed, Ghost(before));
                let out = TomlItem::Table(
                    TomlTable {
                        entries,
                        decor: table.decor,
                        implicit: table.implicit,
                        dotted: table.dotted,
                        position: table.position,
                    },
                );
                proof {
                    lemma_item_view(out);
                    lemma_table_view(out->Table_0);
                }
                out
            },
            other => other,
        }
    }
}

fn entry_is_dependencies(e: &Entry) -> (r: bool)
    ensures
        r == is_dependencies(e@),
{
    proof {
        lemma_item_view(e.item);
    }
    let chars = to_chars(e.key.name.as_str());
    let present = match &e.item {
        TomlItem::Absent => false,
        _ => true,
    };
    is_text(&chars, "dependencies") && present
}

impl TomlFormatter for OrderDependencies {
    open spec fn formatted(&self, document: DocumentModel, config: ConfigModel) -> Result<
        DocumentModel,
        PassError,
    > {
        if !sorts_by_name(config) && !sorts_by_length(config) {
            Ok(document)
        } else if !has_dependencies(document.root.entries) {
            Err(PassError::MissingSection)
        } else {
            Ok(
                DocumentModel {
                    root: TableModel {
                        entries: document.root.entries.map_values(
                            |e: EntryModel| with_sorted_dependencies(e, config),
                        ),
                        ..document.root
                    },
                    trailing: document.trailing,
                },
            )
        }
    }

    fn visit_document(&mut self, toml_document: &mut TomlDocument, config: &TomlFormatConfig) -> (r:
        Result<(), PassError>) {
        let by_name = config.order_dependencies_alphabetically || has_sort(
            &config.dependency_sorts,
            TomlSort::Alphabetical,
        );
        let by_length = has_sort(&config.dependency_sorts, TomlSort::Length);
        if !by_name && !by_length {
            return Ok(());
        }
        proof {
            lemma_table_view(toml_document.root);
        }
        let ghost models = toml_document@.root.entries;
        let mut found: bool = false;
        let mut i: usize = 0;
        while i < toml_document.root.entries.len()
            invariant
                i <= toml_document.root.entries.len(),
                *toml_document == *old(toml_document),
                models == entries_model(toml_document.root.entries@),
                found == exists|j: int| 0 <= j < i && is_dependencies(#[trigger] models[j]),
            decreases toml_document.root.entries.len() - i,
        {
            let here = entry_is_dependencies(&toml_document.root.entries[i]);
            proof {
                assert(models[i as int] == toml_document.root.entries@[i as int]@);
                if here {
                    assert(is_dependencies(models[i as int]));
                }
            }
            found = found || here;
            i += 1;
        }
        if !found {
            return Err(PassError::MissingSection);
        }
        let mut entries: Vec<Entry> = Vec::new();
        core::mem::swap(&mut toml_document.root.entries, &mut entries);
        let ghost input = entries@;
        let mut out: Vec<Entry> = Vec::new();
        for e in it: entries
            invariant
                it.seq() == input,
                models == entries_model(input),
                out@.len() == it.index(),
                sorts_by_name(config@) || sorts_by_length(config@),
                forall|j: int|
                    0 <= j < it.index() ==> (#[trigger] out@[j])@ == with_sorted_dependencies(
                        models[j],
                        config@,
                    ),
        {
            if entry_is_dependencies(&e) {
                let item = self.sort_dependencies(e.item, config);
                out.push(Entry { key: e.key, item });
            } else {
                out.push(e);
            }
        }
        toml_document.root.entries = out;
        proof {
            lemma_table_view(toml_document.root);
            assert(toml_document@.root.entries =~= models.map_values(
                |e: EntryModel| with_sorted_dependencies(e, config@),
            ));
        }
        Ok(())
    }
}


/// Whether a line is blank: nothing but white space stands in it.
pub open spec fn is_blank_line(line: Seq<char>) -> bool {
    trim(line).len() == 0
}

/// Whether a decor has a blank line, which starts a group of keys. A
/// comment line is none, indented or not.
pub open spec fn has_blank_line(prefix: Seq<char>) -> bool {
    exists|k: int| 0 <= k < lines(prefix).len() && is_blank_line(#[trigger] lines(prefix)[k])
}

/// Whether an entry starts a group.
pub open spec fn starts_group(e: EntryModel) -> bool {
    match e.key.decor.prefix {
        Some(p) => has_blank_line(p),
        None => false,
    }
}

/// An entry with another prefix before its key.
pub open spec fn with_prefix(e: EntryModel, prefix: Option<Seq<char>>) -> EntryModel {
    EntryModel {
        key: KeyModel { decor: DecorModel { prefix, suffix: e.key.decor.suffix }, ..e.key },
        item: e.item,
    }
}

/// Whether a key must stand before another of its group: by name.
pub open spec fn group_before() -> spec_fn(EntryModel, EntryModel) -> bool {
    |a: EntryModel, b: EntryModel| lex_less(a.key.name, b.key.name)
}

/// A group in the order of its names. The entry that comes first gets the
/// prefix with which the group began.
pub open spec fn finished_group(header: Option<Seq<char>>, members: Seq<EntryModel>) -> Seq<
    EntryModel,
> {
    if members.len() == 0 {
        Seq::empty()
    } else {
        let sorted = stable_sort(members, group_before());
        sorted.update(
            0,
            with_prefix(
                sorted[0],
                Some(
                    match header {
                        Some(h) => h,
                        None => Seq::empty(),
                    },
                ),
            ),
        )
    }
}

/// The entries read from the left: the groups that are finished, and the
/// prefix and the members of the group that is still open. The first entry
/// starts a group, and so does every entry after a blank line; the entry
/// that starts a group gives its prefix to the group and keeps none.
pub open spec fn grouping(es: Seq<EntryModel>) -> (
    Seq<EntryModel>,
    Option<Seq<char>>,
    Seq<EntryModel>,
)
    decreases es.len(),
{
    if es.len() == 0 {
        (Seq::empty(), None, Seq::empty())
    } else {
        let state = grouping(es.drop_last());
        let e = es.last();
        if state.2.len() == 0 || starts_group(e) {
            (
                state.0 + finished_group(state.1, state.2),
                e.key.decor.prefix,
                seq![with_prefix(e, Some(Seq::empty()))],
            )
        } else {
            (state.0, state.1, state.2.push(e))
        }
    }
}

/// The entries with every group in the order of its names.
pub open spec fn grouped_entries(es: Seq<EntryModel>) -> Seq<EntryModel> {
    let state = grouping(es);
    state.0 + finished_group(state.1, state.2)
}

/// A top-level entry with the keys of its groups in order, if it is a
/// table and not the `package` section.
pub open spec fn with_groups_in_order(e: EntryModel) -> EntryModel {
    match e.item {
        ItemModel::Table(t) => if e.key.name == "package"@ {
            e
        } else {
            EntryModel {
                key: e.key,
                item: ItemModel::Table(TableModel { entries: grouped_entries(t.entries), ..t }),
            }
        },
        _ => e,
    }
}

#[verifier::loop_isolation(false)]
fn prefix_has_blank_line(prefix: &Option<String>) -> (r: bool)
    ensures
        r == match crate::document::text_model(*prefix) {
            Some(p) => has_blank_line(p),
            None => false,
        },
{
    match prefix {
        Some(p) => {
            let chars = to_chars(p.as_str());
            let ls = split_lines(&chars);
            let mut i: usize = 0;
            while i < ls.len()
                invariant
                    i <= ls.len(),
                    ls@.len() == lines(chars@).len(),
                    forall|k: int| 0 <= k < ls@.len() ==> (#[trigger] ls@[k])@ == lines(chars@)[k],
                    forall|k: int| 0 <= k < i ==> !is_blank_line(#[trigger] lines(chars@)[k]),
                decreases ls.len() - i,
            {
                let line = &ls[i];
                proof {
                    assert(ls@[i as int]@ == lines(chars@)[i as int]);
                }
                if trim_chars(line).len() == 0 {
                    assert(is_blank_line(lines(chars@)[i as int]));
                    return true;
                }
                i += 1;
            }
            false
        },
        None => false,
    }
}

fn set_prefix(e: Entry, prefix: Option<String>) -> (r: Entry)
    ensures
        r@ == with_prefix(e@, crate::document::text_model(prefix)),
{
    Entry {
        key: TomlKey {
            name: e.key.name,
            repr: e.key.repr,
            decor: Decor { prefix, suffix: e.key.decor.suffix },
        },
        item: e.item,
    }
}

/// Finishes a group: sorts its members and adds them to `done`.
fn finish_group(done: &mut Vec<Entry>, header: Option<String>, members: Vec<Entry>)
    ensures
        entries_model(final(done)@) == entries_model(old(done)@) + finished_group(
            crate::document::text_model(header),
            entries_model(members@),
        ),
{
    let ghost before = entries_model(done@);
    let ghost models = entries_model(members@);
    if members.len() == 0 {
        assert(before =~= before + Seq::<EntryModel>::empty());
        return ;
    }
    let mut keyed: Vec<(Name, Entry)> = Vec::new();
    for e in it: members
        invariant
            it.seq() == members@,
            models == entries_model(members@),
            keyed@.len() == it.index(),
            forall|j: int|
                0 <= j < it.index() ==> (#[trigger] keyed@[j]).1@ == models[j]
                    && !keyed@[j].0.pinned && keyed@[j].0.chars@ == models[j].key.name,
    {
        keyed.push((Name { chars: to_chars(e.key.name.as_str()), pinned: false }, e));
    }
    proof {
        assert(keyed_entries(keyed@) =~= models);
        crate::sorting::lemma_sort_permutes(models, group_before());
    }
    let sorted = sort_keyed(keyed, Ghost(group_before()));
    let ghost sorted_models = entries_model(sorted@);
    let ghost target = finished_group(crate::document::text_model(header), models);
    let first_prefix: String = match header {
        Some(h) => h,
        None => String::new(),
    };
    let mut first_prefix = Some(first_prefix);
    proof {
        assert(before =~= before + target.take(0));
        assert(target.len() == sorted_models.len());
    }
    for e in it: sorted
        invariant
            it.seq() == sorted@,
            sorted_models == entries_model(sorted@),
            sorted_models == stable_sort(models, group_before()),
            sorted_models.len() > 0,
            target.len() == sorted_models.len(),
            target == sorted_models.update(
                0,
                with_prefix(
                    sorted_models[0],
                    Some(
                        match crate::document::text_model(header) {
                            Some(h) => h,
                            None => Seq::<char>::empty(),
                        },
                    ),
                ),
            ),
            (first_prefix is Some) <==> it.index() == 0,
            it.index() == 0 ==> crate::document::text_model(first_prefix) == Some(
                match crate::document::text_model(header) {
                    Some(h) => h,
                    None => Seq::<char>::empty(),
                },
            ),
            entries_model(done@) == before + target.take(it.index() as int),
    {
        let ghost now = entries_model(done@);
        let ghost i = it.index() as int;
        proof {
            assert(e@ == sorted_models[i]);
        }
        if done_is_first(&first_prefix) {
            let e2 = set_prefix(e, first_prefix);
            first_prefix = None;
            done.push(e2);
            proof {
                assert(e2@ == target[0]);
                assert(entries_model(done@) =~= now.push(e2@));
                assert(target.take(1) =~= target.take(0).push(target[0]));
            }
        } else {
            done.push(e);
            proof {
                assert(e@ == target[i]);
                assert(entries_model(done@) =~= now.push(e@));
                assert(target.take(i + 1) =~= target.take(i).push(target[i]));
            }
        }
    }
    proof {
        assert(target.take(target.len() as int) =~= target);
    }
}

/// Whether the prefix for the first entry of a group is still to be given.
fn done_is_first(first_prefix: &Option<String>) -> (r: bool)
    ensures
        r == (first_prefix is Some),
{
    first_prefix.is_some()
}

/// Puts the keys of every section but `package` in the order of their
/// names within each group. A blank line before a key starts a group; the
/// comments of a decor are no blank lines.
pub struct OrderSectionKeysByGroupAlphabetically;

impl OrderSectionKeysByGroupAlphabetically {
    fn order_groups(table: TomlTable) -> (r: TomlTable)
        ensures
            r@ == (TableModel { entries: grouped_entries(table@.entries), ..table@ }),
    {
        proof {
            lemma_table_view(table);
        }
        let ghost models = table@.entries;
        let mut done: Vec<Entry> = Vec::new();
        let mut header: Option<String> = None;
        let mut members: Vec<Entry> = Vec::new();
        proof {
            assert(entries_model(done@) =~= Seq::empty());
            assert(entries_model(members@) =~= Seq::empty());
        }
        for e in it: table.entries
            invariant
                it.seq() == table.entries@,
                models == entries_model(table.entries@),
                (entries_model(done@), crate::document::text_model(header), entries_model(members@))
                    == grouping(models.take(it.index() as int)),
        {
            let ghost i = it.index() as int;
            proof {
                assert(models.take(i + 1).drop_last() =~= models.take(i));
                assert(models.take(i + 1).last() == e@);
            }
            if members.len() == 0 || prefix_has_blank_line(&e.key.decor.prefix) {
                let mut group: Vec<Entry> = Vec::new();
                core::mem::swap(&mut members, &mut group);
                let mut old_header: Option<String> = None;
                core::mem::swap(&mut header, &mut old_header);
                finish_group(&mut done, old_header, group);
                header = crate::document::copy_text(&e.key.decor.prefix);
                let first = set_prefix(e, Some(String::new()));
                members.push(first);
                proof {
                    assert(entries_model(members@) =~= seq![first@]);
                }
            } else {
                let ghost before = entries_model(members@);
                members.push(e);
                proof {
                    assert(entries_model(members@) =~= before.push(e@));
                }
            }
        }
        proof {
            assert(models.take(models.len() as int) =~= models);
        }
        finish_group(&mut done, header, members);
        let out = TomlTable {
            entries: done,
            decor: table.decor,
            implicit: table.implicit,
            dotted: table.dotted,
            position: table.position,
        };
        proof {
            lemma_table_view(out);
        }
        out
    }

    fn visit_entry(e: Entry) -> (r: Entry)
        ensures
            r@ == with_groups_in_order(e@),
    {
        proof {
            lemma_item_view(e.item);
        }
        let chars = to_chars(e.key.name.as_str());
        let package = is_text(&chars, "package");
        let out = match e.item {
            TomlItem::Table(t) => {
                if package {
                    Entry { key: e.key, item: TomlItem::Table(t) }
                } else {
                    Entry { key: e.key, item: TomlItem::Table(Self::order_groups(t)) }
                }
            },
            other => Entry { key: e.key, item: other },
        };
        proof {
            lemma_item_view(out.item);
        }
        out
    }
}

impl TomlFormatter for OrderSectionKeysByGroupAlphabetically {
    open spec fn formatted(&self, document: DocumentModel, config: ConfigModel) -> Result<
        DocumentModel,
        PassError,
    > {
        if config.order_section_keys_by_group_alphabetically {
            Ok(
                DocumentModel {
                    root: TableModel {
                        entries: document.root.entries.map_values(
                            |e: EntryModel| with_groups_in_order(e),
                        ),
                        ..document.root
                    },
                    trailing: document.trailing,
                },
            )
        } else {
            Ok(document)
        }
    }

    fn visit_document(&mut self, toml_document: &mut TomlDocument, config: &TomlFormatConfig) -> (r:
        Result<(), PassError>) {
        if !config.order_section_keys_by_group_alphabetically {
            return Ok(());
        }
        proof {
            lemma_table_view(toml_document.root);
        }
        let ghost models = toml_document@.root.entries;
        let mut entries: Vec<Entry> = Vec::new();
        core::mem::swap(&mut toml_document.root.entries, &mut entries);
        let ghost input = entries@;
        let mut out: Vec<Entry> = Vec::new();
        for e in it: entries
            invariant
                it.seq() == input,
                models == entries_model(input),
                out@.len() == it.index(),
                forall|j: int|
                    0 <= j < it.index() ==> (#[trigger] out@[j])@ == with_groups_in_order(
                        models[j],
                    ),
        {
            out.push(Self::visit_entry(e));
        }
        toml_document.root.entries = out;
        proof {
            lemma_table_view(toml_document.root);
            assert(toml_document@.root.entries =~= models.map_values(
                |e: EntryModel| with_groups_in_order(e),
            ));
        }
        Ok(())
    }
}


/// The names of `names` that are not among `custom`, in their order.
pub open spec fn leftover(names: Seq<Seq<char>>, custom: Seq<Seq<char>>) -> Seq<Seq<char>>
    decreases names.len(),
{
    if names.len() == 0 {
        Seq::empty()
    } else if is_listed(names.last(), custom) {
        leftover(names.drop_last(), custom)
    } else {
        leftover(names.drop_last(), custom).push(names.last())
    }
}

/// The order of the sections: those that the configuration names, then
/// the others that a manifest knows, in the order of a manifest.
pub open spec fn section_order(config: ConfigModel) -> Seq<Seq<char>> {
    config.custom_section_order + leftover(
        TomlSection::manifest_names(),
        config.custom_section_order,
    )
}

/// The place of a name in an order: where it first stands, or, for a name
/// that the order does not hold, the place after the last.
pub open spec fn place_in(order: Seq<Seq<char>>, name: Seq<char>) -> nat
    decreases order.len(),
{
    if order.len() == 0 {
        0
    } else if order[0] == name {
        0
    } else {
        1 + place_in(order.drop_first(), name)
    }
}

/// Whether section `a` must stand before `b`: its name has the lower
/// place. Sections that the order does not hold share the last place, and
/// so keep their order after all others.
pub open spec fn section_before(order: Seq<Seq<char>>) -> spec_fn(EntryModel, EntryModel) -> bool {
    |a: EntryModel, b: EntryModel| place_in(order, a.key.name) < place_in(order, b.key.name)
}

/// A table and the tables under it with new positions, counted on from
/// `next` in the order of the tree; with it the last position given. A
/// table that had no position gets none. `under` says whether the table
/// that holds this one had a position; there is no result where neither had
/// one and this table is not implicit, nor where the positions run out.
pub open spec fn numbered_table(t: TableModel, next: usize, under: Option<bool>) -> Option<
    (TableModel, usize),
>
    decreases t,
{
    if under == Some(false) && t.position is None && !t.implicit {
        None
    } else if t.position is Some && next == usize::MAX {
        None
    } else {
        let mine: usize = if t.position is Some {
            (next + 1) as usize
        } else {
            next
        };
        match numbered_entries(t.entries, mine, Some(t.position is Some)) {
            Some(r) => Some(
                (
                    TableModel {
                        entries: r.0,
                        position: if t.position is Some {
                            Some(mine)
                        } else {
                            None
                        },
                        ..t
                    },
                    r.1,
                ),
            ),
            None => None,
        }
    }
}

/// The entries of a table with new positions, counted on from `next`.
pub open spec fn numbered_entries(es: Seq<EntryModel>, next: usize, under: Option<bool>) -> Option<
    (Seq<EntryModel>, usize),
>
    decreases es,
{
    if es.len() == 0 {
        Some((Seq::empty(), next))
    } else {
        match numbered_entries(es.drop_last(), next, under) {
            Some(head) => match numbered_entry(es.last(), head.1, under) {
                Some(last) => Some((head.0.push(last.0), last.1)),
                None => None,
            },
            None => None,
        }
    }
}

/// An entry with new positions for its table or tables.
pub open spec fn numbered_entry(e: EntryModel, next: usize, under: Option<bool>) -> Option<
    (EntryModel, usize),
>
    decreases e,
{
    match e.item {
        ItemModel::Table(t) => match numbered_table(t, next, under) {
            Some(r) => Some((EntryModel { key: e.key, item: ItemModel::Table(r.0) }, r.1)),
            None => None,
        },
        ItemModel::ArrayOfTables(ts) => match numbered_tables(ts, next) {
            Some(r) => Some((EntryModel { key: e.key, item: ItemModel::ArrayOfTables(r.0) }, r.1)),
            None => None,
        },
        _ => Some((e, next)),
    }
}

/// The tables of an array of tables with new positions.
pub open spec fn numbered_tables(ts: Seq<TableModel>, next: usize) -> Option<
    (Seq<TableModel>, usize),
>
    decreases ts,
{
    if ts.len() == 0 {
        Some((Seq::empty(), next))
    } else {
        match numbered_tables(ts.drop_last(), next) {
            Some(head) => match numbered_table(ts.last(), head.1, None) {
                Some(last) => Some((head.0.push(last.0), last.1)),
                None => None,
            },
            None => None,
        }
    }
}

/// The top-level entries in the order of the sections.
pub open spec fn sections_in_order(es: Seq<EntryModel>, config: ConfigModel) -> Seq<EntryModel> {
    stable_sort(es, section_before(section_order(config)))
}

pub proof fn lemma_place_in(order: Seq<Seq<char>>, name: Seq<char>, i: int)
    requires
        0 <= i <= order.len(),
        forall|j: int| 0 <= j < i ==> order[j] != name,
        i < order.len() ==> order[i] == name,
    ensures
        place_in(order, name) == i,
    decreases i,
{
    if i > 0 {
        let rest = order.drop_first();
        assert forall|j: int| 0 <= j < i - 1 implies rest[j] != name by {
            assert(rest[j] == order[j + 1]);
        }
        lemma_place_in(rest, name, i - 1);
    }
}

fn place_of(order: &Vec<Vec<char>>, name: &Vec<char>) -> (r: usize)
    ensures
        r == place_in(chars_of_all(order@), name@),
{
    let mut i: usize = 0;
    while i < order.len() && !same_chars(&order[i], name)
        invariant
            i <= order.len(),
            forall|j: int| 0 <= j < i ==> chars_of_all(order@)[j] != name@,
        decreases order.len() - i,
    {
        i += 1;
    }
    proof {
        lemma_place_in(chars_of_all(order@), name@, i as int);
    }
    i
}

fn resolve_order(config: &TomlFormatConfig) -> (r: Vec<Vec<char>>)
    ensures
        chars_of_all(r@) == section_order(config@),
{
    let custom = all_chars(&config.custom_section_order);
    let known = all_chars(&TomlSection::manifest_spec());
    let ghost names = TomlSection::manifest_names();
    let ghost listed = config@.custom_section_order;
    let mut out: Vec<Vec<char>> = Vec::new();
    let mut i: usize = 0;
    while i < custom.len()
        invariant
            i <= custom.len(),
            chars_of_all(custom@) == listed,
            chars_of_all(out@) == listed.take(i as int),
        decreases custom.len() - i,
    {
        let ghost before = chars_of_all(out@);
        let mut copy: Vec<char> = Vec::new();
        let mut k: usize = 0;
        while k < custom[i].len()
            invariant
                i < custom.len(),
                k <= custom[i as int].len(),
                copy@ == custom[i as int]@.take(k as int),
            decreases custom[i as int].len() - k,
        {
            copy.push(custom[i][k]);
            k += 1;
        }
        proof {
            assert(custom[i as int]@.take(custom[i as int].len() as int) =~= custom[i as int]@);
        }
        out.push(copy);
        proof {
            assert(chars_of_all(out@) =~= before.push(listed[i as int]));
            assert(listed.take(i + 1) =~= listed.take(i as int).push(listed[i as int]));
        }
        i += 1;
    }
    proof {
        assert(listed.take(custom.len() as int) =~= listed);
    }
    for name in it: known
        invariant
            it.seq() == known@,
            chars_of_all(known@) == names,
            chars_of_all(custom@) == listed,
            chars_of_all(out@) == listed + leftover(names.take(it.index() as int), listed),
    {
        let ghost before = chars_of_all(out@);
        let ghost i = it.index() as int;
        proof {
            assert(names.take(i + 1).drop_last() =~= names.take(i));
            assert(names.take(i + 1).last() == name@);
        }
        if !name_is_listed(&name, &custom) {
            out.push(name);
            proof {
                assert(chars_of_all(out@) =~= before.push(name@));
                assert(before.push(name@) =~= listed + leftover(names.take(i + 1), listed));
            }
        }
    }
    proof {
        assert(names.take(names.len() as int) =~= names);
    }
    out
}

/// Puts the sections in the order of a manifest, or in the order that the
/// configuration names; the sections that neither knows come last, in the
/// order in which they stood. The tables that had a position get new ones,
/// counted from 1 in the order of the tree.
pub struct OrderSections;

impl OrderSections {
    fn number_table(table: TomlTable, next: usize, under: Option<bool>) -> (r: Option<
        (TomlTable, usize),
    >)
        ensures
            match r {
                Some(out) => numbered_table(table@, next, under) == Some((out.0@, out.1)),
                None => numbered_table(table@, next, under) is None,
            },
        decreases table,
    {
        proof {
            lemma_table_view(table);
        }
        let positioned = table.position.is_some();
        match under {
            Some(parent) => {
                if !parent && !positioned && !table.implicit {
                    return None;
                }
            },
            None => {},
        }
        if positioned && next == usize::MAX {
            return None;
        }
        let mine: usize = if positioned {
            next + 1
        } else {
            next
        };
        match Self::number_entries(table.entries, mine, Some(positioned)) {
            Some(r) => {
                let out = TomlTable {
                    entries: r.0,
                    decor: table.decor,
                    implicit: table.implicit,
                    dotted: table.dotted,
                    position: if positioned {
                        Some(mine)
                    } else {
                        None
                    },
                };
                proof {
                    lemma_table_view(out);
                }
                Some((out, r.1))
            },
            None => None,
        }
    }

    #[verifier::loop_isolation(false)]
    fn number_entries(entries: Vec<Entry>, next: usize, under: Option<bool>) -> (r: Option<
        (Vec<Entry>, usize),
    >)
        ensures
            match r {
                Some(out) => numbered_entries(entries_model(entries@), next, under) == Some(
                    (entries_model(out.0@), out.1),
                ),
                None => numbered_entries(entries_model(entries@), next, under) is None,
            },
        decreases entries,
    {
        let ghost models = entries_model(entries@);
        let mut out: Vec<Entry> = Vec::new();
        let mut now: usize = next;
        let mut failed: bool = false;
        proof {
            assert(entries_model(out@) =~= Seq::empty());
        }
        for e in it: entries
            invariant
                it.seq() == entries@,
                if failed {
                    numbered_entries(models.take(it.index() as int), next, under) is None
                } else {
                    numbered_entries(models.take(it.index() as int), next, under) == Some(
                        (entries_model(out@), now),
                    )
                },
        {
            let ghost i = it.index() as int;
            proof {
                assert(models.take(i + 1).drop_last() =~= models.take(i));
                assert(models.take(i + 1).last() == e@);
            }
            if !failed {
                let ghost before = entries_model(out@);
                match Self::number_entry(e, now, under) {
                    Some(r) => {
                        out.push(r.0);
                        now = r.1;
                        proof {
                            assert(entries_model(out@) =~= before.push(r.0@));
                        }
                    },
                    None => {
                        failed = true;
                    },
                }
            }
        }
        proof {
            assert(models.take(models.len() as int) =~= models);
        }
        if failed {
            None
        } else {
            Some((out, now))
        }
    }

    fn number_entry(e: Entry, next: usize, under: Option<bool>) -> (r: Option<(Entry, usize)>)
        ensures
            match r {
                Some(out) => numbered_entry(e@, next, under) == Some((out.0@, out.1)),
                None => numbered_entry(e@, next, under) is None,
            },
        decreases e,
    {
        proof {
            lemma_item_view(e.item);
        }
        match e.item {
            TomlItem::Table(t) => match Self::number_table(t, next, under) {
                Some(r) => {
                    let out = Entry { key: e.key, item: TomlItem::Table(r.0) };
                    proof {
                        lemma_item_view(out.item);
                    }
                    Some((out, r.1))
                },
                None => None,
            },
            TomlItem::ArrayOfTables(ts) => match Self::number_tables(ts, next) {
                Some(r) => {
                    let out = Entry { key: e.key, item: TomlItem::ArrayOfTables(r.0) };
                    proof {
                        lemma_item_view(out.item);
                    }
                    Some((out, r.1))
                },
                None => None,
            },
            other => {
                let out = Entry { key: e.key, item: other };
                Some((out, next))
            },
        }
    }

    #[verifier::loop_isolation(false)]
    fn number_tables(tables: Vec<TomlTable>, next: usize) -> (r: Option<(Vec<TomlTable>, usize)>)
        ensures
            match r {
                Some(out) => numbered_tables(tables_model(tables@), next) == Some(
                    (tables_model(out.0@), out.1),
                ),
                None => numbered_tables(tables_model(tables@), next) is None,
            },
        decreases tables,
    {
        let ghost models = tables_model(tables@);
        let mut out: Vec<TomlTable> = Vec::new();
        let mut now: usize = next;
        let mut failed: bool = false;
        proof {
            assert(tables_model(out@) =~= Seq::empty());
        }
        for t in it: tables
            invariant
                it.seq() == tables@,
                if failed {
                    numbered_tables(models.take(it.index() as int), next) is None
                } else {
                    numbered_tables(models.take(it.index() as int), next) == Some(
                        (tables_model(out@), now),
                    )
                },
        {
            let ghost i = it.index() as int;
            proof {
                assert(models.take(i + 1).drop_last() =~= models.take(i));
                assert(models.take(i + 1).last() == t@);
            }
            if !failed {
                let ghost before = tables_model(out@);
                match Self::number_table(t, now, None) {
                    Some(r) => {
                        out.push(r.0);
                        now = r.1;
                        proof {
                            assert(tables_model(out@) =~= before.push(r.0@));
                        }
                    },
                    None => {
                        failed = true;
                    },
                }
            }
        }
        proof {
            assert(models.take(models.len() as int) =~= models);
        }
        if failed {
            None
        } else {
            Some((out, now))
        }
    }

    fn sort_sections(entries: Vec<Entry>, config: &TomlFormatConfig) -> (r: Vec<Entry>)
        ensures
            entries_model(r@) == sections_in_order(entries_model(entries@), config@),
    {
        let order = resolve_order(config);
        let ghost models = entries_model(entries@);
        let ghost o = section_order(config@);
        let mut keyed: Vec<(Measure, Entry)> = Vec::new();
        for e in it: entries
            invariant
                it.seq() == entries@,
                models == entries_model(entries@),
                chars_of_all(order@) == o,
                keyed@.len() == it.index(),
                forall|j: int|
                    0 <= j < it.index() ==> (#[trigger] keyed@[j]).1@ == models[j]
                        && keyed@[j].0.name is None && keyed@[j].0.number == Some(
                        place_in(o, models[j].key.name) as usize,
                    ) && place_in(o, models[j].key.name) <= usize::MAX,
        {
            let chars = to_chars(e.key.name.as_str());
            let place = place_of(&order, &chars);
            keyed.push((Measure { name: None, number: Some(place) }, e));
        }
        proof {
            assert(keyed_entries(keyed@) =~= models);
        }
        sort_keyed(keyed, Ghost(section_before(o)))
    }
}

impl TomlFormatter for OrderSections {
    open spec fn formatted(&self, document: DocumentModel, config: ConfigModel) -> Result<
        DocumentModel,
        PassError,
    > {
        if !config.order_sections {
            Ok(document)
        } else {
            match numbered_entries(sections_in_order(document.root.entries, config), 0, None) {
                Some(r) => Ok(
                    DocumentModel {
                        root: TableModel { entries: r.0, ..document.root },
                        trailing: document.trailing,
                    },
                ),
                None => Err(PassError::InvariantViolation),
            }
        }
    }

    fn visit_document(&mut self, toml_document: &mut TomlDocument, config: &TomlFormatConfig) -> (r:
        Result<(), PassError>) {
        if !config.order_sections {
            return Ok(());
        }
        proof {
            lemma_table_view(toml_document.root);
        }
        let copy = toml_document.root.duplicate();
        proof {
            lemma_table_view(copy);
        }
        let sorted = Self::sort_sections(copy.entries, config);
        match Self::number_entries(sorted, 0, None) {
            Some(r) => {
                toml_document.root.entries = r.0;
                proof {
                    lemma_table_view(toml_document.root);
                }
                Ok(())
            },
            None => Err(PassError::InvariantViolation),
        }
    }
}

} // verus!
