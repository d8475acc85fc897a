//! The document tree, and the mathematical model that contracts speak of.
//!
//! Every executable type has a model made of sequences of characters, and a
//! view (`@`) that gives it. Two trees with equal models print alike and are
//! treated alike by every formatting rule.

use vstd::prelude::*;

verus! {

/// The text around a key, a value or a table header. `None` stands for the
/// default that the place it is printed in supplies.
#[derive(Debug)]
pub struct Decor {
    pub prefix: Option<String>,
    pub suffix: Option<String>,
}

/// The model of a [`Decor`].
pub struct DecorModel {
    pub prefix: Option<Seq<char>>,
    pub suffix: Option<Seq<char>>,
}

/// A key: its name, the way it is written (bare or quoted), and its decor.
#[derive(Debug)]
pub struct TomlKey {
    pub name: String,
    pub repr: String,
    pub decor: Decor,
}

/// The model of a [`TomlKey`].
pub struct KeyModel {
    pub name: Seq<char>,
    pub repr: Seq<char>,
    pub decor: DecorModel,
}

/// The kinds of values that are not containers.
#[derive(Clone, Copy, Debug, PartialEq, Eq, Structural)]
pub enum ScalarKind {
    String,
    Integer,
    Float,
    Boolean,
    Datetime,
}

/// A value that is not a container. `value` is the text a string stands for;
/// `repr` is the value as it is written.
#[derive(Debug)]
pub struct Scalar {
    pub kind: ScalarKind,
    pub value: String,
    pub repr: String,
    pub decor: Decor,
}

/// The model of a [`Scalar`].
pub struct ScalarModel {
    pub kind: ScalarKind,
    pub value: Seq<char>,
    pub repr: Seq<char>,
    pub decor: DecorModel,
}

/// An array: its elements, each a value with its decor.
#[derive(Debug)]
pub struct Array {
    pub values: Vec<TomlValue>,
    /// The text between the last element and the closing bracket.
    pub trailing: String,
    pub trailing_comma: bool,
    pub decor: Decor,
}

/// The model of an [`Array`].
pub struct ArrayModel {
    pub values: Seq<ValueModel>,
    pub trailing: Seq<char>,
    pub trailing_comma: bool,
    pub decor: DecorModel,
}

/// A key and its value in an inline table.
#[derive(Debug)]
pub struct InlineEntry {
    pub key: TomlKey,
    pub value: TomlValue,
}

/// The model of an [`InlineEntry`].
pub struct InlineEntryModel {
    pub key: KeyModel,
    pub value: ValueModel,
}

/// An inline table: keys and values between braces, on one line.
#[derive(Debug)]
pub struct InlineTable {
    pub entries: Vec<InlineEntry>,
    /// The text between the braces of an empty table.
    pub preamble: String,
    pub decor: Decor,
    /// Whether the table only carries the keys after a dot (`a.b = 1`).
    pub dotted: bool,
}

/// The model of an [`InlineTable`].
pub struct InlineTableModel {
    pub entries: Seq<InlineEntryModel>,
    pub preamble: Seq<char>,
    pub decor: DecorModel,
    pub dotted: bool,
}

/// A value: a scalar, an array or an inline table.
#[derive(Debug)]
pub enum TomlValue {
    Scalar(Scalar),
    Array(Array),
    InlineTable(InlineTable),
}

/// The model of a [`TomlValue`].
pub enum ValueModel {
    Scalar(ScalarModel),
    Array(ArrayModel),
    InlineTable(InlineTableModel),
}

/// A key and its item in a table.
#[derive(Debug)]
pub struct Entry {
    pub key: TomlKey,
    pub item: TomlItem,
}

/// The model of an [`Entry`].
pub struct EntryModel {
    pub key: KeyModel,
    pub item: ItemModel,
}

/// A table: its entries in the order in which they stand, and what is
/// written around its header.
#[derive(Debug)]
pub struct TomlTable {
    pub entries: Vec<Entry>,
    /// The text before the header and after it on its line.
    pub decor: Decor,
    /// An implicit table has no header of its own unless it holds values.
    pub implicit: bool,
    /// Whether the table only carries the keys after a dot (`a.b = 1`).
    pub dotted: bool,
    /// Where the table stands among the tables of the document when printed.
    pub position: Option<usize>,
}

/// The model of a [`TomlTable`].
pub struct TableModel {
    pub entries: Seq<EntryModel>,
    pub decor: DecorModel,
    pub implicit: bool,
    pub dotted: bool,
    pub position: Option<usize>,
}

/// What stands under a key of a table: a value, a table, or an array of
/// tables.
#[derive(Debug)]
pub enum TomlItem {
    /// No item: the key is not shown.
    Absent,
    Value(TomlValue),
    Table(TomlTable),
    ArrayOfTables(Vec<TomlTable>),
}

/// The model of a [`TomlItem`].
pub enum ItemModel {
    Absent,
    Value(ValueModel),
    Table(TableModel),
    ArrayOfTables(Seq<TableModel>),
}

/// A document: the table of its top-level entries, and the text after
/// them.
#[derive(Debug)]
pub struct TomlDocument {
    pub root: TomlTable,
    /// The text after the last entry.
    pub trailing: String,
}

/// The model of a [`TomlDocument`].
pub struct DocumentModel {
    pub root: TableModel,
    pub trailing: Seq<char>,
}

/// The model of a text that may be absent.
pub open spec fn text_model(t: Option<String>) -> Option<Seq<char>> {
    match t {
        Some(s) => Some(s@),
        None => None,
    }
}

/// The model of a value: the models of what it holds, one for one.
pub open spec fn value_model(v: TomlValue) -> ValueModel
    decreases v,
{
    match v {
        TomlValue::Scalar(s) => ValueModel::Scalar(s@),
        TomlValue::Array(a) => ValueModel::Array(
            ArrayModel {
                values: Seq::new(
                    a.values@.len(),
                    |i: int|
                        if 0 <= i < a.values@.len() {
                            value_model(a.values@[i])
                        } else {
                            arbitrary()
                        },
                ),
                trailing: a.trailing@,
                trailing_comma: a.trailing_comma,
                decor: a.decor@,
            },
        ),
        TomlValue::InlineTable(t) => ValueModel::InlineTable(
            InlineTableModel {
                entries: Seq::new(
                    t.entries@.len(),
                    |i: int|
                        if 0 <= i < t.entries@.len() {
                            InlineEntryModel {
                                key: t.entries@[i].key@,
                                value: value_model(t.entries@[i].value),
                            }
                        } else {
                            arbitrary()
                        },
                ),
                preamble: t.preamble@,
                decor: t.decor@,
                dotted: t.dotted,
            },
        ),
    }
}

/// The model of a table: the models of its entries, one for one.
pub open spec fn table_model(t: TomlTable) -> TableModel
    decreases t,
{
    TableModel {
        entries: Seq::new(
            t.entries@.len(),
            |i: int|
                if 0 <= i < t.entries@.len() {
                    EntryModel { key: t.entries@[i].key@, item: item_model(t.entries@[i].item) }
                } else {
                    arbitrary()
                },
        ),
        decor: t.decor@,
        implicit: t.implicit,
        dotted: t.dotted,
        position: t.position,
    }
}

/// The model of an item.
pub open spec fn item_model(item: TomlItem) -> ItemModel
    decreases item,
{
    match item {
        TomlItem::Absent => ItemModel::Absent,
        TomlItem::Value(v) => ItemModel::Value(v@),
        TomlItem::Table(t) => ItemModel::Table(table_model(t)),
        TomlItem::ArrayOfTables(ts) => ItemModel::ArrayOfTables(
            Seq::new(
                ts@.len(),
                |i: int|
                    if 0 <= i < ts@.len() {
                        table_model(ts@[i])
                    } else {
                        arbitrary()
                    },
            ),
        ),
    }
}

impl View for Decor {
    type V = DecorModel;

    open spec fn view(&self) -> DecorModel {
        DecorModel { prefix: text_model(self.prefix), suffix: text_model(self.suffix) }
    }
}

impl View for TomlKey {
    type V = KeyModel;

    open spec fn view(&self) -> KeyModel {
        KeyModel { name: self.name@, repr: self.repr@, decor: self.decor@ }
    }
}

impl View for Scalar {
    type V = ScalarModel;

    open spec fn view(&self) -> ScalarModel {
        ScalarModel { kind: self.kind, value: self.value@, repr: self.repr@, decor: self.decor@ }
    }
}

impl View for TomlValue {
    type V = ValueModel;

    open spec fn view(&self) -> ValueModel {
        value_model(*self)
    }
}

impl View for Array {
    type V = ArrayModel;

    open spec fn view(&self) -> ArrayModel {
        ArrayModel {
            values: values_model(self.values@),
            trailing: self.trailing@,
            trailing_comma: self.trailing_comma,
            decor: self.decor@,
        }
    }
}

impl View for InlineEntry {
    type V = InlineEntryModel;

    open spec fn view(&self) -> InlineEntryModel {
        InlineEntryModel { key: self.key@, value: self.value@ }
    }
}

impl View for InlineTable {
    type V = InlineTableModel;

    open spec fn view(&self) -> InlineTableModel {
        InlineTableModel {
            entries: inline_entries_model(self.entries@),
            preamble: self.preamble@,
            decor: self.decor@,
            dotted: self.dotted,
        }
    }
}

impl View for Entry {
    type V = EntryModel;

    open spec fn view(&self) -> EntryModel {
        EntryModel { key: self.key@, item: self.item@ }
    }
}

impl View for TomlTable {
    type V = TableModel;

    open spec fn view(&self) -> TableModel {
        table_model(*self)
    }
}

impl View for TomlItem {
    type V = ItemModel;

    open spec fn view(&self) -> ItemModel {
        item_model(*self)
    }
}

impl View for TomlDocument {
    type V = DocumentModel;

    open spec fn view(&self) -> DocumentModel {
        DocumentModel { root: self.root@, trailing: self.trailing@ }
    }
}

/// The models of a sequence of values, one for one.
pub open spec fn values_model(vs: Seq<TomlValue>) -> Seq<ValueModel> {
    Seq::new(vs.len(), |i: int| vs[i]@)
}

/// The models of the entries of an inline table, one for one.
pub open spec fn inline_entries_model(es: Seq<InlineEntry>) -> Seq<InlineEntryModel> {
    Seq::new(es.len(), |i: int| es[i]@)
}

/// The models of the entries of a table, one for one.
pub open spec fn entries_model(es: Seq<Entry>) -> Seq<EntryModel> {
    Seq::new(es.len(), |i: int| es[i]@)
}

/// The models of a sequence of tables, one for one.
pub open spec fn tables_model(ts: Seq<TomlTable>) -> Seq<TableModel> {
    Seq::new(ts.len(), |i: int| ts[i]@)
}

/// The view of a container is made of the views of what it holds.
pub broadcast proof fn lemma_value_view(v: TomlValue)
    ensures
        #![trigger v@]
        match v {
            TomlValue::Scalar(s) => v@ == ValueModel::Scalar(s@),
            TomlValue::Array(a) => v@ == ValueModel::Array(a@),
            TomlValue::InlineTable(t) => v@ == ValueModel::InlineTable(t@),
        },
{
    match v {
        TomlValue::Scalar(s) => {},
        TomlValue::Array(a) => {
            assert(value_model(v)->Array_0.values =~= values_model(a.values@));
        },
        TomlValue::InlineTable(t) => {
            assert(value_model(v)->InlineTable_0.entries =~= inline_entries_model(t.entries@));
        },
    }
}

/// The view of a table is made of the views of its entries.
pub broadcast proof fn lemma_table_view(t: TomlTable)
    ensures
        #![trigger t@]
        t@ == (TableModel {
            entries: entries_model(t.entries@),
            decor: t.decor@,
            implicit: t.implicit,
            dotted: t.dotted,
            position: t.position,
        }),
{
    assert(table_model(t).entries =~= entries_model(t.entries@));
}

/// The view of an item is made of the view of what it holds.
pub broadcast proof fn lemma_item_view(item: TomlItem)
    ensures
        #![trigger item@]
        match item {
            TomlItem::Absent => item@ == ItemModel::Absent,
            TomlItem::Value(v) => item@ == ItemModel::Value(v@),
            TomlItem::Table(t) => item@ == ItemModel::Table(t@),
            TomlItem::ArrayOfTables(ts) => item@ == ItemModel::ArrayOfTables(tables_model(ts@)),
        },
{
    match item {
        TomlItem::ArrayOfTables(ts) => {
            assert(item_model(item)->ArrayOfTables_0 =~= tables_model(ts@));
        },
        _ => {},
    }
}

pub broadcast group group_views {
    lemma_value_view,
    lemma_table_view,
    lemma_item_view,
}


/// A copy of a text that may be absent.
pub fn copy_text(t: &Option<String>) -> (r: Option<String>)
    ensures
        text_model(r) == text_model(*t),
{
    match t {
        Some(s) => Some(s.clone()),
        None => None,
    }
}

impl Decor {
    /// The decor of something that was not written by hand: defaults on both sides.
    pub fn new() -> (r: Decor)
        ensures
            r@ == (DecorModel { prefix: None, suffix: None }),
    {
        Decor { prefix: None, suffix: None }
    }

    /// A copy with the same model.
    pub fn duplicate(&self) -> (r: Decor)
        ensures
            r@ == self@,
    {
        Decor { prefix: copy_text(&self.prefix), suffix: copy_text(&self.suffix) }
    }
}

impl TomlKey {
    /// A copy with the same model.
    pub fn duplicate(&self) -> (r: TomlKey)
        ensures
            r@ == self@,
    {
        TomlKey { name: self.name.clone(), repr: self.repr.clone(), decor: self.decor.duplicate() }
    }
}

impl Scalar {
    /// A copy with the same model.
    pub fn duplicate(&self) -> (r: Scalar)
        ensures
            r@ == self@,
    {
        Scalar {
            kind: self.kind,
            value: self.value.clone(),
            repr: self.repr.clone(),
            decor: self.decor.duplicate(),
        }
    }
}

impl TomlValue {
    /// A copy with the same model.
    #[verifier::loop_isolation(false)]
    pub fn duplicate(&self) -> (r: TomlValue)
        ensures
            r@ == self@,
        decreases self,
    {
        broadcast use group_views;

        match self {
            TomlValue::Scalar(s) => TomlValue::Scalar(s.duplicate()),
            TomlValue::Array(a) => {
                let mut values: Vec<TomlValue> = Vec::new();
                let mut i: usize = 0;
                while i < a.values.len()
                    invariant
                        i <= a.values.len(),
                        values@.len() == i,
                        forall|j: int| 0 <= j < i ==> (#[trigger] values@[j])@ == a.values@[j]@,
                    decreases a.values.len() - i,
                {
                    values.push(a.values[i].duplicate());
                    i += 1;
                }
                proof {
                    assert(values_model(values@) =~= values_model(a.values@));
                }
                TomlValue::Array(
                    Array {
                        values,
                        trailing: a.trailing.clone(),
                        trailing_comma: a.trailing_comma,
                        decor: a.decor.duplicate(),
                    },
                )
            },
            TomlValue::InlineTable(t) => {
                let mut entries: Vec<InlineEntry> = Vec::new();
                let mut i: usize = 0;
                while i < t.entries.len()
                    invariant
                        i <= t.entries.len(),
                        entries@.len() == i,
                        forall|j: int| 0 <= j < i ==> (#[trigger] entries@[j])@ == t.entries@[j]@,
                    decreases t.entries.len() - i,
                {
                    entries.push(
                        InlineEntry {
                            key: t.entries[i].key.duplicate(),
                            value: t.entries[i].value.duplicate(),
                        },
                    );
                    i += 1;
                }
                proof {
                    assert(inline_entries_model(entries@) =~= inline_entries_model(t.entries@));
                }
                TomlValue::InlineTable(
                    InlineTable {
                        entries,
                        preamble: t.preamble.clone(),
                        decor: t.decor.duplicate(),
                        dotted: t.dotted,
                    },
                )
            },
        }
    }
}

impl TomlTable {
    /// An empty table that was not written by hand.
    pub fn new() -> (r: TomlTable)
        ensures
            r@ == (TableModel {
                entries: Seq::empty(),
                decor: DecorModel { prefix: None, suffix: None },
                implicit: false,
                dotted: false,
                position: None,
            }),
    {
        broadcast use group_views;

        let r = TomlTable {
            entries: Vec::new(),
            decor: Decor::new(),
            implicit: false,
            dotted: false,
            position: None,
        };
        proof {
            assert(entries_model(r.entries@) =~= Seq::empty());
        }
        r
    }

    /// A copy with the same model.
    pub fn duplicate(&self) -> (r: TomlTable)
        ensures
            r@ == self@,
        decreases self,
    {
        broadcast use group_views;

        let mut entries: Vec<Entry> = Vec::new();
        let mut i: usize = 0;
        while i < self.entries.len()
            invariant
                i <= self.entries.len(),
                entries@.len() == i,
                forall|j: int| 0 <= j < i ==> (#[trigger] entries@[j])@ == self.entries@[j]@,
            decreases self.entries.len() - i,
        {
            entries.push(
                Entry {
                    key: self.entries[i].key.duplicate(),
                    item: self.entries[i].item.duplicate(),
                },
            );
            i += 1;
        }
        proof {
            assert(entries_model(entries@) =~= entries_model(self.entries@));
        }
        TomlTable {
            entries,
            decor: self.decor.duplicate(),
            implicit: self.implicit,
            dotted: self.dotted,
            position: self.position,
        }
    }
}

impl TomlItem {
    /// A copy with the same model.
    #[verifier::loop_isolation(false)]
    pub fn duplicate(&self) -> (r: TomlItem)
        ensures
            r@ == self@,
        decreases self,
    {
        broadcast use group_views;

        match self {
            TomlItem::Absent => TomlItem::Absent,
            TomlItem::Value(v) => TomlItem::Value(v.duplicate()),
            TomlItem::Table(t) => TomlItem::Table(t.duplicate()),
            TomlItem::ArrayOfTables(ts) => {
                let mut tables: Vec<TomlTable> = Vec::new();
                let mut i: usize = 0;
                while i < ts.len()
                    invariant
                        i <= ts.len(),
                        tables@.len() == i,
                        forall|j: int| 0 <= j < i ==> (#[trigger] tables@[j])@ == ts@[j]@,
                    decreases ts.len() - i,
                {
                    tables.push(ts[i].duplicate());
                    i += 1;
                }
                proof {
                    assert(tables_model(tables@) =~= tables_model(ts@));
                }
                TomlItem::ArrayOfTables(tables)
            },
        }
    }
}

impl TomlDocument {
    /// A document without entries.
    pub fn new() -> (r: TomlDocument)
        ensures
            r@ == (DocumentModel {
                root: TableModel {
                    entries: Seq::empty(),
                    decor: DecorModel { prefix: None, suffix: None },
                    implicit: false,
                    dotted: false,
                    position: None,
                },
                trailing: Seq::empty(),
            }),
    {
        TomlDocument { root: TomlTable::new(), trailing: String::new() }
    }

    /// A copy with the same model.
    pub fn duplicate(&self) -> (r: TomlDocument)
        ensures
            r@ == self@,
    {
        TomlDocument { root: self.root.duplicate(), trailing: self.trailing.clone() }
    }
}

} // verus!
