//! The comments that trail the keys and the table headers of a document,
//! each with the path at which it stands.

use vstd::multiset::Multiset;
use vstd::prelude::*;
use crate::content::{Path, Step};
use crate::document::{DecorModel, DocumentModel, EntryModel, ItemModel, TableModel};
use crate::formatting::{comment_of, or_empty};
use crate::text::{
    first_index_of, is_white_space, lemma_first_index_of, lemma_first_index_of_is,
    lemma_trim_end_idempotent, lemma_trim_end_of_padded, lemma_trim_span, trim, trim_lines,
};
use crate::render::value_decor;
use crate::sorting::{insert_stable, stable_sort};

verus! {

/// The comments of a document, each with the path at which it stands.
pub type Comments = Multiset<(Path, Seq<char>)>;

/// The comment after what stands at `path`, if its decor holds one.
pub open spec fn noted(path: Path, decor: DecorModel) -> Comments {
    match comment_of(or_empty(decor.suffix)) {
        Some(c) => Multiset::singleton((path, c)),
        None => Multiset::empty(),
    }
}

/// The comments of a table that stands at `path`: the one after its header,
/// and those of its entries.
pub open spec fn table_comments(t: TableModel, path: Path) -> Comments
    decreases t,
{
    noted(path, t.decor).add(entries_comments(t.entries, path))
}

/// The comments of the entries of a table.
pub open spec fn entries_comments(es: Seq<EntryModel>, path: Path) -> Comments
    decreases es,
{
    if es.len() == 0 {
        Multiset::empty()
    } else {
        entries_comments(es.drop_last(), path).add(entry_comments(es.last(), path))
    }
}

/// The comments of an entry: the one after its value, or those of its
/// table or tables.
pub open spec fn entry_comments(e: EntryModel, path: Path) -> Comments
    decreases e,
{
    match e.item {
        ItemModel::Absent => Multiset::empty(),
        ItemModel::Value(v) => noted(path.push(Step::Key(e.key.name)), value_decor(v)),
        ItemModel::Table(t) => table_comments(t, path.push(Step::Key(e.key.name))),
        ItemModel::ArrayOfTables(ts) => tables_comments(ts, path.push(Step::Key(e.key.name))),
    }
}

/// The comments of the tables of an array of tables.
pub open spec fn tables_comments(ts: Seq<TableModel>, path: Path) -> Comments
    decreases ts,
{
    if ts.len() == 0 {
        Multiset::empty()
    } else {
        tables_comments(ts.drop_last(), path).add(
            table_comments(ts.last(), path.push(Step::Index(ts.len() - 1))),
        )
    }
}

/// The comments that trail the keys and the table headers of a document.
pub open spec fn document_comments(d: DocumentModel) -> Comments {
    entries_comments(d.root.entries, Seq::empty())
}

/// Entries that agree one by one have the same comments.
pub proof fn lemma_comments_alike(a: Seq<EntryModel>, b: Seq<EntryModel>, path: Path)
    requires
        a.len() == b.len(),
        forall|i: int| 0 <= i < a.len() ==> entry_comments(a[i], path) == entry_comments(b[i], path),
    ensures
        entries_comments(a, path) == entries_comments(b, path),
    decreases a.len(),
{
    if a.len() > 0 {
        lemma_comments_alike(a.drop_last(), b.drop_last(), path);
    }
}

pub proof fn lemma_table_comments_alike(a: Seq<TableModel>, b: Seq<TableModel>, path: Path)
    requires
        a.len() == b.len(),
        forall|i: int|
            0 <= i < a.len() ==> table_comments(a[i], path.push(Step::Index(i))) == table_comments(
                b[i],
                path.push(Step::Index(i)),
            ),
    ensures
        tables_comments(a, path) == tables_comments(b, path),
    decreases a.len(),
{
    if a.len() > 0 {
        lemma_table_comments_alike(a.drop_last(), b.drop_last(), path);
    }
}

/// The comments of entries one after the other are the comments of both.
pub proof fn lemma_comments_joined(a: Seq<EntryModel>, b: Seq<EntryModel>, path: Path)
    ensures
        entries_comments(a + b, path) == entries_comments(a, path).add(entries_comments(b, path)),
    decreases b.len(),
{
    if b.len() == 0 {
        assert(a + b =~= a);
        assert(entries_comments(a, path).add(Multiset::empty()) =~= entries_comments(a, path));
    } else {
        lemma_comments_joined(a, b.drop_last(), path);
        assert((a + b).drop_last() =~= a + b.drop_last());
        assert(entries_comments(a, path).add(entries_comments(b.drop_last(), path)).add(
            entry_comments(b.last(), path),
        ) =~= entries_comments(a, path).add(entries_comments(b, path)));
    }
}

pub proof fn lemma_comment_inserted(
    s: Seq<EntryModel>,
    x: EntryModel,
    before: spec_fn(EntryModel, EntryModel) -> bool,
    path: Path,
)
    ensures
        entries_comments(insert_stable(s, x, before), path) == entries_comments(s, path).add(
            entry_comments(x, path),
        ),
    decreases s.len(),
{
    if s.len() > 0 && before(x, s.last()) {
        lemma_comment_inserted(s.drop_last(), x, before, path);
        let r = insert_stable(s.drop_last(), x, before).push(s.last());
        assert(r.drop_last() =~= insert_stable(s.drop_last(), x, before));
        assert(entries_comments(s.drop_last(), path).add(entry_comments(x, path)).add(
            entry_comments(s.last(), path),
        ) =~= entries_comments(s, path).add(entry_comments(x, path)));
    } else {
        assert(s.push(x).drop_last() =~= s);
    }
}

/// Sorting the entries of a table moves their comments with them.
pub proof fn lemma_comments_sorted(
    s: Seq<EntryModel>,
    before: spec_fn(EntryModel, EntryModel) -> bool,
    path: Path,
)
    ensures
        entries_comments(stable_sort(s, before), path) == entries_comments(s, path),
    decreases s.len(),
{
    if s.len() > 0 {
        lemma_comments_sorted(s.drop_last(), before, path);
        lemma_comment_inserted(stable_sort(s.drop_last(), before), s.last(), before, path);
    }
}

/// Trimming a decor, blank lines and all, keeps its comment.
pub proof fn lemma_comment_of_trimmed_lines(s: Seq<char>)
    ensures
        comment_of(trim_lines(s)) == comment_of(s),
{
    lemma_comment_of_trimmed(s);
    let t = trim(s);
    let u = t + seq!['\n'];
    let h = first_index_of(t, '#');
    lemma_first_index_of(t, '#');
    assert(is_white_space('\n'));
    if h < t.len() {
        assert forall|j: int| 0 <= j < h implies u[j] != '#' by {
            assert(u[j] == t[j]);
        }
        assert(u[h] == t[h]);
        lemma_first_index_of_is(u, '#', h);
        let rest = t.subrange(h + 1, t.len() as int);
        assert(u.subrange(h + 1, u.len() as int) =~= rest + seq!['\n']);
        lemma_trim_end_of_padded(rest, seq!['\n']);
    } else {
        assert forall|j: int| 0 <= j < u.len() implies u[j] != '#' by {
            if j < t.len() {
                assert(u[j] == t[j]);
            }
        }
        lemma_first_index_of_is(u, '#', u.len() as int);
    }
}

/// Trimming a decor keeps its comment.
pub proof fn lemma_comment_of_trimmed(s: Seq<char>)
    ensures
        comment_of(trim(s)) == comment_of(s),
{
    let span = lemma_trim_span(s);
    let t = trim(s);
    let h = first_index_of(s, '#');
    lemma_first_index_of(s, '#');
    if h < s.len() {
        assert(!is_white_space('#'));
        assert(span.0 <= h < span.1);
        assert forall|j: int| 0 <= j < h - span.0 implies t[j] != '#' by {
            assert(t[j] == s[span.0 + j]);
        }
        assert(t[h - span.0] == s[h]);
        lemma_first_index_of_is(t, '#', h - span.0);
        let inner = t.subrange(h - span.0 + 1, t.len() as int);
        let outer = s.subrange(h + 1, s.len() as int);
        let pad = s.subrange(span.1, s.len() as int);
        assert(outer =~= inner + pad);
        lemma_trim_end_of_padded(inner, pad);
    } else {
        assert forall|j: int| 0 <= j < t.len() implies t[j] != '#' by {
            assert(t[j] == s[span.0 + j]);
        }
        lemma_first_index_of_is(t, '#', t.len() as int);
    }
}

/// A comment that is put back after a value is the comment that was taken.
pub proof fn lemma_comment_put_back(s: Seq<char>)
    ensures
        match comment_of(s) {
            Some(c) => comment_of(seq![' ', '#'] + c) == Some(c),
            None => comment_of(Seq::empty()) is None,
        },
{
    match comment_of(s) {
        Some(c) => {
            let t = seq![' ', '#'] + c;
            lemma_first_index_of_is(t, '#', 1);
            assert(t.subrange(2, t.len() as int) =~= c);
            let h = first_index_of(s, '#');
            lemma_trim_end_idempotent(s.subrange(h + 1, s.len() as int));
        },
        None => {},
    }
}

} // verus!
