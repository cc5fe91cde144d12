//! What holds of the handler and the store over several calls.

use vstd::prelude::*;
use vstd::multiset::Multiset;
use crate::monorepo::{after_head_hash, all_entries, head_refs, head_target, synthetic_ref};
use crate::object::{EntryView, ObjectType};
use crate::seqs::{lemma_first_where, lemma_first_where_is};
use crate::store::{
    at_path, distinct_ids, empty_store, has_id, ingest, insert_row, lemma_ingest_concat, row_of,
    rows_entries, store_wf, RowView, StoreView,
};

verus! {

/// The entries of a list of batches, one batch after the other.
pub open spec fn flatten(batches: Seq<Seq<EntryView>>) -> Seq<EntryView>
    decreases batches.len(),
{
    if batches.len() == 0 {
        Seq::empty()
    } else {
        flatten(batches.drop_last()) + batches.last()
    }
}

/// The store after each batch of the list has been filed, one after the
/// other.
pub open spec fn ingest_batches(s: StoreView, batches: Seq<Seq<EntryView>>) -> StoreView
    decreases batches.len(),
{
    if batches.len() == 0 {
        s
    } else {
        ingest(ingest_batches(s, batches.drop_last()), batches.last())
    }
}

/// Batch boundaries cannot be observed: filing entries batch by batch
/// leaves the store that filing them all at once leaves, however the
/// entries are cut into batches.
pub proof fn lemma_batches_unobservable(s: StoreView, batches: Seq<Seq<EntryView>>)
    ensures
        ingest_batches(s, batches) == ingest(s, flatten(batches)),
    decreases batches.len(),
{
    if batches.len() > 0 {
        lemma_batches_unobservable(s, batches.drop_last());
        lemma_ingest_concat(s, flatten(batches.drop_last()), batches.last());
    }
}

/// Asking for the head of a path twice, with nothing written in between,
/// gives the same refs twice, and the second call leaves the store as
/// the first left it: the ref that the first call made is the ref that
/// the second finds.
pub proof fn lemma_head_hash_idempotent(s: StoreView, path: Seq<Seq<u8>>)
    ensures
        head_refs(after_head_hash(s, path), path) == head_refs(s, path),
        after_head_hash(after_head_hash(s, path), path) == after_head_hash(s, path),
{
    if s.ref_at(path) is None {
        match head_target(s, path) {
            None => {},
            Some(t) => {
                let r = synthetic_ref(path, t);
                let after = after_head_hash(s, path);
                lemma_first_where(s.refs, at_path(path));
                assert(after.refs == s.refs.push(r));
                assert(at_path(path)(r));
                lemma_first_where_is(after.refs, at_path(path), s.refs.len() as int);
                assert(after.ref_at(path) == Some(r));
            },
        }
    }
}

/// The rows without the note of the commit that brought them.
pub open spec fn unstamped(rows: Seq<RowView>) -> Seq<RowView> {
    Seq::new(rows.len(), |i: int| RowView { commit_id: None, ..rows[i] })
}

/// The table of the given kind.
pub open spec fn table(s: StoreView, kind: ObjectType) -> Seq<RowView> {
    match kind {
        ObjectType::Commit => s.commits,
        ObjectType::Tree => s.trees,
        ObjectType::Blob => s.blobs,
        ObjectType::Tag => s.tags,
    }
}

/// The store with the table of the given kind replaced.
pub open spec fn with_table(s: StoreView, kind: ObjectType, rows: Seq<RowView>) -> StoreView {
    match kind {
        ObjectType::Commit => StoreView { commits: rows, ..s },
        ObjectType::Tree => StoreView { trees: rows, ..s },
        ObjectType::Blob => StoreView { blobs: rows, ..s },
        ObjectType::Tag => StoreView { tags: rows, ..s },
    }
}

/// Filing the rows of a table, as entries of its kind, into a store whose
/// table of that kind is empty gives it those rows, in their order.
pub proof fn lemma_ingest_table(s: StoreView, kind: ObjectType, rows: Seq<RowView>)
    requires
        table(s, kind).len() == 0,
        distinct_ids(rows),
    ensures
        ingest(s, rows_entries(kind, rows)) == with_table(s, kind, unstamped(rows)),
    decreases rows.len(),
{
    let es = rows_entries(kind, rows);
    if rows.len() == 0 {
        assert(unstamped(rows) =~= table(s, kind));
    } else {
        let front = rows.drop_last();
        assert(es.drop_last() =~= rows_entries(kind, front));
        lemma_ingest_table(s, kind, front);
        let mid = with_table(s, kind, unstamped(front));
        let row = row_of(es.last());
        assert forall|j: int| 0 <= j < unstamped(front).len() implies !has_id(row.id)(
            unstamped(front)[j],
        ) by {
            assert(rows[j].id != rows[rows.len() - 1].id);
        }
        lemma_first_where_is(unstamped(front), has_id(row.id), front.len() as int);
        assert(insert_row(unstamped(front), row) =~= unstamped(rows));
    }
}

/// A full pack, decoded into an empty store and packed again, gives the
/// entries it gave the first time, in the same order: the same multiset
/// of kinds and identifiers, and the same content.
pub proof fn lemma_full_pack_round_trip(s: StoreView)
    requires
        store_wf(s),
    ensures
        all_entries(ingest(empty_store(), all_entries(s))) == all_entries(s),
        kinds_and_ids(all_entries(ingest(empty_store(), all_entries(s)))) == kinds_and_ids(
            all_entries(s),
        ),
{
    let a = rows_entries(ObjectType::Commit, s.commits);
    let b = rows_entries(ObjectType::Tree, s.trees);
    let c = rows_entries(ObjectType::Blob, s.blobs);
    let d = rows_entries(ObjectType::Tag, s.tags);
    let e0 = empty_store();
    lemma_ingest_table(e0, ObjectType::Commit, s.commits);
    let e1 = ingest(e0, a);
    lemma_ingest_table(e1, ObjectType::Tree, s.trees);
    let e2 = ingest(e1, b);
    lemma_ingest_table(e2, ObjectType::Blob, s.blobs);
    let e3 = ingest(e2, c);
    lemma_ingest_table(e3, ObjectType::Tag, s.tags);
    let e4 = ingest(e3, d);
    lemma_ingest_concat(e0, a, b);
    lemma_ingest_concat(e0, a + b, c);
    lemma_ingest_concat(e0, a + b + c, d);
    assert(rows_entries(ObjectType::Commit, unstamped(s.commits)) =~= a);
    assert(rows_entries(ObjectType::Tree, unstamped(s.trees)) =~= b);
    assert(rows_entries(ObjectType::Blob, unstamped(s.blobs)) =~= c);
    assert(rows_entries(ObjectType::Tag, unstamped(s.tags)) =~= d);
}

/// The kinds and identifiers of a list of entries, as a multiset.
pub open spec fn kinds_and_ids(es: Seq<EntryView>) -> Multiset<(ObjectType, Seq<u8>)> {
    es.map_values(|e: EntryView| (e.kind, e.id)).to_multiset()
}

} // verus!
