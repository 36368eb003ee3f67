use vstd::prelude::*;

use crate::model::{
    bulk_view, diff_spec, Bulk, Doc, Index, Model, Modified, ModifiedSpec, Timestamp,
    Update, UpdateSpec,
};

verus! {

/// The updates for a document that was not read again: each of its tokens
/// loses one document, in the order of its token counts, and then the
/// document goes.
pub open spec fn removal_updates(terms: Seq<Seq<char>>, path: Seq<char>) -> Seq<UpdateSpec> {
    df_drops(terms) + seq![UpdateSpec::Remove(path)]
}

/// One document less in the frequency of each of `terms`, in order.
pub open spec fn df_drops(terms: Seq<Seq<char>>) -> Seq<UpdateSpec>
    decreases terms.len(),
{
    if terms.len() == 0 {
        seq![]
    } else {
        df_drops(terms.drop_last()) + seq![
            UpdateSpec::Modify { t: ModifiedSpec::DF, term: terms.last(), cnt: -1isize },
        ]
    }
}

/// What became of the file of a stored document since it was indexed.
pub enum FileChange {
    /// The file has the modification time that is stored.
    Unchanged,
    /// The file is gone.
    Removed,
    /// The file changed; this is the document read from it again.
    Modified(Doc),
}

/// The updates for the stored document `doc` at `path`: none where its file
/// is unchanged, its removal where the file is gone, and its difference from
/// the document read again where the file changed.
pub open spec fn reindex_step(path: Seq<char>, doc: Doc, change: FileChange) -> Seq<UpdateSpec> {
    match change {
        FileChange::Unchanged => seq![],
        FileChange::Removed => removal_updates(doc.spec_tf().keys(), path),
        FileChange::Modified(nd) => diff_spec(
            nd.spec_tf().keys(),
            nd@,
            doc.spec_tf().keys(),
            doc@,
            path,
        ),
    }
}

/// `reindex_step` for the first `n` stored documents, in order.
pub open spec fn reindex_steps(stored: Index, changes: Seq<FileChange>, n: int) -> Seq<UpdateSpec>
    decreases n,
{
    if n <= 0 {
        seq![]
    } else {
        reindex_steps(stored, changes, n - 1) + reindex_step(
            stored.keys()[n - 1],
            stored.values()[n - 1],
            changes[n - 1],
        )
    }
}

/// The updates that bring `model` in line with the files on disk, where
/// `changes` tells, in index order, what became of each stored document's
/// file: one `reindex_step` for each stored document, in order.
pub open spec fn reindex_spec(model: Model, changes: Seq<FileChange>) -> Seq<UpdateSpec> {
    reindex_steps(model.spec_index(), changes, model.spec_index().keys().len() as int)
}

/// Every document read again is well formed.
pub open spec fn changes_wf(changes: Seq<FileChange>) -> bool {
    forall|i: int|
        0 <= i < changes.len() ==> (#[trigger] changes[i] matches FileChange::Modified(d) ==> d.wf())
}

/// What became of the file of a stored document.
pub enum FileState {
    /// The file is gone.
    Missing,
    /// The file is there, last modified at this time.
    Present(Timestamp),
}

/// What to do about the file of a stored document.
pub enum FilePlan {
    /// Nothing needs reading: this is what became of the file.
    Settled(FileChange),
    /// The file changed: read it again, as of this modification time.
    ReadAgain(Timestamp),
}

/// What to do about the file of `doc`: a missing file is removed, a file
/// with the stored modification time is unchanged, and any other is read
/// again as of its new time.
pub fn plan_file(doc: &Doc, state: FileState) -> (r: FilePlan)
    ensures
        match state {
            FileState::Missing => r matches FilePlan::Settled(FileChange::Removed),
            FileState::Present(ts) => if ts == doc@.ts {
                r matches FilePlan::Settled(FileChange::Unchanged)
            } else {
                r == FilePlan::ReadAgain(ts)
            },
        },
{
    match state {
        FileState::Missing => FilePlan::Settled(FileChange::Removed),
        FileState::Present(ts) => if ts == doc.get_ts() {
            FilePlan::Settled(FileChange::Unchanged)
        } else {
            FilePlan::ReadAgain(ts)
        },
    }
}

/// The updates that bring `model` in line with the files on disk. `changes`
/// tells, in index order, what became of each stored document's file: an
/// unchanged file gets no update, a removed one loses its document (each of
/// its tokens losing one document first), and a changed one gets the
/// difference between the stored document and the one read again.
pub fn re_index_bulk(model: &Model, changes: &Vec<FileChange>) -> (bulk: Bulk<Update>)
    requires
        model.wf(),
        changes@.len() == model.spec_index().keys().len(),
        changes_wf(changes@),
    ensures
        bulk_view(bulk@) == reindex_spec(*model, changes@),
{
    let index = model.index();
    let mut bulk: Bulk<Update> = Vec::new();
    let n = index.len();
    let mut i: usize = 0;
    assert(bulk_view(bulk@) =~= reindex_steps(*index, changes@, 0));
    while i < n
        invariant
            model.wf(),
            *index == model.spec_index(),
            n == index.keys().len(),
            changes@.len() == n,
            changes_wf(changes@),
            i <= n,
            bulk_view(bulk@) == reindex_steps(*index, changes@, i as int),
        decreases n - i,
    {
        let path = index.key_at(i);
        let doc = index.value_at(i);
        let ghost before = bulk_view(bulk@);
        assert(doc.wf());
        match &changes[i] {
            FileChange::Unchanged => {
                assert(bulk_view(bulk@) =~= before + Seq::<UpdateSpec>::empty());
            },
            FileChange::Modified(new_doc) => {
                assert(new_doc.wf());
                let mut part = new_doc.diff(doc, path.clone());
                let ghost part_view = bulk_view(part@);
                bulk.append(&mut part);
                proof {
                    assert(bulk_view(bulk@) =~= before + part_view);
                }
            },
            FileChange::Removed => {
                let tf = doc.get_tf();
                let m = tf.len();
                let mut k: usize = 0;
                let ghost terms = tf.keys();
                assert(bulk_view(bulk@) =~= before + df_drops(terms.take(0)));
                while k < m
                    invariant
                        tf.wf(),
                        terms == tf.keys(),
                        m == terms.len(),
                        k <= m,
                        bulk_view(bulk@) == before + df_drops(terms.take(k as int)),
                    decreases m - k,
                {
                    let term = tf.key_at(k);
                    let ghost prev = bulk_view(bulk@);
                    bulk.push(Update::Modify { t: Modified::DF, term: term.clone(), cnt: -1 });
                    proof {
                        let u = UpdateSpec::Modify { t: ModifiedSpec::DF, term: term@, cnt: -1isize };
                        assert(bulk_view(bulk@) =~= prev.push(u));
                        assert(terms.take(k + 1).drop_last() =~= terms.take(k as int));
                        assert(df_drops(terms.take(k + 1)) =~= df_drops(terms.take(k as int)).push(u));
                    }
                    k = k + 1;
                }
                let ghost prev = bulk_view(bulk@);
                bulk.push(Update::Remove(path.clone()));
                proof {
                    assert(bulk_view(bulk@) =~= prev.push(UpdateSpec::Remove(path@)));
                    assert(terms.take(m as int) =~= terms);
                    assert(bulk_view(bulk@) =~= before + removal_updates(terms, path@));
                }
            },
        }
        i = i + 1;
    }
    bulk
}

} // verus!
