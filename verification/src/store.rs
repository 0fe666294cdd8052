use crate::document::{Document, DocumentView, StoredDocument};
use crate::error::EngineError;
use crate::snapshot::{
    docs_excluding, documents_of, find_document, has_doc, ids_of, lemma_docs_without_absent,
    lemma_excluding_concat, lemma_excluding_twice, loaded_docs, records_of, unique_ids,
    valid_image, Snapshot,
};
use vstd::prelude::*;

verus! {

/// What the storage layer reports of a write.
#[derive(Clone, Copy, Debug, PartialEq, Eq, Structural)]
pub enum Persistence {
    /// The write completed.
    Written,
    /// The write could not be completed.
    Failed,
}

/// Excluding no id leaves the documents as they are.
pub proof fn lemma_excluding_nothing(docs: Seq<DocumentView>)
    ensures
        docs_excluding(docs, Set::empty()) == docs,
    decreases docs.len(),
{
    if docs.len() > 0 {
        lemma_excluding_nothing(docs.drop_last());
        assert(docs.drop_last().push(docs.last()) =~= docs);
    }
}

/// What a store is: the committed snapshot, which readers see, and the
/// batch that is staged for the next commit.
pub struct StoreView {
    pub committed: Seq<DocumentView>,
    pub adds: Seq<DocumentView>,
    pub deletes: Seq<i64>,
}

impl StoreView {
    /// The store with this snapshot and nothing staged.
    pub open spec fn of(committed: Seq<DocumentView>) -> StoreView {
        StoreView { committed, adds: Seq::empty(), deletes: Seq::empty() }
    }

    /// Nothing is staged.
    pub open spec fn idle(self) -> bool {
        self.adds.len() == 0 && self.deletes.len() == 0
    }

    /// The snapshot that the next commit installs: the committed documents
    /// whose id is neither staged for removal nor staged again, followed by
    /// the staged documents.
    pub open spec fn pending(self) -> Seq<DocumentView> {
        docs_excluding(self.committed, self.deletes.to_set().union(ids_of(self.adds)))
            + self.adds
    }

    /// The store after `doc` has been staged.
    pub open spec fn stage_add(self, doc: DocumentView) -> StoreView {
        StoreView { adds: self.adds.push(doc), ..self }
    }

    /// The store after the removal of `id` has been staged: unchanged if no
    /// live document has the id.
    pub open spec fn stage_delete(self, id: i64) -> StoreView {
        if has_doc(self.committed, id) {
            StoreView { deletes: self.deletes.push(id), ..self }
        } else {
            self
        }
    }

    /// A commit fails exactly if something is staged and cannot be written.
    pub open spec fn commit_fails(self, outcome: Persistence) -> bool {
        !self.idle() && outcome == Persistence::Failed
    }

    /// The store after a commit with the given outcome of the write.
    pub open spec fn commit(self, outcome: Persistence) -> StoreView {
        if self.idle() || outcome == Persistence::Failed {
            self
        } else {
            StoreView::of(self.pending())
        }
    }
}

/// The document store: the committed snapshot and the staged batch.
pub struct DocumentStore {
    committed: Snapshot,
    adds: Vec<Document>,
    deletes: Vec<i64>,
}

impl View for DocumentStore {
    type V = StoreView;

    closed spec fn view(&self) -> StoreView {
        StoreView {
            committed: self.committed@,
            adds: documents_of(self.adds@),
            deletes: self.deletes@,
        }
    }
}

impl DocumentStore {
    /// No two staged documents have the same id.
    #[verifier::type_invariant]
    pub open spec fn wf(self) -> bool {
        unique_ids(self@.adds)
    }

    /// A store with the given snapshot and nothing staged.
    pub fn with_snapshot(committed: Snapshot) -> (r: DocumentStore)
        ensures
            r@ == StoreView::of(committed@),
    {
        let adds: Vec<Document> = Vec::new();
        let deletes: Vec<i64> = Vec::new();
        assert(documents_of(adds@) =~= Seq::<DocumentView>::empty());
        let r = DocumentStore { committed, adds, deletes };
        assert(r@.adds =~= Seq::<DocumentView>::empty());
        assert(r@.deletes =~= Seq::<i64>::empty());
        r
    }

    /// Moves the store out, so that its parts can be edited and put back,
    /// and leaves an empty store in its place.
    fn take(&mut self) -> (r: DocumentStore)
        ensures
            r@ == old(self)@,
            unique_ids(r@.adds),
    {
        let mut whole: DocumentStore = DocumentStore::with_snapshot(Snapshot::empty());
        std::mem::swap(self, &mut whole);
        proof {
            use_type_invariant(&whole);
        }
        whole
    }

    /// A new, empty store at a location. `occupied` says whether the
    /// location already holds a store, and `outcome` how the write of the
    /// empty store went.
    pub fn create(occupied: bool, outcome: Persistence) -> (r: Result<DocumentStore, EngineError>)
        ensures
            match r {
                Ok(store) => !occupied && outcome == Persistence::Written && store@
                    == StoreView::of(Seq::empty()),
                Err(e) => if occupied {
                    e == EngineError::AlreadyExists
                } else {
                    e == EngineError::IOFailure && outcome == Persistence::Failed
                },
            },
    {
        if occupied {
            return Err(EngineError::AlreadyExists);
        }
        match outcome {
            Persistence::Failed => Err(EngineError::IOFailure),
            Persistence::Written => Ok(DocumentStore::with_snapshot(Snapshot::empty())),
        }
    }

    /// The store that was persisted at a location. `persisted` holds the
    /// records found there, or nothing if no store was created there.
    pub fn open(persisted: Option<&Vec<StoredDocument>>) -> (r: Result<DocumentStore, EngineError>)
        ensures
            match r {
                Ok(store) => persisted matches Some(records) && valid_image(records_of(records@))
                    && store@ == StoreView::of(loaded_docs(records_of(records@))),
                Err(e) => match persisted {
                    None => e == EngineError::NotFound,
                    Some(records) => e == EngineError::Corrupt && !valid_image(
                        records_of(records@),
                    ),
                },
            },
    {
        match persisted {
            None => Err(EngineError::NotFound),
            Some(records) => match Snapshot::from_records(records) {
                Some(snapshot) => Ok(DocumentStore::with_snapshot(snapshot)),
                None => Err(EngineError::Corrupt),
            },
        }
    }

    /// The committed snapshot, which a commit replaces and nothing else
    /// changes.
    pub fn committed(&self) -> (r: &Snapshot)
        ensures
            r@ == self@.committed,
    {
        &self.committed
    }

    /// A copy of the committed snapshot. It stays as it is, whatever is
    /// committed later.
    pub fn snapshot(&self) -> (r: Snapshot)
        ensures
            r@ == self@.committed,
    {
        self.committed.clone()
    }

    /// Whether nothing is staged.
    pub fn is_idle(&self) -> (r: bool)
        ensures
            r == self@.idle(),
    {
        self.adds.len() == 0 && self.deletes.len() == 0
    }
    /// Stages a document for the next commit. Fails if a document with the
    /// same id is already staged; the store is then unchanged.
    pub fn add(&mut self, doc: Document) -> (r: Result<(), EngineError>)
        ensures
            match r {
                Ok(()) => !has_doc(old(self)@.adds, doc@.id)
                    && final(self)@ == old(self)@.stage_add(doc@),
                Err(e) => e == EngineError::DuplicateStaged && has_doc(old(self)@.adds, doc@.id)
                    && final(self)@ == old(self)@,
            },
    {
        proof {
            use_type_invariant(&*self);
        }
        match find_document(&self.adds, doc.id()) {
            Some(at) => {
                assert(self@.adds[at as int].id == doc@.id);
                Err(EngineError::DuplicateStaged)
            },
            None => {
                let whole: DocumentStore = self.take();
                let ghost before = whole@;
                let committed: Snapshot = whole.committed;
                let mut adds: Vec<Document> = whole.adds;
                let deletes: Vec<i64> = whole.deletes;
                adds.push(doc);
                proof {
                    let now = documents_of(adds@);
                    assert(now =~= before.adds.push(doc@));
                    assert forall|i: int, j: int| 0 <= i < j < now.len() implies (
                    #[trigger] now[i]).id != (#[trigger] now[j]).id by {
                        if j < before.adds.len() {
                            assert(before.adds[i].id != before.adds[j].id);
                        } else {
                            assert(before.adds[i].id != doc@.id);
                        }
                    }
                }
                *self = DocumentStore { committed, adds, deletes };
                Ok(())
            },
        }
    }

    /// Stages the removal of the live document with the id for the next
    /// commit. Does nothing if no live document has the id.
    pub fn delete(&mut self, id: i64)
        ensures
            final(self)@ == old(self)@.stage_delete(id),
    {
        proof {
            use_type_invariant(&*self);
        }
        if self.committed.contains(id) {
            let whole: DocumentStore = self.take();
            let committed: Snapshot = whole.committed;
            let adds: Vec<Document> = whole.adds;
            let mut deletes: Vec<i64> = whole.deletes;
            deletes.push(id);
            *self = DocumentStore { committed, adds, deletes };
        }
    }

    /// The snapshot that the next commit installs. The committed snapshot
    /// is not touched: the new one is built beside it.
    pub fn pending(&self) -> (r: Snapshot)
        ensures
            r@ == self@.pending(),
            unique_ids(r@),
    {
        proof {
            use_type_invariant(self);
        }
        let mut next: Snapshot = self.committed.clone();
        let ghost committed = self@.committed;
        let ghost deletes = self@.deletes;
        let ghost adds = self@.adds;
        let mut i: usize = 0;
        proof {
            assert(deletes.take(0).to_set() =~= Set::<i64>::empty());
            lemma_excluding_nothing(committed);
        }
        while i < self.deletes.len()
            invariant
                i <= self.deletes.len(),
                committed == self@.committed,
                deletes == self@.deletes,
                next@ == docs_excluding(committed, deletes.take(i as int).to_set()),
                unique_ids(next@),
            decreases self.deletes.len() - i,
        {
            proof {
                let done = deletes.take(i as int);
                let more = deletes.take(i + 1);
                assert(more =~= done.push(deletes[i as int]));
                assert(more.to_set() =~= done.to_set().union(set![deletes[i as int]])) by {
                    assert forall|x: i64| more.to_set().contains(x) <==> done.to_set().union(
                        set![deletes[i as int]],
                    ).contains(x) by {
                        if more.contains(x) {
                            let k = choose|k: int| 0 <= k < more.len() && more[k] == x;
                            if k < done.len() {
                                assert(done[k] == x);
                            }
                        }
                        if done.contains(x) {
                            let k = choose|k: int| 0 <= k < done.len() && done[k] == x;
                            assert(more[k] == x);
                        }
                        if x == deletes[i as int] {
                            assert(more[i as int] == x);
                        }
                    }
                }
                lemma_excluding_twice(committed, done.to_set(), set![deletes[i as int]]);
            }
            next = next.without_document(self.deletes[i]);
            i = i + 1;
        }
        let ghost gone = deletes.to_set();
        proof {
            assert(deletes.take(i as int) =~= deletes);
            assert(adds.take(0) =~= Seq::<DocumentView>::empty());
            assert(ids_of(adds.take(0)) =~= Set::<i64>::empty());
            assert(gone.union(ids_of(adds.take(0))) =~= gone);
            assert(next@ + adds.take(0) =~= next@);
        }
        let mut j: usize = 0;
        while j < self.adds.len()
            invariant
                j <= self.adds.len(),
                committed == self@.committed,
                adds == self@.adds,
                unique_ids(adds),
                next@ == docs_excluding(committed, gone.union(ids_of(adds.take(j as int))))
                    + adds.take(j as int),
                unique_ids(next@),
            decreases self.adds.len() - j,
        {
            let doc: Document = self.adds[j].clone();
            proof {
                let done = adds.take(j as int);
                let more = adds.take(j + 1);
                let id = doc@.id;
                let left = docs_excluding(committed, gone.union(ids_of(done)));
                assert(doc@ == adds[j as int]);
                assert(more =~= done.push(doc@));
                assert(ids_of(more) =~= ids_of(done).union(set![id])) by {
                    assert forall|x: i64| ids_of(more).contains(x) <==> ids_of(done).union(
                        set![id],
                    ).contains(x) by {
                        if has_doc(more, x) {
                            let k = choose|k: int| 0 <= k < more.len() && (#[trigger] more[k]).id
                                == x;
                            if k < done.len() {
                                assert(done[k].id == x);
                            }
                        }
                        if has_doc(done, x) {
                            let k = choose|k: int| 0 <= k < done.len() && (#[trigger] done[k]).id
                                == x;
                            assert(more[k].id == x);
                        }
                        if x == id {
                            assert(more[j as int].id == x);
                        }
                    }
                }
                assert(!has_doc(done, id)) by {
                    if has_doc(done, id) {
                        let k = choose|k: int| 0 <= k < done.len() && (#[trigger] done[k]).id == id;
                        assert(adds[k].id != adds[j as int].id);
                    }
                }
                lemma_excluding_concat(left, done, set![id]);
                lemma_docs_without_absent(done, id);
                lemma_excluding_twice(committed, gone.union(ids_of(done)), set![id]);
                assert(gone.union(ids_of(done)).union(set![id]) =~= gone.union(ids_of(more)));
                assert((docs_excluding(left, set![id]) + done).push(doc@) =~= docs_excluding(
                    left,
                    set![id],
                ) + more);
            }
            next = next.with_document(doc);
            j = j + 1;
        }
        proof {
            assert(adds.take(j as int) =~= adds);
        }
        next
    }

    /// Applies the staged batch in one step. The caller has written the
    /// pending snapshot to the location and says in `outcome` how that
    /// went. If the write failed the store is unchanged; with nothing
    /// staged there is nothing to write, and the commit succeeds without a
    /// new snapshot.
    pub fn commit(&mut self, outcome: Persistence) -> (r: Result<(), EngineError>)
        ensures
            match r {
                Ok(()) => !old(self)@.commit_fails(outcome)
                    && final(self)@ == old(self)@.commit(outcome),
                Err(e) => e == EngineError::IOFailure && old(self)@.commit_fails(outcome)
                    && final(self)@ == old(self)@,
            },
    {
        if self.is_idle() {
            return Ok(());
        }
        match outcome {
            Persistence::Failed => Err(EngineError::IOFailure),
            Persistence::Written => {
                let next: Snapshot = self.pending();
                *self = DocumentStore::with_snapshot(next);
                Ok(())
            },
        }
    }

    /// Drops the staged batch. The committed snapshot stays.
    pub fn discard(&mut self)
        ensures
            final(self)@ == StoreView::of(old(self)@.committed),
    {
        let whole: DocumentStore = self.take();
        *self = DocumentStore::with_snapshot(whole.committed);
    }
}

} // verus!
