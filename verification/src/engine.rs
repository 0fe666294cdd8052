use crate::document::{clone_paths, paths, Document, DocumentView, StoredDocument};
use crate::error::EngineError;
use crate::path::{path_of_text, valid_path_text, FacetPath};
use crate::report::{
    descending, lemma_child_counts_permuted, lemma_children_distinct, sort_descending,
};
use crate::snapshot::{
    docs_with, docs_without, documents_of, entries_of, has_doc, ids_of, loaded_docs,
    records_of, unique_ids, valid_image, Snapshot,
};
use crate::store::{DocumentStore, Persistence, StoreView};
use crate::taxonomy::{child_counts, lines_of, FacetCount, FacetCountView};
use vstd::prelude::*;

verus! {

/// The lines are the report of the children of `p` over the documents: each
/// child under which a document lies, once and with its count, the largest
/// count first.
pub open spec fn is_report(
    lines: Seq<FacetCountView>,
    docs: Seq<DocumentView>,
    p: Seq<Seq<char>>,
) -> bool {
    child_counts(lines, entries_of(docs), p) && descending(lines)
}

/// Staging the removal of an id and then a document with that id, on a
/// store with nothing staged, makes the pending snapshot the committed one
/// with the document in the place of any other of its id.
pub proof fn lemma_replace_pending(committed: Seq<DocumentView>, doc: DocumentView)
    ensures
        StoreView::of(committed).stage_delete(doc.id).stage_add(doc).pending() == docs_with(
            committed,
            doc,
        ),
        !StoreView::of(committed).stage_delete(doc.id).stage_add(doc).idle(),
{
    let staged = StoreView::of(committed).stage_delete(doc.id).stage_add(doc);
    assert(staged.adds =~= seq![doc]);
    assert(staged.adds[0].id == doc.id);
    assert(ids_of(staged.adds) =~= set![doc.id]) by {
        assert forall|x: i64| ids_of(staged.adds).contains(x) <==> x == doc.id by {
            if has_doc(staged.adds, x) {
                let k = choose|k: int| 0 <= k < staged.adds.len() && (#[trigger] staged.adds[k]).id
                    == x;
            }
        }
    }
    if has_doc(committed, doc.id) {
        assert(staged.deletes =~= seq![doc.id]);
        assert(staged.deletes[0] == doc.id);
        assert(staged.deletes.to_set() =~= set![doc.id]);
    } else {
        assert(staged.deletes =~= Seq::<i64>::empty());
        assert(staged.deletes.to_set() =~= Set::<i64>::empty());
    }
    assert(staged.deletes.to_set().union(ids_of(staged.adds)) =~= set![doc.id]);
    assert(docs_without(committed, doc.id) + seq![doc] =~= docs_with(committed, doc));
}

/// The index engine: it owns the document store and, through the store's
/// snapshots, the facet taxonomy. Between two calls nothing is staged.
pub struct IndexEngine {
    store: DocumentStore,
}

impl View for IndexEngine {
    type V = Seq<DocumentView>;

    closed spec fn view(&self) -> Seq<DocumentView> {
        self.store@.committed
    }
}

impl IndexEngine {
    /// Nothing is staged.
    #[verifier::type_invariant]
    pub closed spec fn wf(self) -> bool {
        self.store@.idle()
    }

    /// Moves the store out, so that a batch can be staged and committed on
    /// it before it is put back, and leaves an empty store in its place.
    fn take_store(&mut self) -> (r: DocumentStore)
        ensures
            r@ == StoreView::of(old(self)@),
    {
        let mut whole: IndexEngine = IndexEngine {
            store: DocumentStore::with_snapshot(Snapshot::empty()),
        };
        std::mem::swap(self, &mut whole);
        proof {
            use_type_invariant(&whole);
            assert(whole.store@.adds =~= Seq::<DocumentView>::empty());
            assert(whole.store@.deletes =~= Seq::<i64>::empty());
        }
        whole.store
    }

    /// A new index at a location, holding the given documents. `occupied`
    /// says whether the location already holds a store, and `outcome` how
    /// the write of the new index went.
    pub fn create(occupied: bool, initial: Vec<Document>, outcome: Persistence) -> (r: Result<
        IndexEngine,
        EngineError,
    >)
        ensures
            match r {
                Ok(engine) => !occupied && outcome == Persistence::Written && unique_ids(
                    documents_of(initial@),
                ) && engine@ == documents_of(initial@),
                Err(e) => if occupied {
                    e == EngineError::AlreadyExists
                } else if outcome == Persistence::Failed {
                    e == EngineError::IOFailure
                } else {
                    e == EngineError::DuplicateStaged && !unique_ids(documents_of(initial@))
                },
            },
    {
        let mut store: DocumentStore = match DocumentStore::create(occupied, outcome) {
            Ok(store) => store,
            Err(e) => {
                return Err(e);
            },
        };
        let ghost all = documents_of(initial@);
        let n: usize = initial.len();
        let mut i: usize = 0;
        proof {
            assert(all.take(0) =~= Seq::<DocumentView>::empty());
        }
        while i < n
            invariant
                !occupied,
                outcome == Persistence::Written,
                n == initial.len(),
                i <= n,
                all == documents_of(initial@),
                store@ == (StoreView {
                    committed: Seq::empty(),
                    adds: all.take(i as int),
                    deletes: Seq::empty(),
                }),
                unique_ids(all.take(i as int)),
            decreases n - i,
        {
            let ghost done = all.take(i as int);
            let ghost next = all.take(i + 1);
            let doc: Document = initial[i].clone();
            assert(doc@ == all[i as int]);
            match store.add(doc) {
                Ok(()) => {
                    proof {
                        assert(next =~= done.push(all[i as int]));
                        assert forall|a: int, b: int| 0 <= a < b < next.len() implies (
                        #[trigger] next[a]).id != (#[trigger] next[b]).id by {
                            if b < i {
                                assert(done[a].id != done[b].id);
                            } else {
                                assert(done[a].id != all[i as int].id);
                            }
                        }
                    }
                },
                Err(e) => {
                    proof {
                        let a = choose|a: int|
                            0 <= a < done.len() && (#[trigger] done[a]).id == all[i as int].id;
                        assert(done[a] == all[a]);
                        assert(0 <= a < i < all.len() && all[a].id == all[i as int].id);
                        assert(!unique_ids(all));
                    }
                    return Err(e);
                },
            }
            i = i + 1;
        }
        proof {
            assert(all.take(i as int) =~= all);
            assert(store@.pending() =~= all);
        }
        match store.commit(outcome) {
            Ok(()) => Ok(IndexEngine { store }),
            Err(e) => Err(e),
        }
    }

    /// The index that was persisted at a location. `persisted` holds the
    /// records found there, or nothing if no index was created there.
    pub fn open(persisted: Option<&Vec<StoredDocument>>) -> (r: Result<IndexEngine, EngineError>)
        ensures
            match r {
                Ok(engine) => persisted matches Some(records) && valid_image(
                    records_of(records@),
                ) && engine@ == loaded_docs(records_of(records@)),
                Err(e) => match persisted {
                    None => e == EngineError::NotFound,
                    Some(records) => e == EngineError::Corrupt && !valid_image(
                        records_of(records@),
                    ),
                },
            },
    {
        match DocumentStore::open(persisted) {
            Ok(store) => Ok(IndexEngine { store }),
            Err(e) => Err(e),
        }
    }

    /// The current snapshot. Only a commit replaces it.
    pub fn current(&self) -> (r: &Snapshot)
        ensures
            r@ == self@,
    {
        self.store.committed()
    }

    /// A copy of the current snapshot. It stays as it is, whatever is
    /// committed later.
    pub fn snapshot(&self) -> (r: Snapshot)
        ensures
            r@ == self@,
            unique_ids(r@),
    {
        self.store.committed().clone()
    }

    /// The snapshot that `replace_document` would install: what the caller
    /// has to write before it reports the outcome.
    pub fn preview_replace(&self, id: i64, new_title: &str, new_facets: &Vec<FacetPath>) -> (r:
        Snapshot)
        ensures
            r@ == docs_with(
                self@,
                DocumentView { id: id, title: new_title@, facets: paths(new_facets@) },
            ),
            unique_ids(r@),
    {
        let doc: Document = Document::new(id, new_title.to_owned(), clone_paths(new_facets));
        self.store.committed().clone().with_document(doc)
    }

    /// Replaces the document with the id by one with the given title and
    /// facet paths, or adds it if there is none: the removal and the
    /// addition are committed together. `outcome` says how the write of
    /// the new snapshot went; if it failed, nothing changes.
    pub fn replace_document(
        &mut self,
        id: i64,
        new_title: String,
        new_facets: Vec<FacetPath>,
        outcome: Persistence,
    ) -> (r: Result<(), EngineError>)
        ensures
            match r {
                Ok(()) => outcome == Persistence::Written && final(self)@ == docs_with(
                    old(self)@,
                    DocumentView { id: id, title: new_title@, facets: paths(new_facets@) },
                ),
                Err(e) => e == EngineError::IOFailure && outcome == Persistence::Failed
                    && final(self)@ == old(self)@,
            },
    {
        let mut store: DocumentStore = self.take_store();
        let doc: Document = Document::new(id, new_title, new_facets);
        proof {
            lemma_replace_pending(old(self)@, doc@);
        }
        store.delete(id);
        let result: Result<(), EngineError> = match store.add(doc) {
            Ok(()) => store.commit(outcome),
            Err(e) => Err(e),
        };
        match result {
            Ok(()) => {},
            Err(_) => {
                store.discard();
            },
        }
        *self = IndexEngine { store };
        result
    }

    /// The report of the children of a path over the current snapshot.
    pub fn report_children(&self, prefix: &FacetPath) -> (r: Vec<FacetCount>)
        ensures
            is_report(lines_of(r@), self@, prefix@),
    {
        let lines: Vec<FacetCount> = self.store.committed().taxonomy().count_children(prefix);
        proof {
            lemma_children_distinct(lines_of(lines@), entries_of(self@), prefix@);
        }
        let ghost unsorted = lines_of(lines@);
        let sorted: Vec<FacetCount> = sort_descending(lines);
        proof {
            lemma_child_counts_permuted(lines_of(sorted@), unsorted, entries_of(self@), prefix@);
        }
        sorted
    }

    /// The report of the children of the path that `root_prefix` names,
    /// over the current snapshot. Fails exactly if the text is no facet
    /// path.
    pub fn facet_report(&self, root_prefix: &str) -> (r: Result<Vec<FacetCount>, EngineError>)
        ensures
            match r {
                Ok(lines) => valid_path_text(root_prefix@) && is_report(
                    lines_of(lines@),
                    self@,
                    path_of_text(root_prefix@),
                ),
                Err(e) => e == EngineError::UnknownPrefix && !valid_path_text(root_prefix@),
            },
    {
        match FacetPath::parse(root_prefix) {
            Some(prefix) => Ok(self.report_children(&prefix)),
            None => Err(EngineError::UnknownPrefix),
        }
    }
}

} // verus!
