use crate::document::{
    clone_paths, document_of, stored_of, valid_stored, Document, DocumentView, StoredDocument,
    StoredView,
};
use crate::error::EngineError;
use crate::path::{path_of_text, valid_path_text, FacetPath};
use crate::taxonomy::{
    ascending_children, child_counts, count_under, distinct_ids, has_id, lemma_without_absent,
    lemma_without_properties, lines_of, without, EntryView, FacetCount, FacetTaxonomy,
};
use vstd::prelude::*;

verus! {

/// What the taxonomy holds of each document, in the documents' order.
pub open spec fn entries_of(docs: Seq<DocumentView>) -> Seq<EntryView> {
    Seq::new(docs.len(), |i: int| EntryView { id: docs[i].id, facets: docs[i].facets })
}

/// Some document has the id.
pub open spec fn has_doc(docs: Seq<DocumentView>, id: i64) -> bool {
    exists|i: int| 0 <= i < docs.len() && (#[trigger] docs[i]).id == id
}

/// No two documents have the same id.
pub open spec fn unique_ids(docs: Seq<DocumentView>) -> bool {
    forall|i: int, j: int|
        0 <= i < j < docs.len() ==> (#[trigger] docs[i]).id != (#[trigger] docs[j]).id
}

/// The documents whose id is not among the excluded ones, in their order.
pub open spec fn docs_excluding(docs: Seq<DocumentView>, excluded: Set<i64>) -> Seq<
    DocumentView,
>
    decreases docs.len(),
{
    if docs.len() == 0 {
        docs
    } else if excluded.contains(docs.last().id) {
        docs_excluding(docs.drop_last(), excluded)
    } else {
        docs_excluding(docs.drop_last(), excluded).push(docs.last())
    }
}

/// The ids of the documents.
pub open spec fn ids_of(docs: Seq<DocumentView>) -> Set<i64> {
    Set::new(|id: i64| has_doc(docs, id))
}

/// The documents but the one with the id.
pub open spec fn docs_without(docs: Seq<DocumentView>, id: i64) -> Seq<DocumentView> {
    docs_excluding(docs, set![id])
}

/// The documents after `doc` has taken the place of any document with its
/// id.
pub open spec fn docs_with(docs: Seq<DocumentView>, doc: DocumentView) -> Seq<DocumentView> {
    docs_without(docs, doc.id).push(doc)
}

/// The number of documents that carry a path at or below `q`.
pub open spec fn count_docs_under(docs: Seq<DocumentView>, q: Seq<Seq<char>>) -> nat {
    count_under(entries_of(docs), q)
}

/// The views of a list of documents.
pub open spec fn documents_of(v: Seq<Document>) -> Seq<DocumentView> {
    Seq::new(v.len(), |i: int| v[i]@)
}

/// The views of a list of records.
pub open spec fn records_of(v: Seq<StoredDocument>) -> Seq<StoredView> {
    Seq::new(v.len(), |i: int| v[i]@)
}

/// The records that store the documents, in order.
pub open spec fn stored_docs(docs: Seq<DocumentView>) -> Seq<StoredView> {
    Seq::new(docs.len(), |i: int| stored_of(docs[i]))
}

/// The documents that the records store, in order.
pub open spec fn loaded_docs(records: Seq<StoredView>) -> Seq<DocumentView> {
    Seq::new(records.len(), |i: int| document_of(records[i]))
}

/// The records are the image of a snapshot: each is valid, and no two have
/// the same id.
pub open spec fn valid_image(records: Seq<StoredView>) -> bool {
    &&& forall|i: int| 0 <= i < records.len() ==> valid_stored(#[trigger] records[i])
    &&& forall|i: int, j: int|
        0 <= i < j < records.len() ==> (#[trigger] records[i]).id != (#[trigger] records[j]).id
}

/// Excluding ids in two steps excludes them all.
pub proof fn lemma_excluding_twice(docs: Seq<DocumentView>, a: Set<i64>, b: Set<i64>)
    ensures
        docs_excluding(docs_excluding(docs, a), b) == docs_excluding(docs, a.union(b)),
    decreases docs.len(),
{
    if docs.len() > 0 {
        lemma_excluding_twice(docs.drop_last(), a, b);
        if !a.contains(docs.last().id) {
            let inner = docs_excluding(docs.drop_last(), a).push(docs.last());
            assert(inner.drop_last() =~= docs_excluding(docs.drop_last(), a));
        }
    }
}

/// Excluding ids from two lists in a row excludes them from each.
pub proof fn lemma_excluding_concat(a: Seq<DocumentView>, b: Seq<DocumentView>, s: Set<i64>)
    ensures
        docs_excluding(a + b, s) == docs_excluding(a, s) + docs_excluding(b, s),
    decreases b.len(),
{
    if b.len() == 0 {
        assert(a + b =~= a);
        assert(docs_excluding(a, s) + docs_excluding(b, s) =~= docs_excluding(a, s));
    } else {
        lemma_excluding_concat(a, b.drop_last(), s);
        assert((a + b).drop_last() =~= a + b.drop_last());
        assert((a + b).last() == b.last());
        if !s.contains(b.last().id) {
            assert((docs_excluding(a, s) + docs_excluding(b.drop_last(), s)).push(b.last())
                =~= docs_excluding(a, s) + docs_excluding(b, s));
        }
    }
}

/// Taking a document out of the documents takes its entry out of the
/// entries.
pub proof fn lemma_entries_without(docs: Seq<DocumentView>, id: i64)
    ensures
        entries_of(docs_without(docs, id)) == without(entries_of(docs), id),
    decreases docs.len(),
{
    if docs.len() == 0 {
        assert(entries_of(docs_without(docs, id)) =~= without(entries_of(docs), id));
    } else {
        let head = docs.drop_last();
        lemma_entries_without(head, id);
        assert(entries_of(docs).drop_last() =~= entries_of(head));
        assert(entries_of(docs).last().id == docs.last().id);
        if docs.last().id != id {
            assert(entries_of(docs_without(head, id).push(docs.last())) =~= entries_of(
                docs_without(head, id),
            ).push(entries_of(docs).last()));
        }
    }
}

/// The documents have a given id exactly if their entries have it, and
/// unique ids are distinct ids of the entries.
pub proof fn lemma_entries_ids(docs: Seq<DocumentView>, id: i64)
    ensures
        has_doc(docs, id) == has_id(entries_of(docs), id),
        unique_ids(docs) == distinct_ids(entries_of(docs)),
{
    let e = entries_of(docs);
    if has_doc(docs, id) {
        let i = choose|i: int| 0 <= i < docs.len() && (#[trigger] docs[i]).id == id;
        assert(e[i].id == id);
    }
    if has_id(e, id) {
        let i = choose|i: int| 0 <= i < e.len() && (#[trigger] e[i]).id == id;
        assert(docs[i].id == id);
    }
    if unique_ids(docs) {
        assert forall|i: int, j: int| 0 <= i < j < e.len() implies (#[trigger] e[i]).id != (
        #[trigger] e[j]).id by {
            assert(docs[i].id != docs[j].id);
        }
    }
    if distinct_ids(e) {
        assert forall|i: int, j: int| 0 <= i < j < docs.len() implies (#[trigger] docs[i]).id != (
        #[trigger] docs[j]).id by {
            assert(e[i].id != e[j].id);
        }
    }
}

/// Without a document of the id, taking the id out changes nothing.
pub proof fn lemma_docs_without_absent(docs: Seq<DocumentView>, id: i64)
    requires
        !has_doc(docs, id),
    ensures
        docs_without(docs, id) == docs,
    decreases docs.len(),
{
    if docs.len() > 0 {
        let head = docs.drop_last();
        assert(docs[docs.len() - 1].id != id);
        assert forall|i: int| 0 <= i < head.len() implies (#[trigger] head[i]).id != id by {
            assert(docs[i].id != id);
        }
        lemma_docs_without_absent(head, id);
        assert(head.push(docs.last()) =~= docs);
    }
}

/// With unique ids, taking an id out removes the one document that has it.
pub proof fn lemma_docs_without_present(docs: Seq<DocumentView>, id: i64, at: int)
    requires
        unique_ids(docs),
        0 <= at < docs.len(),
        docs[at].id == id,
    ensures
        docs_without(docs, id) == docs.remove(at),
    decreases docs.len(),
{
    let head = docs.drop_last();
    if at == docs.len() - 1 {
        assert forall|i: int| 0 <= i < head.len() implies (#[trigger] head[i]).id != id by {
            assert(docs[i].id != docs[at].id);
        }
        assert(!has_doc(head, id));
        lemma_docs_without_absent(head, id);
        assert(docs.remove(at) =~= head);
    } else {
        assert(docs[at].id != docs[docs.len() - 1].id);
        assert forall|i: int, j: int| 0 <= i < j < head.len() implies (#[trigger] head[i]).id != (
        #[trigger] head[j]).id by {
            assert(docs[i].id != docs[j].id);
        }
        lemma_docs_without_present(head, id, at);
        assert(head.remove(at).push(docs.last()) =~= docs.remove(at));
    }
}

/// What is left when an id is taken out has no document of that id, keeps
/// its ids unique, and has every other id exactly if it was there before.
pub proof fn lemma_docs_without_properties(docs: Seq<DocumentView>, id: i64)
    ensures
        !has_doc(docs_without(docs, id), id),
        docs_without(docs, id).len() <= docs.len(),
        unique_ids(docs) ==> unique_ids(docs_without(docs, id)),
        forall|other: i64|
            other != id ==> (has_doc(docs_without(docs, id), other) <==> has_doc(docs, other)),
    decreases docs.len(),
{
    if docs.len() > 0 {
        let head = docs.drop_last();
        let rest = docs_without(head, id);
        let out = docs_without(docs, id);
        lemma_docs_without_properties(head, id);
        lemma_entries_without(docs, id);
        lemma_without_properties(entries_of(docs), id);
        lemma_entries_ids(docs, id);
        lemma_entries_ids(out, id);
        assert forall|other: i64| other != id implies (has_doc(out, other) <==> has_doc(
            docs,
            other,
        )) by {
            if has_doc(out, other) {
                let i = choose|i: int| 0 <= i < out.len() && (#[trigger] out[i]).id == other;
                if i < rest.len() {
                    assert(out[i] == rest[i]);
                    assert(has_doc(rest, other));
                    assert(has_doc(head, other));
                    let k = choose|k: int| 0 <= k < head.len() && (#[trigger] head[k]).id == other;
                    assert(docs[k].id == other);
                } else {
                    assert(docs[docs.len() - 1].id == other);
                }
            }
            if has_doc(docs, other) {
                let i = choose|i: int| 0 <= i < docs.len() && (#[trigger] docs[i]).id == other;
                if i < head.len() {
                    assert(head[i].id == other);
                    assert(has_doc(head, other));
                    assert(has_doc(rest, other));
                    let k = choose|k: int| 0 <= k < rest.len() && (#[trigger] rest[k]).id == other;
                    assert(out[k] == rest[k]);
                } else {
                    assert(out[out.len() - 1].id == other);
                }
            }
        }
    }
}

/// Putting a document in keeps the ids unique.
pub proof fn lemma_docs_with_unique(docs: Seq<DocumentView>, doc: DocumentView)
    requires
        unique_ids(docs),
    ensures
        unique_ids(docs_with(docs, doc)),
{
    lemma_docs_without_properties(docs, doc.id);
    let rest = docs_without(docs, doc.id);
    let out = docs_with(docs, doc);
    assert forall|i: int, j: int| 0 <= i < j < out.len() implies (#[trigger] out[i]).id != (
    #[trigger] out[j]).id by {
        if j < rest.len() {
            assert(rest[i].id != rest[j].id);
        } else {
            assert(out[i] == rest[i]);
            if rest[i].id == doc.id {
                assert(has_doc(rest, doc.id));
            }
        }
    }
}

/// Where the document with the id stands in the list, if it is there.
pub(crate) fn find_document(docs: &Vec<Document>, id: i64) -> (r: Option<usize>)
    ensures
        match r {
            Some(at) => at < docs.len() && docs[at as int]@.id == id,
            None => !has_doc(documents_of(docs@), id),
        },
{
    let mut i: usize = 0;
    while i < docs.len()
        invariant
            i <= docs.len(),
            forall|k: int| 0 <= k < i ==> (#[trigger] documents_of(docs@)[k]).id != id,
        decreases docs.len() - i,
    {
        if docs[i].id() == id {
            return Some(i);
        }
        i = i + 1;
    }
    None
}

/// An immutable, fully committed view of the store: the live documents, at
/// most one for an id, and the taxonomy derived from them.
pub struct Snapshot {
    docs: Vec<Document>,
    taxonomy: FacetTaxonomy,
}

impl View for Snapshot {
    type V = Seq<DocumentView>;

    closed spec fn view(&self) -> Seq<DocumentView> {
        documents_of(self.docs@)
    }
}

impl Snapshot {
    /// The taxonomy holds what the documents carry.
    #[verifier::type_invariant]
    pub closed spec fn wf(self) -> bool {
        self.taxonomy@ == entries_of(self@)
    }

    /// The snapshot of an empty store.
    pub fn empty() -> (r: Snapshot)
        ensures
            r@ == Seq::<DocumentView>::empty(),
            unique_ids(r@),
    {
        let docs: Vec<Document> = Vec::new();
        let taxonomy = FacetTaxonomy::new();
        assert(documents_of(docs@) =~= Seq::<DocumentView>::empty());
        assert(entries_of(documents_of(docs@)) =~= Seq::<EntryView>::empty());
        Snapshot { docs, taxonomy }
    }

    /// The number of live documents.
    pub fn len(&self) -> (n: usize)
        ensures
            n == self@.len(),
            unique_ids(self@),
    {
        proof {
            use_type_invariant(self);
            use_type_invariant(&self.taxonomy);
            lemma_entries_ids(self@, 0);
        }
        self.docs.len()
    }

    /// Where the document with the id stands, if there is one.
    fn position(&self, id: i64) -> (r: Option<usize>)
        ensures
            match r {
                Some(at) => at < self@.len() && self@[at as int].id == id,
                None => !has_doc(self@, id),
            },
    {
        find_document(&self.docs, id)
    }

    /// Whether a document with the id is live.
    pub fn contains(&self, id: i64) -> (r: bool)
        ensures
            r == has_doc(self@, id),
    {
        match self.position(id) {
            Some(_) => true,
            None => false,
        }
    }

    /// The live document with the id, if there is one.
    pub fn get(&self, id: i64) -> (r: Option<&Document>)
        ensures
            match r {
                Some(d) => d@.id == id && self@.contains(d@),
                None => !has_doc(self@, id),
            },
    {
        match self.position(id) {
            Some(at) => {
                assert(self@[at as int] == self.docs[at as int]@);
                Some(&self.docs[at])
            },
            None => None,
        }
    }

    /// The live documents, in the order in which they came.
    pub fn documents(&self) -> (r: &Vec<Document>)
        ensures
            documents_of(r@) == self@,
    {
        &self.docs
    }

    /// The facet associations of the live documents.
    pub fn taxonomy(&self) -> (r: &FacetTaxonomy)
        ensures
            r@ == entries_of(self@),
    {
        proof {
            use_type_invariant(self);
        }
        &self.taxonomy
    }

    /// The snapshot without the document with the id, and without its facet
    /// associations; the same snapshot if there is none.
    pub fn without_document(self, id: i64) -> (r: Snapshot)
        ensures
            r@ == docs_without(self@, id),
            unique_ids(r@),
    {
        proof {
            use_type_invariant(&self);
            use_type_invariant(&self.taxonomy);
            lemma_entries_ids(self@, id);
            lemma_entries_without(self@, id);
            lemma_docs_without_properties(self@, id);
        }
        let ghost before = self@;
        let found: Option<usize> = self.position(id);
        let mut docs: Vec<Document> = self.docs;
        let mut taxonomy: FacetTaxonomy = self.taxonomy;
        match found {
            Some(at) => {
                proof {
                    lemma_docs_without_present(before, id, at as int);
                }
                docs.remove(at);
                assert(documents_of(docs@) =~= before.remove(at as int));
            },
            None => {
                proof {
                    lemma_docs_without_absent(before, id);
                }
            },
        }
        taxonomy.unregister(id);
        Snapshot { docs, taxonomy }
    }

    /// The snapshot with the document, and with its facet associations, in
    /// the place of any document with the same id.
    pub fn with_document(self, doc: Document) -> (r: Snapshot)
        ensures
            r@ == docs_with(self@, doc@),
            unique_ids(r@),
    {
        proof {
            use_type_invariant(&self);
            use_type_invariant(&self.taxonomy);
            lemma_entries_ids(self@, doc@.id);
            lemma_docs_with_unique(self@, doc@);
            lemma_docs_without_properties(self@, doc@.id);
        }
        let rest: Snapshot = self.without_document(doc.id());
        proof {
            use_type_invariant(&rest);
        }
        let ghost before = rest@;
        let mut docs: Vec<Document> = rest.docs;
        let mut taxonomy: FacetTaxonomy = rest.taxonomy;
        let facets: Vec<FacetPath> = clone_paths(doc.facets());
        proof {
            lemma_entries_ids(before, doc@.id);
            lemma_without_absent(taxonomy@, doc@.id);
        }
        taxonomy.register(doc.id(), facets);
        docs.push(doc);
        proof {
            assert(documents_of(docs@) =~= before.push(doc@));
            assert(entries_of(before.push(doc@)) =~= entries_of(before).push(
                EntryView { id: doc@.id, facets: doc@.facets },
            ));
        }
        Snapshot { docs, taxonomy }
    }

    /// The children of the path that `prefix_path` names, each with the
    /// number of live documents at or below it, in the lexical order of the
    /// children. Fails exactly if the text is no facet path.
    pub fn aggregate(&self, prefix_path: &str) -> (r: Result<Vec<FacetCount>, EngineError>)
        ensures
            match r {
                Ok(lines) => valid_path_text(prefix_path@) && child_counts(
                    lines_of(lines@),
                    entries_of(self@),
                    path_of_text(prefix_path@),
                ) && ascending_children(lines_of(lines@)),
                Err(e) => e == EngineError::UnknownPrefix && !valid_path_text(prefix_path@),
            },
    {
        self.taxonomy().aggregate(prefix_path)
    }

    /// The records that store this snapshot.
    pub fn records(&self) -> (r: Vec<StoredDocument>)
        ensures
            records_of(r@) == stored_docs(self@),
            valid_image(records_of(r@)),
            loaded_docs(records_of(r@)) == self@,
    {
        proof {
            use_type_invariant(self);
            use_type_invariant(&self.taxonomy);
            lemma_entries_ids(self@, 0);
        }
        let mut records: Vec<StoredDocument> = Vec::new();
        let mut i: usize = 0;
        while i < self.docs.len()
            invariant
                i <= self.docs.len(),
                records.len() == i,
                forall|k: int| 0 <= k < i ==> (#[trigger] records[k])@ == stored_of(self.docs[k]@),
                forall|k: int| 0 <= k < i ==> valid_stored((#[trigger] records[k])@),
                forall|k: int| 0 <= k < i ==> document_of((#[trigger] records[k])@) == self.docs[k]@,
            decreases self.docs.len() - i,
        {
            records.push(self.docs[i].to_stored());
            i = i + 1;
        }
        proof {
            let image = records_of(records@);
            assert(image =~= stored_docs(self@));
            assert forall|k: int| 0 <= k < image.len() implies valid_stored(#[trigger] image[k]) by {
                assert(valid_stored(records[k]@));
            }
            assert forall|a: int, b: int| 0 <= a < b < image.len() implies (#[trigger] image[a]).id
                != (#[trigger] image[b]).id by {
                assert(self@[a].id != self@[b].id);
            }
            assert(loaded_docs(image) =~= self@) by {
                assert forall|k: int| 0 <= k < image.len() implies document_of(image[k])
                    == self@[k] by {
                    assert(document_of(records[k]@) == self.docs[k]@);
                }
            }
        }
        records
    }

    /// The snapshot that the records store. There is none exactly if the
    /// records are not the image of a snapshot.
    pub fn from_records(records: &Vec<StoredDocument>) -> (r: Option<Snapshot>)
        ensures
            match r {
                Some(s) => valid_image(records_of(records@)) && s@ == loaded_docs(
                    records_of(records@),
                ) && unique_ids(s@),
                None => !valid_image(records_of(records@)),
            },
    {
        let mut snapshot: Snapshot = Snapshot::empty();
        let ghost all = records_of(records@);
        let mut i: usize = 0;
        while i < records.len()
            invariant
                i <= records.len(),
                all == records_of(records@),
                snapshot@ == loaded_docs(all.take(i as int)),
                unique_ids(snapshot@),
                valid_image(all.take(i as int)),
            decreases records.len() - i,
        {
            let ghost done = all.take(i as int);
            let ghost next = all.take(i + 1);
            assert(all[i as int] == records[i as int]@);
            match Document::from_stored(&records[i]) {
                Some(doc) => {
                    if snapshot.contains(doc.id()) {
                        proof {
                            let k = choose|k: int|
                                0 <= k < snapshot@.len() && (#[trigger] snapshot@[k]).id == doc@.id;
                            assert(all[k].id == done[k].id);
                            assert(all[k].id == all[i as int].id);
                        }
                        return None;
                    }
                    proof {
                        lemma_docs_without_absent(snapshot@, doc@.id);
                        assert(loaded_docs(next) =~= loaded_docs(done).push(doc@));
                        assert forall|a: int, b: int| 0 <= a < b < next.len() implies (
                        #[trigger] next[a]).id != (#[trigger] next[b]).id by {
                            if b < i {
                                assert(done[a].id != done[b].id);
                            } else {
                                assert(loaded_docs(done)[a].id == next[a].id);
                            }
                        }
                        assert forall|a: int| 0 <= a < next.len() implies valid_stored(
                            #[trigger] next[a],
                        ) by {
                            if a < i {
                                assert(valid_stored(done[a]));
                            }
                        }
                    }
                    snapshot = snapshot.with_document(doc);
                },
                None => {
                    return None;
                },
            }
            i = i + 1;
        }
        proof {
            assert(all.take(i as int) =~= all);
        }
        Some(snapshot)
    }
}

impl Clone for Snapshot {
    fn clone(&self) -> (r: Self)
        ensures
            r@ == self@,
            unique_ids(r@),
    {
        proof {
            use_type_invariant(self);
            use_type_invariant(&self.taxonomy);
            lemma_entries_ids(self@, 0);
        }
        let mut docs: Vec<Document> = Vec::new();
        let mut i: usize = 0;
        while i < self.docs.len()
            invariant
                i <= self.docs.len(),
                docs.len() == i,
                forall|k: int| 0 <= k < i ==> (#[trigger] docs[k])@ == self.docs[k]@,
            decreases self.docs.len() - i,
        {
            docs.push(self.docs[i].clone());
            i = i + 1;
        }
        let taxonomy: FacetTaxonomy = self.taxonomy.clone();
        assert(documents_of(docs@) =~= self@);
        Snapshot { docs, taxonomy }
    }
}

} // verus!
