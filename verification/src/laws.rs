use crate::document::{document_of, valid_document, valid_stored, DocumentView};
use crate::path::{is_prefix, path_of_text, valid_path, valid_path_text};
use crate::snapshot::{
    count_docs_under, docs_excluding, docs_with, docs_without, entries_of, has_doc, ids_of,
    lemma_docs_with_unique, lemma_docs_without_absent, lemma_docs_without_properties,
    loaded_docs, stored_docs, unique_ids, valid_image,
};
use crate::store::{Persistence, StoreView};
use crate::taxonomy::carries_under;
use vstd::prelude::*;

verus! {

/// What a document adds to the count of `q`: 1 if it carries a path at or
/// below `q`, else 0.
pub open spec fn contribution(d: DocumentView, q: Seq<Seq<char>>) -> nat {
    if carries_under(d.facets, q) {
        1
    } else {
        0
    }
}

/// What the document with the id, if there is one, adds to the count of
/// `q`.
pub open spec fn contribution_of_id(docs: Seq<DocumentView>, id: i64, q: Seq<Seq<char>>) -> nat
    decreases docs.len(),
{
    if docs.len() == 0 {
        0
    } else if docs.last().id == id {
        contribution(docs.last(), q)
    } else {
        contribution_of_id(docs.drop_last(), id, q)
    }
}

/// Deleting an id that no live document has changes nothing in the store,
/// so a commit after it does what a commit without it does. With nothing
/// else staged that commit succeeds, whatever the storage layer reports,
/// and leaves the snapshot as it is.
pub proof fn law_delete_absent_then_commit(store: StoreView, id: i64, outcome: Persistence)
    requires
        !has_doc(store.committed, id),
    ensures
        store.stage_delete(id) == store,
        store.stage_delete(id).commit(outcome) == store.commit(outcome),
        store.idle() ==> !store.stage_delete(id).commit_fails(outcome),
        store.idle() ==> store.stage_delete(id).commit(outcome) == store,
{
}

/// Staging changes nothing that a reader sees: the committed snapshot is
/// the same after a staged add or delete, and a commit replaces it in one
/// step by the pending snapshot or leaves it.
pub proof fn law_staging_is_invisible(
    store: StoreView,
    doc: DocumentView,
    id: i64,
    outcome: Persistence,
)
    ensures
        store.stage_add(doc).committed == store.committed,
        store.stage_delete(id).committed == store.committed,
        store.commit(outcome).committed == store.committed || store.commit(outcome).committed
            == store.pending(),
{
}

/// After a document has been put in the place of any other with its id,
/// the snapshot holds exactly one document with that id, the new one; every
/// document with another id is there exactly if it was there before.
pub proof fn law_replace_exactly_one(docs: Seq<DocumentView>, doc: DocumentView)
    requires
        unique_ids(docs),
    ensures
        unique_ids(docs_with(docs, doc)),
        docs_with(docs, doc).contains(doc),
        forall|d: DocumentView|
            #[trigger] docs_with(docs, doc).contains(d) && d.id == doc.id ==> d == doc,
        forall|d: DocumentView|
            d.id != doc.id ==> (#[trigger] docs_with(docs, doc).contains(d) <==> docs.contains(d)),
{
    let rest = docs_without(docs, doc.id);
    let out = docs_with(docs, doc);
    lemma_docs_with_unique(docs, doc);
    lemma_docs_without_properties(docs, doc.id);
    lemma_excluding_members(docs, set![doc.id]);
    assert(out[out.len() - 1] == doc);
    assert forall|d: DocumentView| #[trigger] out.contains(d) && d.id == doc.id implies d
        == doc by {
        let i = choose|i: int| 0 <= i < out.len() && out[i] == d;
        if i < rest.len() {
            assert(rest[i].id == doc.id);
            assert(has_doc(rest, doc.id));
        }
    }
    assert forall|d: DocumentView| d.id != doc.id implies (#[trigger] out.contains(d)
        <==> docs.contains(d)) by {
        if out.contains(d) {
            let i = choose|i: int| 0 <= i < out.len() && out[i] == d;
            assert(rest[i] == d);
            assert(rest.contains(d));
        }
        if docs.contains(d) {
            assert(rest.contains(d));
            let i = choose|i: int| 0 <= i < rest.len() && rest[i] == d;
            assert(out[i] == d);
        }
    }
}

/// What is left after ids have been excluded are the documents whose id is
/// not excluded, and no others.
pub proof fn lemma_excluding_members(docs: Seq<DocumentView>, excluded: Set<i64>)
    ensures
        forall|d: DocumentView|
            #[trigger] docs_excluding(docs, excluded).contains(d) <==> (docs.contains(d)
                && !excluded.contains(d.id)),
        unique_ids(docs) ==> unique_ids(docs_excluding(docs, excluded)),
    decreases docs.len(),
{
    let out = docs_excluding(docs, excluded);
    if docs.len() > 0 {
        let head = docs.drop_last();
        let rest = docs_excluding(head, excluded);
        lemma_excluding_members(head, excluded);
        assert forall|d: DocumentView| #[trigger] out.contains(d) <==> (docs.contains(d)
            && !excluded.contains(d.id)) by {
            if out.contains(d) {
                let i = choose|i: int| 0 <= i < out.len() && out[i] == d;
                if i < rest.len() {
                    assert(rest[i] == d);
                    assert(rest.contains(d));
                    let k = choose|k: int| 0 <= k < head.len() && head[k] == d;
                    assert(docs[k] == d);
                } else {
                    assert(docs[docs.len() - 1] == d);
                }
            }
            if docs.contains(d) && !excluded.contains(d.id) {
                let k = choose|k: int| 0 <= k < docs.len() && docs[k] == d;
                if k < head.len() {
                    assert(head[k] == d);
                    assert(head.contains(d));
                    assert(rest.contains(d));
                    let i = choose|i: int| 0 <= i < rest.len() && rest[i] == d;
                    assert(out[i] == d);
                } else {
                    assert(out[out.len() - 1] == d);
                }
            }
        }
        if unique_ids(docs) {
            assert forall|i: int, j: int| 0 <= i < j < head.len() implies (#[trigger] head[i]).id
                != (#[trigger] head[j]).id by {
                assert(docs[i].id != docs[j].id);
            }
            assert forall|i: int, j: int| 0 <= i < j < out.len() implies (#[trigger] out[i]).id != (
            #[trigger] out[j]).id by {
                if j < rest.len() {
                    assert(out[i] == rest[i] && out[j] == rest[j]);
                } else {
                    assert(out[i] == rest[i]);
                    assert(rest.contains(rest[i]));
                    assert(head.contains(rest[i]));
                    let k = choose|k: int| 0 <= k < head.len() && head[k] == rest[i];
                    assert(docs[k].id != docs[docs.len() - 1].id);
                }
            }
        }
    } else {
        assert forall|d: DocumentView| #[trigger] out.contains(d) <==> (docs.contains(d)
            && !excluded.contains(d.id)) by {
            if out.contains(d) {
                let i = choose|i: int| 0 <= i < out.len() && out[i] == d;
            }
            if docs.contains(d) {
                let i = choose|i: int| 0 <= i < docs.len() && docs[i] == d;
            }
        }
    }
}

/// A commit keeps the ids unique, and the pending snapshot holds exactly
/// the staged documents and the committed ones whose id is neither staged
/// for removal nor staged again: a committed document stays as it is until
/// it is replaced or removed.
pub proof fn law_pending_documents(store: StoreView)
    requires
        unique_ids(store.committed),
        unique_ids(store.adds),
    ensures
        unique_ids(store.pending()),
        forall|d: DocumentView|
            #[trigger] store.pending().contains(d) <==> (store.adds.contains(d) || (
            store.committed.contains(d) && !store.deletes.contains(d.id) && !has_doc(
                store.adds,
                d.id,
            ))),
{
    let excluded = store.deletes.to_set().union(ids_of(store.adds));
    let kept = docs_excluding(store.committed, excluded);
    let out = store.pending();
    lemma_excluding_members(store.committed, excluded);
    assert forall|d: DocumentView| #[trigger] out.contains(d) <==> (store.adds.contains(d) || (
    store.committed.contains(d) && !store.deletes.contains(d.id) && !has_doc(store.adds, d.id))) by {
        if out.contains(d) {
            let i = choose|i: int| 0 <= i < out.len() && out[i] == d;
            if i < kept.len() {
                assert(kept[i] == d);
                assert(kept.contains(d));
            } else {
                assert(store.adds[i - kept.len()] == d);
            }
        }
        if store.adds.contains(d) {
            let k = choose|k: int| 0 <= k < store.adds.len() && store.adds[k] == d;
            assert(out[kept.len() + k] == d);
        }
        if store.committed.contains(d) && !store.deletes.contains(d.id) && !has_doc(
            store.adds,
            d.id,
        ) {
            assert(kept.contains(d));
            let i = choose|i: int| 0 <= i < kept.len() && kept[i] == d;
            assert(out[i] == d);
        }
    }
    assert forall|i: int, j: int| 0 <= i < j < out.len() implies (#[trigger] out[i]).id != (
    #[trigger] out[j]).id by {
        if j < kept.len() {
            assert(kept[i].id != kept[j].id);
        } else if i >= kept.len() {
            assert(store.adds[i - kept.len()].id != store.adds[j - kept.len()].id);
        } else {
            assert(out[i] == kept[i]);
            assert(kept.contains(kept[i]));
            assert(!excluded.contains(kept[i].id));
            assert(out[j] == store.adds[j - kept.len()]);
            if kept[i].id == out[j].id {
                assert(has_doc(store.adds, kept[i].id));
            }
        }
    }
}

/// A document adds exactly 1 to the count of each child of a path under
/// which one of its facet paths lies, and 0 to the count of every other
/// child.
pub proof fn law_document_contribution(
    docs: Seq<DocumentView>,
    d: DocumentView,
    p: Seq<Seq<char>>,
    c: Seq<char>,
)
    ensures
        count_docs_under(docs.push(d), p.push(c)) == count_docs_under(docs, p.push(c))
            + contribution(d, p.push(c)),
        contribution(d, p.push(c)) == 1 <==> exists|j: int|
            0 <= j < d.facets.len() && is_prefix(p, #[trigger] d.facets[j]) && p.len()
                < d.facets[j].len() && d.facets[j][p.len() as int] == c,
        contribution(d, p.push(c)) == 0 || contribution(d, p.push(c)) == 1,
{
    let q = p.push(c);
    let e = entries_of(docs.push(d));
    assert(e.drop_last() =~= entries_of(docs));
    assert(e.last().facets == d.facets);
    if carries_under(d.facets, q) {
        let j = choose|j: int| 0 <= j < d.facets.len() && is_prefix(q, #[trigger] d.facets[j]);
        crate::path::lemma_prefix_of_child(p, c, d.facets[j]);
    }
    if exists|j: int|
        0 <= j < d.facets.len() && is_prefix(p, #[trigger] d.facets[j]) && p.len()
            < d.facets[j].len() && d.facets[j][p.len() as int] == c {
        let j = choose|j: int|
            0 <= j < d.facets.len() && is_prefix(p, #[trigger] d.facets[j]) && p.len()
                < d.facets[j].len() && d.facets[j][p.len() as int] == c;
        crate::path::lemma_prefix_of_child(p, c, d.facets[j]);
        assert(is_prefix(q, d.facets[j]));
    }
}

/// Taking an id out lowers each count by what the document with that id
/// added to it.
pub proof fn law_removal_counts(docs: Seq<DocumentView>, id: i64, q: Seq<Seq<char>>)
    requires
        unique_ids(docs),
    ensures
        count_docs_under(docs_without(docs, id), q) + contribution_of_id(docs, id, q)
            == count_docs_under(docs, q),
    decreases docs.len(),
{
    if docs.len() == 0 {
        assert(entries_of(docs_without(docs, id)) =~= entries_of(docs));
    } else {
        let head = docs.drop_last();
        let last = docs.last();
        assert(entries_of(docs).drop_last() =~= entries_of(head));
        assert(entries_of(docs).last().facets == last.facets);
        assert forall|i: int, j: int| 0 <= i < j < head.len() implies (#[trigger] head[i]).id != (
        #[trigger] head[j]).id by {
            assert(docs[i].id != docs[j].id);
        }
        if last.id == id {
            assert(!has_doc(head, id)) by {
                if has_doc(head, id) {
                    let i = choose|i: int| 0 <= i < head.len() && (#[trigger] head[i]).id == id;
                    assert(docs[i].id != docs[docs.len() - 1].id);
                }
            }
            lemma_docs_without_absent(head, id);
        } else {
            law_removal_counts(head, id, q);
            let rest = docs_without(head, id);
            assert(entries_of(rest.push(last)).drop_last() =~= entries_of(rest));
            assert(entries_of(rest.push(last)).last().facets == last.facets);
        }
    }
}

/// A replacement changes each count by what the new document adds less
/// what the replaced one added.
pub proof fn law_replace_counts(docs: Seq<DocumentView>, doc: DocumentView, q: Seq<Seq<char>>)
    requires
        unique_ids(docs),
    ensures
        count_docs_under(docs_with(docs, doc), q) + contribution_of_id(docs, doc.id, q)
            == count_docs_under(docs, q) + contribution(doc, q),
{
    law_removal_counts(docs, doc.id, q);
    let rest = docs_without(docs, doc.id);
    assert(entries_of(rest.push(doc)).drop_last() =~= entries_of(rest));
    assert(entries_of(rest.push(doc)).last().facets == doc.facets);
}

/// Putting a document with the facet paths of the replaced one in the place
/// of its replacement brings every count back.
pub proof fn law_restore_counts(
    docs: Seq<DocumentView>,
    replaced: DocumentView,
    update: DocumentView,
    restored: DocumentView,
    q: Seq<Seq<char>>,
)
    requires
        unique_ids(docs),
        docs.contains(replaced),
        update.id == replaced.id,
        restored.id == replaced.id,
        restored.facets == replaced.facets,
    ensures
        count_docs_under(docs_with(docs_with(docs, update), restored), q) == count_docs_under(
            docs,
            q,
        ),
{
    let mid = docs_with(docs, update);
    lemma_docs_with_unique(docs, update);
    law_replace_counts(docs, update, q);
    law_replace_counts(mid, restored, q);
    lemma_contribution_of_member(docs, replaced, q);
    law_replace_exactly_one(docs, update);
    assert(mid.contains(update));
    lemma_contribution_of_member(mid, update, q);
}

/// With unique ids, what an id adds is what the document with that id
/// adds.
pub proof fn lemma_contribution_of_member(
    docs: Seq<DocumentView>,
    d: DocumentView,
    q: Seq<Seq<char>>,
)
    requires
        unique_ids(docs),
        docs.contains(d),
    ensures
        contribution_of_id(docs, d.id, q) == contribution(d, q),
    decreases docs.len(),
{
    let i = choose|i: int| 0 <= i < docs.len() && docs[i] == d;
    let head = docs.drop_last();
    if docs.last().id == d.id {
        if i < docs.len() - 1 {
            assert(docs[i].id != docs[docs.len() - 1].id);
        }
    } else {
        assert(head[i] == d);
        assert forall|a: int, b: int| 0 <= a < b < head.len() implies (#[trigger] head[a]).id != (
        #[trigger] head[b]).id by {
            assert(docs[a].id != docs[b].id);
        }
        lemma_contribution_of_member(head, d, q);
    }
}

/// What is stored of a snapshot is the image of a snapshot, and loads back
/// as the same documents: opening a store reconstructs what was committed.
pub proof fn law_image_loads_back(docs: Seq<DocumentView>)
    requires
        unique_ids(docs),
        forall|i: int| 0 <= i < docs.len() ==> valid_document(#[trigger] docs[i]),
    ensures
        valid_image(stored_docs(docs)),
        loaded_docs(stored_docs(docs)) == docs,
{
    let image = stored_docs(docs);
    assert forall|i: int| 0 <= i < image.len() implies valid_stored(#[trigger] image[i])
        && document_of(image[i]) == docs[i] by {
        let d = docs[i];
        assert(valid_document(d));
        assert forall|j: int| 0 <= j < d.facets.len() implies valid_path_text(
            #[trigger] image[i].facets[j],
        ) && path_of_text(image[i].facets[j]) == d.facets[j] by {
            assert(valid_path(d.facets[j]));
            crate::path::law_text_of_path_reads_back(d.facets[j]);
        }
        assert(document_of(image[i]).facets =~= d.facets);
    }
    assert forall|i: int, j: int| 0 <= i < j < image.len() implies (#[trigger] image[i]).id != (
    #[trigger] image[j]).id by {
        assert(docs[i].id != docs[j].id);
    }
    assert(loaded_docs(image) =~= docs);
}

} // verus!