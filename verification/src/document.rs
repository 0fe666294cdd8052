use crate::path::{path_of_text, render, texts, valid_path, valid_path_text, FacetPath};
use vstd::prelude::*;

verus! {

/// What a document is: its id, its title and the facet paths it carries.
pub struct DocumentView {
    pub id: i64,
    pub title: Seq<char>,
    pub facets: Seq<Seq<Seq<char>>>,
}

/// What a stored record is: like a document, with each facet path as text.
pub struct StoredView {
    pub id: i64,
    pub title: Seq<char>,
    pub facets: Seq<Seq<char>>,
}

/// The views of a sequence of paths.
pub open spec fn paths(v: Seq<FacetPath>) -> Seq<Seq<Seq<char>>> {
    Seq::new(v.len(), |i: int| v[i]@)
}

/// Every facet path of the document is a valid path.
pub open spec fn valid_document(d: DocumentView) -> bool {
    forall|j: int| 0 <= j < d.facets.len() ==> valid_path(#[trigger] d.facets[j])
}

/// Every facet text of the record is a facet path.
pub open spec fn valid_stored(s: StoredView) -> bool {
    forall|j: int| 0 <= j < s.facets.len() ==> valid_path_text(#[trigger] s.facets[j])
}

/// The record that stores a document.
pub open spec fn stored_of(d: DocumentView) -> StoredView {
    StoredView {
        id: d.id,
        title: d.title,
        facets: Seq::new(d.facets.len(), |j: int| render(d.facets[j])),
    }
}

/// The document that a record stores.
pub open spec fn document_of(s: StoredView) -> DocumentView {
    DocumentView {
        id: s.id,
        title: s.title,
        facets: Seq::new(s.facets.len(), |j: int| path_of_text(s.facets[j])),
    }
}

/// Copies a list of paths.
pub fn clone_paths(v: &Vec<FacetPath>) -> (r: Vec<FacetPath>)
    ensures
        paths(r@) == paths(v@),
{
    let mut r: Vec<FacetPath> = Vec::new();
    let mut i: usize = 0;
    while i < v.len()
        invariant
            i <= v.len(),
            r.len() == i,
            forall|k: int| 0 <= k < i ==> r[k]@ == v[k]@,
        decreases v.len() - i,
    {
        r.push(v[i].clone());
        i = i + 1;
    }
    assert(paths(r@) =~= paths(v@));
    r
}

/// A document as it is persisted: plain values only.
#[derive(Debug, PartialEq, Eq)]
pub struct StoredDocument {
    pub id: i64,
    pub title: String,
    pub facets: Vec<String>,
}

impl View for StoredDocument {
    type V = StoredView;

    open spec fn view(&self) -> StoredView {
        StoredView { id: self.id, title: self.title@, facets: texts(self.facets@) }
    }
}

impl Clone for StoredDocument {
    fn clone(&self) -> (r: Self)
        ensures
            r@ == self@,
    {
        let mut facets: Vec<String> = Vec::new();
        let mut j: usize = 0;
        while j < self.facets.len()
            invariant
                j <= self.facets.len(),
                facets.len() == j,
                forall|k: int| 0 <= k < j ==> facets[k]@ == self.facets[k]@,
            decreases self.facets.len() - j,
        {
            facets.push(self.facets[j].clone());
            j = j + 1;
        }
        let r = StoredDocument { id: self.id, title: self.title.clone(), facets };
        assert(r@.facets =~= self@.facets);
        r
    }
}

/// A document of the index. It is never changed in place: a new document
/// with the same id takes its place.
#[derive(Debug)]
pub struct Document {
    id: i64,
    title: String,
    facets: Vec<FacetPath>,
}

impl View for Document {
    type V = DocumentView;

    closed spec fn view(&self) -> DocumentView {
        DocumentView { id: self.id, title: self.title@, facets: paths(self.facets@) }
    }
}

impl Clone for Document {
    fn clone(&self) -> (r: Self)
        ensures
            r@ == self@,
    {
        Document { id: self.id, title: self.title.clone(), facets: clone_paths(&self.facets) }
    }
}

impl Document {
    /// A document with the given id, title and facet paths.
    pub fn new(id: i64, title: String, facets: Vec<FacetPath>) -> (r: Document)
        ensures
            r@ == (DocumentView { id: id, title: title@, facets: paths(facets@) }),
    {
        Document { id, title, facets }
    }

    /// The caller-assigned id.
    pub fn id(&self) -> (r: i64)
        ensures
            r == self@.id,
    {
        self.id
    }

    /// The title.
    pub fn title(&self) -> (r: &str)
        ensures
            r@ == self@.title,
    {
        self.title.as_str()
    }

    /// The facet paths, in the order in which they were given.
    pub fn facets(&self) -> (r: &Vec<FacetPath>)
        ensures
            paths(r@) == self@.facets,
    {
        &self.facets
    }

    /// The record that stores this document.
    pub fn to_stored(&self) -> (r: StoredDocument)
        ensures
            r@ == stored_of(self@),
            valid_stored(r@),
            document_of(r@) == self@,
    {
        let mut facets: Vec<String> = Vec::new();
        let mut j: usize = 0;
        while j < self.facets.len()
            invariant
                j <= self.facets.len(),
                facets.len() == j,
                forall|k: int| 0 <= k < j ==> facets[k]@ == render(self.facets[k]@),
                forall|k: int| 0 <= k < j ==> valid_path_text(#[trigger] facets[k]@),
                forall|k: int| 0 <= k < j ==> path_of_text(#[trigger] facets[k]@) == self.facets[k]@,
            decreases self.facets.len() - j,
        {
            facets.push(self.facets[j].to_text());
            j = j + 1;
        }
        let r = StoredDocument { id: self.id, title: self.title.clone(), facets };
        proof {
            assert(r@.facets =~= stored_of(self@).facets);
            assert forall|k: int| 0 <= k < r@.facets.len() implies valid_path_text(
                #[trigger] r@.facets[k],
            ) by {
                assert(valid_path_text(facets[k]@));
            }
            assert(document_of(r@).facets =~= self@.facets) by {
                assert forall|k: int| 0 <= k < r@.facets.len() implies path_of_text(
                    r@.facets[k],
                ) == self@.facets[k] by {
                    assert(path_of_text(facets[k]@) == self.facets[k]@);
                }
            }
        }
        r
    }

    /// The document that a record stores. There is none exactly if one of
    /// the record's facet texts is no facet path.
    pub fn from_stored(record: &StoredDocument) -> (r: Option<Document>)
        ensures
            match r {
                Some(d) => valid_stored(record@) && d@ == document_of(record@),
                None => !valid_stored(record@),
            },
    {
        let mut facets: Vec<FacetPath> = Vec::new();
        let mut j: usize = 0;
        while j < record.facets.len()
            invariant
                j <= record.facets.len(),
                facets.len() == j,
                forall|k: int| 0 <= k < j ==> valid_path_text(#[trigger] record.facets[k]@),
                forall|k: int| 0 <= k < j ==> facets[k]@ == path_of_text(record.facets[k]@),
            decreases record.facets.len() - j,
        {
            match FacetPath::parse(record.facets[j].as_str()) {
                Some(p) => {
                    facets.push(p);
                },
                None => {
                    assert(!valid_path_text(record@.facets[j as int]));
                    return None;
                },
            }
            j = j + 1;
        }
        let d = Document { id: record.id, title: record.title.clone(), facets };
        proof {
            assert(d@.facets =~= document_of(record@).facets);
            assert forall|k: int| 0 <= k < record@.facets.len() implies valid_path_text(
                #[trigger] record@.facets[k],
            ) by {
                assert(valid_path_text(record.facets[k]@));
            }
        }
        Some(d)
    }
}

} // verus!
