use crate::document::{paths, Document, DocumentView, StoredDocument};
use crate::engine::{is_report, IndexEngine};
use crate::error::EngineError;
use crate::path::{
    joined, key_of, law_text_of_path_reads_back, path_of_text, render, texts, valid_path,
    valid_path_text, valid_segment, FacetPath,
};
use crate::snapshot::{
    docs_with, documents_of, loaded_docs, records_of, unique_ids, valid_image, Snapshot,
};
use crate::store::Persistence;
use crate::taxonomy::{lines_of, FacetCount, FacetCountView};
use crate::text::{decimal, decimal_text, lemma_decimal_plain};
use vstd::prelude::*;

verus! {

/// The number of documents with which a new index is seeded.
pub const SEED_COUNT: i64 = 10000;

/// The three facet paths of the seed document `id`: one of its own, one for
/// its parity and one for its residue modulo 99, all below `/subjects`.
pub open spec fn seed_facets(id: i64) -> Seq<Seq<Seq<char>>> {
    seq![
        seq!["subjects"@, "id_"@ + decimal(id as nat)],
        seq!["subjects"@, "id_mod_2_"@ + decimal((id % 2) as nat)],
        seq!["subjects"@, "id_mod_99_"@ + decimal((id % 99) as nat)],
    ]
}

/// The seed document `id`.
pub open spec fn seed_doc(id: i64) -> DocumentView {
    DocumentView { id: id, title: "test"@, facets: seed_facets(id) }
}

/// The seed documents with the ids from 1 to `count`.
pub open spec fn seed_docs(count: nat) -> Seq<DocumentView> {
    Seq::new(count, |i: int| seed_doc((i + 1) as i64))
}

/// The paths that the texts name.
pub open spec fn paths_of_texts(t: Seq<Seq<char>>) -> Seq<Seq<Seq<char>>> {
    Seq::new(t.len(), |i: int| path_of_text(t[i]))
}

/// Every text is a facet path.
pub open spec fn valid_path_texts(t: Seq<Seq<char>>) -> bool {
    forall|i: int| 0 <= i < t.len() ==> valid_path_text(#[trigger] t[i])
}

/// The document that `update_facets_for_doc_1` puts in place.
pub open spec fn updated_doc_1(facets: Seq<Seq<char>>) -> DocumentView {
    DocumentView {
        id: 1,
        title: "who fished alone in a skiff"@,
        facets: paths_of_texts(facets),
    }
}

/// What a line of the subjects report says: the key of a facet and the
/// number of documents under it.
pub struct SubjectCountView {
    pub key: Seq<char>,
    pub doc_count: u64,
}

/// One line of the subjects report.
#[derive(Debug, PartialEq, Eq)]
pub struct SubjectCount {
    pub key: String,
    pub doc_count: u64,
}

impl View for SubjectCount {
    type V = SubjectCountView;

    open spec fn view(&self) -> SubjectCountView {
        SubjectCountView { key: self.key@, doc_count: self.doc_count }
    }
}

/// The views of a list of subject lines.
pub open spec fn subjects_of(v: Seq<SubjectCount>) -> Seq<SubjectCountView> {
    Seq::new(v.len(), |i: int| v[i]@)
}

/// The lines of a report under their keys.
pub open spec fn keyed(lines: Seq<FacetCountView>) -> Seq<SubjectCountView> {
    Seq::new(
        lines.len(),
        |i: int| SubjectCountView { key: key_of(lines[i].path), doc_count: lines[i].count },
    )
}

/// The path `/subjects`.
pub fn subjects_path() -> (r: FacetPath)
    ensures
        r@ == seq!["subjects"@],
{
    proof {
        reveal_strlit("subjects");
    }
    let r: FacetPath = FacetPath::root().extend("subjects");
    assert(r@ =~= seq!["subjects"@]);
    r
}

/// The child of `/subjects` whose name is `stem` followed by `n` in
/// decimal.
fn seed_path(stem: &str, n: u64) -> (r: FacetPath)
    requires
        forall|i: int| 0 <= i < stem@.len() ==> stem@[i] != '/',
    ensures
        r@ == seq!["subjects"@, stem@ + decimal(n as nat)],
{
    let mut name: String = stem.to_owned();
    name.append(decimal_text(n).as_str());
    proof {
        lemma_decimal_plain(n as nat);
        assert forall|i: int| 0 <= i < name@.len() implies name@[i] != '/' by {
            if i >= stem@.len() {
                assert(name@[i] == decimal(n as nat)[i - stem@.len()]);
            }
        }
    }
    let r: FacetPath = subjects_path().extend(name.as_str());
    assert(r@ =~= seq!["subjects"@, stem@ + decimal(n as nat)]);
    r
}

/// The seed document with the id.
pub fn seed_document(id: i64) -> (r: Document)
    requires
        1 <= id,
    ensures
        r@ == seed_doc(id),
{
    let n: u64 = id as u64;
    proof {
        reveal_strlit("id_");
        reveal_strlit("id_mod_2_");
        reveal_strlit("id_mod_99_");
    }
    let mut facets: Vec<FacetPath> = Vec::new();
    facets.push(seed_path("id_", n));
    facets.push(seed_path("id_mod_2_", n % 2));
    facets.push(seed_path("id_mod_99_", n % 99));
    assert(paths(facets@) =~= seed_facets(id));
    Document::new(id, "test".to_owned(), facets)
}

/// The seed documents with the ids from 1 to `count`.
pub fn seed_documents(count: i64) -> (r: Vec<Document>)
    requires
        0 <= count,
    ensures
        documents_of(r@) == seed_docs(count as nat),
        unique_ids(documents_of(r@)),
{
    let mut docs: Vec<Document> = Vec::new();
    let mut made: i64 = 0;
    while made < count
        invariant
            0 <= made <= count,
            docs.len() == made,
            forall|i: int| 0 <= i < made ==> (#[trigger] docs[i])@ == seed_doc((i + 1) as i64),
        decreases count - made,
    {
        made = made + 1;
        docs.push(seed_document(made));
    }
    proof {
        let all = documents_of(docs@);
        assert(all =~= seed_docs(count as nat));
        assert forall|i: int, j: int| 0 <= i < j < all.len() implies (#[trigger] all[i]).id != (
        #[trigger] all[j]).id by {
            assert(all[i] == docs[i]@);
            assert(all[j] == docs[j]@);
        }
    }
    docs
}

/// Creates the index at a location and seeds it. `occupied` says whether
/// the location already holds an index, and `outcome` how the write of the
/// seeded index went.
pub fn create_index(occupied: bool, outcome: Persistence) -> (r: Result<IndexEngine, EngineError>)
    ensures
        match r {
            Ok(index) => !occupied && outcome == Persistence::Written && index@ == seed_docs(
                10000,
            ),
            Err(e) => if occupied {
                e == EngineError::AlreadyExists
            } else {
                e == EngineError::IOFailure && outcome == Persistence::Failed
            },
        },
{
    IndexEngine::create(occupied, seed_documents(SEED_COUNT), outcome)
}

/// Opens the index that was persisted at a location. `persisted` holds the
/// records found there, or nothing if no index was created there.
pub fn open_index(persisted: Option<&Vec<StoredDocument>>) -> (r: Result<IndexEngine, EngineError>)
    ensures
        match r {
            Ok(index) => persisted matches Some(records) && valid_image(records_of(records@))
                && index@ == loaded_docs(records_of(records@)),
            Err(e) => match persisted {
                None => e == EngineError::NotFound,
                Some(records) => e == EngineError::Corrupt && !valid_image(records_of(records@)),
            },
        },
{
    IndexEngine::open(persisted)
}

/// The report of the children of `/subjects`, each under its key, the
/// largest count first.
pub fn subjects(index: &IndexEngine) -> (r: Result<Vec<SubjectCount>, EngineError>)
    ensures
        r matches Ok(v) && exists|lines: Seq<FacetCountView>|
            is_report(lines, index@, seq!["subjects"@]) && subjects_of(v@) == keyed(lines),
{
    let lines: Vec<FacetCount> = index.report_children(&subjects_path());
    let mut out: Vec<SubjectCount> = Vec::new();
    let mut i: usize = 0;
    while i < lines.len()
        invariant
            i <= lines.len(),
            out.len() == i,
            forall|k: int|
                0 <= k < i ==> (#[trigger] out[k])@ == (SubjectCountView {
                    key: key_of(lines[k]@.path),
                    doc_count: lines[k]@.count,
                }),
        decreases lines.len() - i,
    {
        out.push(SubjectCount { key: lines[i].path.key(), doc_count: lines[i].count });
        i = i + 1;
    }
    proof {
        assert(subjects_of(out@) =~= keyed(lines_of(lines@)));
    }
    Ok(out)
}

/// Reads each text as a facet path. There is no result exactly if one of
/// the texts is no facet path.
pub fn parse_paths(facets: &Vec<String>) -> (r: Option<Vec<FacetPath>>)
    ensures
        match r {
            Some(v) => valid_path_texts(texts(facets@)) && paths(v@) == paths_of_texts(
                texts(facets@),
            ),
            None => !valid_path_texts(texts(facets@)),
        },
{
    let mut out: Vec<FacetPath> = Vec::new();
    let mut i: usize = 0;
    while i < facets.len()
        invariant
            i <= facets.len(),
            out.len() == i,
            forall|k: int| 0 <= k < i ==> valid_path_text(#[trigger] texts(facets@)[k]),
            forall|k: int| 0 <= k < i ==> (#[trigger] out[k])@ == path_of_text(facets[k]@),
        decreases facets.len() - i,
    {
        match FacetPath::parse(facets[i].as_str()) {
            Some(p) => {
                out.push(p);
            },
            None => {
                assert(!valid_path_text(texts(facets@)[i as int]));
                return None;
            },
        }
        i = i + 1;
    }
    assert(paths(out@) =~= paths_of_texts(texts(facets@)));
    Some(out)
}

/// The snapshot that `update_facets_for_doc_1` would install: what the
/// caller has to write before it reports the outcome.
pub fn preview_update_facets_for_doc_1(index: &IndexEngine, facets: &Vec<String>) -> (r: Snapshot)
    requires
        valid_path_texts(texts(facets@)),
    ensures
        r@ == docs_with(index@, updated_doc_1(texts(facets@))),
        unique_ids(r@),
{
    let parsed: Vec<FacetPath> = parse_paths(facets).unwrap();
    index.preview_replace(1, "who fished alone in a skiff", &parsed)
}

/// Replaces the document with id 1 by one with the given facet paths and
/// the fixed title. `outcome` says how the write of the new snapshot went;
/// if it failed, nothing changes.
pub fn update_facets_for_doc_1(
    index: &mut IndexEngine,
    facets: Vec<String>,
    outcome: Persistence,
) -> (r: Result<(), EngineError>)
    requires
        valid_path_texts(texts(facets@)),
    ensures
        match r {
            Ok(()) => outcome == Persistence::Written && final(index)@ == docs_with(
                old(index)@,
                updated_doc_1(texts(facets@)),
            ),
            Err(e) => e == EngineError::IOFailure && outcome == Persistence::Failed
                && final(index)@ == old(index)@,
        },
{
    let parsed: Vec<FacetPath> = parse_paths(&facets).unwrap();
    index.replace_document(1, "who fished alone in a skiff".to_owned(), parsed, outcome)
}

/// The facet texts that detach document 1 from its seed facets.
pub open spec fn detached_texts() -> Seq<Seq<char>> {
    seq![
        "/subjects/id_0"@,
        "/subjects/id_mod_2_0"@,
        "/subjects/id_mod_99_0"@,
        "/subjects/something_else"@,
    ]
}

/// The facet texts with which document 1 was seeded.
pub open spec fn seed_texts_of_doc_1() -> Seq<Seq<char>> {
    seq!["/subjects/id_1"@, "/subjects/id_mod_2_1"@, "/subjects/id_mod_99_1"@]
}

/// The facet paths that detach document 1 from its seed facets.
pub open spec fn detached_facets() -> Seq<Seq<Seq<char>>> {
    seq![
        seq!["subjects"@, "id_0"@],
        seq!["subjects"@, "id_mod_2_0"@],
        seq!["subjects"@, "id_mod_99_0"@],
        seq!["subjects"@, "something_else"@],
    ]
}

/// The facet paths with which document 1 was seeded.
pub open spec fn seed_facets_of_doc_1() -> Seq<Seq<Seq<char>>> {
    seq![
        seq!["subjects"@, "id_1"@],
        seq!["subjects"@, "id_mod_2_1"@],
        seq!["subjects"@, "id_mod_99_1"@],
    ]
}

/// The text of a child of `/subjects` is a facet path and names that child.
proof fn lemma_subject_text(t: Seq<char>, name: Seq<char>)
    requires
        valid_segment(name),
        t == seq!['/'] + "subjects"@ + seq!['/'] + name,
    ensures
        valid_path_text(t),
        path_of_text(t) == seq!["subjects"@, name],
{
    reveal_strlit("subjects");
    let p = seq!["subjects"@, name];
    assert(valid_segment("subjects"@));
    assert(valid_path(p));
    law_text_of_path_reads_back(p);
    assert(p.drop_last() =~= seq!["subjects"@]);
    assert(joined(p.drop_last(), '/') == "subjects"@);
    assert(render(p) =~= t);
}

/// The detaching texts are facet paths, and name the detaching paths.
pub proof fn lemma_detached_texts()
    ensures
        valid_path_texts(detached_texts()),
        paths_of_texts(detached_texts()) == detached_facets(),
{
    reveal_strlit("subjects");
    reveal_strlit("/subjects/id_0");
    reveal_strlit("id_0");
    reveal_strlit("/subjects/id_mod_2_0");
    reveal_strlit("id_mod_2_0");
    reveal_strlit("/subjects/id_mod_99_0");
    reveal_strlit("id_mod_99_0");
    reveal_strlit("/subjects/something_else");
    reveal_strlit("something_else");
    let t = detached_texts();
    assert(t[0] =~= seq!['/'] + "subjects"@ + seq!['/'] + "id_0"@);
    assert(t[1] =~= seq!['/'] + "subjects"@ + seq!['/'] + "id_mod_2_0"@);
    assert(t[2] =~= seq!['/'] + "subjects"@ + seq!['/'] + "id_mod_99_0"@);
    assert(t[3] =~= seq!['/'] + "subjects"@ + seq!['/'] + "something_else"@);
    lemma_subject_text(t[0], "id_0"@);
    lemma_subject_text(t[1], "id_mod_2_0"@);
    lemma_subject_text(t[2], "id_mod_99_0"@);
    lemma_subject_text(t[3], "something_else"@);
    assert(paths_of_texts(t) =~= detached_facets());
}

/// The seed texts of document 1 are facet paths, and name the facet paths
/// of the seed document 1.
pub proof fn lemma_seed_texts_of_doc_1()
    ensures
        valid_path_texts(seed_texts_of_doc_1()),
        paths_of_texts(seed_texts_of_doc_1()) == seed_facets_of_doc_1(),
        seed_facets_of_doc_1() == seed_facets(1),
{
    reveal_strlit("subjects");
    reveal_strlit("/subjects/id_1");
    reveal_strlit("id_1");
    reveal_strlit("/subjects/id_mod_2_1");
    reveal_strlit("id_mod_2_1");
    reveal_strlit("/subjects/id_mod_99_1");
    reveal_strlit("id_mod_99_1");
    reveal_strlit("id_");
    reveal_strlit("id_mod_2_");
    reveal_strlit("id_mod_99_");
    let t = seed_texts_of_doc_1();
    assert(t[0] =~= seq!['/'] + "subjects"@ + seq!['/'] + "id_1"@);
    assert(t[1] =~= seq!['/'] + "subjects"@ + seq!['/'] + "id_mod_2_1"@);
    assert(t[2] =~= seq!['/'] + "subjects"@ + seq!['/'] + "id_mod_99_1"@);
    lemma_subject_text(t[0], "id_1"@);
    lemma_subject_text(t[1], "id_mod_2_1"@);
    lemma_subject_text(t[2], "id_mod_99_1"@);
    assert(paths_of_texts(t) =~= seed_facets_of_doc_1());
    assert(decimal(1) =~= seq!['1']);
    assert("id_"@ + decimal(1) =~= "id_1"@);
    assert("id_mod_2_"@ + decimal(1) =~= "id_mod_2_1"@);
    assert("id_mod_99_"@ + decimal(1) =~= "id_mod_99_1"@);
    assert(seed_facets_of_doc_1() =~= seed_facets(1));
}

/// The facet texts that detach document 1 from its seed facets.
pub fn detached_facet_set() -> (r: Vec<String>)
    ensures
        texts(r@) == detached_texts(),
        valid_path_texts(texts(r@)),
        paths_of_texts(texts(r@)) == detached_facets(),
{
    let mut r: Vec<String> = Vec::new();
    r.push("/subjects/id_0".to_owned());
    r.push("/subjects/id_mod_2_0".to_owned());
    r.push("/subjects/id_mod_99_0".to_owned());
    r.push("/subjects/something_else".to_owned());
    proof {
        assert(texts(r@) =~= detached_texts());
        lemma_detached_texts();
    }
    r
}

/// The facet texts with which document 1 was seeded.
pub fn seed_facet_set_of_doc_1() -> (r: Vec<String>)
    ensures
        texts(r@) == seed_texts_of_doc_1(),
        valid_path_texts(texts(r@)),
        paths_of_texts(texts(r@)) == seed_facets_of_doc_1(),
{
    let mut r: Vec<String> = Vec::new();
    r.push("/subjects/id_1".to_owned());
    r.push("/subjects/id_mod_2_1".to_owned());
    r.push("/subjects/id_mod_99_1".to_owned());
    proof {
        assert(texts(r@) =~= seed_texts_of_doc_1());
        lemma_seed_texts_of_doc_1();
    }
    r
}

/// Detaches document 1 from its seed facets. `outcome` says how the write
/// of the new snapshot went; if it failed, nothing changes.
pub fn doc_1_update(index: &mut IndexEngine, outcome: Persistence) -> (r: Result<(), EngineError>)
    ensures
        match r {
            Ok(()) => outcome == Persistence::Written && final(index)@ == docs_with(
                old(index)@,
                updated_doc_1(detached_texts()),
            ),
            Err(e) => e == EngineError::IOFailure && outcome == Persistence::Failed
                && final(index)@ == old(index)@,
        },
{
    update_facets_for_doc_1(index, detached_facet_set(), outcome)
}

/// Gives document 1 its seed facets again. `outcome` says how the write of
/// the new snapshot went; if it failed, nothing changes.
pub fn doc_1_restore(index: &mut IndexEngine, outcome: Persistence) -> (r: Result<(), EngineError>)
    ensures
        match r {
            Ok(()) => outcome == Persistence::Written && final(index)@ == docs_with(
                old(index)@,
                updated_doc_1(seed_texts_of_doc_1()),
            ),
            Err(e) => e == EngineError::IOFailure && outcome == Persistence::Failed
                && final(index)@ == old(index)@,
        },
{
    update_facets_for_doc_1(index, seed_facet_set_of_doc_1(), outcome)
}

} // verus!