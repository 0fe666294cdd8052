use facet_index::document::{Document, StoredDocument};
use facet_index::error::EngineError;
use facet_index::path::FacetPath;
use facet_index::snapshot::Snapshot;
use facet_index::store::{DocumentStore, Persistence};
use facet_index::taxonomy::{FacetCount, FacetTaxonomy};

fn paths(texts: &[&str]) -> Vec<FacetPath> {
    texts.iter().map(|t| FacetPath::parse(t).expect("a facet path")).collect()
}

fn doc(id: i64, title: &str, facets: &[&str]) -> Document {
    Document::new(id, title.to_string(), paths(facets))
}

fn record(id: i64, title: &str, facets: &[&str]) -> StoredDocument {
    StoredDocument {
        id,
        title: title.to_string(),
        facets: facets.iter().map(|t| t.to_string()).collect(),
    }
}

fn pairs(lines: &[FacetCount]) -> Vec<(String, u64)> {
    lines.iter().map(|l| (l.path.to_text(), l.count)).collect()
}

fn ids(snapshot: &Snapshot) -> Vec<i64> {
    snapshot.documents().iter().map(|d| d.id()).collect()
}

fn new_store() -> DocumentStore {
    DocumentStore::create(false, Persistence::Written).expect("a new store")
}

#[test]
fn document_keeps_what_it_was_given() {
    let d = doc(7, "seven", &["/a/b", "/c"]);
    assert_eq!(d.id(), 7);
    assert_eq!(d.title(), "seven");
    assert_eq!(d.facets().len(), 2);
    assert_eq!(d.facets()[0].to_text(), "/a/b");
    assert_eq!(d.facets()[1].to_text(), "/c");
    let copy = d.clone();
    assert_eq!(copy.to_stored(), d.to_stored());
}

#[test]
fn document_is_stored_with_its_paths_as_text() {
    let stored = doc(-3, "t", &["/a/b", "/"]).to_stored();
    assert_eq!(stored, record(-3, "t", &["/a/b", "/"]));
    let back = Document::from_stored(&stored).expect("a valid record");
    assert_eq!(back.to_stored(), stored);
}

#[test]
fn record_with_a_bad_path_stores_no_document() {
    assert!(Document::from_stored(&record(1, "t", &["/a", "b"])).is_none());
    assert!(Document::from_stored(&record(1, "t", &["/a/"])).is_none());
    assert!(Document::from_stored(&record(1, "t", &[])).is_some());
}

#[test]
fn taxonomy_counts_each_document_once_for_a_child() {
    let mut taxonomy = FacetTaxonomy::new();
    taxonomy.register(1, paths(&["/s/a", "/s/a/deep", "/s/b"]));
    taxonomy.register(2, paths(&["/s/a/other/deeper"]));
    taxonomy.register(3, paths(&["/s", "/t/a"]));
    let lines = taxonomy.aggregate("/s").expect("a valid prefix");
    assert_eq!(pairs(&lines), vec![("/s/a".to_string(), 2), ("/s/b".to_string(), 1)]);
    let root = taxonomy.aggregate("/").expect("a valid prefix");
    assert_eq!(pairs(&root), vec![("/s".to_string(), 3), ("/t".to_string(), 1)]);
    let deep = taxonomy.aggregate("/s/a").expect("a valid prefix");
    assert_eq!(pairs(&deep), vec![("/s/a/deep".to_string(), 1), ("/s/a/other".to_string(), 1)]);
}

#[test]
fn taxonomy_lists_children_in_lexical_order() {
    let mut taxonomy = FacetTaxonomy::new();
    taxonomy.register(1, paths(&["/s/id_2", "/s/id_10", "/s/id_1", "/s/b", "/s/B"]));
    let lines = taxonomy.aggregate("/s").expect("a valid prefix");
    let names: Vec<String> = lines.iter().map(|l| l.path.to_text()).collect();
    assert_eq!(names, vec!["/s/B", "/s/b", "/s/id_1", "/s/id_10", "/s/id_2"]);
}

#[test]
fn taxonomy_gives_no_lines_where_nothing_lies() {
    let mut taxonomy = FacetTaxonomy::new();
    assert_eq!(taxonomy.aggregate("/s").expect("a valid prefix").len(), 0);
    taxonomy.register(1, paths(&["/s/a"]));
    assert_eq!(taxonomy.aggregate("/t").expect("a valid prefix").len(), 0);
    assert_eq!(taxonomy.aggregate("/s/a").expect("a valid prefix").len(), 0);
    assert_eq!(taxonomy.aggregate("/s/a/b").expect("a valid prefix").len(), 0);
}

#[test]
fn taxonomy_refuses_a_prefix_that_is_no_path() {
    let mut taxonomy = FacetTaxonomy::new();
    taxonomy.register(1, paths(&["/s/a"]));
    assert_eq!(taxonomy.aggregate("s").err(), Some(EngineError::UnknownPrefix));
    assert_eq!(taxonomy.aggregate("").err(), Some(EngineError::UnknownPrefix));
    assert_eq!(taxonomy.aggregate("/s/").err(), Some(EngineError::UnknownPrefix));
}

#[test]
fn taxonomy_register_replaces_and_unregister_removes() {
    let mut taxonomy = FacetTaxonomy::new();
    taxonomy.register(1, paths(&["/s/a"]));
    taxonomy.register(2, paths(&["/s/a"]));
    assert_eq!(taxonomy.len(), 2);
    assert!(taxonomy.contains(1));
    taxonomy.register(1, paths(&["/s/b"]));
    assert_eq!(taxonomy.len(), 2);
    let lines = taxonomy.aggregate("/s").expect("a valid prefix");
    assert_eq!(pairs(&lines), vec![("/s/a".to_string(), 1), ("/s/b".to_string(), 1)]);
    taxonomy.unregister(2);
    assert!(!taxonomy.contains(2));
    taxonomy.unregister(2);
    assert_eq!(taxonomy.len(), 1);
    let lines = taxonomy.aggregate("/s").expect("a valid prefix");
    assert_eq!(pairs(&lines), vec![("/s/b".to_string(), 1)]);
    let copy = taxonomy.clone();
    assert_eq!(pairs(&copy.count_children(&FacetPath::root())), vec![("/s".to_string(), 1)]);
}

#[test]
fn snapshot_insert_supersedes_and_remove_is_idempotent() {
    let snapshot = Snapshot::empty()
        .with_document(doc(1, "one", &["/s/a"]))
        .with_document(doc(2, "two", &["/s/a"]))
        .with_document(doc(3, "three", &["/s/b"]));
    assert_eq!(ids(&snapshot), vec![1, 2, 3]);
    let snapshot = snapshot.with_document(doc(2, "second", &["/s/c"]));
    assert_eq!(ids(&snapshot), vec![1, 3, 2]);
    assert_eq!(snapshot.get(2).expect("live").title(), "second");
    assert_eq!(snapshot.len(), 3);
    assert_eq!(snapshot.taxonomy().len(), 3);
    let lines = snapshot.aggregate("/s").expect("a valid prefix");
    assert_eq!(
        pairs(&lines),
        vec![("/s/a".to_string(), 1), ("/s/b".to_string(), 1), ("/s/c".to_string(), 1)]
    );
    let snapshot = snapshot.without_document(1);
    assert_eq!(ids(&snapshot), vec![3, 2]);
    assert!(!snapshot.contains(1));
    assert!(snapshot.get(1).is_none());
    let snapshot = snapshot.without_document(1);
    assert_eq!(ids(&snapshot), vec![3, 2]);
}

#[test]
fn snapshot_records_load_back() {
    let snapshot = Snapshot::empty()
        .with_document(doc(5, "five", &["/s/a", "/t"]))
        .with_document(doc(-1, "minus", &[]));
    let records = snapshot.records();
    assert_eq!(records, vec![record(5, "five", &["/s/a", "/t"]), record(-1, "minus", &[])]);
    let back = Snapshot::from_records(&records).expect("a valid image");
    assert_eq!(back.records(), records);
    assert_eq!(pairs(&back.aggregate("/s").expect("a valid prefix")), vec![("/s/a".to_string(), 1)]);
}

#[test]
fn snapshot_is_not_loaded_from_a_bad_image() {
    let twice = vec![record(1, "a", &["/s"]), record(2, "b", &[]), record(1, "c", &[])];
    assert!(Snapshot::from_records(&twice).is_none());
    let bad_path = vec![record(1, "a", &["/s"]), record(2, "b", &["s"])];
    assert!(Snapshot::from_records(&bad_path).is_none());
    assert!(Snapshot::from_records(&Vec::new()).is_some());
}

#[test]
fn create_fails_on_an_occupied_location() {
    assert_eq!(
        DocumentStore::create(true, Persistence::Written).err(),
        Some(EngineError::AlreadyExists)
    );
    assert_eq!(
        DocumentStore::create(true, Persistence::Failed).err(),
        Some(EngineError::AlreadyExists)
    );
    assert_eq!(
        DocumentStore::create(false, Persistence::Failed).err(),
        Some(EngineError::IOFailure)
    );
    let store = new_store();
    assert_eq!(store.committed().len(), 0);
    assert!(store.is_idle());
}

#[test]
fn open_tells_a_missing_store_from_a_corrupt_one() {
    assert_eq!(DocumentStore::open(None).err(), Some(EngineError::NotFound));
    let corrupt = vec![record(1, "a", &["no-slash"])];
    assert_eq!(DocumentStore::open(Some(&corrupt)).err(), Some(EngineError::Corrupt));
    let twice = vec![record(1, "a", &[]), record(1, "b", &[])];
    assert_eq!(DocumentStore::open(Some(&twice)).err(), Some(EngineError::Corrupt));
    let empty: Vec<StoredDocument> = Vec::new();
    let store = DocumentStore::open(Some(&empty)).expect("an empty store");
    assert_eq!(store.committed().len(), 0);
    let good = vec![record(4, "four", &["/s/a"]), record(2, "two", &[])];
    let store = DocumentStore::open(Some(&good)).expect("a store");
    assert_eq!(ids(store.committed()), vec![4, 2]);
    assert_eq!(store.committed().records(), good);
    assert!(store.is_idle());
}

#[test]
fn staged_documents_are_visible_only_after_commit() {
    let mut store = new_store();
    assert_eq!(store.add(doc(1, "one", &["/s/a"])), Ok(()));
    assert_eq!(store.add(doc(2, "two", &["/s/b"])), Ok(()));
    assert!(!store.is_idle());
    assert_eq!(store.committed().len(), 0);
    assert_eq!(ids(&store.pending()), vec![1, 2]);
    assert_eq!(store.commit(Persistence::Written), Ok(()));
    assert_eq!(ids(store.committed()), vec![1, 2]);
    assert!(store.is_idle());
    store.delete(1);
    assert_eq!(ids(store.committed()), vec![1, 2]);
    assert_eq!(ids(&store.pending()), vec![2]);
    assert_eq!(store.commit(Persistence::Written), Ok(()));
    assert_eq!(ids(store.committed()), vec![2]);
}

#[test]
fn add_refuses_an_id_that_is_already_staged() {
    let mut store = new_store();
    assert_eq!(store.add(doc(1, "one", &[])), Ok(()));
    assert_eq!(store.add(doc(1, "again", &[])), Err(EngineError::DuplicateStaged));
    assert_eq!(store.add(doc(2, "two", &[])), Ok(()));
    assert_eq!(store.commit(Persistence::Written), Ok(()));
    assert_eq!(store.committed().get(1).expect("live").title(), "one");
    assert_eq!(store.add(doc(1, "new", &[])), Ok(()));
    assert_eq!(store.commit(Persistence::Written), Ok(()));
    assert_eq!(ids(store.committed()), vec![2, 1]);
    assert_eq!(store.committed().get(1).expect("live").title(), "new");
}

#[test]
fn delete_of_an_absent_id_changes_nothing() {
    let mut store = new_store();
    assert_eq!(store.add(doc(1, "one", &["/s/a"])), Ok(()));
    assert_eq!(store.commit(Persistence::Written), Ok(()));
    let before = store.committed().records();
    store.delete(99);
    assert!(store.is_idle());
    assert_eq!(store.commit(Persistence::Written), Ok(()));
    assert_eq!(store.committed().records(), before);
    store.delete(99);
    assert_eq!(store.commit(Persistence::Failed), Ok(()));
    assert_eq!(store.committed().records(), before);
}

#[test]
fn failed_commit_leaves_the_store_as_it_was() {
    let mut store = new_store();
    assert_eq!(store.add(doc(1, "one", &["/s/a"])), Ok(()));
    assert_eq!(store.commit(Persistence::Written), Ok(()));
    let before = store.committed().records();
    store.delete(1);
    assert_eq!(store.add(doc(2, "two", &[])), Ok(()));
    assert_eq!(store.commit(Persistence::Failed), Err(EngineError::IOFailure));
    assert_eq!(store.committed().records(), before);
    assert!(!store.is_idle());
    assert_eq!(ids(&store.pending()), vec![2]);
    assert_eq!(store.commit(Persistence::Written), Ok(()));
    assert_eq!(ids(store.committed()), vec![2]);
}

#[test]
fn discard_drops_the_batch() {
    let mut store = new_store();
    assert_eq!(store.add(doc(1, "one", &[])), Ok(()));
    assert_eq!(store.commit(Persistence::Written), Ok(()));
    store.delete(1);
    assert_eq!(store.add(doc(2, "two", &[])), Ok(()));
    store.discard();
    assert!(store.is_idle());
    assert_eq!(ids(store.committed()), vec![1]);
    assert_eq!(ids(&store.pending()), vec![1]);
}

#[test]
fn snapshot_copy_stays_as_it_was_taken() {
    let mut store = new_store();
    assert_eq!(store.add(doc(1, "one", &["/s/a"])), Ok(()));
    assert_eq!(store.commit(Persistence::Written), Ok(()));
    let held = store.snapshot();
    store.delete(1);
    assert_eq!(store.add(doc(2, "two", &["/s/b"])), Ok(()));
    assert_eq!(store.commit(Persistence::Written), Ok(()));
    assert_eq!(ids(&held), vec![1]);
    assert_eq!(pairs(&held.aggregate("/s").expect("a valid prefix")), vec![("/s/a".to_string(), 1)]);
    assert_eq!(ids(store.committed()), vec![2]);
}
