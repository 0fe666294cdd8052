use facet_index::document::{Document, StoredDocument};
use facet_index::engine::IndexEngine;
use facet_index::error::EngineError;
use facet_index::path::FacetPath;
use facet_index::report::{line_precedes, sort_descending};
use facet_index::search::{
    create_index, detached_facet_set, doc_1_restore, doc_1_update, open_index, parse_paths,
    preview_update_facets_for_doc_1, seed_document, seed_documents, seed_facet_set_of_doc_1,
    subjects, subjects_path, update_facets_for_doc_1, SubjectCount,
};
use facet_index::store::Persistence;
use facet_index::taxonomy::FacetCount;

fn paths(texts: &[&str]) -> Vec<FacetPath> {
    texts.iter().map(|t| FacetPath::parse(t).expect("a facet path")).collect()
}

fn doc(id: i64, title: &str, facets: &[&str]) -> Document {
    Document::new(id, title.to_string(), paths(facets))
}

fn line(path: &str, count: u64) -> FacetCount {
    FacetCount { path: FacetPath::parse(path).expect("a facet path"), count }
}

fn pairs(lines: &[FacetCount]) -> Vec<(String, u64)> {
    lines.iter().map(|l| (l.path.to_text(), l.count)).collect()
}

fn small() -> IndexEngine {
    let docs = vec![
        doc(1, "one", &["/s/a", "/s/b"]),
        doc(2, "two", &["/s/a"]),
        doc(3, "three", &["/s/c", "/t/x"]),
        doc(4, "four", &["/s/d"]),
    ];
    IndexEngine::create(false, docs, Persistence::Written).expect("a new index")
}

#[test]
fn engine_create_reports_each_failure() {
    assert_eq!(
        IndexEngine::create(true, Vec::new(), Persistence::Written).err(),
        Some(EngineError::AlreadyExists)
    );
    assert_eq!(
        IndexEngine::create(false, Vec::new(), Persistence::Failed).err(),
        Some(EngineError::IOFailure)
    );
    let twice = vec![doc(1, "a", &[]), doc(2, "b", &[]), doc(1, "c", &[])];
    assert_eq!(
        IndexEngine::create(false, twice, Persistence::Written).err(),
        Some(EngineError::DuplicateStaged)
    );
    let empty = IndexEngine::create(false, Vec::new(), Persistence::Written).expect("an index");
    assert_eq!(empty.current().len(), 0);
}

#[test]
fn engine_report_is_sorted_by_count_then_by_name_backwards() {
    let index = small();
    let lines = index.facet_report("/s").expect("a valid prefix");
    assert_eq!(
        pairs(&lines),
        vec![
            ("/s/a".to_string(), 2),
            ("/s/d".to_string(), 1),
            ("/s/c".to_string(), 1),
            ("/s/b".to_string(), 1),
        ]
    );
    let root = index.facet_report("/").expect("a valid prefix");
    assert_eq!(pairs(&root), vec![("/s".to_string(), 4), ("/t".to_string(), 1)]);
    assert_eq!(pairs(&index.report_children(&FacetPath::root())), pairs(&root));
    assert_eq!(index.facet_report("/nothing").expect("a valid prefix").len(), 0);
}

#[test]
fn engine_report_refuses_a_prefix_that_is_no_path() {
    let index = small();
    assert_eq!(index.facet_report("s").err(), Some(EngineError::UnknownPrefix));
    assert_eq!(index.facet_report("").err(), Some(EngineError::UnknownPrefix));
    assert_eq!(index.facet_report("/s//a").err(), Some(EngineError::UnknownPrefix));
}

#[test]
fn replace_puts_exactly_one_document_with_the_id() {
    let mut index = small();
    let result =
        index.replace_document(2, "second".to_string(), paths(&["/s/z"]), Persistence::Written);
    assert_eq!(result, Ok(()));
    let snapshot = index.current();
    let with_id: Vec<&Document> = snapshot.documents().iter().filter(|d| d.id() == 2).collect();
    assert_eq!(with_id.len(), 1);
    assert_eq!(with_id[0].title(), "second");
    assert_eq!(with_id[0].facets().len(), 1);
    assert_eq!(with_id[0].facets()[0].to_text(), "/s/z");
    assert_eq!(snapshot.len(), 4);
    assert_eq!(snapshot.get(1).expect("live").title(), "one");
    assert_eq!(snapshot.get(3).expect("live").title(), "three");
    assert_eq!(snapshot.get(4).expect("live").title(), "four");
    let lines = index.facet_report("/s").expect("a valid prefix");
    assert_eq!(
        pairs(&lines),
        vec![
            ("/s/z".to_string(), 1),
            ("/s/d".to_string(), 1),
            ("/s/c".to_string(), 1),
            ("/s/b".to_string(), 1),
            ("/s/a".to_string(), 1),
        ]
    );
}

#[test]
fn replace_adds_a_document_whose_id_is_new() {
    let mut index = small();
    let result =
        index.replace_document(9, "nine".to_string(), paths(&["/s/a"]), Persistence::Written);
    assert_eq!(result, Ok(()));
    assert_eq!(index.current().len(), 5);
    assert_eq!(index.current().get(9).expect("live").title(), "nine");
    let lines = index.facet_report("/s").expect("a valid prefix");
    assert_eq!(pairs(&lines)[0], ("/s/a".to_string(), 3));
}

#[test]
fn replace_that_cannot_be_written_changes_nothing() {
    let mut index = small();
    let before = index.current().records();
    let held = index.snapshot();
    let result =
        index.replace_document(2, "second".to_string(), paths(&["/s/z"]), Persistence::Failed);
    assert_eq!(result, Err(EngineError::IOFailure));
    assert_eq!(index.current().records(), before);
    assert_eq!(held.records(), before);
    let result =
        index.replace_document(2, "second".to_string(), paths(&["/s/z"]), Persistence::Written);
    assert_eq!(result, Ok(()));
    assert_eq!(index.current().get(2).expect("live").title(), "second");
    assert_eq!(held.records(), before);
}

#[test]
fn preview_shows_what_replace_installs() {
    let mut index = small();
    let facets = paths(&["/s/z", "/t/y"]);
    let preview = index.preview_replace(3, "third", &facets).records();
    assert_eq!(index.current().len(), 4);
    assert_eq!(index.current().get(3).expect("live").title(), "three");
    assert_eq!(index.replace_document(3, "third".to_string(), facets, Persistence::Written), Ok(()));
    assert_eq!(index.current().records(), preview);
}

#[test]
fn engine_opens_what_was_persisted() {
    let index = small();
    let records: Vec<StoredDocument> = index.current().records();
    let opened = IndexEngine::open(Some(&records)).expect("an index");
    assert_eq!(opened.current().records(), records);
    assert_eq!(
        pairs(&opened.facet_report("/s").expect("a valid prefix")),
        pairs(&index.facet_report("/s").expect("a valid prefix"))
    );
    assert_eq!(IndexEngine::open(None).err(), Some(EngineError::NotFound));
    let mut corrupt = records.clone();
    corrupt[1].facets.push("a/b".to_string());
    assert_eq!(IndexEngine::open(Some(&corrupt)).err(), Some(EngineError::Corrupt));
    assert_eq!(open_index(Some(&corrupt)).err(), Some(EngineError::Corrupt));
    assert_eq!(open_index(Some(&records)).expect("an index").current().records(), records);
}

#[test]
fn sort_puts_larger_counts_first_and_later_names_first_among_equals() {
    let lines = vec![line("/s/b", 1), line("/s/a", 3), line("/s/d", 1), line("/s/c", 3)];
    let sorted = sort_descending(lines);
    assert_eq!(
        pairs(&sorted),
        vec![
            ("/s/c".to_string(), 3),
            ("/s/a".to_string(), 3),
            ("/s/d".to_string(), 1),
            ("/s/b".to_string(), 1),
        ]
    );
    assert_eq!(sort_descending(Vec::new()).len(), 0);
    assert!(line_precedes(&line("/s/a", 2), &line("/s/b", 1)));
    assert!(!line_precedes(&line("/s/b", 1), &line("/s/a", 2)));
    assert!(line_precedes(&line("/s/b", 1), &line("/s/a", 1)));
    assert!(!line_precedes(&line("/s/a", 1), &line("/s/b", 1)));
    assert!(!line_precedes(&line("/s/a", 1), &line("/s/a", 1)));
}

#[test]
fn seed_document_carries_its_three_facets() {
    let d = seed_document(1234);
    assert_eq!(d.id(), 1234);
    assert_eq!(d.title(), "test");
    let texts: Vec<String> = d.facets().iter().map(|p| p.to_text()).collect();
    assert_eq!(
        texts,
        vec!["/subjects/id_1234", "/subjects/id_mod_2_0", "/subjects/id_mod_99_46"]
    );
    let first = seed_document(1);
    let texts: Vec<String> = first.facets().iter().map(|p| p.to_text()).collect();
    assert_eq!(texts, vec!["/subjects/id_1", "/subjects/id_mod_2_1", "/subjects/id_mod_99_1"]);
    let round = seed_document(99);
    assert_eq!(round.facets()[2].to_text(), "/subjects/id_mod_99_0");
}

#[test]
fn seed_documents_have_the_ids_from_one() {
    let docs = seed_documents(5);
    let ids: Vec<i64> = docs.iter().map(|d| d.id()).collect();
    assert_eq!(ids, vec![1, 2, 3, 4, 5]);
    assert_eq!(seed_documents(0).len(), 0);
    assert_eq!(subjects_path().to_text(), "/subjects");
}

#[test]
fn create_index_reports_each_failure() {
    assert_eq!(
        create_index(true, Persistence::Written).err(),
        Some(EngineError::AlreadyExists)
    );
    assert_eq!(create_index(true, Persistence::Failed).err(), Some(EngineError::AlreadyExists));
    assert_eq!(create_index(false, Persistence::Failed).err(), Some(EngineError::IOFailure));
    let index = create_index(false, Persistence::Written).expect("a seeded index");
    assert_eq!(index.current().len(), 10000);
    assert_eq!(index.current().get(10000).expect("live").title(), "test");
    assert!(index.current().get(10001).is_none());
    assert!(index.current().get(0).is_none());
}

#[test]
fn subjects_reports_under_keys() {
    let index = small();
    let lines = subjects(&index).expect("a report");
    assert_eq!(lines.len(), 0);
    let docs = vec![
        doc(1, "one", &["/subjects/a", "/subjects/b/deep"]),
        doc(2, "two", &["/subjects/b"]),
        doc(3, "three", &["/other/a"]),
    ];
    let index = IndexEngine::create(false, docs, Persistence::Written).expect("a new index");
    let lines = subjects(&index).expect("a report");
    assert_eq!(
        lines,
        vec![
            SubjectCount { key: "subjects|b".to_string(), doc_count: 2 },
            SubjectCount { key: "subjects|a".to_string(), doc_count: 1 },
        ]
    );
}

#[test]
fn update_that_cannot_be_written_changes_nothing() {
    let mut index = small();
    let before = index.current().records();
    let facets = vec!["/subjects/x".to_string()];
    assert_eq!(
        update_facets_for_doc_1(&mut index, facets.clone(), Persistence::Failed),
        Err(EngineError::IOFailure)
    );
    assert_eq!(index.current().records(), before);
    let preview = preview_update_facets_for_doc_1(&index, &facets).records();
    assert_eq!(update_facets_for_doc_1(&mut index, facets, Persistence::Written), Ok(()));
    assert_eq!(index.current().records(), preview);
    let one = index.current().get(1).expect("live");
    assert_eq!(one.title(), "who fished alone in a skiff");
    assert_eq!(one.facets().len(), 1);
    assert_eq!(one.facets()[0].to_text(), "/subjects/x");
}

#[test]
fn parse_paths_reads_all_or_nothing() {
    let good = vec!["/a".to_string(), "/b/c".to_string()];
    let parsed = parse_paths(&good).expect("facet paths");
    let texts: Vec<String> = parsed.iter().map(|p| p.to_text()).collect();
    assert_eq!(texts, good);
    let bad = vec!["/a".to_string(), "b".to_string()];
    assert!(parse_paths(&bad).is_none());
    assert_eq!(parse_paths(&Vec::new()).expect("no paths").len(), 0);
}

#[test]
fn error_messages_differ() {
    let all = [
        EngineError::AlreadyExists,
        EngineError::NotFound,
        EngineError::Corrupt,
        EngineError::DuplicateStaged,
        EngineError::IOFailure,
        EngineError::UnknownPrefix,
    ];
    for (i, a) in all.iter().enumerate() {
        assert!(!a.message().is_empty());
        for b in all.iter().skip(i + 1) {
            assert_ne!(a, b);
            assert_ne!(a.message(), b.message());
        }
    }
    assert_eq!(EngineError::NotFound.message(), "no store exists at this location");
}

#[test]
fn facet_sets_for_document_one_are_as_listed() {
    assert_eq!(
        detached_facet_set(),
        vec![
            "/subjects/id_0",
            "/subjects/id_mod_2_0",
            "/subjects/id_mod_99_0",
            "/subjects/something_else",
        ]
    );
    assert_eq!(
        seed_facet_set_of_doc_1(),
        vec!["/subjects/id_1", "/subjects/id_mod_2_1", "/subjects/id_mod_99_1"]
    );
    let seeded: Vec<String> = seed_document(1).facets().iter().map(|p| p.to_text()).collect();
    assert_eq!(seed_facet_set_of_doc_1(), seeded);
}

#[test]
fn detach_and_restore_of_document_one() {
    let docs = seed_documents(200);
    let mut index = IndexEngine::create(false, docs, Persistence::Written).expect("an index");
    let baseline = subjects(&index).expect("a report");
    assert_eq!(doc_1_update(&mut index, Persistence::Failed), Err(EngineError::IOFailure));
    assert_eq!(subjects(&index).expect("a report"), baseline);
    assert_eq!(doc_1_update(&mut index, Persistence::Written), Ok(()));
    let detached = subjects(&index).expect("a report");
    assert_ne!(detached, baseline);
    assert!(detached.contains(&SubjectCount {
        key: "subjects|something_else".to_string(),
        doc_count: 1
    }));
    assert!(detached.contains(&SubjectCount { key: "subjects|id_0".to_string(), doc_count: 1 }));
    assert!(!detached.iter().any(|line| line.key == "subjects|id_1"));
    assert_eq!(detached[0], SubjectCount { key: "subjects|id_mod_2_0".to_string(), doc_count: 101 });
    assert_eq!(detached[1], SubjectCount { key: "subjects|id_mod_2_1".to_string(), doc_count: 99 });
    assert_eq!(index.current().get(1).expect("live").title(), "who fished alone in a skiff");
    assert_eq!(doc_1_restore(&mut index, Persistence::Written), Ok(()));
    assert_eq!(subjects(&index).expect("a report"), baseline);
    assert_eq!(index.current().get(1).expect("live").title(), "who fished alone in a skiff");
    assert_eq!(index.current().len(), 200);
}

#[test]
fn a_document_adds_one_to_each_child_it_lies_under() {
    let mut index = small();
    let before = pairs(&index.facet_report("/s").expect("a valid prefix"));
    let facets = paths(&["/s/a", "/s/a/x", "/s/new/deep", "/t/z", "/s"]);
    assert_eq!(index.replace_document(9, "nine".to_string(), facets, Persistence::Written), Ok(()));
    let after = pairs(&index.facet_report("/s").expect("a valid prefix"));
    let count = |lines: &[(String, u64)], path: &str| -> u64 {
        lines.iter().find(|(p, _)| p == path).map(|(_, c)| *c).unwrap_or(0)
    };
    assert_eq!(count(&after, "/s/a"), count(&before, "/s/a") + 1);
    assert_eq!(count(&after, "/s/new"), 1);
    assert_eq!(count(&before, "/s/new"), 0);
    for child in ["/s/b", "/s/c", "/s/d"] {
        assert_eq!(count(&after, child), count(&before, child));
    }
    assert_eq!(after.len(), before.len() + 1);
}

#[test]
fn replace_on_an_empty_index_adds_the_document() {
    let mut index = IndexEngine::create(false, Vec::new(), Persistence::Written).expect("an index");
    let result = index.replace_document(1, "t".to_string(), paths(&["/s/a"]), Persistence::Written);
    assert_eq!(result, Ok(()));
    assert_eq!(index.current().len(), 1);
    assert_eq!(pairs(&index.facet_report("/s").expect("a valid prefix")), vec![("/s/a".to_string(), 1)]);
    let result = index.replace_document(1, "u".to_string(), Vec::new(), Persistence::Written);
    assert_eq!(result, Ok(()));
    assert_eq!(index.current().len(), 1);
    assert_eq!(index.current().get(1).expect("live").title(), "u");
    assert_eq!(index.facet_report("/s").expect("a valid prefix").len(), 0);
    assert_eq!(index.facet_report("/").expect("a valid prefix").len(), 0);
}

#[test]
fn a_path_given_twice_counts_once() {
    let docs = vec![
        doc(i64::MIN, "low", &["/s/a", "/s/a", "/s/a/b", "/s/a/b"]),
        doc(i64::MAX, "high", &["/s/a/b"]),
    ];
    let index = IndexEngine::create(false, docs, Persistence::Written).expect("an index");
    assert_eq!(pairs(&index.facet_report("/s").expect("a valid prefix")), vec![("/s/a".to_string(), 2)]);
    assert_eq!(
        pairs(&index.facet_report("/s/a").expect("a valid prefix")),
        vec![("/s/a/b".to_string(), 2)]
    );
    assert_eq!(index.current().get(i64::MIN).expect("live").title(), "low");
    assert_eq!(index.current().get(i64::MAX).expect("live").title(), "high");
}
