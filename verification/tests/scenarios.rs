use facet_index::engine::IndexEngine;
use facet_index::error::EngineError;
use facet_index::search::{
    create_index, open_index, subjects, update_facets_for_doc_1, SubjectCount,
};
use facet_index::store::Persistence;

fn seeded() -> IndexEngine {
    match create_index(false, Persistence::Written) {
        Ok(index) => index,
        Err(e) => panic!("seeding failed: {}", e.message()),
    }
}

fn report(index: &IndexEngine) -> Vec<(String, u64)> {
    let lines: Vec<SubjectCount> = match subjects(index) {
        Ok(lines) => lines,
        Err(e) => panic!("report failed: {}", e.message()),
    };
    lines.into_iter().map(|line| (line.key, line.doc_count)).collect()
}

fn count_of(lines: &[(String, u64)], key: &str) -> u64 {
    let mut found: Option<u64> = None;
    for (k, c) in lines {
        if k == key {
            assert!(found.is_none(), "key {} is listed twice", key);
            found = Some(*c);
        }
    }
    found.unwrap_or(0)
}

fn update_set() -> Vec<String> {
    vec![
        "/subjects/id_0".to_string(),
        "/subjects/id_mod_2_0".to_string(),
        "/subjects/id_mod_99_0".to_string(),
        "/subjects/something_else".to_string(),
    ]
}

fn restore_set() -> Vec<String> {
    vec![
        "/subjects/id_1".to_string(),
        "/subjects/id_mod_2_1".to_string(),
        "/subjects/id_mod_99_1".to_string(),
    ]
}

#[test]
fn seeded_report_sums_to_the_number_of_documents() {
    let index = seeded();
    let lines = report(&index);
    let even = count_of(&lines, "subjects|id_mod_2_0");
    let odd = count_of(&lines, "subjects|id_mod_2_1");
    assert_eq!(even, 5000);
    assert_eq!(odd, 5000);
    assert_eq!(even + odd, 10000);
    let mut total: u64 = 0;
    for k in 0..99 {
        let c = count_of(&lines, &format!("subjects|id_mod_99_{}", k));
        let expected: u64 = if k == 1 { 102 } else { 101 };
        assert_eq!(c, expected, "residue {}", k);
        total += c;
    }
    assert_eq!(total, 10000);
    assert_eq!(count_of(&lines, "subjects|id_mod_99_0"), 101);
    assert_eq!(count_of(&lines, "subjects|id_mod_99_1"), 102);
    assert_eq!(count_of(&lines, "subjects|id_1"), 1);
    assert_eq!(count_of(&lines, "subjects|id_10000"), 1);
    assert_eq!(count_of(&lines, "subjects|id_0"), 0);
    assert_eq!(lines.len(), 10000 + 2 + 99);
}

#[test]
fn seeded_report_is_sorted_from_the_largest_count() {
    let index = seeded();
    let lines = report(&index);
    assert_eq!(lines[0], ("subjects|id_mod_2_1".to_string(), 5000));
    assert_eq!(lines[1], ("subjects|id_mod_2_0".to_string(), 5000));
    assert_eq!(lines[2], ("subjects|id_mod_99_1".to_string(), 102));
    assert_eq!(lines[3], ("subjects|id_mod_99_98".to_string(), 101));
    for pair in lines.windows(2) {
        assert!(pair[0].1 > pair[1].1 || (pair[0].1 == pair[1].1 && pair[0].0 > pair[1].0));
    }
    assert_eq!(lines[lines.len() - 1], ("subjects|id_1".to_string(), 1));
}

#[test]
fn update_moves_document_one_between_facets() {
    let mut index = seeded();
    let baseline = report(&index);
    assert_eq!(update_facets_for_doc_1(&mut index, update_set(), Persistence::Written), Ok(()));
    let lines = report(&index);
    assert_eq!(
        count_of(&lines, "subjects|id_mod_2_1"),
        count_of(&baseline, "subjects|id_mod_2_1") - 1
    );
    assert_eq!(
        count_of(&lines, "subjects|id_mod_2_0"),
        count_of(&baseline, "subjects|id_mod_2_0") + 1
    );
    assert_eq!(count_of(&baseline, "subjects|something_else"), 0);
    assert_eq!(count_of(&lines, "subjects|something_else"), 1);
    assert_eq!(count_of(&lines, "subjects|id_1"), 0);
    assert_eq!(count_of(&lines, "subjects|id_0"), 1);
    assert_eq!(count_of(&lines, "subjects|id_mod_99_1"), 101);
    assert_eq!(count_of(&lines, "subjects|id_mod_99_0"), 102);
    assert_eq!(index.current().len(), 10000);
    let doc = index.current().get(1).expect("document 1 is live");
    assert_eq!(doc.title(), "who fished alone in a skiff");
    assert_eq!(doc.facets().len(), 4);
}

#[test]
fn restore_brings_the_seeded_counts_back() {
    let mut index = seeded();
    let baseline = report(&index);
    assert_eq!(update_facets_for_doc_1(&mut index, update_set(), Persistence::Written), Ok(()));
    assert_ne!(report(&index), baseline);
    assert_eq!(update_facets_for_doc_1(&mut index, restore_set(), Persistence::Written), Ok(()));
    assert_eq!(report(&index), baseline);
}

#[test]
fn open_fails_on_a_missing_store() {
    match open_index(None) {
        Ok(_) => panic!("a store was opened where none was created"),
        Err(e) => assert_eq!(e, EngineError::NotFound),
    }
}
