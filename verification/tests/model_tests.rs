use search_core::file_process::{count_terms, tokenize_file};
use search_core::reindex::{plan_file, re_index_bulk, FileChange, FilePlan, FileState};
use search_core::file_process::read_doc;
use search_core::{Doc, Model, Modified, StrMap, Timestamp, Update, TF};

fn ts(secs: i64) -> Timestamp {
    Timestamp { secs, nanos: 0 }
}

fn counts(pairs: &[(&str, usize)]) -> TF {
    let mut m = StrMap::new();
    for (k, v) in pairs {
        m.insert(k.to_string(), *v);
    }
    m
}

fn count_of(m: &TF, key: &str) -> Option<usize> {
    m.get(&key.to_string()).copied()
}

fn model_with(path: &str, doc_pairs: &[(&str, usize)], df_pairs: &[(&str, usize)]) -> Model {
    let mut index = StrMap::new();
    index.insert(path.to_string(), Doc::new(counts(doc_pairs), ts(1)));
    Model::new(counts(df_pairs), index)
}

#[test]
fn str_map_keeps_insertion_order() {
    let mut m = counts(&[("b", 1), ("a", 2)]);
    m.insert("b".to_string(), 5);
    assert_eq!(m.len(), 2);
    assert_eq!(m.key_at(0), "b");
    assert_eq!(*m.value_at(0), 5);
    assert_eq!(m.remove(&"b".to_string()), Some(5));
    assert_eq!(m.key_at(0), "a");
    assert_eq!(m.find(&"zz".to_string()), None);
}

#[test]
fn default_model_is_empty() {
    let m = Model::default();
    assert!(m.is_empty());
    let m2 = model_with("p", &[("x", 1)], &[("x", 1)]);
    assert!(!m2.is_empty());
}

#[test]
fn tokenize_file_counts_terms_and_documents() {
    let mut model = Model::default();
    tokenize_file("a.xml", "Rust rust crab", &mut model, ts(7));
    tokenize_file("b.xml", "crab shell", &mut model, ts(8));
    let doc = model.index().get(&"a.xml".to_string()).unwrap();
    assert_eq!(count_of(doc.get_tf(), "rust"), Some(2));
    assert_eq!(count_of(doc.get_tf(), "crab"), Some(1));
    assert_eq!(doc.get_ts(), ts(7));
    assert_eq!(count_of(model.df(), "crab"), Some(2));
    assert_eq!(count_of(model.df(), "rust"), Some(1));
    assert_eq!(count_of(model.df(), "shell"), Some(1));
    assert_eq!(model.index().len(), 2);
}

#[test]
fn count_terms_in_first_occurrence_order() {
    let toks = vec!["b".to_string(), "a".to_string(), "b".to_string()];
    let tf = count_terms(&toks);
    assert_eq!(tf.key_at(0), "b");
    assert_eq!(*tf.value_at(0), 2);
    assert_eq!(tf.key_at(1), "a");
}

#[test]
fn modify_drops_a_count_that_comes_to_zero() {
    let mut model = model_with("p", &[("x", 2)], &[("x", 1), ("y", 3)]);
    let mut bulk = Vec::new();
    bulk.push(Update::modify(Modified::DF, "x".to_string(), -1));
    bulk.push(Update::modify(Modified::DF, "y".to_string(), 2));
    bulk.push(Update::modify(Modified::DF, "absent".to_string(), 4));
    bulk.push(Update::modify(Modified::TF("p".to_string()), "x".to_string(), 3));
    model.apply(bulk);
    assert_eq!(count_of(model.df(), "x"), None);
    assert_eq!(count_of(model.df(), "y"), Some(5));
    assert_eq!(count_of(model.df(), "absent"), Some(4));
    let doc = model.index().get(&"p".to_string()).unwrap();
    assert_eq!(count_of(doc.get_tf(), "x"), Some(5));
}

#[test]
fn set_and_remove() {
    let mut model = model_with("p", &[("x", 2)], &[("x", 1)]);
    let mut bulk = Vec::new();
    bulk.push(Update::set("p".to_string(), ts(99)));
    bulk.push(Update::set("nowhere".to_string(), ts(5)));
    model.apply(bulk);
    assert_eq!(model.index().get(&"p".to_string()).unwrap().get_ts(), ts(99));
    assert_eq!(model.index().len(), 1);
    let mut bulk = Vec::new();
    bulk.push(Update::remove("p".to_string()));
    model.apply(bulk);
    assert_eq!(model.index().len(), 0);
    assert_eq!(count_of(model.df(), "x"), Some(1));
}

#[test]
fn diff_lists_updates_in_order() {
    let old = Doc::new(counts(&[("a", 2), ("b", 1)]), ts(1));
    let new = Doc::new(counts(&[("a", 5), ("c", 4)]), ts(2));
    let bulk = new.diff(&old, "p".to_string());
    let shown: Vec<String> = bulk.iter().map(|u| format!("{:?}", u)).collect();
    assert_eq!(
        shown,
        vec![
            "SetTime(\"p\", Timestamp { secs: 2, nanos: 0 })".to_string(),
            "Modify { t: TF(\"p\"), term: \"a\", cnt: 3 }".to_string(),
            "Modify { t: DF, term: \"c\", cnt: 1 }".to_string(),
            "Modify { t: TF(\"p\"), term: \"c\", cnt: 4 }".to_string(),
            "Modify { t: DF, term: \"b\", cnt: -1 }".to_string(),
            "Modify { t: TF(\"p\"), term: \"b\", cnt: -1 }".to_string(),
        ]
    );
}

#[test]
fn diff_then_apply_stores_the_fresh_counts() {
    let mut model = model_with("p", &[("a", 2), ("b", 1)], &[("a", 1), ("b", 1)]);
    let old = Doc::new(counts(&[("a", 2), ("b", 1)]), ts(1));
    let new = Doc::new(counts(&[("a", 7)]), ts(3));
    model.apply(new.diff(&old, "p".to_string()));
    let doc = model.index().get(&"p".to_string()).unwrap();
    assert_eq!(count_of(doc.get_tf(), "a"), Some(7));
    assert_eq!(count_of(doc.get_tf(), "b"), None);
    assert_eq!(doc.get_tf().len(), 1);
    assert_eq!(doc.get_ts(), ts(3));
    assert_eq!(count_of(model.df(), "b"), None);
    assert_eq!(count_of(model.df(), "a"), Some(1));
}

#[test]
fn diff_then_apply_adds_a_new_term() {
    let mut model = model_with("p", &[("a", 2)], &[("a", 1)]);
    let old = Doc::new(counts(&[("a", 2)]), ts(1));
    let new = Doc::new(counts(&[("a", 2), ("n", 3)]), ts(2));
    model.apply(new.diff(&old, "p".to_string()));
    let doc = model.index().get(&"p".to_string()).unwrap();
    assert_eq!(count_of(doc.get_tf(), "n"), Some(3));
    assert_eq!(count_of(model.df(), "n"), Some(1));
    assert_eq!(count_of(model.df(), "a"), Some(1));
}

#[test]
fn modify_on_an_absent_term_with_a_negative_count_does_nothing() {
    let mut model = model_with("p", &[("x", 2)], &[("x", 1)]);
    model.apply(vec![Update::modify(Modified::DF, "absent".to_string(), -2)]);
    assert_eq!(count_of(model.df(), "absent"), None);
}

#[test]
fn diff_with_itself_changes_nothing() {
    let mut model = model_with("p", &[("a", 2), ("b", 1)], &[("a", 1), ("b", 1)]);
    let doc = Doc::new(counts(&[("a", 2), ("b", 1)]), ts(1));
    model.apply(doc.diff(&doc, "p".to_string()));
    let stored = model.index().get(&"p".to_string()).unwrap();
    assert_eq!(count_of(stored.get_tf(), "a"), Some(2));
    assert_eq!(count_of(stored.get_tf(), "b"), Some(1));
    assert_eq!(count_of(model.df(), "a"), Some(1));
}

#[test]
fn re_index_with_nothing_changed_is_empty() {
    let mut model = Model::default();
    tokenize_file("p", "alpha beta", &mut model, ts(1));
    let changes = vec![FileChange::Unchanged];
    assert!(re_index_bulk(&model, &changes).is_empty());
}

#[test]
fn re_index_removes_a_deleted_file_alone() {
    let mut model = Model::default();
    tokenize_file("p", "alpha beta", &mut model, ts(1));
    tokenize_file("q", "beta gamma", &mut model, ts(1));
    let changes = vec![FileChange::Removed, FileChange::Unchanged];
    let bulk = re_index_bulk(&model, &changes);
    let shown: Vec<String> = bulk.iter().map(|u| format!("{:?}", u)).collect();
    assert_eq!(
        shown,
        vec![
            "Modify { t: DF, term: \"alpha\", cnt: -1 }".to_string(),
            "Modify { t: DF, term: \"beta\", cnt: -1 }".to_string(),
            "Remove(\"p\")".to_string(),
        ]
    );
    model.apply(bulk);
    assert_eq!(model.index().len(), 1);
    assert!(model.index().get(&"q".to_string()).is_some());
    assert_eq!(count_of(model.df(), "alpha"), None);
    assert_eq!(count_of(model.df(), "beta"), Some(1));
    assert_eq!(count_of(model.df(), "gamma"), Some(1));
}

#[test]
fn re_index_matches_the_files_on_disk() {
    let mut model = Model::default();
    tokenize_file("p", "alpha beta", &mut model, ts(1));
    tokenize_file("q", "beta gamma", &mut model, ts(1));
    tokenize_file("r", "delta", &mut model, ts(1));
    let changes = vec![
        FileChange::Modified(read_doc("alpha alpha omega", ts(2))),
        FileChange::Unchanged,
        FileChange::Removed,
    ];
    let bulk = re_index_bulk(&model, &changes);
    model.apply(bulk);
    let mut expected = Model::default();
    tokenize_file("p", "alpha alpha omega", &mut expected, ts(2));
    tokenize_file("q", "beta gamma", &mut expected, ts(1));
    assert_eq!(model.index().len(), 2);
    let p = model.index().get(&"p".to_string()).unwrap();
    assert_eq!(count_of(p.get_tf(), "alpha"), Some(2));
    assert_eq!(count_of(p.get_tf(), "omega"), Some(1));
    assert_eq!(count_of(p.get_tf(), "beta"), None);
    assert_eq!(p.get_ts(), ts(2));
    assert_eq!(model.index().get(&"q".to_string()).unwrap().get_ts(), ts(1));
    for term in ["alpha", "beta", "gamma", "omega", "delta"] {
        assert_eq!(count_of(model.df(), term), count_of(expected.df(), term), "{term}");
    }
    assert_eq!(model.df().len(), expected.df().len());
}

#[test]
fn plan_reads_only_changed_files() {
    let doc = Doc::new(counts(&[("a", 1)]), ts(5));
    assert!(matches!(plan_file(&doc, FileState::Missing), FilePlan::Settled(FileChange::Removed)));
    assert!(matches!(
        plan_file(&doc, FileState::Present(ts(5))),
        FilePlan::Settled(FileChange::Unchanged)
    ));
    assert!(matches!(plan_file(&doc, FileState::Present(ts(6))), FilePlan::ReadAgain(t) if t == ts(6)));
}

#[test]
fn applying_two_batches_is_applying_their_join() {
    let make = || model_with("p", &[("x", 2)], &[("x", 1)]);
    let batch = |cnt: isize| vec![Update::modify(Modified::TF("p".to_string()), "x".to_string(), cnt)];
    let mut one = make();
    one.apply(batch(3));
    one.apply(batch(-1));
    let mut joined = make();
    let mut both = batch(3);
    both.extend(batch(-1));
    joined.apply(both);
    let a = one.index().get(&"p".to_string()).unwrap();
    let b = joined.index().get(&"p".to_string()).unwrap();
    assert_eq!(count_of(a.get_tf(), "x"), Some(4));
    assert_eq!(count_of(b.get_tf(), "x"), Some(4));
}
