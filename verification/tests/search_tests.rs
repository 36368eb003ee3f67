use search_core::calculate::{idf_parts, ranked_paths, search, tf_parts, top_ranked, TermStat};
use search_core::file_process::tokenize_file;
use search_core::{Model, Timestamp};

fn ts() -> Timestamp {
    Timestamp { secs: 1, nanos: 0 }
}

#[test]
fn search_gives_the_parts_of_tf_idf() {
    let mut model = Model::default();
    tokenize_file("a.xml", "OpenGL buffer buffer", &mut model, ts());
    tokenize_file("b.xml", "ocean", &mut model, ts());
    let stats = search("buffers ocean", &model);
    assert_eq!(stats.len(), 2);
    assert_eq!(stats[0].path, "a.xml");
    assert_eq!(
        stats[0].terms,
        vec![
            TermStat { count: 2, total: 3, docs_with_term: 1, n_docs: 2 },
            TermStat { count: 0, total: 3, docs_with_term: 1, n_docs: 2 },
        ]
    );
    assert_eq!(stats[1].path, "b.xml");
    assert_eq!(stats[1].terms[1], TermStat { count: 1, total: 1, docs_with_term: 1, n_docs: 2 });
}

#[test]
fn tf_and_idf_parts() {
    let mut model = Model::default();
    tokenize_file("a", "x x y", &mut model, ts());
    tokenize_file("b", "y", &mut model, ts());
    let doc = model.index().get(&"a".to_string()).unwrap();
    assert_eq!(tf_parts(&"x".to_string(), doc.get_tf()), (2, 3));
    assert_eq!(tf_parts(&"z".to_string(), doc.get_tf()), (0, 3));
    assert_eq!(idf_parts(&"y".to_string(), model.index()), (2, 2));
    assert_eq!(idf_parts(&"z".to_string(), model.index()), (2, 0));
}

#[test]
fn top_ranked_is_a_stable_descending_prefix() {
    let scores = vec![3, 9, 3, 1, 9];
    assert_eq!(top_ranked(&scores, 3), vec![1, 4, 0]);
    assert_eq!(top_ranked(&scores, 10), vec![1, 4, 0, 2, 3]);
    assert_eq!(top_ranked(&scores, 0), Vec::<usize>::new());
    assert_eq!(top_ranked(&Vec::new(), 10), Vec::<usize>::new());
}

#[test]
fn ranked_paths_pair_each_place_with_its_path() {
    let paths: Vec<String> = vec!["a".to_string(), "b".to_string(), "c".to_string(), "d".to_string()];
    let scores = vec![5, 7, 5, 2];
    assert_eq!(
        ranked_paths(&paths, &scores, 3),
        vec![("b".to_string(), 7), ("a".to_string(), 5), ("c".to_string(), 5)]
    );
    assert_eq!(ranked_paths(&paths, &scores, 0), Vec::<(String, u32)>::new());
    assert_eq!(ranked_paths(&Vec::new(), &Vec::new(), 10), Vec::<(String, u32)>::new());
}

#[test]
fn float_bits_order_as_numbers() {
    let scores: Vec<f32> = vec![0.5, 0.0, 2.25, 0.25];
    let bits: Vec<u32> = scores.iter().map(|s| s.to_bits()).collect();
    assert_eq!(top_ranked(&bits, 2), vec![2, 0]);
}

#[test]
fn distinctive_word_matches_only_its_document() {
    let mut model = Model::default();
    tokenize_file("science/astronomy.xml", "A nebula is a shared cloud of dust", &mut model, ts());
    tokenize_file("science/ocean.xml", "The ocean is shared by all", &mut model, ts());
    tokenize_file("story.xml", "The librarian kept the index", &mut model, ts());
    let stats = search("nebula", &model);
    let hits: Vec<&str> = stats
        .iter()
        .filter(|d| d.terms[0].count > 0)
        .map(|d| d.path.as_str())
        .collect();
    assert_eq!(hits, vec!["science/astronomy.xml"]);
    assert_eq!(stats[0].terms[0].docs_with_term, 1);
    assert_eq!(stats[0].terms[0].n_docs, 3);
}

#[test]
fn shared_word_document_frequency() {
    let mut model = Model::default();
    tokenize_file("a.xml", "shared shared index", &mut model, ts());
    tokenize_file("b.xml", "shared", &mut model, ts());
    tokenize_file("c.xml", "other", &mut model, ts());
    assert_eq!(model.df().get(&"share".to_string()).copied(), Some(2));
    assert_eq!(model.df().get(&"index".to_string()).copied(), Some(1));
    let a = model.index().get(&"a.xml".to_string()).unwrap();
    assert_eq!(a.get_tf().get(&"share".to_string()).copied(), Some(2));
}

#[test]
fn search_document_counts_equal_document_frequencies() {
    let mut model = Model::default();
    tokenize_file("a", "red green", &mut model, ts());
    tokenize_file("b", "green blue", &mut model, ts());
    tokenize_file("c", "green", &mut model, ts());
    let stats = search("green red purple", &model);
    assert_eq!(stats[0].terms[0].docs_with_term, *model.df().get(&"green".to_string()).unwrap());
    assert_eq!(stats[0].terms[1].docs_with_term, *model.df().get(&"red".to_string()).unwrap());
    assert_eq!(stats[0].terms[2].docs_with_term, 0);
    assert!(model.df().get(&"purpl".to_string()).is_none());
}
