use ngram_text::{train_n_gram_model, NGramModel};

fn observations(model: &NGramModel) -> u64 {
    let mut sum = 0;
    let mut i = 0;
    while let Some(context) = model.context(i) {
        sum += model.get(&context).unwrap().n_observations();
        i += 1;
    }
    assert_eq!(i, model.len());
    sum
}

#[test]
fn counts_followers_of_each_context() {
    let corpus = vec!["a", "b", "a", "b", "a", "c"];
    let model = train_n_gram_model(&corpus, 1);
    assert_eq!(model.len(), 2);
    let a = model.get("a").unwrap();
    assert_eq!(a.count("b"), 2);
    assert_eq!(a.count("c"), 1);
    assert_eq!(a.n_observations(), 3);
    assert_eq!(a.len(), 2);
    let b = model.get("b").unwrap();
    assert_eq!(b.count("a"), 2);
    assert_eq!(b.n_observations(), 2);
    assert_eq!(b.len(), 1);
    assert!(model.get("c").is_none());
}

#[test]
fn first_step_from_a_follows_the_weights() {
    let corpus = vec!["a", "b", "a", "b", "a", "c"];
    let model = train_n_gram_model(&corpus, 1);
    let a = model.get("a").unwrap();
    let picks: Vec<String> = (0..3).map(|r| a.pick(r).unwrap()).collect();
    assert_eq!(picks, vec!["b", "b", "c"]);
}

#[test]
fn contexts_and_candidates_keep_corpus_order() {
    let corpus = vec!["x", "y", "x", "z", "y", "x", "y"];
    let model = train_n_gram_model(&corpus, 1);
    assert_eq!(model.context(0), Some("x".to_string()));
    assert_eq!(model.context(1), Some("y".to_string()));
    assert_eq!(model.context(2), Some("z".to_string()));
    assert_eq!(model.context(3), None);
    let x = model.get("x").unwrap();
    assert_eq!(x.word_at(0), Some("y".to_string()));
    assert_eq!(x.word_at(1), Some("z".to_string()));
    assert_eq!(x.count("y"), 2);
    assert_eq!(x.count("z"), 1);
}

#[test]
fn contexts_of_two_words_are_joined_with_one_space() {
    let corpus = vec!["the", "cat", "sat", "on", "the", "cat", "mat"];
    let model = train_n_gram_model(&corpus, 2);
    assert_eq!(model.len(), 4);
    let the_cat = model.get("the cat").unwrap();
    assert_eq!(the_cat.count("sat"), 1);
    assert_eq!(the_cat.count("mat"), 1);
    assert_eq!(the_cat.n_observations(), 2);
    assert_eq!(model.get("cat sat").unwrap().count("on"), 1);
    assert_eq!(model.get("sat on").unwrap().count("the"), 1);
    assert_eq!(model.get("on the").unwrap().count("cat"), 1);
    assert!(model.get("cat mat").is_none());
    assert!(model.get("the").is_none());
    assert!(model.get("the  cat").is_none());
}

#[test]
fn one_observation_for_every_position_from_n_on() {
    let corpus = vec!["a", "b", "c", "a", "b", "d", "a", "a", "b", "c", "e", "a"];
    for n in 0..15 {
        let model = train_n_gram_model(&corpus, n);
        let expected = if corpus.len() > n { (corpus.len() - n) as u64 } else { 0 };
        assert_eq!(observations(&model), expected, "n = {}", n);
    }
}

#[test]
fn corpus_no_longer_than_n_gives_an_empty_model() {
    let corpus = vec!["a", "b", "c"];
    assert_eq!(train_n_gram_model(&corpus, 3).len(), 0);
    assert_eq!(train_n_gram_model(&corpus, 4).len(), 0);
    assert_eq!(train_n_gram_model(&corpus, usize::MAX).len(), 0);
    let empty: Vec<&str> = Vec::new();
    assert_eq!(train_n_gram_model(&empty, 0).len(), 0);
    assert_eq!(train_n_gram_model(&empty, 1).len(), 0);
}

#[test]
fn corpus_one_longer_than_n_gives_one_observation() {
    let corpus = vec!["a", "b", "c"];
    let model = train_n_gram_model(&corpus, 2);
    assert_eq!(model.len(), 1);
    let table = model.get("a b").unwrap();
    assert_eq!(table.count("c"), 1);
    assert_eq!(table.n_observations(), 1);
}

#[test]
fn context_length_zero_has_the_empty_context() {
    let corpus = vec!["a", "b", "a"];
    let model = train_n_gram_model(&corpus, 0);
    assert_eq!(model.len(), 1);
    let table = model.get("").unwrap();
    assert_eq!(table.count("a"), 2);
    assert_eq!(table.count("b"), 1);
    assert_eq!(table.n_observations(), 3);
}

#[test]
fn recording_by_hand_matches_training() {
    let mut model = NGramModel::new();
    assert_eq!(model.len(), 0);
    model.record("a".to_string(), "b".to_string());
    model.record("b".to_string(), "a".to_string());
    model.record("a".to_string(), "b".to_string());
    model.record("b".to_string(), "a".to_string());
    model.record("a".to_string(), "c".to_string());
    let trained = train_n_gram_model(&vec!["a", "b", "a", "b", "a", "c"], 1);
    assert_eq!(model.len(), trained.len());
    for context in ["a", "b"] {
        let left = model.get(context).unwrap();
        let right = trained.get(context).unwrap();
        assert_eq!(left.n_observations(), right.n_observations());
        assert_eq!(left.len(), right.len());
        for word in ["a", "b", "c"] {
            assert_eq!(left.count(word), right.count(word));
        }
    }
}

#[test]
fn a_large_corpus_trains_in_time() {
    let vocabulary: Vec<String> = (0..8000).map(|i| format!("w{}", i)).collect();
    let mut corpus: Vec<&str> = Vec::new();
    let mut state: u64 = 12345;
    for _ in 0..100000 {
        state = state.wrapping_mul(6364136223846793005).wrapping_add(1442695040888963407);
        let r = (state >> 33) % 8000;
        corpus.push(vocabulary[((r * r) / 8000) as usize].as_str());
    }
    let model = train_n_gram_model(&corpus, 2);
    assert_eq!(observations(&model), 99998);
    let first = model.get(&format!("{} {}", corpus[0], corpus[1])).unwrap();
    assert!(first.count(corpus[2]) >= 1);
    let last = model.get(&format!("{} {}", corpus[99997], corpus[99998])).unwrap();
    assert!(last.count(corpus[99999]) >= 1);
}
