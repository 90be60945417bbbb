use ngram_text::{FreqTable, ModelError, RandomSource, ReplaySource, ThreadSource};

fn table_b2_c1() -> FreqTable {
    let mut table = FreqTable::new("b".to_string());
    table.observed("b".to_string());
    table.observed("c".to_string());
    table
}

#[test]
fn new_table_holds_one_observation() {
    let table = FreqTable::new("hello".to_string());
    assert_eq!(table.len(), 1);
    assert_eq!(table.n_observations(), 1);
    assert_eq!(table.count("hello"), 1);
    assert_eq!(table.count("other"), 0);
    assert_eq!(table.word_at(0), Some("hello".to_string()));
    assert_eq!(table.word_at(1), None);
}

#[test]
fn observing_a_known_word_increments_its_count() {
    let mut table = FreqTable::new("x".to_string());
    table.observed("y".to_string());
    let before_total = table.n_observations();
    let before_y = table.count("y");
    table.observed("x".to_string());
    assert_eq!(table.n_observations(), before_total + 1);
    assert_eq!(table.count("x"), 2);
    assert_eq!(table.count("y"), before_y);
    assert_eq!(table.len(), 2);
}

#[test]
fn observing_a_new_word_inserts_it_with_count_one() {
    let mut table = FreqTable::new("x".to_string());
    table.observed("y".to_string());
    assert_eq!(table.n_observations(), 2);
    assert_eq!(table.count("x"), 1);
    assert_eq!(table.count("y"), 1);
    assert_eq!(table.len(), 2);
    assert_eq!(table.word_at(0), Some("x".to_string()));
    assert_eq!(table.word_at(1), Some("y".to_string()));
}

#[test]
fn total_is_the_sum_of_the_counts_after_many_observations() {
    let words = ["a", "b", "a", "c", "b", "a", "d", "a", "c", "e"];
    let mut table = FreqTable::new("a".to_string());
    for round in 0..20 {
        for w in words.iter() {
            table.observed(w.to_string());
            let mut sum = 0;
            let mut i = 0;
            while let Some(word) = table.word_at(i) {
                let count = table.count(&word);
                assert!(count >= 1);
                sum += count;
                i += 1;
            }
            assert_eq!(i, table.len());
            assert_eq!(sum, table.n_observations());
        }
        assert_eq!(table.n_observations(), 1 + 10 * (round + 1));
    }
    assert_eq!(table.count("a"), 1 + 20 * 4);
    assert_eq!(table.count("b"), 20 * 2);
    assert_eq!(table.count("c"), 20 * 2);
    assert_eq!(table.count("d"), 20);
    assert_eq!(table.count("e"), 20);
    assert_eq!(table.len(), 5);
}

#[test]
fn words_stay_in_order_of_first_observation() {
    let mut table = FreqTable::new("z".to_string());
    table.observed("m".to_string());
    table.observed("z".to_string());
    table.observed("a".to_string());
    table.observed("m".to_string());
    assert_eq!(table.word_at(0), Some("z".to_string()));
    assert_eq!(table.word_at(1), Some("m".to_string()));
    assert_eq!(table.word_at(2), Some("a".to_string()));
    assert_eq!(table.word_at(3), None);
}

#[test]
fn pick_walks_the_cumulative_counts() {
    let table = table_b2_c1();
    assert_eq!(table.pick(0), Ok("b".to_string()));
    assert_eq!(table.pick(1), Ok("b".to_string()));
    assert_eq!(table.pick(2), Ok("c".to_string()));
}

#[test]
fn pick_gives_each_word_as_many_draws_as_its_count() {
    let mut table = FreqTable::new("p".to_string());
    for _ in 0..4 {
        table.observed("q".to_string());
    }
    for _ in 0..2 {
        table.observed("p".to_string());
    }
    table.observed("r".to_string());
    let total = table.n_observations();
    assert_eq!(total, 8);
    let mut p = 0;
    let mut q = 0;
    let mut r = 0;
    for draw in 0..total {
        match table.pick(draw).unwrap().as_str() {
            "p" => p += 1,
            "q" => q += 1,
            "r" => r += 1,
            other => panic!("not a word of the table: {}", other),
        }
    }
    assert_eq!((p, q, r), (3, 4, 1));
}

#[test]
fn pick_outside_the_total_is_an_invariant_violation() {
    let table = table_b2_c1();
    assert_eq!(table.pick(3), Err(ModelError::InvariantViolation));
    assert_eq!(table.pick(u64::MAX), Err(ModelError::InvariantViolation));
}

#[test]
fn a_single_word_is_given_without_a_draw() {
    let mut single = FreqTable::new("only".to_string());
    single.observed("only".to_string());
    single.observed("only".to_string());
    let several = table_b2_c1();
    let mut source = ReplaySource::new(vec![2, 0]);
    assert_eq!(single.get_random_word_with(&mut source), "only");
    assert_eq!(single.get_random_word_with(&mut source), "only");
    assert_eq!(several.get_random_word_with(&mut source), "c");
    assert_eq!(single.get_random_word_with(&mut source), "only");
    assert_eq!(several.get_random_word_with(&mut source), "b");
}

#[test]
fn several_words_take_one_draw_below_the_total() {
    let table = table_b2_c1();
    let mut source = ReplaySource::new(vec![5, 3, 7]);
    assert_eq!(table.get_random_word_with(&mut source), "c");
    assert_eq!(table.get_random_word_with(&mut source), "b");
    assert_eq!(table.get_random_word_with(&mut source), "b");
    assert_eq!(table.get_random_word_with(&mut source), "c");
}

#[test]
fn replayed_draws_choose_the_words() {
    let table = table_b2_c1();
    let mut source = ReplaySource::new(vec![0, 1, 2, 3, 4, 5]);
    let drawn: Vec<String> = (0..7).map(|_| table.get_random_word_with(&mut source)).collect();
    assert_eq!(drawn, vec!["b", "b", "c", "b", "b", "c", "b"]);
}

#[test]
fn thread_draws_always_give_a_word_of_the_table() {
    let table = table_b2_c1();
    let mut seen_b = false;
    let mut seen_c = false;
    for _ in 0..500 {
        let word = table.get_random_word();
        assert!(table.count(&word) >= 1, "not a word of the table: {}", word);
        seen_b = seen_b || word == "b";
        seen_c = seen_c || word == "c";
    }
    assert!(seen_b && seen_c);
}

#[test]
fn thread_source_keeps_its_bound() {
    let mut source = ThreadSource::new();
    for bound in [1u64, 2, 3, 10, 1000, u64::MAX] {
        for _ in 0..200 {
            assert!(source.below(bound) < bound);
        }
    }
    assert_eq!(source.below(1), 0);
}

#[test]
fn replay_source_goes_round_its_list() {
    let mut source = ReplaySource::new(vec![7, 12, 5]);
    assert_eq!(source.below(10), 7);
    assert_eq!(source.below(10), 2);
    assert_eq!(source.below(3), 2);
    assert_eq!(source.below(10), 7);
    assert_eq!(source.below(1), 0);
}

#[test]
fn replay_source_without_numbers_gives_zero() {
    let mut source = ReplaySource::new(Vec::new());
    assert_eq!(source.below(5), 0);
    assert_eq!(source.below(1), 0);
}

#[test]
fn error_messages() {
    assert_eq!(
        ModelError::Configuration.message(),
        "'seed_sentence' should have at least {n} words"
    );
    assert_eq!(ModelError::Argument.message(), "the context length should be a number");
    assert_eq!(
        ModelError::InvariantViolation.message(),
        "a draw fell outside the table's total"
    );
}
