use ngram_text::args::{parse_count, validate_seed};
use ngram_text::text::{char_is_whitespace, join_strings, join_strs, split_whitespace};
use ngram_text::{process_arguments, ModelError};

fn args(list: &[&str]) -> Vec<String> {
    list.iter().map(|w| w.to_string()).collect()
}

#[test]
fn seed_shorter_than_n_is_a_configuration_error() {
    let seed = args(&["x", "y"]);
    assert_eq!(validate_seed(&seed, 3), Err(ModelError::Configuration));
    assert_eq!(
        process_arguments(&args(&["prog", "corpus.txt", "3", "x y"])),
        Err(ModelError::Configuration)
    );
}

#[test]
fn seed_as_long_as_n_is_accepted() {
    let seed = args(&["x", "y"]);
    assert_eq!(validate_seed(&seed, 2), Ok(()));
    assert_eq!(validate_seed(&seed, 1), Ok(()));
    assert_eq!(validate_seed(&seed, 0), Ok(()));
    assert_eq!(validate_seed(&Vec::new(), 0), Ok(()));
    assert_eq!(validate_seed(&Vec::new(), 1), Err(ModelError::Configuration));
}

#[test]
fn missing_arguments_take_their_defaults() {
    let expected = Ok(("data/sherlock_holmes.txt".to_string(), 2, args(&["i", "confess"])));
    assert_eq!(process_arguments(&args(&["prog"])), expected);
    assert_eq!(process_arguments(&Vec::new()), expected);
    assert_eq!(
        process_arguments(&args(&["prog", "book.txt"])),
        Ok(("book.txt".to_string(), 2, args(&["i", "confess"])))
    );
    assert_eq!(
        process_arguments(&args(&["prog", "book.txt", "1"])),
        Ok(("book.txt".to_string(), 1, args(&["i", "confess"])))
    );
}

#[test]
fn all_three_arguments_are_read() {
    assert_eq!(
        process_arguments(&args(&["prog", "book.txt", "3", "  once upon\ta time "])),
        Ok(("book.txt".to_string(), 3, args(&["once", "upon", "a", "time"])))
    );
    assert_eq!(
        process_arguments(&args(&["prog", "book.txt", "0", "", "ignored"])),
        Ok(("book.txt".to_string(), 0, Vec::new()))
    );
}

#[test]
fn default_seed_is_too_short_for_three_words() {
    assert_eq!(
        process_arguments(&args(&["prog", "book.txt", "3"])),
        Err(ModelError::Configuration)
    );
}

#[test]
fn context_length_that_is_no_number_is_an_argument_error() {
    for bad in ["two", "", "+", "-1", "1.5", " 2", "2 ", "1_000", "0x10", "٣"] {
        assert_eq!(
            process_arguments(&args(&["prog", "book.txt", bad, "a b c"])),
            Err(ModelError::Argument),
            "{:?}",
            bad
        );
    }
    assert_eq!(
        process_arguments(&args(&["prog", "book.txt", "x", ""])),
        Err(ModelError::Argument)
    );
}

#[test]
fn parse_count_reads_decimal_numbers() {
    assert_eq!(parse_count("0"), Some(0));
    assert_eq!(parse_count("7"), Some(7));
    assert_eq!(parse_count("42"), Some(42));
    assert_eq!(parse_count("+42"), Some(42));
    assert_eq!(parse_count("007"), Some(7));
    assert_eq!(parse_count("1234567890"), Some(1234567890));
    assert_eq!(parse_count(&usize::MAX.to_string()), Some(usize::MAX));
}

#[test]
fn parse_count_agrees_with_the_standard_parser() {
    let samples = [
        "", "+", "-", "++1", "+-1", "-0", "0", "+0", "00", "9", "10", "99999",
        "18446744073709551615", "18446744073709551616", "99999999999999999999999", "1a", "a1",
        "1 ", " 1", "1\n", "１２", "1e3", "+18446744073709551615", "4294967295", "4294967296",
    ];
    for text in samples {
        assert_eq!(parse_count(text), text.parse::<usize>().ok(), "{:?}", text);
    }
}

#[test]
fn split_whitespace_gives_the_runs_between_whitespace() {
    assert_eq!(split_whitespace("i confess"), args(&["i", "confess"]));
    assert_eq!(split_whitespace("  a  b\tc\n"), args(&["a", "b", "c"]));
    assert_eq!(split_whitespace("single"), args(&["single"]));
    assert_eq!(split_whitespace(""), Vec::<String>::new());
    assert_eq!(split_whitespace(" \t\r\n"), Vec::<String>::new());
    assert_eq!(split_whitespace("naïve café\u{a0}über"), args(&["naïve", "café", "über"]));
    assert_eq!(split_whitespace("a\u{3000}b\u{2003}c\u{85}d"), args(&["a", "b", "c", "d"]));
    assert_eq!(split_whitespace("a\u{200b}b"), args(&["a\u{200b}b"]));
}

#[test]
fn split_whitespace_agrees_with_the_standard_splitter() {
    let samples = [
        "the quick  brown\tfox",
        " leading and trailing ",
        "\u{1680}ogham\u{2028}line\u{2029}para\u{202f}narrow\u{205f}math",
        "x\u{b}y\u{c}z\u{1c}w\u{180e}v",
        "tab\there\nnewline\r\nwindows",
    ];
    for text in samples {
        let expected: Vec<String> = text.split_whitespace().map(|w| w.to_string()).collect();
        assert_eq!(split_whitespace(text), expected, "{:?}", text);
    }
}

#[test]
fn whitespace_characters_are_those_of_unicode() {
    for code in 0..0x11_0000u32 {
        if let Some(c) = char::from_u32(code) {
            assert_eq!(char_is_whitespace(c), c.is_whitespace(), "U+{:04X}", code);
        }
    }
}

#[test]
fn joins_put_one_space_between_neighbours() {
    let strs = vec!["a", "b", "c", "d"];
    assert_eq!(join_strs(&strs, 0, 4), "a b c d");
    assert_eq!(join_strs(&strs, 1, 3), "b c");
    assert_eq!(join_strs(&strs, 2, 3), "c");
    assert_eq!(join_strs(&strs, 2, 2), "");
    assert_eq!(join_strs(&strs, 4, 4), "");
    let strings = args(&["x", "", "y z"]);
    assert_eq!(join_strings(&strings, 0, 3), "x  y z");
    assert_eq!(join_strings(&strings, 0, 1), "x");
    assert_eq!(join_strings(&strings, 1, 2), "");
    assert_eq!(join_strings(&strings, 0, 0), "");
}
