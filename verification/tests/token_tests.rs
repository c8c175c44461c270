use friable::filter::Filter;
use friable::token::Tokenizer;

#[test]
fn tokenize_test() {
    let tokenizer = Tokenizer::new_default();
    let tokens = tokenizer.tokenize("perro estúpido");
    assert_eq!(tokens[0], "perro");
    assert_eq!(tokens[1], "estúpido");
}

#[test]
fn tokenize_test_two() {
    let filter = Filter::new(vec![("+", true), ("(", true), (")", true), (",", true)]);
    let tokenizer = Tokenizer::new(filter);
    let tokens = tokenizer.tokenize("(+ 10, 10)");
    assert_eq!(tokens[0], "(");
    assert_eq!(tokens[tokens.len() - 1], ")");
}

#[test]
fn default_full_sequence_test() {
    let tokenizer = Tokenizer::new_default();
    let tokens = tokenizer.tokenize("perro estúpido");
    assert_eq!(tokens, ["perro", "estúpido"]);
}

#[test]
fn expression_full_sequence_test() {
    let filter = Filter::new(vec![("+", true), ("(", true), (")", true), (",", true)]);
    let tokenizer = Tokenizer::new(filter);
    let tokens = tokenizer.tokenize("(+ 10, 10)");
    assert_eq!(tokens, ["(", "+", "10", ",", "10", ")"]);
}

#[test]
fn empty_input_test() {
    let default_tokenizer = Tokenizer::new_default();
    assert!(default_tokenizer.tokenize("").is_empty());
    let filter = Filter::new(vec![(",", true), ("+", false)]);
    let tokenizer = Tokenizer::new(filter);
    assert!(tokenizer.tokenize("").is_empty());
}

#[test]
fn only_separators_test() {
    let filter = Filter::new(vec![(",", false), (";", false)]);
    let tokenizer = Tokenizer::new(filter);
    assert!(tokenizer.tokenize(",;,,;").is_empty());
    let default_tokenizer = Tokenizer::new_default();
    assert!(default_tokenizer.tokenize("     ").is_empty());
}

#[test]
fn kept_separators_emitted_test() {
    let mut filter = Filter::new(vec![(" ", false)]);
    filter.add_separator(("+", true));
    let tokenizer = Tokenizer::new(filter);
    let tokens = tokenizer.tokenize("a+b + c");
    assert_eq!(tokens, ["a", "+", "b", "+", "c"]);
}

#[test]
fn kept_space_is_suppressed_test() {
    let filter = Filter::new(vec![(" ", true)]);
    let tokenizer = Tokenizer::new(filter);
    let tokens = tokenizer.tokenize("a b");
    assert_eq!(tokens, ["a", "b"]);
}

#[test]
fn no_separator_in_input_test() {
    let tokenizer = Tokenizer::new_default();
    assert_eq!(tokenizer.tokenize("hello"), ["hello"]);
}

#[test]
fn tokens_are_trimmed_test() {
    let filter = Filter::new(vec![(",", false)]);
    let tokenizer = Tokenizer::new(filter);
    let tokens = tokenizer.tokenize("\t a b ,\n c \u{00A0}");
    assert_eq!(tokens, ["a b", "c"]);
}

#[test]
fn consecutive_separators_no_empty_tokens_test() {
    let tokenizer = Tokenizer::new_default();
    let tokens = tokenizer.tokenize("  uno   dos  ");
    assert_eq!(tokens, ["uno", "dos"]);
}

#[test]
fn multi_byte_characters_test() {
    let filter = Filter::new(vec![(",", true)]);
    let tokenizer = Tokenizer::new(filter);
    let tokens = tokenizer.tokenize("áé,ü ñ");
    assert_eq!(tokens, ["áé", ",", "ü ñ"]);
}

#[test]
fn non_separator_content_kept_in_order_test() {
    let filter = Filter::new(vec![(" ", false), (",", true)]);
    let tokenizer = Tokenizer::new(filter);
    let tokens = tokenizer.tokenize("ab ,cd,e f");
    assert_eq!(tokens, ["ab", ",", "cd", ",", "e", "f"]);
    let rejoined: String = tokens
        .iter()
        .flat_map(|t| t.chars())
        .filter(|c| *c != ' ' && *c != ',')
        .collect();
    let expected: String = "ab ,cd,e f"
        .chars()
        .filter(|c| *c != ' ' && *c != ',')
        .collect();
    assert_eq!(rejoined, expected);
}
