use trustami::tokenizer::Tokenizer;

#[test]
fn tokenize_three_plain_words() {
    let input: Vec<char> = "good morning everyone".chars().collect();
    let expected = ["good", "morning", "everyone"];

    let mut tokenizer = Tokenizer::from_chars(&input);

    let mut index = 0;
    while let Some(token) = tokenizer.next_token() {
        assert_eq!(expected.get(index).unwrap().to_owned(), token);
        index += 1;
    }
    assert_eq!(index, 3);
}

#[test]
fn trim_leading() {
    let input = [' ', ' ', 'b', 'c'];

    let mut tokenizer = Tokenizer::from_chars(&input);

    tokenizer.trim_leading_whitespace();

    assert_eq!(tokenizer.remaining_chars(), ['b', 'c']);
}

#[test]
fn tokenizer_returns_none() {
    let input: Vec<char> = "          ".chars().collect();

    let mut tokenizer = Tokenizer::from_chars(&input);

    assert_eq!(None, tokenizer.next_token());
}

#[test]
fn tokenize_digits_and_punctuation() {
    let input: Vec<char> = "abc123!".chars().collect();
    let expected = ["abc", "123", "!"];

    let mut tokenizer = Tokenizer::from_chars(&input);

    let mut collected: Vec<String> = Vec::new();
    while let Some(token) = tokenizer.next_token() {
        collected.push(token);
    }
    assert_eq!(collected, expected);
}

#[test]
fn tokenize_mixed_whitespace_only_is_empty() {
    let input: Vec<char> = " \t\n  \r ".chars().collect();

    let mut tokenizer = Tokenizer::from_chars(&input);

    assert_eq!(None, tokenizer.next_token());
}
