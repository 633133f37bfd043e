use words::letter_boxed::LetterBoxed;

#[test]
fn letter_boxed_it_finds_with_simple() {
    let game = LetterBoxed::new(*b"abc", *b"def", *b"ghi", *b"jkl");
    let mut words: Vec<String> = game.search();
    words.sort();
    let expected: Vec<String> = vec![];
    assert_eq!(words, expected);
}
