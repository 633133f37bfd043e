use words::words_dict::WordsDict;
use words::words_shortcuts::WordsShortcuts;

fn load_words_text() -> &'static str {
    "a\naa\naah\naal\naals\naardvark\nabed\nabede\naccede\nace\naced\nadage\nagade\nb\nbade\nbadge\nbagel\nbaggage\nbead\nbee\nbeefed\ncabbage\ncafe\ncage\ncaged\ndab\ndace\ndecaf\ndee\ndeface\nefface\negad\negg\neke\nel\nelites\nelz\nesse\nfacade\nface\nfaced\nfade\ngad\ngaffe\ngage\nisland\nisle\nislet\nit\nits\nlee\nlens\nlilt\nlisle\nlittle\nlizes\nsizzle\nsleet\nslit\nsteel\nstile\nswizzle\nszell\ntell\ntest\ntile\ntilt\ntizzle\ntwist\nwells\nwelts\nweltz\nwez\nwilts\nwise\nwizes\nzest\nzestit\nzests\nzeta\nzettes\nzills\nzits\nzitswel\nziwitsel\nzizel\nzlwite\nzweisel\nzwiesel\nzwieselt"
}

#[test]
fn it_loads_words() {
    let dict = WordsDict::load(load_words_text().as_bytes());
    assert_eq!(dict.get(0).unwrap().as_slice(), b"a");
    assert!(dict.size() == 90);
}

#[test]
fn it_loads_words_one_letter_dict() {
    let dict = WordsDict::load(load_words_text().as_bytes());
    let shortcuts = WordsShortcuts::new(&dict);
    let letter = b'z';
    let range = shortcuts.search_range(&[letter]).unwrap();
    let words_from_dict: Vec<String> = dict.search_range(range, &[letter]);
    let words_from_words: Vec<String> = dict
        .iter()
        .iter()
        .filter(|w| w.starts_with(&[letter]))
        .map(|w| String::from_utf8_lossy(w).to_string())
        .collect();

    assert_eq!(words_from_dict.len(), words_from_words.len());
    assert_eq!(words_from_dict, words_from_words);
}

#[test]
fn it_loads_words_two_letter_dict() {
    let dict = WordsDict::load(load_words_text().as_bytes());
    let shortcuts = WordsShortcuts::new(&dict);
    let letters = b"zw";
    let range = shortcuts.search_range(letters).unwrap();
    let words_from_dict: Vec<String> = dict.search_range(range, letters);
    let words_from_words: Vec<String> = dict
        .iter()
        .iter()
        .filter(|w| w.starts_with(letters))
        .map(|w| String::from_utf8_lossy(w).to_string())
        .collect();

    assert_eq!(words_from_dict.len(), words_from_words.len());
    assert_eq!(words_from_dict, words_from_words);
}

#[test]
fn load_sorts_and_drops_empty_lines() {
    let dict = WordsDict::load(b"pear\n\napple\n\n\nmango\napple\n");
    assert_eq!(dict.size(), 4);
    assert_eq!(dict.get(0).unwrap().as_slice(), b"apple");
    assert_eq!(dict.get(1).unwrap().as_slice(), b"apple");
    assert_eq!(dict.get(2).unwrap().as_slice(), b"mango");
    assert_eq!(dict.get(3).unwrap().as_slice(), b"pear");
    assert!(dict.get(4).is_none());
}

#[test]
fn load_of_nothing_is_empty() {
    let dict = WordsDict::load(b"");
    assert_eq!(dict.size(), 0);
}

#[test]
fn load_keeps_word_without_trailing_newline() {
    let dict = WordsDict::load(b"pear\napple");
    assert_eq!(dict.size(), 2);
    assert_eq!(dict.get(0).unwrap().as_slice(), b"apple");
    assert_eq!(dict.get(1).unwrap().as_slice(), b"pear");
}

#[test]
fn iter_range_gives_the_subrange() {
    let dict = WordsDict::load(b"apple\nmango\npear\nplum\n");
    let slice = dict.iter_range(1..3);
    assert_eq!(slice.len(), 2);
    assert_eq!(slice[0].as_slice(), b"mango");
    assert_eq!(slice[1].as_slice(), b"pear");
}

#[test]
fn search_range_decodes_matching_words() {
    let dict = WordsDict::load(b"apple\nmango\npear\nplum\n");
    let found = dict.search_range(0..dict.size(), b"p");
    assert_eq!(found, vec!["pear".to_string(), "plum".to_string()]);
}
