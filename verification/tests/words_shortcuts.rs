use words::words_dict::WordsDict;
use words::words_shortcuts::WordsShortcuts;

fn shortcuts_words_text() -> &'static str {
    "a\naa\naah\naal\naals\naardvark\nabed\nabede\naccede\nace\naced\nadage\nagade\nb\nbade\nbadge\nbagel\nbaggage\nbead\nbee\nbeefed\ncabbage\ncafe\ncage\ncaged\ndab\ndace\ndecaf\ndee\ndeface\nefface\negad\negg\neke\nel\nelites\nelz\nesse\nfacade\nface\nfaced\nfade\ngad\ngaffe\ngage\nisland\nisle\nislet\nit\nits\nlee\nlens\nlilt\nlisle\nlittle\nlizes\nsizzle\nsleet\nslit\nsteel\nstile\nswizzle\nszell\ntell\ntest\ntile\ntilt\ntizzle\ntwist\nwells\nwelts\nweltz\nwez\nwilts\nwise\nwizes\nzest\nzestit\nzests\nzeta\nzettes\nzills\nzits\nzitswel\nziwitsel\nzizel\nzlwite\nzweisel\nzwiesel\nzwieselt"
}

fn shortcuts_fixture() -> (WordsDict, WordsShortcuts) {
    let dict = WordsDict::load(shortcuts_words_text().as_bytes());
    let shortcuts = WordsShortcuts::new(&dict);
    (dict, shortcuts)
}

#[test]
fn search_empty_letter() {
    let (dict, shortcuts) = shortcuts_fixture();
    let range = shortcuts.search_range(b"");
    assert_eq!(range, Some(0..dict.size()));
}

#[test]
fn search_not_found_letter() {
    let (_dict, shortcuts) = shortcuts_fixture();
    let range = shortcuts.search_range(b"zz");
    assert_eq!(range, None);
}

#[test]
fn search_one_letter() {
    let (_dict, shortcuts) = shortcuts_fixture();
    let range = shortcuts.search_range(b"a");
    assert_eq!(range, Some(0..13));
}

#[test]
fn search_two_letter() {
    let (_dict, shortcuts) = shortcuts_fixture();
    let range = shortcuts.search_range(b"aa");
    assert_eq!(range, Some(1..6));
}

#[test]
fn search_three_letter() {
    let (_dict, shortcuts) = shortcuts_fixture();
    let range = shortcuts.search_range(b"aaa");
    assert_eq!(range, Some(1..6));
}

#[test]
fn one_letter_range_is_exactly_the_bucket() {
    let (dict, shortcuts) = shortcuts_fixture();
    let all = dict.iter();
    for letter in b'a'..=b'z' {
        let expected: Vec<&Vec<u8>> = all.iter().filter(|w| w[0] == letter).collect();
        match shortcuts.search_range(&[letter]) {
            None => assert!(expected.is_empty()),
            Some(range) => {
                let got: Vec<&Vec<u8>> = all[range].iter().collect();
                assert_eq!(got, expected);
            }
        }
    }
}

#[test]
fn absent_one_letter_prefix_is_none() {
    let (_dict, shortcuts) = shortcuts_fixture();
    assert_eq!(shortcuts.search_range(b"h"), None);
    assert_eq!(shortcuts.search_range(b"q"), None);
}

#[test]
fn absent_two_letter_prefix_is_none() {
    let (_dict, shortcuts) = shortcuts_fixture();
    assert_eq!(shortcuts.search_range(b"ax"), None);
    assert_eq!(shortcuts.search_range(b"zz"), None);
}

#[test]
fn two_letter_range_sits_inside_the_one_letter_range() {
    let (_dict, shortcuts) = shortcuts_fixture();
    for first in b'a'..=b'z' {
        let outer = shortcuts.search_range(&[first]);
        for second in b'a'..=b'z' {
            if let Some(inner) = shortcuts.search_range(&[first, second]) {
                let outer = outer.clone().expect("a two-letter hit implies a one-letter hit");
                assert!(outer.start <= inner.start);
                assert!(inner.end <= outer.end);
            }
        }
    }
}

#[test]
fn long_queries_filter_inside_the_two_letter_bucket() {
    let (dict, shortcuts) = shortcuts_fixture();
    let found = words::words_shortcuts::search_words(&dict, &shortcuts, b"aar").unwrap();
    assert_eq!(found, vec!["aardvark"]);
    let whole_bucket = words::words_shortcuts::search_words(&dict, &shortcuts, b"aa").unwrap();
    assert_eq!(whole_bucket, vec!["aa", "aah", "aal", "aals", "aardvark"]);
    assert!(words::words_shortcuts::search_words(&dict, &shortcuts, b"qq").is_none());
}

#[test]
fn bucket_after_a_letter_boundary_sharing_second_letters_is_recorded() {
    // "caged" ends the c bucket and "dab" opens the d bucket with the same
    // second letter: the "da" bucket must still be found
    let (dict, shortcuts) = shortcuts_fixture();
    let range = shortcuts.search_range(b"da").unwrap();
    let words = dict.search_range(range, b"da");
    assert_eq!(words, vec!["dab", "dace"]);
}

#[test]
fn adjacent_buckets_sharing_second_letters_are_both_recorded() {
    let dict = WordsDict::load(b"az\nbz");
    let shortcuts = WordsShortcuts::new(&dict);
    assert_eq!(shortcuts.search_range(b"az"), Some(0..1));
    assert_eq!(shortcuts.search_range(b"bz"), Some(1..2));
}

#[test]
fn a_dictionary_need_not_begin_with_the_letter_a() {
    let dict = WordsDict::load(b"bat\nbit\ncat");
    let shortcuts = WordsShortcuts::new(&dict);
    assert_eq!(shortcuts.search_range(b"a"), None);
    assert_eq!(shortcuts.search_range(b"b"), Some(0..2));
    assert_eq!(shortcuts.search_range(b"ba"), Some(0..1));
    assert_eq!(shortcuts.search_range(b"bi"), Some(1..2));
    assert_eq!(shortcuts.search_range(b"c"), Some(2..3));
    assert_eq!(shortcuts.search_range(b"da"), None);
}

#[test]
fn folded_lookup_accepts_uppercase_prefixes() {
    let (_dict, shortcuts) = shortcuts_fixture();
    assert_eq!(shortcuts.search_range_folded(b"AA"), Some(1..6));
    assert_eq!(shortcuts.search_range_folded(b"Zw"), shortcuts.search_range(b"zw"));
    assert_eq!(shortcuts.search_range_folded(b"QQ"), None);
}

#[test]
fn two_letter_range_holds_the_prefix_bucket() {
    let (dict, shortcuts) = shortcuts_fixture();
    let range = shortcuts.search_range(b"zw").unwrap();
    let got = dict.search_range(range, b"zw");
    assert_eq!(got, vec!["zweisel", "zwiesel", "zwieselt"]);
}
