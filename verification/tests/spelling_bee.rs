use words::spelling_bee::{SpellingBee, SpellingBeeHintedParams, SpellingBeeSimpleParams,
    ValidationError};
use words::words_dict::WordsDict;
use words::words_shortcuts::WordsShortcuts;

fn words_text() -> &'static str {
    "a\naa\naah\naal\naals\naardvark\nabed\nabede\naccede\nace\naced\nadage\nagade\nb\nbade\nbadge\nbagel\nbaggage\nbead\nbee\nbeefed\ncabbage\ncafe\ncage\ncaged\ndab\ndace\ndecaf\ndee\ndeface\nefface\negad\negg\neke\nel\nelites\nelz\nesse\nfacade\nface\nfaced\nfade\ngad\ngaffe\ngage\nisland\nisle\nislet\nit\nits\nlee\nlens\nlilt\nlisle\nlittle\nlizes\nsizzle\nsleet\nslit\nsteel\nstile\nswizzle\nszell\ntell\ntest\ntile\ntilt\ntizzle\ntwist\nwells\nwelts\nweltz\nwez\nwilts\nwise\nwizes\nzest\nzestit\nzests\nzeta\nzettes\nzills\nzits\nzitswel\nziwitsel\nzizel\nzlwite\nzweisel\nzwiesel\nzwieselt"
}

fn fixture() -> (WordsDict, WordsShortcuts) {
    let dict = WordsDict::load(words_text().as_bytes());
    let shortcuts = WordsShortcuts::new(&dict);
    (dict, shortcuts)
}

#[test]
fn spelling_bee_it_finds_with_simple() {
    let (dict, shortcuts) = fixture();
    let game = SpellingBeeSimpleParams::new("zwieslt").unwrap();
    let words = game.scan_dict(&dict, &shortcuts);
    assert_eq!(words.len(), 20);
}

#[test]
fn it_finds_with_hinted_simple() {
    let (dict, shortcuts) = fixture();
    let game = SpellingBeeHintedParams::new("abcdefg", vec![], vec![]).unwrap();
    let words = game.scan_dict(&dict, &shortcuts);
    assert_eq!(words.len(), 25);
}

#[test]
fn it_finds_with_hinted_with_length() {
    let (dict, shortcuts) = fixture();
    let game = SpellingBeeHintedParams::new("abcdefg", vec![(b'a', vec![4])], vec![]).unwrap();
    let words = game.scan_dict(&dict, &shortcuts);
    assert_eq!(
        words.len(),
        words
            .iter()
            .filter(|w| w.starts_with('a') && w.len() == 4)
            .count()
    );
    assert_eq!(words.len(), 2);
}

#[test]
fn it_finds_with_hinted_with_starting() {
    let (dict, shortcuts) = fixture();
    let game = SpellingBeeHintedParams::new("abcdefg", vec![], vec![[b'a', b'c']]).unwrap();
    let words = game.scan_dict(&dict, &shortcuts);
    assert_eq!(
        words.len(),
        words
            .iter()
            .filter(|w| w.starts_with('a') || w.starts_with('c'))
            .count()
    );
    assert_eq!(words.len(), 2);
}

#[test]
fn it_finds_with_hinted_with_starting_and_length() {
    let (dict, shortcuts) = fixture();
    let game =
        SpellingBeeHintedParams::new("abcdefg", vec![(b'a', vec![4])], vec![[b'a', b'b']]).unwrap();
    let words = game.scan_dict(&dict, &shortcuts);
    assert_eq!(
        words.len(),
        words
            .iter()
            .filter(|w| w.starts_with('a') && w.len() == 4)
            .count()
    );
    assert_eq!(words.len(), 1);
}

#[test]
fn simple_scan_exact_words() {
    let (dict, shortcuts) = fixture();
    let game = SpellingBeeSimpleParams::new("zwieslt").unwrap();
    let words = game.scan_dict(&dict, &shortcuts);
    let expected = vec![
        "zest", "zestit", "zests", "zettes", "zills", "zits", "zitswel", "ziwitsel", "zizel",
        "zlwite", "zweisel", "zwiesel", "zwieselt", "weltz", "wizes", "sizzle", "swizzle", "szell",
        "lizes", "tizzle",
    ];
    assert_eq!(words, expected);
}

#[test]
fn hinted_exact_words() {
    let (dict, shortcuts) = fixture();
    let game = SpellingBeeHintedParams::new("abcdefg", vec![(b'a', vec![4])], vec![]).unwrap();
    let words = game.scan_dict(&dict, &shortcuts);
    assert_eq!(words, vec!["abed", "aced"]);
}

#[test]
fn too_few_letters_fails_validation() {
    let err = SpellingBeeSimpleParams::new("aabbccd").unwrap_err();
    assert_eq!(err, ValidationError::WrongLetterCount);
}

#[test]
fn too_many_letters_fails_validation() {
    let err = SpellingBeeSimpleParams::new("abcdefgh").unwrap_err();
    assert_eq!(err, ValidationError::WrongLetterCount);
}

#[test]
fn consecutive_repeats_collapse_to_seven() {
    let game = SpellingBeeSimpleParams::new("aabcdefg");
    assert!(game.is_ok());
}

#[test]
fn hinted_wrong_letter_count_fails_validation() {
    let err = SpellingBeeHintedParams::new("abc", vec![(b'a', vec![4])], vec![]).unwrap_err();
    assert_eq!(err, ValidationError::WrongLetterCount);
}

#[test]
fn scan_results_are_dictionary_words_and_pass_the_predicate() {
    let (dict, shortcuts) = fixture();
    let game = SpellingBeeSimpleParams::new("zwieslt").unwrap();
    let words = game.scan_dict(&dict, &shortcuts);
    let all: Vec<String> = dict.search_range(0..dict.size(), b"");
    for w in &words {
        assert!(all.contains(w));
        assert!(w.len() > 3 && w.len() <= 10);
        assert!(w.bytes().all(|b| b"zwieslt".contains(&b)));
        assert!(w.bytes().any(|b| b == b'z'));
    }
}

#[test]
fn hinted_skips_unnamed_buckets_entirely() {
    let (dict, shortcuts) = fixture();
    // hints name only `b`: every other starting letter's bucket is skipped
    let game = SpellingBeeHintedParams::new("abcdefg", vec![(b'b', vec![4, 5])], vec![]).unwrap();
    let words = game.scan_dict(&dict, &shortcuts);
    assert!(words.iter().all(|w| w.starts_with('b')));
    assert_eq!(words, vec!["bade", "badge", "bead"]);
}

#[test]
fn later_hint_overrides_earlier_one() {
    let (dict, shortcuts) = fixture();
    let game = SpellingBeeHintedParams::new(
        "abcdefg",
        vec![(b'a', vec![6]), (b'a', vec![4])],
        vec![],
    )
    .unwrap();
    let words = game.scan_dict(&dict, &shortcuts);
    assert_eq!(words, vec!["abed", "aced"]);
}
