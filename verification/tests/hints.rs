use words::hints::{normalize_letters, parse_length_hints, parse_start_letters};

fn allowed() -> Vec<u8> {
    b"abcdefg".to_vec()
}

#[test]
fn normalize_folds_case_and_strips_whitespace() {
    assert_eq!(normalize_letters(b" AbC d\n"), b"abcd".to_vec());
    assert_eq!(normalize_letters(b"zwieslt"), b"zwieslt".to_vec());
    assert_eq!(normalize_letters(b" \t\n"), Vec::<u8>::new());
}

#[test]
fn matrix_lines_become_length_hints() {
    let hints = parse_length_hints(b"a - 5 - 7 8\nx 4 5 6 7 8\nb 4", &allowed());
    assert_eq!(hints.len(), 2);
    assert_eq!(hints[0], (b'a', vec![5, 7, 8]));
    assert_eq!(hints[1], (b'b', vec![4]));
}

#[test]
fn any_entry_but_a_dash_allows_its_column_length() {
    let hints = parse_length_hints(b"a x x", &allowed());
    assert_eq!(hints, vec![(b'a', vec![4, 5])]);
}

#[test]
fn matrix_is_case_folded_and_blank_lines_are_dropped() {
    let hints = parse_length_hints(b"\nA 4 -\n\nG - 5\n", &allowed());
    assert_eq!(hints, vec![(b'a', vec![4]), (b'g', vec![5])]);
}

#[test]
fn letter_list_pairs_adjacent_allowed_letters() {
    let starts = parse_start_letters(b"AcAB", &allowed());
    assert_eq!(starts, vec![[b'a', b'c'], [b'a', b'b']]);
}

#[test]
fn letter_list_skips_bytes_outside_the_allowed_set() {
    let starts = parse_start_letters(b"a!cd", &allowed());
    assert_eq!(starts, vec![[b'c', b'd']]);
    assert_eq!(parse_start_letters(b"a", &allowed()), Vec::<[u8; 2]>::new());
    assert_eq!(parse_start_letters(b"", &allowed()), Vec::<[u8; 2]>::new());
}
