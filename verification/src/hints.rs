//! Parsing of hinted-scan input text: a letter line is normalized, a
//! length-hint matrix becomes per-letter allowed lengths, and a letter list
//! becomes starting prefixes.

use vstd::prelude::*;
use vstd::seq_lib::*;

verus! {

/// An ASCII uppercase letter folded to lowercase; other bytes unchanged.
pub open spec fn lower_byte(b: u8) -> u8 {
    if 65 <= b <= 90 {
        (b + 32) as u8
    } else {
        b
    }
}

/// The byte is ASCII whitespace.
pub open spec fn is_space(b: u8) -> bool {
    b == 9 || b == 10 || b == 11 || b == 12 || b == 13 || b == 32
}

/// `s` folded to lowercase with all whitespace removed.
pub open spec fn normalized(s: Seq<u8>) -> Seq<u8> {
    s.map_values(|b: u8| lower_byte(b)).filter(|b: u8| !is_space(b))
}

/// The segments of `data` between newlines, empty segments kept; `cur` is
/// the partial segment read so far.
pub open spec fn split_lines_all(data: Seq<u8>, cur: Seq<u8>) -> Seq<Seq<u8>>
    decreases data.len(),
{
    if data.len() == 0 {
        seq![cur]
    } else if data[0] == 10 {
        seq![cur] + split_lines_all(data.drop_first(), seq![])
    } else {
        split_lines_all(data.drop_first(), cur.push(data[0]))
    }
}

/// The whitespace-separated tokens of `line`; `cur` is the partial token
/// read so far.
pub open spec fn tokens(line: Seq<u8>, cur: Seq<u8>) -> Seq<Seq<u8>>
    decreases line.len(),
{
    if line.len() == 0 {
        if cur.len() == 0 {
            seq![]
        } else {
            seq![cur]
        }
    } else if is_space(line[0]) {
        (if cur.len() == 0 {
            seq![]
        } else {
            seq![cur]
        }) + tokens(line.drop_first(), seq![])
    } else {
        tokens(line.drop_first(), cur.push(line[0]))
    }
}

/// The allowed lengths named by tokens 1 through 5 of a matrix line: token
/// `i`, when present and not `-`, allows words of length `i + 3`.
pub open spec fn lens_from(parts: Seq<Seq<u8>>, i: int) -> Seq<usize>
    decreases 6 - i,
{
    if i < 1 || i >= 6 {
        seq![]
    } else {
        (if i < parts.len() && parts[i] != seq![45u8] {
            seq![(i + 3) as usize]
        } else {
            seq![]
        }) + lens_from(parts, i + 1)
    }
}

/// What one matrix line contributes: nothing for an empty line or one whose
/// first byte is not an allowed letter, else that letter with its lengths.
pub open spec fn line_hint(line: Seq<u8>, allowed: Seq<u8>) -> Option<(u8, Seq<usize>)> {
    if line.len() == 0 {
        None
    } else if !allowed.contains(line[0]) {
        None
    } else {
        Some((line[0], lens_from(tokens(line, seq![]), 1)))
    }
}

/// The hints of the lines from index `j` on, in line order.
pub open spec fn hints_from_lines(ls: Seq<Seq<u8>>, allowed: Seq<u8>, j: int) -> Seq<
    (u8, Seq<usize>),
>
    decreases ls.len() - j,
{
    if j < 0 || j >= ls.len() {
        seq![]
    } else {
        (match line_hint(ls[j], allowed) {
            Some(h) => seq![h],
            None => seq![],
        }) + hints_from_lines(ls, allowed, j + 1)
    }
}

/// The per-letter length hints a matrix text holds, after case folding.
pub open spec fn length_hints_spec(data: Seq<u8>, allowed: Seq<u8>) -> Seq<(u8, Seq<usize>)> {
    hints_from_lines(split_lines_all(data.map_values(|b: u8| lower_byte(b)), seq![]), allowed, 0)
}

/// The starting prefixes a letter list holds: scanning left to right, two
/// adjacent allowed letters form a prefix and are both consumed; any other
/// byte is dropped.
pub open spec fn start_pairs(s: Seq<u8>, allowed: Seq<u8>, i: int) -> Seq<Seq<u8>>
    decreases s.len() - i,
{
    if i < 0 || i + 1 >= s.len() {
        seq![]
    } else if allowed.contains(s[i]) && allowed.contains(s[i + 1]) {
        seq![seq![s[i], s[i + 1]]] + start_pairs(s, allowed, i + 2)
    } else {
        start_pairs(s, allowed, i + 1)
    }
}

/// The model of parsed hints: each entry's letter and lengths.
pub open spec fn hints_model(s: Seq<(u8, Vec<usize>)>) -> Seq<(u8, Seq<usize>)> {
    s.map_values(|p: (u8, Vec<usize>)| (p.0, p.1@))
}

/// The model of parsed prefixes: each pair's bytes.
pub open spec fn pairs_model(s: Seq<[u8; 2]>) -> Seq<Seq<u8>> {
    s.map_values(|p: [u8; 2]| p@)
}

/// Folds ASCII uppercase letters to lowercase.
pub fn fold_lower(s: &[u8]) -> (out: Vec<u8>)
    ensures
        out@ == s@.map_values(|b: u8| lower_byte(b)),
{
    let mut out: Vec<u8> = Vec::new();
    let mut i: usize = 0;
    while i < s.len()
        invariant
            i <= s@.len(),
            out@.len() == i,
            forall|k: int| 0 <= k < i ==> out@[k] == lower_byte(#[trigger] s@[k]),
        decreases s@.len() - i,
    {
        let b = s[i];
        if 65 <= b && b <= 90 {
            out.push(b + 32);
        } else {
            out.push(b);
        }
        i = i + 1;
    }
    proof {
        assert(out@ =~= s@.map_values(|b: u8| lower_byte(b)));
    }
    out
}

/// Whether the byte is ASCII whitespace.
fn space_byte(b: u8) -> (r: bool)
    ensures
        r == is_space(b),
{
    b == 9 || b == 10 || b == 11 || b == 12 || b == 13 || b == 32
}

/// Whether `b` is one of the bytes of `letters`.
fn allowed_byte(letters: &Vec<u8>, b: u8) -> (r: bool)
    ensures
        r == letters@.contains(b),
{
    let mut i: usize = 0;
    while i < letters.len()
        invariant
            i <= letters@.len(),
            forall|k: int| 0 <= k < i ==> letters@[k] != b,
        decreases letters@.len() - i,
    {
        if letters[i] == b {
            return true;
        }
        i = i + 1;
    }
    false
}

/// Folds a letter line to lowercase and strips its whitespace.
pub fn normalize_letters(input: &[u8]) -> (out: Vec<u8>)
    ensures
        out@ == normalized(input@),
{
    broadcast use vstd::seq_lib::group_filter_ensures;

    let folded = fold_lower(input);
    let ghost f = folded@;
    let mut out: Vec<u8> = Vec::new();
    let mut i: usize = 0;
    proof {
        reveal_with_fuel(Seq::filter, 2);
        assert(f.take(0) =~= Seq::<u8>::empty());
        assert(out@ =~= f.take(0).filter(|b: u8| !is_space(b)));
    }
    while i < folded.len()
        invariant
            i <= f.len(),
            f == folded@,
            out@ == f.take(i as int).filter(|b: u8| !is_space(b)),
        decreases f.len() - i,
    {
        let b = folded[i];
        proof {
            reveal_with_fuel(Seq::filter, 2);
            assert(f.take(i + 1).drop_last() =~= f.take(i as int));
            assert(f.take(i + 1).last() == f[i as int]);
        }
        if !space_byte(b) {
            out.push(b);
        }
        i = i + 1;
    }
    proof {
        assert(f.take(f.len() as int) =~= f);
    }
    out
}

/// Splits on a separator byte, keeping empty segments.
fn split_all(data: &Vec<u8>) -> (out: Vec<Vec<u8>>)
    ensures
        crate::words_dict::words_model(out@) == split_lines_all(data@, seq![]),
{
    let ghost target = split_lines_all(data@, seq![]);
    let mut out: Vec<Vec<u8>> = Vec::new();
    let mut cur: Vec<u8> = Vec::new();
    let mut i: usize = 0;
    proof {
        assert(data@.skip(0) =~= data@);
        assert(crate::words_dict::words_model(out@) + split_lines_all(data@.skip(0), cur@)
            =~= target);
    }
    while i < data.len()
        invariant
            i <= data@.len(),
            crate::words_dict::words_model(out@) + split_lines_all(data@.skip(i as int), cur@)
                == target,
        decreases data@.len() - i,
    {
        let b = data[i];
        proof {
            assert(data@.skip(i as int)[0] == data@[i as int]);
            assert(data@.skip(i as int).drop_first() =~= data@.skip(i + 1));
        }
        if b == 10 {
            let ghost old_out = out@;
            let ghost old_cur = cur@;
            out.push(cur);
            cur = Vec::new();
            proof {
                assert(crate::words_dict::words_model(out@) =~= crate::words_dict::words_model(
                    old_out,
                ) + seq![old_cur]);
                assert(cur@ =~= Seq::<u8>::empty());
                assert(crate::words_dict::words_model(out@) + split_lines_all(
                    data@.skip(i + 1),
                    cur@,
                ) =~= (crate::words_dict::words_model(old_out) + split_lines_all(
                    data@.skip(i as int),
                    old_cur,
                )));
            }
        } else {
            cur.push(b);
        }
        i = i + 1;
    }
    let ghost old_out = out@;
    let ghost old_cur = cur@;
    out.push(cur);
    proof {
        assert(data@.skip(i as int) =~= Seq::<u8>::empty());
        assert(crate::words_dict::words_model(out@) =~= crate::words_dict::words_model(old_out)
            + seq![old_cur]);
        assert(crate::words_dict::words_model(out@) =~= target);
    }
    out
}

/// Splits a line into its whitespace-separated tokens.
fn tokenize(line: &Vec<u8>) -> (out: Vec<Vec<u8>>)
    ensures
        crate::words_dict::words_model(out@) == tokens(line@, seq![]),
{
    let ghost target = tokens(line@, seq![]);
    let mut out: Vec<Vec<u8>> = Vec::new();
    let mut cur: Vec<u8> = Vec::new();
    let mut i: usize = 0;
    proof {
        assert(line@.skip(0) =~= line@);
        assert(crate::words_dict::words_model(out@) + tokens(line@.skip(0), cur@) =~= target);
    }
    while i < line.len()
        invariant
            i <= line@.len(),
            crate::words_dict::words_model(out@) + tokens(line@.skip(i as int), cur@) == target,
        decreases line@.len() - i,
    {
        let b = line[i];
        proof {
            assert(line@.skip(i as int)[0] == line@[i as int]);
            assert(line@.skip(i as int).drop_first() =~= line@.skip(i + 1));
        }
        if space_byte(b) {
            if cur.len() > 0 {
                let ghost old_out = out@;
                let ghost old_cur = cur@;
                out.push(cur);
                cur = Vec::new();
                proof {
                    assert(crate::words_dict::words_model(out@) =~= crate::words_dict::words_model(
                        old_out,
                    ) + seq![old_cur]);
                    assert(cur@ =~= Seq::<u8>::empty());
                    assert(crate::words_dict::words_model(out@) + tokens(line@.skip(i + 1), cur@)
                        =~= (crate::words_dict::words_model(old_out) + tokens(
                        line@.skip(i as int),
                        old_cur,
                    )));
                }
            } else {
                proof {
                    assert(cur@ =~= Seq::<u8>::empty());
                    assert(Seq::<Seq<u8>>::empty() + tokens(line@.skip(i + 1), seq![]) =~= tokens(
                        line@.skip(i + 1),
                        seq![],
                    ));
                    assert(tokens(line@.skip(i as int), cur@) == tokens(line@.skip(i + 1), cur@));
                }
            }
        } else {
            cur.push(b);
        }
        i = i + 1;
    }
    if cur.len() > 0 {
        let ghost old_out = out@;
        let ghost old_cur = cur@;
        out.push(cur);
        proof {
            assert(line@.skip(i as int) =~= Seq::<u8>::empty());
            assert(crate::words_dict::words_model(out@) =~= crate::words_dict::words_model(old_out)
                + seq![old_cur]);
            assert(crate::words_dict::words_model(out@) =~= target);
        }
    } else {
        proof {
            assert(line@.skip(i as int) =~= Seq::<u8>::empty());
            assert(cur@ =~= Seq::<u8>::empty());
            assert(crate::words_dict::words_model(out@) + tokens(line@.skip(i as int), cur@)
                =~= crate::words_dict::words_model(out@));
        }
    }
    out
}

/// Reads one matrix line's allowed lengths from its tokens.
fn lens_of_tokens(toks: &Vec<Vec<u8>>) -> (out: Vec<usize>)
    ensures
        out@ == lens_from(crate::words_dict::words_model(toks@), 1),
{
    let ghost parts = crate::words_dict::words_model(toks@);
    let mut out: Vec<usize> = Vec::new();
    let mut i: usize = 1;
    proof {
        assert(out@ + lens_from(parts, 1) =~= lens_from(parts, 1));
    }
    while i < 6
        invariant
            1 <= i <= 6,
            parts == crate::words_dict::words_model(toks@),
            out@ + lens_from(parts, i as int) == lens_from(parts, 1),
        decreases 6 - i,
    {
        let ghost old_out = out@;
        if i < toks.len() {
            let tok = &toks[i];
            let dash = tok.len() == 1 && tok[0] == 45;
            proof {
                if dash {
                    assert(parts[i as int] =~= seq![45u8]);
                } else {
                    assert(parts[i as int] != seq![45u8]);
                }
            }
            if !dash {
                out.push(i + 3);
                proof {
                    assert(out@ =~= old_out + seq![(i + 3) as usize]);
                    assert(old_out + lens_from(parts, i as int) =~= out@ + lens_from(
                        parts,
                        i + 1,
                    ));
                }
            } else {
                proof {
                    assert(lens_from(parts, i as int) =~= lens_from(parts, i + 1));
                }
            }
        } else {
            proof {
                assert(lens_from(parts, i as int) =~= lens_from(parts, i + 1));
            }
        }
        i = i + 1;
    }
    proof {
        assert(lens_from(parts, 6) =~= Seq::<usize>::empty());
        assert(out@ + Seq::<usize>::empty() =~= out@);
    }
    out
}

/// Reads a length-hint matrix: one line per starting letter, the letter
/// first, then up to five columns whose entry `-` withholds the length
/// `column + 3`. Lines whose first byte is not an allowed letter are
/// dropped. The text is case folded first.
pub fn parse_length_hints(matrix: &[u8], allowed: &Vec<u8>) -> (out: Vec<(u8, Vec<usize>)>)
    ensures
        hints_model(out@) == length_hints_spec(matrix@, allowed@),
{
    let folded = fold_lower(matrix);
    let lines = split_all(&folded);
    let ghost ls = crate::words_dict::words_model(lines@);
    let ghost target = hints_from_lines(ls, allowed@, 0);
    let mut out: Vec<(u8, Vec<usize>)> = Vec::new();
    let mut j: usize = 0;
    proof {
        assert(hints_model(out@) + hints_from_lines(ls, allowed@, 0) =~= target);
    }
    while j < lines.len()
        invariant
            j <= ls.len(),
            ls == crate::words_dict::words_model(lines@),
            hints_model(out@) + hints_from_lines(ls, allowed@, j as int) == target,
        decreases ls.len() - j,
    {
        let line = &lines[j];
        let ghost old_model = hints_model(out@);
        if line.len() > 0 && allowed_byte(allowed, line[0]) {
            let toks = tokenize(line);
            let lens = lens_of_tokens(&toks);
            let first = line[0];
            out.push((first, lens));
            proof {
                assert(line_hint(ls[j as int], allowed@) == Some(
                    (first, lens_from(tokens(line@, seq![]), 1)),
                ));
                assert(hints_model(out@) =~= old_model + seq![
                    (first, lens_from(tokens(line@, seq![]), 1)),
                ]);
                assert(hints_model(out@) + hints_from_lines(ls, allowed@, j + 1) =~= (old_model
                    + hints_from_lines(ls, allowed@, j as int)));
            }
        } else {
            proof {
                assert(line_hint(ls[j as int], allowed@).is_none());
                assert(hints_from_lines(ls, allowed@, j as int) =~= hints_from_lines(
                    ls,
                    allowed@,
                    j + 1,
                ));
            }
        }
        j = j + 1;
    }
    proof {
        assert(hints_from_lines(ls, allowed@, j as int) =~= Seq::<(u8, Seq<usize>)>::empty());
        assert(hints_model(out@) + Seq::<(u8, Seq<usize>)>::empty() =~= hints_model(out@));
    }
    out
}

/// Reads a letter list into starting prefixes: two adjacent allowed letters
/// form one prefix; any other byte is skipped. The text is case folded
/// first.
pub fn parse_start_letters(list: &[u8], allowed: &Vec<u8>) -> (out: Vec<[u8; 2]>)
    ensures
        pairs_model(out@) == start_pairs(list@.map_values(|b: u8| lower_byte(b)), allowed@, 0),
{
    let folded = fold_lower(list);
    let ghost f = folded@;
    let ghost target = start_pairs(f, allowed@, 0);
    let mut out: Vec<[u8; 2]> = Vec::new();
    let mut i: usize = 0;
    let n = folded.len();
    proof {
        assert(pairs_model(out@) + start_pairs(f, allowed@, 0) =~= target);
    }
    while n >= 2 && i < n - 1
        invariant
            f == folded@,
            n == f.len(),
            i <= n,
            pairs_model(out@) + start_pairs(f, allowed@, i as int) == target,
        decreases f.len() - i,
    {
        let ghost old_model = pairs_model(out@);
        if allowed_byte(allowed, folded[i]) && allowed_byte(allowed, folded[i + 1]) {
            let pair: [u8; 2] = [folded[i], folded[i + 1]];
            out.push(pair);
            proof {
                assert(pair@ =~= seq![f[i as int], f[i + 1]]);
                assert(pairs_model(out@) =~= old_model + seq![seq![f[i as int], f[i + 1]]]);
                assert(pairs_model(out@) + start_pairs(f, allowed@, i + 2) =~= (old_model
                    + start_pairs(f, allowed@, i as int)));
            }
            i = i + 2;
        } else {
            proof {
                assert(start_pairs(f, allowed@, i as int) =~= start_pairs(f, allowed@, i + 1));
            }
            i = i + 1;
        }
    }
    proof {
        assert(start_pairs(f, allowed@, i as int) =~= Seq::<Seq<u8>>::empty());
        assert(pairs_model(out@) + Seq::<Seq<u8>>::empty() =~= pairs_model(out@));
    }
    out
}

} // verus!
