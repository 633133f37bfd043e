//! The constraint scanners for the seven-letter word puzzle: a simple
//! variant and a hinted variant with per-letter length constraints and
//! starting-prefix filters.

use std::collections::HashMap;
use vstd::prelude::*;
use vstd::string::StringSliceAdditionalSpecFns;

use crate::words_dict::{chars_of, words_lowercase, WordsDict};
use crate::words_shortcuts::{search_range_spec, WordsShortcuts};

verus! {

/// A word must be strictly longer than this to count.
pub const MIN_LENGTH: usize = 3;

/// A word must be no longer than this to count.
pub const MAX_LENGTH: usize = 10;

/// The puzzle hands out exactly this many distinct letters.
pub const LETTERS_COUNT: usize = 7;

/// Why scan parameters were rejected.
#[derive(Clone, Copy, Debug, PartialEq, Eq)]
pub enum ValidationError {
    /// The letter input, freed of consecutive repeats, did not hold exactly
    /// `LETTERS_COUNT` letters.
    WrongLetterCount,
}

/// `s` with consecutive repeated bytes collapsed to one.
pub open spec fn dedup_adjacent(s: Seq<u8>) -> Seq<u8>
    decreases s.len(),
{
    if s.len() == 0 {
        seq![]
    } else if s.len() == 1 {
        s
    } else if s[s.len() - 2] == s.last() {
        dedup_adjacent(s.drop_last())
    } else {
        dedup_adjacent(s.drop_last()).push(s.last())
    }
}

/// Collapses consecutive repeated bytes.
fn dedup_bytes(s: &[u8]) -> (out: Vec<u8>)
    ensures
        out@ == dedup_adjacent(s@),
        forall|k: int|
            0 <= k < out@.len() ==> exists|j: int|
                0 <= j < s@.len() && #[trigger] out@[k] == #[trigger] s@[j],
{
    let mut out: Vec<u8> = Vec::new();
    let mut i: usize = 0;
    proof {
        assert(s@.take(0) =~= Seq::<u8>::empty());
    }
    while i < s.len()
        invariant
            i <= s@.len(),
            out@ == dedup_adjacent(s@.take(i as int)),
            forall|k: int|
                0 <= k < out@.len() ==> exists|j: int|
                    0 <= j < s@.len() && #[trigger] out@[k] == #[trigger] s@[j],
        decreases s@.len() - i,
    {
        let ghost pre = s@.take(i as int);
        let ghost post = s@.take(i + 1);
        proof {
            assert(post.drop_last() =~= pre);
            assert(post.last() == s@[i as int]);
        }
        if i == 0 || s[i - 1] != s[i] {
            out.push(s[i]);
            proof {
                if i > 0 {
                    assert(post[post.len() - 2] == s@[i - 1]);
                } else {
                    assert(post.len() == 1);
                    assert(post =~= seq![s@[0]]);
                }
            }
        } else {
            proof {
                assert(post[post.len() - 2] == s@[i - 1]);
            }
        }
        i = i + 1;
    }
    proof {
        assert(s@.take(s@.len() as int) =~= s@);
    }
    out
}

/// Every byte of `w` is one of the allowed letters.
pub open spec fn word_in_letters(w: Seq<u8>, letters: Seq<u8>) -> bool {
    forall|i: int| 0 <= i < w.len() ==> letters.contains(#[trigger] w[i])
}

/// The shared predicate: the word is longer than `MIN_LENGTH` and no longer
/// than `MAX_LENGTH`, spelled from the allowed letters alone, and carries
/// the required letter.
pub open spec fn accepts(w: Seq<u8>, letters: Seq<u8>, required: u8) -> bool {
    &&& MIN_LENGTH < w.len() <= MAX_LENGTH
    &&& word_in_letters(w, letters)
    &&& w.contains(required)
}

/// The hinted predicate: the shared predicate, plus the allowed-length
/// check when hints are in force and name this word's starting letter.
pub open spec fn accepts_hinted(
    w: Seq<u8>,
    letters: Seq<u8>,
    required: u8,
    has_hints: bool,
    lens: Option<Seq<usize>>,
) -> bool {
    &&& (has_hints && lens.is_some() ==> lens.unwrap().contains(w.len() as usize))
    &&& accepts(w, letters, required)
}

/// The words of the bucket a one-letter query yields, in dictionary order.
pub open spec fn bucket1(d: Seq<Seq<u8>>, c: u8) -> Seq<Seq<u8>> {
    match search_range_spec(d, seq![c]) {
        None => seq![],
        Some((l, r)) => if 0 <= l <= r <= d.len() {
            d.subrange(l, r)
        } else {
            seq![]
        },
    }
}

/// The words of the range a two-letter query yields, in dictionary order.
pub open spec fn bucket2(d: Seq<Seq<u8>>, c: u8, f: u8) -> Seq<Seq<u8>> {
    match search_range_spec(d, seq![c, f]) {
        None => seq![],
        Some((l, r)) => if 0 <= l <= r <= d.len() {
            d.subrange(l, r)
        } else {
            seq![]
        },
    }
}

/// The simple scan over the first `j` allowed letters: each letter's bucket
/// filtered by the shared predicate, groups in caller order, dictionary
/// order within each group.
pub open spec fn scan_simple_spec(
    d: Seq<Seq<u8>>,
    letters: Seq<u8>,
    required: u8,
    j: int,
) -> Seq<Seq<u8>>
    decreases j,
{
    if j <= 0 {
        seq![]
    } else {
        scan_simple_spec(d, letters, required, j - 1) + bucket1(d, letters[j - 1]).filter(
            |w: Seq<u8>| accepts(w, letters, required),
        )
    }
}

/// The scanners' common surface: scan the dictionary through the shortcut
/// index and hand the matching words back as strings.
pub trait SpellingBee {
    /// The scan parameters are well formed.
    spec fn params_wf(&self) -> bool;

    /// The words this scan yields over the dictionary `d`.
    spec fn scan_spec(&self, d: Seq<Seq<u8>>) -> Seq<Seq<u8>>;

    /// Runs the scan. The shortcut index must have been built over the
    /// dictionary that is handed in beside it.
    fn scan_dict(&self, dict: &WordsDict, shortcuts: &WordsShortcuts) -> (r: Vec<String>)
        requires
            self.params_wf(),
            dict.wf(),
            words_lowercase(dict@),
            shortcuts.wf(),
            shortcuts.dict() == dict@,
        ensures
            r.deep_view() == self.scan_spec(dict@).map_values(|w: Seq<u8>| chars_of(w)),
    ;
}

/// Parameters of the simple scan: seven distinct lowercase letters, the
/// first of which is the required one.
#[derive(Debug)]
pub struct SpellingBeeSimpleParams {
    letters: Vec<u8>,
    required_letter: u8,
}

impl SpellingBeeSimpleParams {
    /// The allowed letters, in the order supplied.
    pub closed spec fn letters(&self) -> Seq<u8> {
        self.letters@
    }

    /// The designated must-appear letter.
    pub closed spec fn required(&self) -> u8 {
        self.required_letter
    }

    /// Exactly seven lowercase letters, the first of them required.
    pub open spec fn wf(&self) -> bool {
        &&& self.letters().len() == LETTERS_COUNT
        &&& self.required() == self.letters()[0]
        &&& forall|k: int| 0 <= k < self.letters().len() ==> 97 <= #[trigger] self.letters()[k] <= 122
    }

    /// First letter is the required one.
    /// Count of letters, freed of consecutive repeats, must equal
    /// `LETTERS_COUNT`, else validation fails.
    pub fn new(letters: &str) -> (r: Result<Self, ValidationError>)
        requires
            forall|k: int|
                0 <= k < letters.spec_bytes().len() ==> 97 <= #[trigger] letters.spec_bytes()[k]
                    <= 122,
        ensures
            match r {
                Ok(p) => {
                    &&& dedup_adjacent(letters.spec_bytes()).len() == LETTERS_COUNT
                    &&& p.wf()
                    &&& p.letters() == dedup_adjacent(letters.spec_bytes())
                    &&& p.required() == dedup_adjacent(letters.spec_bytes())[0]
                },
                Err(e) => {
                    &&& dedup_adjacent(letters.spec_bytes()).len() != LETTERS_COUNT
                    &&& e == ValidationError::WrongLetterCount
                },
            },
    {
        let bytes = letters.as_bytes();
        let deduped = dedup_bytes(bytes);
        if deduped.len() != LETTERS_COUNT {
            return Err(ValidationError::WrongLetterCount);
        }
        let required_letter = deduped[0];
        Ok(SpellingBeeSimpleParams { letters: deduped, required_letter })
    }
}

/// Whether `b` is one of the bytes of `letters`.
fn contains_byte(letters: &Vec<u8>, b: u8) -> (r: bool)
    ensures
        r == letters@.contains(b),
{
    let mut i: usize = 0;
    while i < letters.len()
        invariant
            i <= letters@.len(),
            forall|k: int| 0 <= k < i ==> letters@[k] != b,
        decreases letters@.len() - i,
    {
        if letters[i] == b {
            return true;
        }
        i = i + 1;
    }
    false
}

/// Decides the shared predicate for one word.
fn accepts_word(w: &Vec<u8>, letters: &Vec<u8>, required: u8) -> (r: bool)
    ensures
        r == accepts(w@, letters@, required),
{
    if w.len() <= MIN_LENGTH || w.len() > MAX_LENGTH {
        return false;
    }
    let mut has_required = false;
    let mut i: usize = 0;
    while i < w.len()
        invariant
            i <= w@.len(),
            forall|k: int| 0 <= k < i ==> letters@.contains(#[trigger] w@[k]),
            has_required == exists|k: int| 0 <= k < i && w@[k] == required,
        decreases w@.len() - i,
    {
        let b = w[i];
        if !contains_byte(letters, b) {
            return false;
        }
        if b == required {
            has_required = true;
        }
        i = i + 1;
    }
    has_required
}

impl SpellingBee for SpellingBeeSimpleParams {
    open spec fn params_wf(&self) -> bool {
        self.wf()
    }

    open spec fn scan_spec(&self, d: Seq<Seq<u8>>) -> Seq<Seq<u8>> {
        scan_simple_spec(d, self.letters(), self.required(), self.letters().len() as int)
    }

    /// For each allowed letter in caller order: look the letter's bucket up
    /// and keep its words that pass the shared predicate.
    fn scan_dict(&self, dict: &WordsDict, shortcuts: &WordsShortcuts) -> (r: Vec<String>) {
        let ghost d = dict@;
        let ghost letters = self.letters();
        let ghost required = self.required();
        let ghost pred = |w: Seq<u8>| accepts(w, letters, required);
        let mut res: Vec<String> = Vec::new();
        let mut j: usize = 0;
        proof {
            assert(res.deep_view() =~= scan_simple_spec(d, letters, required, 0).map_values(
                |w: Seq<u8>| chars_of(w),
            ));
        }
        while j < self.letters.len()
            invariant
                self.wf(),
                dict.wf(),
                words_lowercase(d),
                shortcuts.wf(),
                shortcuts.dict() == d,
                d == dict@,
                letters == self.letters(),
                required == self.required(),
                pred == (|w: Seq<u8>| accepts(w, letters, required)),
                j <= letters.len(),
                res.deep_view() == scan_simple_spec(d, letters, required, j as int).map_values(
                    |w: Seq<u8>| chars_of(w),
                ),
            decreases letters.len() - j,
        {
            let c = self.letters[j];
            let prefix: [u8; 1] = [c];
            proof {
                assert(prefix@ =~= seq![c]);
            }
            let rg = shortcuts.search_range(prefix.as_slice());
            let ghost before = res.deep_view();
            match rg {
                None => {
                    proof {
                        assert(bucket1(d, c) =~= Seq::<Seq<u8>>::empty());
                        reveal_with_fuel(Seq::filter, 2);
                        assert(bucket1(d, c).filter(pred) =~= Seq::<Seq<u8>>::empty());
                    }
                },
                Some(range) => {
                    scan_bucket(&mut res, dict, range.start, range.end, &self.letters,
                        self.required_letter);
                    proof {
                        assert(bucket1(d, c) == d.subrange(range.start as int, range.end as int));
                        assert(res.deep_view() =~= before + bucket1(d, c).filter(pred).map_values(
                            |w: Seq<u8>| chars_of(w),
                        ));
                    }
                },
            }
            proof {
                let s0 = scan_simple_spec(d, letters, required, j as int);
                let s1 = scan_simple_spec(d, letters, required, j + 1);
                assert(s1 == s0 + bucket1(d, letters[j as int]).filter(pred));
                assert(s1.map_values(|w: Seq<u8>| chars_of(w)) =~= s0.map_values(
                    |w: Seq<u8>| chars_of(w),
                ) + bucket1(d, letters[j as int]).filter(pred).map_values(|w: Seq<u8>| chars_of(w)));
                assert(res.deep_view() =~= s1.map_values(|w: Seq<u8>| chars_of(w)));
            }
            j = j + 1;
        }
        res
    }
}

/// Appends to `res` the words of the index interval that pass the shared
/// predicate, decoded to strings, in dictionary order.
fn scan_bucket(
    res: &mut Vec<String>,
    dict: &WordsDict,
    start: usize,
    end: usize,
    letters: &Vec<u8>,
    required: u8,
)
    requires
        dict.wf(),
        words_lowercase(dict@),
        start <= end <= dict@.len(),
    ensures
        final(res).deep_view() == old(res).deep_view() + dict@.subrange(
            start as int,
            end as int,
        ).filter(|w: Seq<u8>| accepts(w, letters@, required)).map_values(|w: Seq<u8>| chars_of(w)),
{
    let ghost d = dict@;
    let ghost pred = |w: Seq<u8>| accepts(w, letters@, required);
    let ghost before = res.deep_view();
    let mut i: usize = start;
    proof {
        reveal_with_fuel(Seq::filter, 2);
        assert(d.subrange(start as int, start as int) =~= Seq::<Seq<u8>>::empty());
        assert(res.deep_view() =~= before + d.subrange(start as int, start as int).filter(
            pred,
        ).map_values(|w: Seq<u8>| chars_of(w)));
    }
    while i < end
        invariant
            dict.wf(),
            words_lowercase(d),
            d == dict@,
            start <= i <= end <= d.len(),
            pred == (|w: Seq<u8>| accepts(w, letters@, required)),
            res.deep_view() == before + d.subrange(start as int, i as int).filter(pred).map_values(
                |w: Seq<u8>| chars_of(w),
            ),
        decreases end - i,
    {
        let w = dict.get(i).unwrap();
        let keep = accepts_word(w, letters, required);
        proof {
            let a = d.subrange(start as int, i as int);
            let b = d.subrange(start as int, i + 1);
            assert(b =~= a.push(d[i as int]));
            reveal_with_fuel(Seq::filter, 2);
            assert(b.drop_last() =~= a);
            assert(b.last() == d[i as int]);
        }
        if keep {
            let ghost old_deep = res.deep_view();
            let s = crate::words_dict::bytes_to_string(w.as_slice());
            res.push(s);
            proof {
                let a = d.subrange(start as int, i as int);
                let b = d.subrange(start as int, i + 1);
                assert(b.filter(pred) == a.filter(pred).push(d[i as int]));
                assert(res.deep_view() =~= old_deep.push(s@));
                assert(res.deep_view() =~= before + b.filter(pred).map_values(
                    |w2: Seq<u8>| chars_of(w2),
                ));
            }
        } else {
            proof {
                let a = d.subrange(start as int, i as int);
                let b = d.subrange(start as int, i + 1);
                assert(b.filter(pred) == a.filter(pred));
            }
        }
        i = i + 1;
    }
}

/// The length hint recorded for starting letter `c`, if any.
pub open spec fn hint_of(m: Map<u8, Vec<usize>>, c: u8) -> Option<Seq<usize>> {
    if m.contains_key(c) {
        Some(m[c]@)
    } else {
        None
    }
}

/// The lengths a borrowed hint entry allows.
pub open spec fn lens_view(o: Option<&Vec<usize>>) -> Option<Seq<usize>> {
    match o {
        Some(v) => Some(v@),
        None => None,
    }
}

/// The hint map a listing of pairs builds: a later pair overrides an
/// earlier one with the same starting letter.
pub open spec fn map_of_pairs(s: Seq<(u8, Vec<usize>)>) -> Map<u8, Vec<usize>>
    decreases s.len(),
{
    if s.len() == 0 {
        Map::empty()
    } else {
        map_of_pairs(s.drop_last()).insert(s.last().0, s.last().1)
    }
}

/// What the hinted scan keeps of one starting letter's bucket: nothing at
/// all when hints are in force but name no lengths for this letter, else
/// the bucket filtered by the hinted predicate.
pub open spec fn hinted_letter_words(
    d: Seq<Seq<u8>>,
    c: u8,
    letters: Seq<u8>,
    required: u8,
    hints: Map<u8, Vec<usize>>,
) -> Seq<Seq<u8>> {
    if !hints.is_empty() && !hints.contains_key(c) {
        seq![]
    } else {
        bucket1(d, c).filter(
            |w: Seq<u8>| accepts_hinted(w, letters, required, !hints.is_empty(), hint_of(hints, c)),
        )
    }
}

/// What the hinted scan keeps of one two-letter prefix's range; the hint
/// entry is the one of the prefix's first letter.
pub open spec fn hinted_prefix_words(
    d: Seq<Seq<u8>>,
    p: [u8; 2],
    letters: Seq<u8>,
    required: u8,
    hints: Map<u8, Vec<usize>>,
) -> Seq<Seq<u8>> {
    if !hints.is_empty() && !hints.contains_key(p@[0]) {
        seq![]
    } else {
        bucket2(d, p@[0], p@[1]).filter(
            |w: Seq<u8>| accepts_hinted(
                w,
                letters,
                required,
                !hints.is_empty(),
                hint_of(hints, p@[0]),
            ),
        )
    }
}

/// The hinted scan over the first `j` allowed letters.
pub open spec fn scan_hinted_letters_spec(
    d: Seq<Seq<u8>>,
    letters: Seq<u8>,
    required: u8,
    hints: Map<u8, Vec<usize>>,
    j: int,
) -> Seq<Seq<u8>>
    decreases j,
{
    if j <= 0 {
        seq![]
    } else {
        scan_hinted_letters_spec(d, letters, required, hints, j - 1) + hinted_letter_words(
            d,
            letters[j - 1],
            letters,
            required,
            hints,
        )
    }
}

/// The hinted scan over the first `j` starting prefixes.
pub open spec fn scan_hinted_prefixes_spec(
    d: Seq<Seq<u8>>,
    prefixes: Seq<[u8; 2]>,
    letters: Seq<u8>,
    required: u8,
    hints: Map<u8, Vec<usize>>,
    j: int,
) -> Seq<Seq<u8>>
    decreases j,
{
    if j <= 0 {
        seq![]
    } else {
        scan_hinted_prefixes_spec(d, prefixes, letters, required, hints, j - 1)
            + hinted_prefix_words(d, prefixes[j - 1], letters, required, hints)
    }
}

/// Every element a filter keeps is an element of the filtered sequence and
/// passes the predicate.
proof fn lemma_filter_elems<A>(s: Seq<A>, pred: spec_fn(A) -> bool)
    ensures
        forall|k: int|
            0 <= k < s.filter(pred).len() ==> s.contains(#[trigger] s.filter(pred)[k]) && pred(
                s.filter(pred)[k],
            ),
    decreases s.len(),
{
    reveal(Seq::filter);
    if s.len() > 0 {
        lemma_filter_elems(s.drop_last(), pred);
        assert forall|k: int| 0 <= k < s.filter(pred).len() implies s.contains(
            #[trigger] s.filter(pred)[k],
        ) && pred(s.filter(pred)[k]) by {
            let x = s.filter(pred)[k];
            if k < s.drop_last().filter(pred).len() {
                assert(x == s.drop_last().filter(pred)[k]);
                assert(s.drop_last().contains(x));
                let w = choose|w: int| 0 <= w < s.drop_last().len() && s.drop_last()[w] == x;
                assert(s[w] == x);
            } else {
                assert(x == s.last());
                assert(s[s.len() - 1] == x);
            }
        }
    }
}

/// Every word of a one-letter bucket stands in the dictionary.
proof fn lemma_bucket1_elems(d: Seq<Seq<u8>>, c: u8)
    ensures
        forall|k: int| 0 <= k < bucket1(d, c).len() ==> d.contains(#[trigger] bucket1(d, c)[k]),
{
    assert forall|k: int| 0 <= k < bucket1(d, c).len() implies d.contains(
        #[trigger] bucket1(d, c)[k],
    ) by {
        if let Some((l, r)) = search_range_spec(d, seq![c]) {
            if 0 <= l <= r <= d.len() {
                assert(bucket1(d, c)[k] == d[l + k]);
            }
        }
    }
}

/// Every word of a two-letter range stands in the dictionary.
proof fn lemma_bucket2_elems(d: Seq<Seq<u8>>, c: u8, f: u8)
    ensures
        forall|k: int|
            0 <= k < bucket2(d, c, f).len() ==> d.contains(#[trigger] bucket2(d, c, f)[k]),
{
    assert forall|k: int| 0 <= k < bucket2(d, c, f).len() implies d.contains(
        #[trigger] bucket2(d, c, f)[k],
    ) by {
        if let Some((l, r)) = search_range_spec(d, seq![c, f]) {
            if 0 <= l <= r <= d.len() {
                assert(bucket2(d, c, f)[k] == d[l + k]);
            }
        }
    }
}

/// Law: every word the simple scan yields is present verbatim in the
/// dictionary and itself satisfies the shared predicate.
pub proof fn lemma_scan_simple_round_trip(d: Seq<Seq<u8>>, letters: Seq<u8>, required: u8, j: int)
    ensures
        forall|k: int|
            0 <= k < scan_simple_spec(d, letters, required, j).len() ==> d.contains(
                #[trigger] scan_simple_spec(d, letters, required, j)[k],
            ) && accepts(scan_simple_spec(d, letters, required, j)[k], letters, required),
    decreases j,
{
    if j > 0 {
        lemma_scan_simple_round_trip(d, letters, required, j - 1);
        let pred = |w: Seq<u8>| accepts(w, letters, required);
        let b = bucket1(d, letters[j - 1]);
        lemma_filter_elems(b, pred);
        lemma_bucket1_elems(d, letters[j - 1]);
        assert forall|k: int| 0 <= k < scan_simple_spec(d, letters, required, j).len() implies
            d.contains(#[trigger] scan_simple_spec(d, letters, required, j)[k]) && accepts(
            scan_simple_spec(d, letters, required, j)[k],
            letters,
            required,
        ) by {
            let s0 = scan_simple_spec(d, letters, required, j - 1);
            if k >= s0.len() {
                let x = b.filter(pred)[k - s0.len()];
                assert(b.contains(x));
                let w = choose|w: int| 0 <= w < b.len() && b[w] == x;
            }
        }
    }
}

/// Law: every word the hinted scan over letter buckets yields is present
/// verbatim in the dictionary and itself satisfies the shared predicate.
pub proof fn lemma_scan_hinted_letters_round_trip(
    d: Seq<Seq<u8>>,
    letters: Seq<u8>,
    required: u8,
    hints: Map<u8, Vec<usize>>,
    j: int,
)
    ensures
        forall|k: int|
            0 <= k < scan_hinted_letters_spec(d, letters, required, hints, j).len() ==> d.contains(
                #[trigger] scan_hinted_letters_spec(d, letters, required, hints, j)[k],
            ) && accepts(
                scan_hinted_letters_spec(d, letters, required, hints, j)[k],
                letters,
                required,
            ),
    decreases j,
{
    if j > 0 {
        lemma_scan_hinted_letters_round_trip(d, letters, required, hints, j - 1);
        let c = letters[j - 1];
        let pred = |w: Seq<u8>| accepts_hinted(
            w,
            letters,
            required,
            !hints.is_empty(),
            hint_of(hints, c),
        );
        let b = bucket1(d, c);
        lemma_filter_elems(b, pred);
        lemma_bucket1_elems(d, c);
        assert forall|k: int|
            0 <= k < scan_hinted_letters_spec(d, letters, required, hints, j).len() implies
            d.contains(#[trigger] scan_hinted_letters_spec(d, letters, required, hints, j)[k])
            && accepts(
            scan_hinted_letters_spec(d, letters, required, hints, j)[k],
            letters,
            required,
        ) by {
            let s0 = scan_hinted_letters_spec(d, letters, required, hints, j - 1);
            if k >= s0.len() {
                let x = hinted_letter_words(d, c, letters, required, hints)[k - s0.len()];
                assert(b.filter(pred).contains(x));
                let w = choose|w: int| 0 <= w < b.len() && b[w] == x;
            }
        }
    }
}

/// Law: every word the hinted scan over starting prefixes yields is present
/// verbatim in the dictionary and itself satisfies the shared predicate.
pub proof fn lemma_scan_hinted_prefixes_round_trip(
    d: Seq<Seq<u8>>,
    prefixes: Seq<[u8; 2]>,
    letters: Seq<u8>,
    required: u8,
    hints: Map<u8, Vec<usize>>,
    j: int,
)
    ensures
        forall|k: int|
            0 <= k < scan_hinted_prefixes_spec(d, prefixes, letters, required, hints, j).len()
                ==> d.contains(
                #[trigger] scan_hinted_prefixes_spec(d, prefixes, letters, required, hints, j)[k],
            ) && accepts(
                scan_hinted_prefixes_spec(d, prefixes, letters, required, hints, j)[k],
                letters,
                required,
            ),
    decreases j,
{
    if j > 0 {
        lemma_scan_hinted_prefixes_round_trip(d, prefixes, letters, required, hints, j - 1);
        let p = prefixes[j - 1];
        let pred = |w: Seq<u8>| accepts_hinted(
            w,
            letters,
            required,
            !hints.is_empty(),
            hint_of(hints, p@[0]),
        );
        let b = bucket2(d, p@[0], p@[1]);
        lemma_filter_elems(b, pred);
        lemma_bucket2_elems(d, p@[0], p@[1]);
        assert forall|k: int|
            0 <= k < scan_hinted_prefixes_spec(d, prefixes, letters, required, hints, j).len()
            implies d.contains(
            #[trigger] scan_hinted_prefixes_spec(d, prefixes, letters, required, hints, j)[k],
        ) && accepts(
            scan_hinted_prefixes_spec(d, prefixes, letters, required, hints, j)[k],
            letters,
            required,
        ) by {
            let s0 = scan_hinted_prefixes_spec(d, prefixes, letters, required, hints, j - 1);
            if k >= s0.len() {
                let x = hinted_prefix_words(d, p, letters, required, hints)[k - s0.len()];
                assert(b.filter(pred).contains(x));
                let w = choose|w: int| 0 <= w < b.len() && b[w] == x;
            }
        }
    }
}

/// Parameters of the hinted scan: the seven letters as in the simple scan,
/// optional per-starting-letter length constraints, and optional starting
/// two-letter prefixes to visit instead of the seven letters.
#[derive(Debug)]
pub struct SpellingBeeHintedParams {
    letters: Vec<u8>,
    required_letter: u8,
    letters_len: HashMap<u8, Vec<usize>>,
    start_letters: Vec<[u8; 2]>,
}

impl SpellingBeeHintedParams {
    /// The allowed letters, in the order supplied.
    pub closed spec fn letters(&self) -> Seq<u8> {
        self.letters@
    }

    /// The designated must-appear letter.
    pub closed spec fn required(&self) -> u8 {
        self.required_letter
    }

    /// The per-starting-letter length constraints.
    pub closed spec fn hints(&self) -> Map<u8, Vec<usize>> {
        self.letters_len@
    }

    /// The starting prefixes to visit, in the order supplied.
    pub closed spec fn starts(&self) -> Seq<[u8; 2]> {
        self.start_letters@
    }

    /// Exactly seven lowercase letters, the first of them required, and
    /// lowercase starting prefixes.
    pub open spec fn wf(&self) -> bool {
        &&& self.letters().len() == LETTERS_COUNT
        &&& self.required() == self.letters()[0]
        &&& forall|k: int| 0 <= k < self.letters().len() ==> 97 <= #[trigger] self.letters()[k] <= 122
        &&& forall|k: int|
            0 <= k < self.starts().len() ==> (97 <= #[trigger] self.starts()[k]@[0] <= 122 && 97
                <= self.starts()[k]@[1] <= 122)
    }

    /// First letter is the required one.
    /// Count of letters, freed of consecutive repeats, must equal
    /// `LETTERS_COUNT`, else validation fails. Length hints listed later
    /// override earlier ones with the same starting letter.
    pub fn new(
        letters: &str,
        letters_len: Vec<(u8, Vec<usize>)>,
        start_letters: Vec<[u8; 2]>,
    ) -> (r: Result<Self, ValidationError>)
        requires
            forall|k: int|
                0 <= k < letters.spec_bytes().len() ==> 97 <= #[trigger] letters.spec_bytes()[k]
                    <= 122,
            forall|k: int|
                0 <= k < start_letters@.len() ==> (97 <= #[trigger] start_letters@[k]@[0] <= 122
                    && 97 <= start_letters@[k]@[1] <= 122),
        ensures
            match r {
                Ok(p) => {
                    &&& dedup_adjacent(letters.spec_bytes()).len() == LETTERS_COUNT
                    &&& p.wf()
                    &&& p.letters() == dedup_adjacent(letters.spec_bytes())
                    &&& p.required() == dedup_adjacent(letters.spec_bytes())[0]
                    &&& p.hints() == map_of_pairs(letters_len@)
                    &&& p.starts() == start_letters@
                },
                Err(e) => {
                    &&& dedup_adjacent(letters.spec_bytes()).len() != LETTERS_COUNT
                    &&& e == ValidationError::WrongLetterCount
                },
            },
    {
        broadcast use vstd::std_specs::hash::group_hash_axioms;

        let bytes = letters.as_bytes();
        let deduped = dedup_bytes(bytes);
        if deduped.len() != LETTERS_COUNT {
            return Err(ValidationError::WrongLetterCount);
        }
        let required_letter = deduped[0];
        let ghost pairs = letters_len@;
        let mut remaining = letters_len;
        let total = remaining.len();
        let mut map: HashMap<u8, Vec<usize>> = HashMap::new();
        let mut i: usize = 0;
        proof {
            assert(pairs.take(0) =~= Seq::<(u8, Vec<usize>)>::empty());
        }
        while remaining.len() > 0
            invariant
                total == pairs.len(),
                i <= total,
                i + remaining@.len() == pairs.len(),
                remaining@ == pairs.skip(i as int),
                map@ == map_of_pairs(pairs.take(i as int)),
            decreases remaining@.len(),
        {
            let pair = remaining.remove(0);
            proof {
                assert(pair == pairs[i as int]);
                assert(pairs.skip(i as int).remove(0) =~= pairs.skip(i + 1));
                assert(pairs.take(i + 1).drop_last() =~= pairs.take(i as int));
                assert(pairs.take(i + 1).last() == pairs[i as int]);
            }
            map.insert(pair.0, pair.1);
            i = i + 1;
        }
        proof {
            assert(pairs.take(pairs.len() as int) =~= pairs);
        }
        Ok(
            SpellingBeeHintedParams {
                letters: deduped,
                required_letter,
                letters_len: map,
                start_letters,
            },
        )
    }

    /// Appends to `res` the words of the index interval that pass the
    /// hinted predicate under the given length entry, in dictionary order.
    fn scan_words(
        &self,
        res: &mut Vec<String>,
        dict: &WordsDict,
        start: usize,
        end: usize,
        words_len: Option<&Vec<usize>>,
    )
        requires
            dict.wf(),
            words_lowercase(dict@),
            start <= end <= dict@.len(),
        ensures
            final(res).deep_view() == old(res).deep_view() + dict@.subrange(
                start as int,
                end as int,
            ).filter(
                |w: Seq<u8>| accepts_hinted(
                    w,
                    self.letters(),
                    self.required(),
                    !self.hints().is_empty(),
                    lens_view(words_len),
                ),
            ).map_values(|w: Seq<u8>| chars_of(w)),
    {
        let ghost d = dict@;
        let ghost pred = |w: Seq<u8>| accepts_hinted(
            w,
            self.letters(),
            self.required(),
            !self.hints().is_empty(),
            lens_view(words_len),
        );
        let ghost before = res.deep_view();
        let has_hints = !self.letters_len.is_empty();
        let mut i: usize = start;
        proof {
            reveal_with_fuel(Seq::filter, 2);
            assert(d.subrange(start as int, start as int) =~= Seq::<Seq<u8>>::empty());
            assert(res.deep_view() =~= before + d.subrange(start as int, start as int).filter(
                pred,
            ).map_values(|w: Seq<u8>| chars_of(w)));
        }
        while i < end
            invariant
                dict.wf(),
                words_lowercase(d),
                d == dict@,
                start <= i <= end <= d.len(),
                has_hints == !self.hints().is_empty(),
                pred == (|w: Seq<u8>| accepts_hinted(
                    w,
                    self.letters(),
                    self.required(),
                    !self.hints().is_empty(),
                    lens_view(words_len),
                )),
                res.deep_view() == before + d.subrange(start as int, i as int).filter(
                    pred,
                ).map_values(|w: Seq<u8>| chars_of(w)),
            decreases end - i,
        {
            let w = dict.get(i).unwrap();
            let keep = accepts_hinted_word(w, &self.letters, self.required_letter, has_hints,
                words_len);
            proof {
                let a = d.subrange(start as int, i as int);
                let b = d.subrange(start as int, i + 1);
                assert(b =~= a.push(d[i as int]));
                reveal_with_fuel(Seq::filter, 2);
                assert(b.drop_last() =~= a);
                assert(b.last() == d[i as int]);
            }
            if keep {
                let ghost old_deep = res.deep_view();
                let s = crate::words_dict::bytes_to_string(w.as_slice());
                res.push(s);
                proof {
                    let a = d.subrange(start as int, i as int);
                    let b = d.subrange(start as int, i + 1);
                    assert(b.filter(pred) == a.filter(pred).push(d[i as int]));
                    assert(res.deep_view() =~= old_deep.push(s@));
                    assert(res.deep_view() =~= before + b.filter(pred).map_values(
                        |w2: Seq<u8>| chars_of(w2),
                    ));
                }
            } else {
                proof {
                    let a = d.subrange(start as int, i as int);
                    let b = d.subrange(start as int, i + 1);
                    assert(b.filter(pred) == a.filter(pred));
                }
            }
            i = i + 1;
        }
    }
}

/// Decides the hinted predicate for one word.
fn accepts_hinted_word(
    w: &Vec<u8>,
    letters: &Vec<u8>,
    required: u8,
    has_hints: bool,
    words_len: Option<&Vec<usize>>,
) -> (r: bool)
    ensures
        r == accepts_hinted(w@, letters@, required, has_hints, lens_view(words_len)),
{
    if has_hints {
        if let Some(allowed) = words_len {
            if !contains_usize(allowed, w.len()) {
                return false;
            }
        }
    }
    accepts_word(w, letters, required)
}

/// Whether `n` is one of the listed lengths.
fn contains_usize(lens: &Vec<usize>, n: usize) -> (r: bool)
    ensures
        r == lens@.contains(n),
{
    let mut i: usize = 0;
    while i < lens.len()
        invariant
            i <= lens@.len(),
            forall|k: int| 0 <= k < i ==> lens@[k] != n,
        decreases lens@.len() - i,
    {
        if lens[i] == n {
            return true;
        }
        i = i + 1;
    }
    false
}

impl SpellingBee for SpellingBeeHintedParams {
    open spec fn params_wf(&self) -> bool {
        self.wf()
    }

    open spec fn scan_spec(&self, d: Seq<Seq<u8>>) -> Seq<Seq<u8>> {
        if self.starts().len() > 0 {
            scan_hinted_prefixes_spec(
                d,
                self.starts(),
                self.letters(),
                self.required(),
                self.hints(),
                self.starts().len() as int,
            )
        } else {
            scan_hinted_letters_spec(
                d,
                self.letters(),
                self.required(),
                self.hints(),
                self.letters().len() as int,
            )
        }
    }

    /// With starting prefixes: visit only those two-letter ranges, in the
    /// order given. Without: visit the seven letters' buckets as the simple
    /// scan does. Either way, when hints are in force, a starting letter
    /// they do not name has its whole range skipped.
    fn scan_dict(&self, dict: &WordsDict, shortcuts: &WordsShortcuts) -> (r: Vec<String>) {
        broadcast use vstd::std_specs::hash::group_hash_axioms;

        let ghost d = dict@;
        let ghost letters = self.letters();
        let ghost required = self.required();
        let ghost hints = self.hints();
        let mut res: Vec<String> = Vec::new();
        let has_hints = !self.letters_len.is_empty();
        if self.start_letters.len() > 0 {
            let mut j: usize = 0;
            proof {
                assert(res.deep_view() =~= scan_hinted_prefixes_spec(
                    d,
                    self.starts(),
                    letters,
                    required,
                    hints,
                    0,
                ).map_values(|w: Seq<u8>| chars_of(w)));
            }
            while j < self.start_letters.len()
                invariant
                    self.wf(),
                    dict.wf(),
                    words_lowercase(d),
                    shortcuts.wf(),
                    shortcuts.dict() == d,
                    d == dict@,
                    letters == self.letters(),
                    required == self.required(),
                    hints == self.hints(),
                    has_hints == !hints.is_empty(),
                    self.starts().len() > 0,
                    j <= self.starts().len(),
                    res.deep_view() == scan_hinted_prefixes_spec(
                        d,
                        self.starts(),
                        letters,
                        required,
                        hints,
                        j as int,
                    ).map_values(|w: Seq<u8>| chars_of(w)),
                decreases self.starts().len() - j,
            {
                let ghost p = self.starts()[j as int];
                let c = self.start_letters[j][0];
                let f = self.start_letters[j][1];
                proof {
                    assert(c == p@[0] && f == p@[1]);
                }
                let ghost pred = |w: Seq<u8>| accepts_hinted(
                    w,
                    letters,
                    required,
                    !hints.is_empty(),
                    hint_of(hints, c),
                );
                let prefix: [u8; 2] = [c, f];
                proof {
                    assert(prefix@ =~= seq![c, f]);
                }
                let rg = shortcuts.search_range(prefix.as_slice());
                let ghost before = res.deep_view();
                match rg {
                    None => {
                        proof {
                            assert(bucket2(d, c, f) =~= Seq::<Seq<u8>>::empty());
                            reveal_with_fuel(Seq::filter, 2);
                            assert(hinted_prefix_words(d, p, letters, required, hints)
                                =~= Seq::<Seq<u8>>::empty());
                        }
                    },
                    Some(range) => {
                        let words_len = self.letters_len.get(&c);
                        proof {
                            assert(lens_view(words_len) == hint_of(hints, c));
                        }
                        if has_hints && words_len.is_none() {
                            proof {
                                assert(hinted_prefix_words(d, p, letters, required, hints)
                                    =~= Seq::<Seq<u8>>::empty());
                            }
                        } else {
                            self.scan_words(&mut res, dict, range.start, range.end, words_len);
                            proof {
                                assert(bucket2(d, c, f) == d.subrange(
                                    range.start as int,
                                    range.end as int,
                                ));
                                assert(hinted_prefix_words(d, p, letters, required, hints)
                                    == bucket2(d, c, f).filter(pred));
                                assert(res.deep_view() =~= before + hinted_prefix_words(
                                    d,
                                    p,
                                    letters,
                                    required,
                                    hints,
                                ).map_values(|w: Seq<u8>| chars_of(w)));
                            }
                        }
                    },
                }
                proof {
                    let s0 = scan_hinted_prefixes_spec(d, self.starts(), letters, required, hints,
                        j as int);
                    let s1 = scan_hinted_prefixes_spec(d, self.starts(), letters, required, hints,
                        j + 1);
                    assert(s1 == s0 + hinted_prefix_words(d, p, letters, required, hints));
                    assert(s1.map_values(|w: Seq<u8>| chars_of(w)) =~= s0.map_values(
                        |w: Seq<u8>| chars_of(w),
                    ) + hinted_prefix_words(d, p, letters, required, hints).map_values(
                        |w: Seq<u8>| chars_of(w),
                    ));
                    assert(res.deep_view() =~= s1.map_values(|w: Seq<u8>| chars_of(w)));
                }
                j = j + 1;
            }
            res
        } else {
            let mut j: usize = 0;
            proof {
                assert(res.deep_view() =~= scan_hinted_letters_spec(
                    d,
                    letters,
                    required,
                    hints,
                    0,
                ).map_values(|w: Seq<u8>| chars_of(w)));
            }
            while j < self.letters.len()
                invariant
                    self.wf(),
                    dict.wf(),
                    words_lowercase(d),
                    shortcuts.wf(),
                    shortcuts.dict() == d,
                    d == dict@,
                    letters == self.letters(),
                    required == self.required(),
                    hints == self.hints(),
                    has_hints == !hints.is_empty(),
                    self.starts().len() == 0,
                    j <= letters.len(),
                    res.deep_view() == scan_hinted_letters_spec(
                        d,
                        letters,
                        required,
                        hints,
                        j as int,
                    ).map_values(|w: Seq<u8>| chars_of(w)),
                decreases letters.len() - j,
            {
                let c = self.letters[j];
                let ghost pred = |w: Seq<u8>| accepts_hinted(
                    w,
                    letters,
                    required,
                    !hints.is_empty(),
                    hint_of(hints, c),
                );
                let prefix: [u8; 1] = [c];
                proof {
                    assert(prefix@ =~= seq![c]);
                }
                let rg = shortcuts.search_range(prefix.as_slice());
                let ghost before = res.deep_view();
                match rg {
                    None => {
                        proof {
                            assert(bucket1(d, c) =~= Seq::<Seq<u8>>::empty());
                            reveal_with_fuel(Seq::filter, 2);
                            assert(hinted_letter_words(d, c, letters, required, hints)
                                =~= Seq::<Seq<u8>>::empty());
                        }
                    },
                    Some(range) => {
                        let words_len = self.letters_len.get(&c);
                        proof {
                            assert(lens_view(words_len) == hint_of(hints, c));
                        }
                        if has_hints && words_len.is_none() {
                            proof {
                                assert(hinted_letter_words(d, c, letters, required, hints)
                                    =~= Seq::<Seq<u8>>::empty());
                            }
                        } else {
                            self.scan_words(&mut res, dict, range.start, range.end, words_len);
                            proof {
                                assert(bucket1(d, c) == d.subrange(
                                    range.start as int,
                                    range.end as int,
                                ));
                                assert(hinted_letter_words(d, c, letters, required, hints)
                                    == bucket1(d, c).filter(pred));
                                assert(res.deep_view() =~= before + hinted_letter_words(
                                    d,
                                    c,
                                    letters,
                                    required,
                                    hints,
                                ).map_values(|w: Seq<u8>| chars_of(w)));
                            }
                        }
                    },
                }
                proof {
                    let s0 = scan_hinted_letters_spec(d, letters, required, hints, j as int);
                    let s1 = scan_hinted_letters_spec(d, letters, required, hints, j + 1);
                    assert(s1 == s0 + hinted_letter_words(d, letters[j as int], letters, required,
                        hints));
                    assert(s1.map_values(|w: Seq<u8>| chars_of(w)) =~= s0.map_values(
                        |w: Seq<u8>| chars_of(w),
                    ) + hinted_letter_words(d, letters[j as int], letters, required,
                        hints).map_values(|w: Seq<u8>| chars_of(w)));
                    assert(res.deep_view() =~= s1.map_values(|w: Seq<u8>| chars_of(w)));
                }
                j = j + 1;
            }
            res
        }
    }
}

} // verus!
