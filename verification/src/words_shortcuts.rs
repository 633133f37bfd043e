//! The shortcut index: a fixed table mapping 1- and 2-letter prefixes to the
//! offset where their bucket begins in the sorted dictionary. Every nonempty
//! bucket's first index is recorded; the sentinel -1 means the prefix is
//! absent from the dictionary.

use core::ops::Range;
use vstd::prelude::*;

use crate::lex::{lex_le, lemma_lex_le_first, lemma_lex_le_tail};
use crate::words_dict::{dict_sorted, words_lowercase, WordsDict};

verus! {

/// `w` begins with the letter `c`.
pub open spec fn starts1(w: Seq<u8>, c: u8) -> bool {
    w.len() >= 1 && w[0] == c
}

/// `w` begins with the two letters `c`, `f`.
pub open spec fn starts2(w: Seq<u8>, c: u8, f: u8) -> bool {
    w.len() >= 2 && w[0] == c && w[1] == f
}

/// The first index of a word beginning with `c`, or -1 if there is none.
/// This is exactly what the one-letter table holds for `c`.
pub open spec fn start1(d: Seq<Seq<u8>>, c: u8) -> int
    decreases d.len(),
{
    if d.len() == 0 {
        -1
    } else {
        let r = start1(d.drop_last(), c);
        if r >= 0 {
            r
        } else if starts1(d.last(), c) {
            d.len() - 1
        } else {
            -1
        }
    }
}

/// The first index of a word beginning with `c`, `f`, or -1 if there is
/// none. This is exactly what the two-letter table holds for `c`, `f`.
pub open spec fn start2(d: Seq<Seq<u8>>, c: u8, f: u8) -> int
    decreases d.len(),
{
    if d.len() == 0 {
        -1
    } else {
        let r = start2(d.drop_last(), c, f);
        if r >= 0 {
            r
        } else if starts2(d.last(), c, f) {
            d.len() - 1
        } else {
            -1
        }
    }
}

/// The first recorded one-letter slot at or after letter `c`, or -1.
pub open spec fn next_one(d: Seq<Seq<u8>>, c: int) -> int
    decreases 123 - c,
{
    if c < 97 || c > 122 {
        -1
    } else if start1(d, c as u8) >= 0 {
        start1(d, c as u8)
    } else {
        next_one(d, c + 1)
    }
}

/// The first recorded two-letter slot under `c` at or after second letter
/// `f`, or -1.
pub open spec fn next_two(d: Seq<Seq<u8>>, c: u8, f: int) -> int
    decreases 123 - f,
{
    if f < 97 || f > 122 {
        -1
    } else if start2(d, c, f as u8) >= 0 {
        start2(d, c, f as u8)
    } else {
        next_two(d, c, f + 1)
    }
}

/// The index range a prefix query yields over dictionary `d`: the whole
/// span for the empty prefix; otherwise the prefix's bucket start up to the
/// next recorded bucket at the same depth, capped by the enclosing
/// one-letter range for two-letter prefixes. Only the first two bytes of a
/// longer prefix are consulted. `None` stands for "prefix absent".
pub open spec fn search_range_spec(d: Seq<Seq<u8>>, prefix: Seq<u8>) -> Option<(int, int)> {
    let size = d.len() as int;
    if prefix.len() == 0 {
        Some((0, size))
    } else {
        let c = prefix[0];
        if start1(d, c) < 0 {
            None
        } else {
            let l1 = start1(d, c);
            let n1 = next_one(d, c + 1);
            let r1 = if n1 >= 0 && n1 < size {
                n1
            } else {
                size
            };
            if prefix.len() == 1 {
                Some((l1, r1))
            } else {
                let f = prefix[1];
                if start2(d, c, f) < 0 {
                    None
                } else {
                    let l2 = start2(d, c, f);
                    let n2 = next_two(d, c, f + 1);
                    let r2 = if n2 >= 0 && n2 < r1 {
                        n2
                    } else {
                        r1
                    };
                    Some((l2, r2))
                }
            }
        }
    }
}

/// `start1` names the first index of the letter's bucket, if any.
pub proof fn lemma_start1_props(d: Seq<Seq<u8>>, c: u8)
    ensures
        -1 <= start1(d, c) < d.len(),
        start1(d, c) == -1 ==> forall|i: int| 0 <= i < d.len() ==> !starts1(#[trigger] d[i], c),
        start1(d, c) >= 0 ==> starts1(d[start1(d, c)], c) && forall|i: int|
            0 <= i < start1(d, c) ==> !starts1(#[trigger] d[i], c),
    decreases d.len(),
{
    if d.len() > 0 {
        lemma_start1_props(d.drop_last(), c);
        assert(forall|i: int| 0 <= i < d.len() - 1 ==> #[trigger] d[i] == d.drop_last()[i]);
    }
}

/// `start2` names the first index of the two-letter bucket, if any.
pub proof fn lemma_start2_props(d: Seq<Seq<u8>>, c: u8, f: u8)
    ensures
        -1 <= start2(d, c, f) < d.len(),
        start2(d, c, f) == -1 ==> forall|i: int|
            0 <= i < d.len() ==> !starts2(#[trigger] d[i], c, f),
        start2(d, c, f) >= 0 ==> starts2(d[start2(d, c, f)], c, f) && forall|i: int|
            0 <= i < start2(d, c, f) ==> !starts2(#[trigger] d[i], c, f),
    decreases d.len(),
{
    if d.len() > 0 {
        lemma_start2_props(d.drop_last(), c, f);
        assert(forall|i: int| 0 <= i < d.len() - 1 ==> #[trigger] d[i] == d.drop_last()[i]);
    }
}

/// Appending one word moves `start1` only when that word opens the bucket.
pub proof fn lemma_start1_push(e: Seq<Seq<u8>>, w: Seq<u8>, c: u8)
    ensures
        start1(e.push(w), c) == if start1(e, c) >= 0 {
            start1(e, c)
        } else if starts1(w, c) {
            e.len() as int
        } else {
            -1
        },
{
    assert(e.push(w).drop_last() =~= e);
    assert(e.push(w).last() == w);
}

/// Appending one word moves `start2` only when that word opens the bucket.
pub proof fn lemma_start2_push(e: Seq<Seq<u8>>, w: Seq<u8>, c: u8, f: u8)
    ensures
        start2(e.push(w), c, f) == if start2(e, c, f) >= 0 {
            start2(e, c, f)
        } else if starts2(w, c, f) {
            e.len() as int
        } else {
            -1
        },
{
    assert(e.push(w).drop_last() =~= e);
    assert(e.push(w).last() == w);
}

/// In a sorted lowercase dictionary, first letters never decrease.
pub proof fn lemma_first_monotone(d: Seq<Seq<u8>>, i: int, j: int)
    requires
        dict_sorted(d),
        words_lowercase(d),
        0 <= i <= j < d.len(),
    ensures
        d[i][0] <= d[j][0],
{
    if i < j {
        lemma_lex_le_first(d[i], d[j]);
    }
}

/// Under one first letter, second letters never decrease either.
pub proof fn lemma_second_monotone(d: Seq<Seq<u8>>, i: int, j: int)
    requires
        dict_sorted(d),
        words_lowercase(d),
        0 <= i <= j < d.len(),
        d[i].len() >= 2,
        d[j].len() >= 2,
        d[i][0] == d[j][0],
    ensures
        d[i][1] <= d[j][1],
{
    if i < j {
        lemma_lex_le_tail(d[i], d[j]);
        lemma_lex_le_first(d[i].drop_first(), d[j].drop_first());
        assert(d[i].drop_first()[0] == d[i][1]);
        assert(d[j].drop_first()[0] == d[j][1]);
    }
}

/// A one-letter word sorts before every longer word of its letter, so a
/// word between two sharers of a two-letter prefix is longer than one byte.
pub proof fn lemma_between_two_prefix(d: Seq<Seq<u8>>, c: u8, f: u8, i: int, j: int, k: int)
    requires
        dict_sorted(d),
        words_lowercase(d),
        0 <= i <= j <= k < d.len(),
        starts2(d[i], c, f),
        starts2(d[k], c, f),
    ensures
        starts2(d[j], c, f),
{
    lemma_first_monotone(d, i, j);
    lemma_first_monotone(d, j, k);
    assert(d[j][0] == c);
    if d[j].len() < 2 {
        if i < j {
            lemma_lex_le_tail(d[i], d[j]);
            assert(d[j].drop_first().len() == 0);
            assert(!lex_le(d[i].drop_first(), d[j].drop_first()));
        }
        assert(false);
    }
    lemma_second_monotone(d, i, j);
    lemma_second_monotone(d, j, k);
}

/// The one-letter table slot for letter `c`.
pub open spec fn one_index(c: u8) -> int {
    c - 97
}

/// The two-letter table slot for the prefix `c`, `f`.
pub open spec fn two_index(c: u8, f: u8) -> int {
    (c - 97) * 26 + (f - 97)
}

/// One build step: the word at `i` opens its letter's bucket exactly when
/// it is the first word or its first letter changed.
proof fn lemma_start1_step(d: Seq<Seq<u8>>, i: int, c: u8)
    requires
        dict_sorted(d),
        words_lowercase(d),
        0 <= i < d.len(),
    ensures
        (i == 0 || d[i - 1][0] != d[i][0]) && c == d[i][0] ==> start1(d.take(i + 1), c) == i,
        !((i == 0 || d[i - 1][0] != d[i][0]) && c == d[i][0]) ==> start1(d.take(i + 1), c)
            == start1(d.take(i), c),
{
    let e = d.take(i);
    let e1 = d.take(i + 1);
    assert(e.push(d[i]) =~= e1);
    lemma_start1_push(e, d[i], c);
    assert(forall|k: int| 0 <= k < i ==> #[trigger] e[k] == d[k]);
    lemma_start1_props(e, c);
    if c != d[i][0] {
        assert(!starts1(d[i], c));
    } else if i > 0 && d[i - 1][0] == d[i][0] {
        assert(starts1(e[i - 1], c));
    } else {
        // the bucket was empty so far: an earlier word of this letter would
        // put the same letter on the previous word too
        if start1(e, c) >= 0 {
            let s = start1(e, c);
            assert(starts1(d[s], c));
            if i > 0 {
                lemma_first_monotone(d, s, i - 1);
                lemma_first_monotone(d, i - 1, i);
            }
            assert(false);
        }
    }
}

/// One build step: the word at `i` opens its two-letter bucket exactly when
/// it carries two letters and the previous word does not share them.
proof fn lemma_start2_step(d: Seq<Seq<u8>>, i: int, c: u8, f: u8)
    requires
        dict_sorted(d),
        words_lowercase(d),
        0 <= i < d.len(),
    ensures
        !(d[i].len() >= 2 && c == d[i][0] && f == d[i][1]) ==> start2(d.take(i + 1), c, f)
            == start2(d.take(i), c, f),
        d[i].len() >= 2 && c == d[i][0] && f == d[i][1] && i > 0 && d[i - 1].len() >= 2 && d[i
            - 1][0] == c && d[i - 1][1] == f ==> start2(d.take(i + 1), c, f) == start2(
            d.take(i),
            c,
            f,
        ),
        d[i].len() >= 2 && c == d[i][0] && f == d[i][1] && !(i > 0 && d[i - 1].len() >= 2 && d[i
            - 1][0] == c && d[i - 1][1] == f) ==> start2(d.take(i + 1), c, f) == i,
{
    let e = d.take(i);
    let e1 = d.take(i + 1);
    assert(e.push(d[i]) =~= e1);
    lemma_start2_push(e, d[i], c, f);
    assert(forall|k: int| 0 <= k < i ==> #[trigger] e[k] == d[k]);
    lemma_start2_props(e, c, f);
    if !(d[i].len() >= 2 && c == d[i][0] && f == d[i][1]) {
        assert(!starts2(d[i], c, f));
    } else if i > 0 && d[i - 1].len() >= 2 && d[i - 1][0] == c && d[i - 1][1] == f {
        assert(starts2(e[i - 1], c, f));
    } else {
        // the bucket was empty so far: an earlier sharer of the prefix
        // would make the previous word share it too
        if start2(e, c, f) >= 0 {
            let s = start2(e, c, f);
            assert(starts2(d[s], c, f));
            assert(s < i);
            lemma_between_two_prefix(d, c, f, s, i - 1, i);
            assert(false);
        }
    }
}

/// A fresh table of `n` sentinel entries.
fn fill_i32(n: usize, x: i32) -> (v: Vec<i32>)
    ensures
        v@.len() == n,
        forall|k: int| 0 <= k < n ==> v@[k] == x,
{
    let mut v: Vec<i32> = Vec::new();
    let mut i: usize = 0;
    while i < n
        invariant
            i <= n,
            v@.len() == i,
            forall|k: int| 0 <= k < i ==> v@[k] == x,
        decreases n - i,
    {
        v.push(x);
        i = i + 1;
    }
    v
}

/// A found `next_one` value is the slot of the least letter recorded at or
/// after `c0`; a missing one means every such slot is a sentinel.
pub proof fn lemma_next_one_props(d: Seq<Seq<u8>>, c0: int)
    requires
        97 <= c0 <= 123,
    ensures
        next_one(d, c0) >= 0 ==> exists|e: u8|
            c0 <= e <= 122 && #[trigger] start1(d, e) == next_one(d, c0) && (forall|e2: u8|
                c0 <= e2 < e ==> start1(d, e2) < 0),
        next_one(d, c0) < 0 ==> forall|e: u8| c0 <= e <= 122 ==> #[trigger] start1(d, e) < 0,
    decreases 123 - c0,
{
    if c0 <= 122 {
        if start1(d, c0 as u8) >= 0 {
            let e0 = c0 as u8;
            assert(start1(d, e0) == next_one(d, c0) && (forall|e2: u8|
                c0 <= e2 < e0 ==> start1(d, e2) < 0));
        } else {
            lemma_next_one_props(d, c0 + 1);
            if next_one(d, c0) >= 0 {
                let e = choose|e: u8|
                    c0 + 1 <= e <= 122 && #[trigger] start1(d, e) == next_one(d, c0 + 1) && (
                    forall|e2: u8| c0 + 1 <= e2 < e ==> start1(d, e2) < 0);
                assert(start1(d, e) == next_one(d, c0) && (forall|e2: u8|
                    c0 <= e2 < e ==> start1(d, e2) < 0));
            }
        }
    }
}

/// A found `next_two` value is the slot of the least second letter recorded
/// at or after `f0` under `c`; a missing one means every such slot is a
/// sentinel.
pub proof fn lemma_next_two_props(d: Seq<Seq<u8>>, c: u8, f0: int)
    requires
        97 <= f0 <= 123,
    ensures
        next_two(d, c, f0) >= 0 ==> exists|f: u8|
            f0 <= f <= 122 && #[trigger] start2(d, c, f) == next_two(d, c, f0) && (forall|f2: u8|
                f0 <= f2 < f ==> start2(d, c, f2) < 0),
        next_two(d, c, f0) < 0 ==> forall|f: u8| f0 <= f <= 122 ==> #[trigger] start2(d, c, f) < 0,
    decreases 123 - f0,
{
    if f0 <= 122 {
        if start2(d, c, f0 as u8) >= 0 {
            let g0 = f0 as u8;
            assert(start2(d, c, g0) == next_two(d, c, f0) && (forall|f2: u8|
                f0 <= f2 < g0 ==> start2(d, c, f2) < 0));
        } else {
            lemma_next_two_props(d, c, f0 + 1);
            if next_two(d, c, f0) >= 0 {
                let g = choose|g: u8|
                    f0 + 1 <= g <= 122 && #[trigger] start2(d, c, g) == next_two(d, c, f0 + 1) && (
                    forall|f2: u8| f0 + 1 <= f2 < g ==> start2(d, c, f2) < 0);
                assert(start2(d, c, g) == next_two(d, c, f0) && (forall|f2: u8|
                    f0 <= f2 < g ==> start2(d, c, f2) < 0));
            }
        }
    }
}

/// Every range a query yields lies within the dictionary.
pub proof fn lemma_range_bounds(d: Seq<Seq<u8>>, prefix: Seq<u8>)
    requires
        dict_sorted(d),
        words_lowercase(d),
        forall|k: int| 0 <= k < prefix.len() ==> 97 <= #[trigger] prefix[k] <= 122,
    ensures
        match search_range_spec(d, prefix) {
            Some((l, r)) => 0 <= l <= r <= d.len(),
            None => true,
        },
{
    let size = d.len() as int;
    if prefix.len() == 0 {
        return ;
    }
    let c = prefix[0];
    if start1(d, c) < 0 {
        return ;
    }
    let l1 = start1(d, c);
    lemma_start1_props(d, c);
    assert(0 <= l1 < size);
    assert(starts1(d[l1], c));
    let n1 = next_one(d, c + 1);
    let r1 = if n1 >= 0 && n1 < size {
        n1
    } else {
        size
    };
    lemma_next_one_props(d, c + 1);
    if n1 >= 0 && n1 < size {
        let e = choose|e: u8|
            c + 1 <= e <= 122 && #[trigger] start1(d, e) == n1 && (forall|e2: u8|
                c + 1 <= e2 < e ==> start1(d, e2) < 0);
        lemma_start1_props(d, e);
        assert(starts1(d[n1], e));
        if n1 < l1 {
            lemma_first_monotone(d, n1, l1);
            assert(false);
        }
    }
    assert(l1 <= r1 <= size);
    if prefix.len() == 1 {
        return ;
    }
    let f = prefix[1];
    if start2(d, c, f) < 0 {
        return ;
    }
    let l2 = start2(d, c, f);
    lemma_start2_props(d, c, f);
    assert(starts2(d[l2], c, f));
    let n2 = next_two(d, c, f + 1);
    lemma_next_two_props(d, c, f + 1);
    if n2 >= 0 && n2 < r1 {
        let f2 = choose|f2: u8|
            f + 1 <= f2 <= 122 && #[trigger] start2(d, c, f2) == n2 && (forall|f3: u8|
                f + 1 <= f3 < f2 ==> start2(d, c, f3) < 0);
        lemma_start2_props(d, c, f2);
        assert(starts2(d[n2], c, f2));
        if n2 < l2 {
            lemma_second_monotone(d, n2, l2);
            assert(false);
        }
    } else {
        if r1 == size {
        } else {
            let e = choose|e: u8|
                c + 1 <= e <= 122 && #[trigger] start1(d, e) == n1 && (forall|e2: u8|
                    c + 1 <= e2 < e ==> start1(d, e2) < 0);
            lemma_start1_props(d, e);
            assert(starts1(d[r1], e));
            if r1 <= l2 {
                lemma_first_monotone(d, r1, l2);
                assert(false);
            }
        }
    }
}

/// The shortcut index over one dictionary. It records, for each 1- and
/// 2-letter prefix, the offset where that prefix's bucket begins, or -1 for
/// a prefix no word carries.
pub struct WordsShortcuts {
    size: u32,
    ones: Vec<i32>,
    twos: Vec<i32>,
    dict: Ghost<Seq<Seq<u8>>>,
}

impl WordsShortcuts {
    /// The dictionary this index was built over.
    pub closed spec fn dict(&self) -> Seq<Seq<u8>> {
        self.dict@
    }

    /// The tables hold, for every prefix, exactly its bucket's first index
    /// in the (sorted, lowercase) dictionary, or the sentinel -1.
    pub closed spec fn wf(&self) -> bool {
        &&& self.ones@.len() == 26
        &&& self.twos@.len() == 676
        &&& dict_sorted(self.dict@)
        &&& words_lowercase(self.dict@)
        &&& 1 <= self.dict@.len() < 0x8000_0000
        &&& self.size == self.dict@.len()
        &&& forall|c: u8|
            97 <= c <= 122 ==> self.ones@[one_index(c)] == #[trigger] start1(self.dict@, c)
        &&& forall|c: u8, f: u8|
            97 <= c <= 122 && 97 <= f <= 122 ==> self.twos@[two_index(c, f)] == #[trigger] start2(
                self.dict@,
                c,
                f,
            )
    }

    /// Builds the index by one forward pass over the sorted dictionary,
    /// recording a slot on each change of first letter and on each change
    /// of second letter within a first-letter bucket, the first word
    /// included: every nonempty bucket's first index is recorded.
    pub fn new(dict: &WordsDict) -> (s: Self)
        requires
            dict.wf(),
            words_lowercase(dict@),
            1 <= dict@.len() < 0x8000_0000,
        ensures
            s.wf(),
            s.dict() == dict@,
    {
        let ghost d = dict@;
        let n = dict.size();
        let mut ones = fill_i32(26, -1);
        let mut twos = fill_i32(676, -1);
        let mut latest_first: Option<u8> = None;
        let mut latest_second: Option<u8> = None;
        let mut i: usize = 0;
        proof {
            assert(d.take(0) =~= Seq::<Seq<u8>>::empty());
        }
        while i < n
            invariant
                dict.wf(),
                words_lowercase(d),
                d == dict@,
                n == d.len() < 0x8000_0000,
                i <= n,
                ones@.len() == 26,
                twos@.len() == 676,
                latest_first == if i == 0 {
                    None::<u8>
                } else {
                    Some(d[i - 1][0])
                },
                latest_second == if i > 0 && d[i - 1].len() >= 2 {
                    Some(d[i - 1][1])
                } else {
                    None::<u8>
                },
                forall|c: u8|
                    97 <= c <= 122 ==> ones@[one_index(c)] == #[trigger] start1(
                        d.take(i as int),
                        c,
                    ),
                forall|c: u8, f: u8|
                    97 <= c <= 122 && 97 <= f <= 122 ==> twos@[two_index(c, f)]
                        == #[trigger] start2(d.take(i as int), c, f),
            decreases n - i,
        {
            let w = dict.get(i).unwrap();
            let first = w[0];
            proof {
                assert(w@ == d[i as int]);
                assert(97 <= first <= 122);
            }
            let new_first = match latest_first {
                None => true,
                Some(l) => l != first,
            };
            if new_first {
                ones.set((first - 97) as usize, i as i32);
            }
            proof {
                assert forall|c: u8| 97 <= c <= 122 implies ones@[one_index(c)]
                    == #[trigger] start1(d.take(i + 1), c) by {
                    lemma_start1_step(d, i as int, c);
                    if new_first && c != first {
                        assert(one_index(c) != one_index(first));
                    }
                }
            }
            if w.len() >= 2 {
                let second = w[1];
                proof {
                    assert(second == d[i as int][1]);
                    assert(97 <= second <= 122);
                }
                let record = new_first || match latest_second {
                    None => true,
                    Some(l) => l != second,
                };
                if record {
                    twos.set((first - 97) as usize * 26 + (second - 97) as usize, i as i32);
                    proof {
                        assert forall|c: u8, f: u8| 97 <= c <= 122 && 97 <= f <= 122 implies
                            twos@[two_index(c, f)] == #[trigger] start2(d.take(i + 1), c, f) by {
                            lemma_start2_step(d, i as int, c, f);
                            if c == first && f == second {
                                assert(start2(d.take(i + 1), c, f) == i as int);
                            } else {
                                assert(two_index(c, f) != two_index(first, second));
                            }
                        }
                    }
                } else {
                    proof {
                        assert(i > 0 && d[i - 1].len() >= 2 && d[i - 1][0] == first && d[i - 1][1]
                            == second);
                        assert forall|c: u8, f: u8| 97 <= c <= 122 && 97 <= f <= 122 implies
                            twos@[two_index(c, f)] == #[trigger] start2(d.take(i + 1), c, f) by {
                            lemma_start2_step(d, i as int, c, f);
                        }
                    }
                }
                latest_second = Some(second);
            } else {
                latest_second = None;
                proof {
                    assert forall|c: u8, f: u8| 97 <= c <= 122 && 97 <= f <= 122 implies
                        twos@[two_index(c, f)] == #[trigger] start2(d.take(i + 1), c, f) by {
                        lemma_start2_step(d, i as int, c, f);
                    }
                }
            }
            latest_first = Some(first);
            i = i + 1;
        }
        proof {
            assert(d.take(n as int) =~= d);
        }
        WordsShortcuts { size: n as u32, ones, twos, dict: Ghost(d) }
    }

    /// The first recorded one-letter slot after `c`.
    fn scan_next_one(&self, c: u8) -> (n: i32)
        requires
            self.wf(),
            97 <= c <= 122,
        ensures
            n == next_one(self.dict(), c + 1),
    {
        let d = Ghost(self.dict());
        let mut e: u8 = c + 1;
        while e <= 122
            invariant
                self.wf(),
                d@ == self.dict(),
                97 <= c <= 122,
                c + 1 <= e <= 123,
                next_one(d@, c + 1) == next_one(d@, e as int),
            decreases 123 - e,
        {
            let v = self.ones[(e - 97) as usize];
            if v >= 0 {
                proof {
                    assert(v == start1(d@, e));
                }
                return v;
            }
            proof {
                assert(start1(d@, e) < 0);
            }
            e = e + 1;
        }
        -1
    }

    /// The first recorded two-letter slot under `c` after `f`.
    fn scan_next_two(&self, c: u8, f: u8) -> (n: i32)
        requires
            self.wf(),
            97 <= c <= 122,
            97 <= f <= 122,
        ensures
            n == next_two(self.dict(), c, f + 1),
    {
        let d = Ghost(self.dict());
        let mut e: u8 = f + 1;
        while e <= 122
            invariant
                self.wf(),
                d@ == self.dict(),
                97 <= c <= 122,
                97 <= f <= 122,
                f + 1 <= e <= 123,
                next_two(d@, c, f + 1) == next_two(d@, c, e as int),
            decreases 123 - e,
        {
            let v = self.twos[(c - 97) as usize * 26 + (e - 97) as usize];
            if v >= 0 {
                proof {
                    assert(v == start2(d@, c, e));
                }
                return v;
            }
            proof {
                assert(start2(d@, c, e) < 0);
            }
            e = e + 1;
        }
        -1
    }

    /// The index range of the words that carry the given 1- or 2-letter
    /// prefix key: the bucket's recorded start, up to the next recorded
    /// bucket. The empty prefix yields the whole span; `None` means no word
    /// carries the prefix. Bytes past the second are not consulted.
    pub fn search_range(&self, prefix: &[u8]) -> (r: Option<Range<usize>>)
        requires
            self.wf(),
            forall|k: int| 0 <= k < prefix@.len() ==> 97 <= #[trigger] prefix@[k] <= 122,
        ensures
            match r {
                Some(rg) => search_range_spec(self.dict(), prefix@) == Some(
                    (rg.start as int, rg.end as int),
                ) && rg.start <= rg.end <= self.dict().len(),
                None => search_range_spec(self.dict(), prefix@).is_none(),
            },
    {
        let ghost d = self.dict();
        proof {
            lemma_range_bounds(d, prefix@);
        }
        let size = self.size as usize;
        if prefix.len() == 0 {
            return Some(0..size);
        }
        let c = prefix[0];
        let lv = self.ones[(c - 97) as usize];
        proof {
            assert(lv == start1(d, c));
        }
        if lv < 0 {
            return None;
        }
        proof {
            lemma_start1_props(d, c);
        }
        let mut left = lv as usize;
        let mut right = size;
        let n1 = self.scan_next_one(c);
        if n1 >= 0 && (n1 as usize) < size {
            right = n1 as usize;
        }
        if prefix.len() == 1 {
            return Some(left..right);
        }
        let f = prefix[1];
        let tv = self.twos[(c - 97) as usize * 26 + (f - 97) as usize];
        proof {
            assert(tv == start2(d, c, f));
        }
        if tv < 0 {
            return None;
        }
        proof {
            lemma_start2_props(d, c, f);
        }
        left = tv as usize;
        let n2 = self.scan_next_two(c, f);
        if n2 >= 0 && (n2 as usize) < right {
            right = n2 as usize;
        }
        Some(left..right)
    }
}

impl WordsShortcuts {
    /// Looks a prefix up after folding ASCII uppercase letters to
    /// lowercase, as the table itself was built over lowercase words.
    pub fn search_range_folded(&self, prefix: &[u8]) -> (r: Option<Range<usize>>)
        requires
            self.wf(),
            forall|k: int|
                0 <= k < prefix@.len() ==> 97 <= crate::hints::lower_byte(
                    #[trigger] prefix@[k],
                ) <= 122,
        ensures
            ({
                let folded = prefix@.map_values(|b: u8| crate::hints::lower_byte(b));
                match r {
                    Some(rg) => search_range_spec(self.dict(), folded) == Some(
                        (rg.start as int, rg.end as int),
                    ) && rg.start <= rg.end <= self.dict().len(),
                    None => search_range_spec(self.dict(), folded).is_none(),
                }
            }),
    {
        let folded = crate::hints::fold_lower(prefix);
        self.search_range(folded.as_slice())
    }
}

/// Looks a lowercase query up: the shortcut range of its first two letters,
/// scanned for the full query when it is longer than two bytes, decoded to
/// strings. `None` means no words carry the query's indexed prefix.
pub fn search_words(dict: &WordsDict, shortcuts: &WordsShortcuts, query: &[u8]) -> (r: Option<
    Vec<String>,
>)
    requires
        dict.wf(),
        words_lowercase(dict@),
        shortcuts.wf(),
        shortcuts.dict() == dict@,
        forall|k: int| 0 <= k < query@.len() ==> 97 <= #[trigger] query@[k] <= 122,
    ensures
        match search_range_spec(dict@, query@) {
            None => r.is_none(),
            Some((l, rr)) => match r {
                Some(v) => v.deep_view() == dict@.subrange(l, rr).filter(
                    |w: Seq<u8>| crate::words_dict::has_prefix(
                        w,
                        if query@.len() > 2 {
                            query@
                        } else {
                            Seq::<u8>::empty()
                        },
                    ),
                ).map_values(|w: Seq<u8>| crate::words_dict::chars_of(w)),
                None => false,
            },
        },
{
    match shortcuts.search_range(query) {
        None => None,
        Some(range) => {
            let prefix: &[u8] = if query.len() > 2 {
                query
            } else {
                vstd::slice::slice_subrange(query, 0, 0)
            };
            proof {
                if query@.len() <= 2 {
                    assert(prefix@ =~= Seq::<u8>::empty());
                }
            }
            Some(dict.search_range(range, prefix))
        },
    }
}

/// The empty prefix always yields the full span of the dictionary.
pub proof fn lemma_empty_prefix_full_span(d: Seq<Seq<u8>>)
    ensures
        search_range_spec(d, seq![]) == Some((0int, d.len() as int)),
{
}

/// Law: a one-letter query yields exactly and maximally the contiguous
/// bucket of the words beginning with that letter, and "absent" exactly
/// when no word does.
pub proof fn lemma_one_letter_range_exact(d: Seq<Seq<u8>>, c: u8)
    requires
        dict_sorted(d),
        words_lowercase(d),
        97 <= c <= 122,
    ensures
        match search_range_spec(d, seq![c]) {
            Some((l, r)) => 0 <= l < r <= d.len() && (forall|i: int|
                0 <= i < d.len() ==> (starts1(#[trigger] d[i], c) <==> l <= i < r)),
            None => forall|i: int| 0 <= i < d.len() ==> !starts1(#[trigger] d[i], c),
        },
{
    let size = d.len() as int;
    let p = seq![c];
    assert(p.len() == 1 && p[0] == c);
    lemma_start1_props(d, c);
    if start1(d, c) < 0 {
        return ;
    }
    let l = start1(d, c);
    assert(starts1(d[l], c));
    let n1 = next_one(d, c + 1);
    lemma_next_one_props(d, c + 1);
    let r = if n1 >= 0 && n1 < size {
        n1
    } else {
        size
    };
    assert(search_range_spec(d, p) == Some((l, r)));
    if n1 >= 0 {
        let e = choose|e: u8|
            c + 1 <= e <= 122 && #[trigger] start1(d, e) == n1 && (forall|e2: u8|
                c + 1 <= e2 < e ==> start1(d, e2) < 0);
        lemma_start1_props(d, e);
        assert(starts1(d[n1], e));
        assert(n1 < size);
        // every index of the range carries the letter
        assert forall|i: int| l <= i < r implies starts1(#[trigger] d[i], c) by {
            lemma_first_monotone(d, l, i);
            let g = d[i][0];
            if g > c {
                lemma_start1_props(d, g);
                assert(start1(d, g) >= 0);
                assert(g >= e);
                if start1(d, g) < n1 {
                    lemma_first_monotone(d, start1(d, g), n1);
                    assert(starts1(d[start1(d, g)], g));
                    assert(g <= e);
                    assert(i < start1(d, e));
                    assert(false);
                } else {
                    assert(i < start1(d, g));
                    assert(false);
                }
            }
        }
        // no index outside the range carries it
        assert forall|i: int| 0 <= i < d.len() && starts1(#[trigger] d[i], c) implies l <= i
            < r by {
            if i >= n1 {
                lemma_first_monotone(d, n1, i);
                assert(false);
            }
        }
        if l >= r {
            lemma_first_monotone(d, n1, l);
            assert(false);
        }
    } else {
        // no recorded letter after c: everything from l on carries c
        assert forall|i: int| l <= i < r implies starts1(#[trigger] d[i], c) by {
            lemma_first_monotone(d, l, i);
            let g = d[i][0];
            if g > c {
                lemma_start1_props(d, g);
                assert(start1(d, g) < 0);
                assert(false);
            }
        }
        assert forall|i: int| 0 <= i < d.len() && starts1(#[trigger] d[i], c) implies l <= i
            < r by {}
    }
}

/// Law: a one-letter prefix is answered "absent" exactly when no word of
/// the dictionary carries it.
pub proof fn lemma_one_letter_absent(d: Seq<Seq<u8>>, c: u8)
    requires
        dict_sorted(d),
        words_lowercase(d),
        97 <= c <= 122,
    ensures
        search_range_spec(d, seq![c]).is_none() <==> (forall|i: int|
            0 <= i < d.len() ==> !starts1(#[trigger] d[i], c)),
{
    lemma_one_letter_range_exact(d, c);
    if search_range_spec(d, seq![c]).is_some() {
        let (l, r) = search_range_spec(d, seq![c]).unwrap();
        assert(starts1(d[l], c));
    }
}

/// Law: a two-letter prefix is answered "absent" exactly when no word of
/// the dictionary carries it.
pub proof fn lemma_two_letter_absent(d: Seq<Seq<u8>>, c: u8, f: u8)
    requires
        dict_sorted(d),
        words_lowercase(d),
        97 <= c <= 122,
        97 <= f <= 122,
    ensures
        search_range_spec(d, seq![c, f]).is_none() <==> (forall|i: int|
            0 <= i < d.len() ==> !starts2(#[trigger] d[i], c, f)),
{
    let p = seq![c, f];
    assert(p.len() == 2 && p[0] == c && p[1] == f);
    lemma_start1_props(d, c);
    lemma_start2_props(d, c, f);
    if search_range_spec(d, p).is_none() {
        if start1(d, c) >= 0 {
            assert(start2(d, c, f) == -1);
        } else {
            assert forall|i: int| 0 <= i < d.len() implies !starts2(#[trigger] d[i], c, f) by {
                if starts2(d[i], c, f) {
                    assert(starts1(d[i], c));
                }
            }
        }
    } else {
        assert(start2(d, c, f) >= 0);
        assert(starts2(d[start2(d, c, f)], c, f));
    }
}

/// Law: a present two-letter range is exactly and maximally the contiguous
/// bucket of the words carrying both letters.
pub proof fn lemma_two_letter_range_exact(d: Seq<Seq<u8>>, c: u8, f: u8)
    requires
        dict_sorted(d),
        words_lowercase(d),
        97 <= c <= 122,
        97 <= f <= 122,
    ensures
        match search_range_spec(d, seq![c, f]) {
            Some((l, r)) => 0 <= l < r <= d.len() && (forall|i: int|
                0 <= i < d.len() ==> (starts2(#[trigger] d[i], c, f) <==> l <= i < r)),
            None => true,
        },
{
    let p2 = seq![c, f];
    let p1 = seq![c];
    assert(p2.len() == 2 && p2[0] == c && p2[1] == f);
    assert(p1.len() == 1 && p1[0] == c);
    if search_range_spec(d, p2).is_none() {
        return ;
    }
    lemma_range_bounds(d, p2);
    lemma_one_letter_range_exact(d, c);
    lemma_two_letter_within_one(d, c, f);
    let (l, r) = search_range_spec(d, p2).unwrap();
    let (l1, r1) = search_range_spec(d, p1).unwrap();
    lemma_start2_props(d, c, f);
    assert(l == start2(d, c, f));
    assert(starts2(d[l], c, f));
    let n2 = next_two(d, c, f + 1);
    lemma_next_two_props(d, c, f + 1);
    // every word of the bucket lies in the range
    assert forall|i: int| 0 <= i < d.len() && starts2(#[trigger] d[i], c, f) implies l <= i
        < r by {
        assert(l <= i);
        assert(starts1(d[i], c));
        assert(i < r1);
        if n2 >= 0 && n2 < r1 {
            let f2 = choose|f2: u8|
                f + 1 <= f2 <= 122 && #[trigger] start2(d, c, f2) == n2 && (forall|f3: u8|
                    f + 1 <= f3 < f2 ==> start2(d, c, f3) < 0);
            lemma_start2_props(d, c, f2);
            assert(starts2(d[n2], c, f2));
            if i >= n2 {
                lemma_second_monotone(d, n2, i);
                assert(false);
            }
        }
    }
    // every index of the range carries the bucket's two letters
    assert forall|i: int| l <= i < r implies starts2(#[trigger] d[i], c, f) by {
        assert(l1 <= i < r1);
        assert(starts1(d[i], c));
        if d[i].len() < 2 {
            // a one-letter word sorts before every two-letter sharer
            assert(l <= i);
            if l < i {
                lemma_lex_le_tail(d[l], d[i]);
                assert(!lex_le(d[l].drop_first(), d[i].drop_first()));
            }
            assert(false);
        }
        let g = d[i][1];
        lemma_second_monotone(d, l, i);
        assert(f <= g);
        if g > f {
            // the next recorded bucket would cap the range at or before i
            lemma_start2_props(d, c, g);
            assert(start2(d, c, g) >= 0);
            assert(start2(d, c, g) <= i);
            assert(n2 >= 0);
            let f2 = choose|f2: u8|
                f + 1 <= f2 <= 122 && #[trigger] start2(d, c, f2) == n2 && (forall|f3: u8|
                    f + 1 <= f3 < f2 ==> start2(d, c, f3) < 0);
            lemma_start2_props(d, c, f2);
            assert(f2 <= g);
            assert(starts2(d[n2], c, f2));
            let s2 = start2(d, c, g);
            if n2 > s2 {
                if f2 == g {
                    assert(n2 == s2);
                    assert(false);
                } else {
                    lemma_second_monotone(d, s2, n2);
                    assert(false);
                }
            }
            assert(n2 <= s2 <= i);
            if n2 < r1 {
                assert(r <= n2);
                assert(false);
            } else {
                assert(r <= r1 <= n2 <= i);
                assert(false);
            }
        }
    }
}

/// A two-letter query's range sits inside the range of its first letter.
pub proof fn lemma_two_letter_within_one(d: Seq<Seq<u8>>, c: u8, f: u8)
    requires
        dict_sorted(d),
        words_lowercase(d),
        97 <= c <= 122,
        97 <= f <= 122,
    ensures
        match (search_range_spec(d, seq![c, f]), search_range_spec(d, seq![c])) {
            (Some((l2, r2)), Some((l1, r1))) => l1 <= l2 && r2 <= r1,
            (Some(_), None) => false,
            _ => true,
        },
{
    let p2 = seq![c, f];
    let p1 = seq![c];
    assert(p2.len() == 2 && p2[0] == c && p2[1] == f);
    assert(p1.len() == 1 && p1[0] == c);
    if search_range_spec(d, p2).is_some() {
        assert(start1(d, c) >= 0);
        let l2 = start2(d, c, f);
        lemma_start2_props(d, c, f);
        assert(starts2(d[l2], c, f));
        lemma_start1_props(d, c);
        let l1 = start1(d, c);
        assert(starts1(d[l2], c));
        assert(l1 <= l2);
    }
}

} // verus!
