//! The dictionary store: an immutable, lexicographically sorted list of words.

use core::ops::Range;
use vstd::multiset::Multiset;
use vstd::prelude::*;
use vstd::seq_lib::*;

use crate::lex::{lex_le, lex_le_bytes, lemma_lex_le_antisymm, lemma_lex_le_total,
    lemma_lex_le_trans};

verus! {

/// The words of a byte stream: maximal runs of bytes between newlines,
/// empty runs discarded. `cur` is the partial word read so far.
pub open spec fn split_words(data: Seq<u8>, cur: Seq<u8>) -> Seq<Seq<u8>>
    decreases data.len(),
{
    if data.len() == 0 {
        if cur.len() == 0 {
            seq![]
        } else {
            seq![cur]
        }
    } else if data[0] == 10 {
        (if cur.len() == 0 {
            seq![]
        } else {
            seq![cur]
        }) + split_words(data.drop_first(), seq![])
    } else {
        split_words(data.drop_first(), cur.push(data[0]))
    }
}

/// Every word comes no later than the words after it.
pub open spec fn dict_sorted(d: Seq<Seq<u8>>) -> bool {
    forall|i: int, j: int| 0 <= i < j < d.len() ==> lex_le(d[i], d[j])
}

/// Every word is a nonempty sequence of lowercase ASCII letters.
pub open spec fn words_lowercase(d: Seq<Seq<u8>>) -> bool {
    forall|i: int|
        0 <= i < d.len() ==> d[i].len() >= 1 && (forall|j: int|
            0 <= j < d[i].len() ==> 97 <= #[trigger] d[i][j] <= 122)
}

/// The characters that spell a word of ASCII bytes.
pub open spec fn chars_of(w: Seq<u8>) -> Seq<char> {
    Seq::new(w.len(), |i: int| w[i] as char)
}

/// `p` is a prefix of `w`.
pub open spec fn has_prefix(w: Seq<u8>, p: Seq<u8>) -> bool {
    p.len() <= w.len() && w.subrange(0, p.len() as int) == p
}

/// The model of an executable word list: the sequence of its byte sequences.
pub open spec fn words_model(s: Seq<Vec<u8>>) -> Seq<Seq<u8>> {
    s.map_values(|w: Vec<u8>| w@)
}

/// The sorted, immutable store of dictionary words.
pub struct WordsDict {
    words: Vec<Vec<u8>>,
}

impl View for WordsDict {
    type V = Seq<Seq<u8>>;

    closed spec fn view(&self) -> Seq<Seq<u8>> {
        words_model(self.words@)
    }
}

impl WordsDict {
    /// The store is sorted and holds no empty word.
    pub open spec fn wf(&self) -> bool {
        &&& dict_sorted(self@)
        &&& forall|i: int| 0 <= i < self@.len() ==> #[trigger] self@[i].len() >= 1
    }
}

/// Copies one word.
fn clone_word(w: &Vec<u8>) -> (r: Vec<u8>)
    ensures
        r@ == w@,
{
    let mut out: Vec<u8> = Vec::new();
    let mut i: usize = 0;
    while i < w.len()
        invariant
            i <= w@.len(),
            out@ == w@.take(i as int),
        decreases w@.len() - i,
    {
        out.push(w[i]);
        proof {
            assert(w@.take(i as int).push(w@[i as int]) =~= w@.take(i + 1));
        }
        i = i + 1;
    }
    proof {
        assert(w@.take(w@.len() as int) =~= w@);
    }
    out
}

/// Relies on String::from_utf8_lossy: bytes below 0x80 decode to the
/// characters with the same code points.
#[verifier::external_body]
pub(crate) fn bytes_to_string(w: &[u8]) -> (r: String)
    requires
        forall|i: int| 0 <= i < w@.len() ==> w@[i] < 128,
    ensures
        r@ == chars_of(w@),
{
    String::from_utf8_lossy(w).into_owned()
}

impl WordsDict {
    /// Reads the newline-separated word list, discards empty entries and
    /// sorts the rest by byte value.
    pub fn load(data: &[u8]) -> (d: WordsDict)
        ensures
            d.wf(),
            d@.to_multiset() == split_words(data@, seq![]).to_multiset(),
    {
        let ghost target: Seq<Seq<u8>> = split_words(data@, seq![]);
        let mut raw: Vec<Vec<u8>> = Vec::new();
        let mut cur: Vec<u8> = Vec::new();
        let mut i: usize = 0;
        proof {
            assert(data@.skip(0) =~= data@);
            assert(words_model(raw@) + split_words(data@.skip(0), cur@) =~= target);
        }
        while i < data.len()
            invariant
                i <= data@.len(),
                words_model(raw@) + split_words(data@.skip(i as int), cur@) == target,
                forall|k: int| 0 <= k < raw@.len() ==> #[trigger] raw@[k]@.len() >= 1,
            decreases data@.len() - i,
        {
            let b = data[i];
            proof {
                assert(data@.skip(i as int)[0] == data@[i as int]);
                assert(data@.skip(i as int).drop_first() =~= data@.skip(i + 1));
            }
            if b == 10 {
                if cur.len() > 0 {
                    let ghost old_raw = raw@;
                    let ghost old_cur = cur@;
                    raw.push(cur);
                    cur = Vec::new();
                    proof {
                        assert(words_model(raw@) =~= words_model(old_raw) + seq![old_cur]);
                        assert(words_model(raw@) + split_words(data@.skip(i + 1), cur@) =~= (
                        words_model(old_raw) + split_words(data@.skip(i as int), old_cur)));
                    }
                } else {
                    proof {
                        assert(cur@ =~= Seq::<u8>::empty());
                        assert(Seq::<Seq<u8>>::empty() + split_words(data@.skip(i + 1), seq![])
                            =~= split_words(data@.skip(i + 1), seq![]));
                        assert(split_words(data@.skip(i as int), cur@) == split_words(
                            data@.skip(i + 1),
                            cur@,
                        ));
                    }
                }
            } else {
                cur.push(b);
            }
            i = i + 1;
        }
        if cur.len() > 0 {
            let ghost old_raw = raw@;
            let ghost old_cur = cur@;
            raw.push(cur);
            proof {
                assert(data@.skip(i as int) =~= Seq::<u8>::empty());
                assert(words_model(raw@) =~= words_model(old_raw) + seq![old_cur]);
                assert(words_model(raw@) =~= target);
            }
        } else {
            proof {
                assert(data@.skip(i as int) =~= Seq::<u8>::empty());
                assert(words_model(raw@) + split_words(data@.skip(i as int), cur@) =~= words_model(
                    raw@,
                ));
            }
        }
        proof {
            assert(words_model(raw@) == target);
        }
        Self::sort_words(raw)
    }

    /// Orders the gathered words; the result holds the same words.
    fn sort_words(raw: Vec<Vec<u8>>) -> (d: WordsDict)
        requires
            forall|k: int| 0 <= k < raw@.len() ==> #[trigger] raw@[k]@.len() >= 1,
        ensures
            d.wf(),
            d@.to_multiset() == words_model(raw@).to_multiset(),
    {
        broadcast use vstd::seq_lib::group_to_multiset_ensures;

        let ghost target = words_model(raw@).to_multiset();
        let mut raw = raw;
        let mut words: Vec<Vec<u8>> = Vec::new();
        proof {
            assert(words_model(words@) =~= Seq::<Seq<u8>>::empty());
            assert(words_model(words@).to_multiset().add(words_model(raw@).to_multiset())
                =~= target);
        }
        while raw.len() > 0
            invariant
                words_model(words@).to_multiset().add(words_model(raw@).to_multiset()) == target,
                dict_sorted(words_model(words@)),
                forall|k: int| 0 <= k < raw@.len() ==> #[trigger] raw@[k]@.len() >= 1,
                forall|k: int| 0 <= k < words@.len() ==> #[trigger] words@[k]@.len() >= 1,
            decreases raw@.len(),
        {
            let ghost old_raw = raw@;
            let w = raw.pop().unwrap();
            proof {
                assert(words_model(old_raw) =~= words_model(raw@).push(w@));
                vstd::seq_lib::to_multiset_build(words_model(raw@), w@);
            }
            let pos = Self::insert_pos(&words, &w);
            let ghost old_words = words@;
            words.insert(pos, w);
            proof {
                let p = pos as int;
                let m0 = words_model(old_words);
                let m1 = words_model(words@);
                assert(m1 =~= m0.insert(p, w@));
                m0.insert_ensures(p, w@);
                vstd::seq_lib::to_multiset_insert(m0, p, w@);
                assert(m1.to_multiset().add(words_model(raw@).to_multiset()) =~= target);
                assert forall|i: int, j: int| 0 <= i < j < m1.len() implies lex_le(
                    m1[i],
                    m1[j],
                ) by {
                    if j < p {
                        assert(m1[i] == m0[i] && m1[j] == m0[j]);
                    } else if i < p && j == p {
                        assert(m1[i] == m0[i] && m1[j] == w@);
                    } else if i == p {
                        assert(m1[i] == w@ && m1[j] == m0[j - 1]);
                        assert(p < m0.len());
                        assert(lex_le(w@, m0[p]));
                        if j - 1 > p {
                            lemma_lex_le_trans(w@, m0[p], m0[j - 1]);
                        }
                    } else if i < p && j > p {
                        assert(m1[i] == m0[i] && m1[j] == m0[j - 1]);
                        assert(j - 1 > i);
                    } else {
                        assert(i > p);
                        assert(m1[i] == m0[i - 1] && m1[j] == m0[j - 1]);
                    }
                }
            }
        }
        proof {
            assert(words_model(raw@) =~= Seq::<Seq<u8>>::empty());
            assert(words_model(raw@).to_multiset() =~= Multiset::<Seq<u8>>::empty());
            assert(words_model(words@).to_multiset().add(Multiset::<Seq<u8>>::empty())
                =~= words_model(words@).to_multiset());
        }
        WordsDict { words }
    }

    /// Where `w` belongs in the ordered list: the first place whose word
    /// does not come before `w`.
    fn insert_pos(words: &Vec<Vec<u8>>, w: &Vec<u8>) -> (pos: usize)
        ensures
            pos <= words@.len(),
            forall|m: int| 0 <= m < pos ==> lex_le(#[trigger] words_model(words@)[m], w@),
            pos < words@.len() ==> lex_le(w@, words_model(words@)[pos as int]),
    {
        let mut k: usize = 0;
        while k < words.len()
            invariant
                k <= words@.len(),
                forall|m: int| 0 <= m < k ==> lex_le(#[trigger] words_model(words@)[m], w@),
            decreases words@.len() - k,
        {
            if !lex_le_bytes(&words[k], &w) {
                proof {
                    lemma_lex_le_total(words_model(words@)[k as int], w@);
                }
                return k;
            }
            k = k + 1;
        }
        k
    }

    /// The number of words in the store.
    pub fn size(&self) -> (n: usize)
        ensures
            n == self@.len(),
    {
        self.words.len()
    }

    /// The word at `at`, or nothing past the end.
    pub fn get(&self, at: usize) -> (r: Option<&Vec<u8>>)
        ensures
            match r {
                Some(w) => at < self@.len() && w@ == self@[at as int],
                None => at >= self@.len(),
            },
    {
        if at < self.words.len() {
            Some(&self.words[at])
        } else {
            None
        }
    }

    /// All words, in store order.
    pub fn iter(&self) -> (r: &Vec<Vec<u8>>)
        ensures
            words_model(r@) == self@,
    {
        &self.words
    }

    /// The words of a half-open index interval, in store order. The interval
    /// must come from a shortcut query or be the full span: anything else is
    /// a caller error.
    pub fn iter_range(&self, range: Range<usize>) -> (r: Vec<Vec<u8>>)
        requires
            range.start <= range.end <= self@.len(),
        ensures
            words_model(r@) == self@.subrange(range.start as int, range.end as int),
    {
        let mut out: Vec<Vec<u8>> = Vec::new();
        let mut i: usize = range.start;
        proof {
            assert(words_model(out@) =~= self@.subrange(range.start as int, range.start as int));
        }
        while i < range.end
            invariant
                range.start <= i <= range.end <= self@.len(),
                words_model(out@) == self@.subrange(range.start as int, i as int),
                self@.len() == self.words@.len(),
            decreases range.end - i,
        {
            let ghost old_out = out@;
            let w = clone_word(&self.words[i]);
            out.push(w);
            proof {
                assert(w@ == self@[i as int]);
                assert(words_model(out@) =~= words_model(old_out).push(w@));
                assert(self@.subrange(range.start as int, i + 1) =~= self@.subrange(
                    range.start as int,
                    i as int,
                ).push(self@[i as int]));
                assert(words_model(out@) =~= self@.subrange(range.start as int, i + 1));
            }
            i = i + 1;
        }
        out
    }

    /// The words of the interval that begin with `prefix`, decoded to
    /// strings, in store order.
    pub fn search_range(&self, range: Range<usize>, prefix: &[u8]) -> (r: Vec<String>)
        requires
            range.start <= range.end <= self@.len(),
            words_lowercase(self@),
        ensures
            r.deep_view() == self@.subrange(range.start as int, range.end as int).filter(
                |w: Seq<u8>| has_prefix(w, prefix@),
            ).map_values(|w: Seq<u8>| chars_of(w)),
    {
        broadcast use vstd::seq_lib::group_filter_ensures;

        let mut out: Vec<String> = Vec::new();
        let mut i: usize = range.start;
        proof {
            assert(self@.subrange(range.start as int, range.start as int)
                =~= Seq::<Seq<u8>>::empty());
            reveal(Seq::filter);
            assert(out.deep_view() =~= self@.subrange(range.start as int, range.start as int)
                .filter(|w: Seq<u8>| has_prefix(w, prefix@)).map_values(
                |w: Seq<u8>| chars_of(w),
            ));
        }
        while i < range.end
            invariant
                range.start <= i <= range.end <= self@.len(),
                words_lowercase(self@),
                self@.len() == self.words@.len(),
                out.deep_view() == self@.subrange(range.start as int, i as int).filter(
                    |w: Seq<u8>| has_prefix(w, prefix@),
                ).map_values(|w: Seq<u8>| chars_of(w)),
            decreases range.end - i,
        {
            let w = &self.words[i];
            let keep = starts_with_bytes(w, prefix);
            proof {
                let pred = |ww: Seq<u8>| has_prefix(ww, prefix@);
                let a = self@.subrange(range.start as int, i as int);
                let b = self@.subrange(range.start as int, i + 1);
                assert(b =~= a.push(self@[i as int]));
                reveal_with_fuel(Seq::filter, 2);
                assert(b.drop_last() =~= a);
                assert(b.last() == self@[i as int]);
            }
            if keep {
                let ghost old_deep = out.deep_view();
                let s = bytes_to_string(w.as_slice());
                out.push(s);
                proof {
                    let pred = |ww: Seq<u8>| has_prefix(ww, prefix@);
                    let a = self@.subrange(range.start as int, i as int);
                    let b = self@.subrange(range.start as int, i + 1);
                    assert(b.filter(pred) == a.filter(pred).push(self@[i as int]));
                    assert(out.deep_view() =~= old_deep.push(s@));
                    assert(out.deep_view() =~= b.filter(pred).map_values(
                        |ww: Seq<u8>| chars_of(ww),
                    ));
                }
            } else {
                proof {
                    let pred = |ww: Seq<u8>| has_prefix(ww, prefix@);
                    let a = self@.subrange(range.start as int, i as int);
                    let b = self@.subrange(range.start as int, i + 1);
                    assert(b.filter(pred) == a.filter(pred));
                }
            }
            i = i + 1;
        }
        out
    }
}

/// Whether `w` begins with the bytes of `p`.
fn starts_with_bytes(w: &Vec<u8>, p: &[u8]) -> (r: bool)
    ensures
        r == has_prefix(w@, p@),
{
    if p.len() > w.len() {
        return false;
    }
    let mut i: usize = 0;
    while i < p.len()
        invariant
            p@.len() <= w@.len(),
            i <= p@.len(),
            forall|j: int| 0 <= j < i ==> w@[j] == p@[j],
        decreases p@.len() - i,
    {
        if w[i] != p[i] {
            proof {
                assert(w@.subrange(0, p@.len() as int)[i as int] != p@[i as int]);
            }
            return false;
        }
        i = i + 1;
    }
    proof {
        assert(w@.subrange(0, p@.len() as int) =~= p@);
    }
    true
}

/// Law: a sorted arrangement of given words is unique, so the loaded store
/// is fully determined by the words of its input.
pub proof fn lemma_sorted_arrangement_unique(a: Seq<Seq<u8>>, b: Seq<Seq<u8>>)
    requires
        dict_sorted(a),
        dict_sorted(b),
        a.to_multiset() == b.to_multiset(),
    ensures
        a == b,
    decreases a.len(),
{
    broadcast use vstd::seq_lib::group_to_multiset_ensures;

    vstd::seq_lib::to_multiset_len(a);
    vstd::seq_lib::to_multiset_len(b);
    assert(a.len() == b.len());
    if a.len() == 0 {
        assert(a =~= b);
    } else {
        assert(a.contains(a[0]));
        assert(b.contains(b[0]));
        vstd::seq_lib::to_multiset_contains(a, a[0]);
        vstd::seq_lib::to_multiset_contains(b, a[0]);
        vstd::seq_lib::to_multiset_contains(a, b[0]);
        vstd::seq_lib::to_multiset_contains(b, b[0]);
        assert(b.contains(a[0]));
        assert(a.contains(b[0]));
        if a[0] != b[0] {
            let i = choose|i: int| 0 <= i < b.len() && b[i] == a[0];
            let j = choose|j: int| 0 <= j < a.len() && a[j] == b[0];
            assert(i > 0 && j > 0);
            assert(lex_le(b[0], b[i]));
            assert(lex_le(a[0], a[j]));
            lemma_lex_le_antisymm(a[0], b[0]);
        }
        assert(a[0] == b[0]);
        let a2 = a.drop_first();
        let b2 = b.drop_first();
        assert(a2 =~= a.remove(0));
        assert(b2 =~= b.remove(0));
        assert(a2.to_multiset() == a.to_multiset().remove(a[0]));
        assert(b2.to_multiset() == b.to_multiset().remove(b[0]));
        assert(forall|x: int, y: int|
            0 <= x < y < a2.len() ==> lex_le(#[trigger] a2[x], #[trigger] a2[y]));
        assert(forall|x: int, y: int|
            0 <= x < y < b2.len() ==> lex_le(#[trigger] b2[x], #[trigger] b2[y]));
        lemma_sorted_arrangement_unique(a2, b2);
        assert(a =~= seq![a[0]] + a2);
        assert(b =~= seq![b[0]] + b2);
    }
}

} // verus!
