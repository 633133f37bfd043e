//! A prefix tree over bytes, with wildcard search and prefix listing.

use vstd::prelude::*;
use vstd::slice::slice_subrange;
use vstd::string::StringSliceAdditionalSpecFns;

verus! {

/// One node: whether the path to it spells a stored word, and one child
/// per distinct next byte.
#[derive(Debug)]
pub struct Trie {
    pub is_word: bool,
    pub children: Vec<(u8, Trie)>,
}

/// The subtree stored under `b`, taking the first entry with that key.
pub open spec fn find_child(cs: Seq<(u8, Trie)>, b: u8) -> Option<Trie>
    decreases cs.len(),
{
    if cs.len() == 0 {
        None
    } else if cs[0].0 == b {
        Some(cs[0].1)
    } else {
        find_child(cs.drop_first(), b)
    }
}

impl Trie {
    /// Each node holds at most one child per byte.
    pub open spec fn wf(self) -> bool
        decreases self,
    {
        &&& (forall|i: int, j: int|
            0 <= i < j < self.children@.len() ==> (#[trigger] self.children@[i]).0
                != (#[trigger] self.children@[j]).0)
        &&& (forall|i: int|
            0 <= i < self.children@.len() ==> (#[trigger] self.children@[i]).1.wf())
    }

    /// Every key on every path stays below 0x80.
    pub open spec fn all_ascii(self) -> bool
        decreases self,
    {
        forall|i: int|
            0 <= i < self.children@.len() ==> (#[trigger] self.children@[i]).0 < 128
                && self.children@[i].1.all_ascii()
    }

    /// The subtree stored under `b`, if any.
    pub open spec fn spec_child(self, b: u8) -> Option<Trie> {
        find_child(self.children@, b)
    }

    /// The word `w` is stored in this subtree.
    pub open spec fn contains_word(self, w: Seq<u8>) -> bool
        decreases w.len(),
    {
        if w.len() == 0 {
            self.is_word
        } else {
            match self.spec_child(w[0]) {
                None => false,
                Some(t) => t.contains_word(w.drop_first()),
            }
        }
    }

    /// Some stored word matches the pattern, byte for byte, where the byte
    /// `.` stands for any one byte.
    pub open spec fn matches_pattern(self, pat: Seq<u8>) -> bool
        decreases pat.len(),
    {
        if pat.len() == 0 {
            self.is_word
        } else if pat[0] == 46 {
            exists|i: int|
                0 <= i < self.children@.len() && (#[trigger] self.children@[i]).1.matches_pattern(
                    pat.drop_first(),
                )
        } else {
            match self.spec_child(pat[0]) {
                None => false,
                Some(t) => t.matches_pattern(pat.drop_first()),
            }
        }
    }

    /// The words of this subtree, each extending `path`: the node's own
    /// word first, then each child's words in child order.
    pub open spec fn subtree_words(self, path: Seq<u8>) -> Seq<Seq<u8>>
        decreases self, 0int,
    {
        (if self.is_word {
            seq![path]
        } else {
            seq![]
        }) + children_words(self.children, path, 0)
    }
}

/// The words of the children from index `i` on, in order.
pub open spec fn children_words(cs: Vec<(u8, Trie)>, path: Seq<u8>, i: int) -> Seq<Seq<u8>>
    decreases cs, cs@.len() - i,
{
    if i < 0 || i >= cs@.len() {
        seq![]
    } else {
        cs@[i].1.subtree_words(path.push(cs@[i].0)) + children_words(cs, path, i + 1)
    }
}

/// Where `b` sits among the children, or their count if absent.
fn find_child_index(children: &Vec<(u8, Trie)>, b: u8) -> (r: usize)
    ensures
        r <= children@.len(),
        r < children@.len() ==> (children@[r as int].0 == b && forall|k: int|
            0 <= k < r ==> (#[trigger] children@[k]).0 != b),
        r == children@.len() ==> forall|k: int|
            0 <= k < children@.len() ==> (#[trigger] children@[k]).0 != b,
{
    let mut i: usize = 0;
    while i < children.len()
        invariant
            i <= children@.len(),
            forall|k: int| 0 <= k < i ==> (#[trigger] children@[k]).0 != b,
        decreases children@.len() - i,
    {
        if children[i].0 == b {
            return i;
        }
        i = i + 1;
    }
    i
}

/// The first matching entry decides `find_child`.
proof fn lemma_find_child_first(cs: Seq<(u8, Trie)>, b: u8, i: int)
    requires
        0 <= i < cs.len(),
        cs[i].0 == b,
        forall|k: int| 0 <= k < i ==> (#[trigger] cs[k]).0 != b,
    ensures
        find_child(cs, b) == Some(cs[i].1),
    decreases cs.len(),
{
    if cs[0].0 == b {
        assert(i == 0);
    } else {
        assert(cs.drop_first()[i - 1] == cs[i]);
        assert(forall|k: int| 0 <= k < i - 1 ==> cs.drop_first()[k] == cs[k + 1]);
        lemma_find_child_first(cs.drop_first(), b, i - 1);
    }
}

/// With no entry for `b`, `find_child` yields nothing.
proof fn lemma_find_child_none(cs: Seq<(u8, Trie)>, b: u8)
    requires
        forall|k: int| 0 <= k < cs.len() ==> (#[trigger] cs[k]).0 != b,
    ensures
        find_child(cs, b).is_none(),
    decreases cs.len(),
{
    if cs.len() > 0 {
        assert(forall|k: int| 0 <= k < cs.drop_first().len() ==> cs.drop_first()[k] == cs[k + 1]);
        lemma_find_child_none(cs.drop_first(), b);
    }
}

/// Replacing the subtree of one entry changes `find_child` only at its key.
proof fn lemma_find_child_update(cs: Seq<(u8, Trie)>, idx: int, t: Trie, x: u8)
    requires
        0 <= idx < cs.len(),
    ensures
        x != cs[idx].0 ==> find_child(cs.update(idx, (cs[idx].0, t)), x) == find_child(cs, x),
        (x == cs[idx].0 && forall|k: int| 0 <= k < idx ==> (#[trigger] cs[k]).0 != x) ==> find_child(
            cs.update(idx, (cs[idx].0, t)),
            x,
        ) == Some(t),
    decreases cs.len(),
{
    let cs2 = cs.update(idx, (cs[idx].0, t));
    if idx == 0 {
        if x != cs[0].0 {
            assert(cs2.drop_first() =~= cs.drop_first());
        }
    } else {
        assert(cs2[0] == cs[0]);
        assert(cs2.drop_first() =~= cs.drop_first().update(idx - 1, (cs.drop_first()[idx - 1].0, t)));
        lemma_find_child_update(cs.drop_first(), idx - 1, t, x);
        if x == cs[idx].0 && (forall|k: int| 0 <= k < idx ==> (#[trigger] cs[k]).0 != x) {
            assert(cs[0].0 != x);
            assert(forall|k: int|
                0 <= k < idx - 1 ==> (#[trigger] cs.drop_first()[k]).0 == cs[k + 1].0);
        }
    }
}

/// Appending an entry is only seen by `find_child` when its key was absent.
proof fn lemma_find_child_push(cs: Seq<(u8, Trie)>, e: (u8, Trie), x: u8)
    ensures
        find_child(cs.push(e), x) == if find_child(cs, x).is_some() {
            find_child(cs, x)
        } else if e.0 == x {
            Some(e.1)
        } else {
            None
        },
    decreases cs.len(),
{
    if cs.len() == 0 {
        assert(cs.push(e)[0] == e);
        assert(cs.push(e).drop_first() =~= Seq::<(u8, Trie)>::empty());
        assert(find_child(Seq::<(u8, Trie)>::empty(), x).is_none());
        if e.0 == x {
            assert(find_child(cs.push(e), x) == Some(e.1));
        } else {
            assert(find_child(cs.push(e), x).is_none());
        }
        assert(find_child(cs, x).is_none());
    } else {
        assert(cs.push(e)[0] == cs[0]);
        assert(cs.push(e).drop_first() =~= cs.drop_first().push(e));
        lemma_find_child_push(cs.drop_first(), e, x);
        if cs[0].0 == x {
            assert(find_child(cs.push(e), x) == Some(cs[0].1));
            assert(find_child(cs, x) == Some(cs[0].1));
        } else {
            assert(find_child(cs.push(e), x) == find_child(cs.drop_first().push(e), x));
            assert(find_child(cs, x) == find_child(cs.drop_first(), x));
        }
    }
}

impl Trie {
    /// An empty tree: no words at all.
    pub fn new() -> (t: Trie)
        ensures
            t.wf(),
            t.all_ascii(),
            !t.is_word,
            t.children@.len() == 0,
    {
        Trie { is_word: false, children: Vec::new() }
    }

    /// Stores the word, read as bytes; an empty word is ignored.
    pub fn append(&mut self, value: &str)
        requires
            old(self).wf(),
        ensures
            final(self).wf(),
            forall|w: Seq<u8>|
                final(self).contains_word(w) == (old(self).contains_word(w) || (value@.len() > 0
                    && w == value.spec_bytes())),
    {
        if value.is_empty() {
            return ;
        }
        self.append_bytes(value.as_bytes());
    }

    /// Stores the byte sequence as a word.
    pub fn append_bytes(&mut self, bytes: &[u8])
        requires
            old(self).wf(),
        ensures
            final(self).wf(),
            forall|w: Seq<u8>|
                final(self).contains_word(w) == (old(self).contains_word(w) || w == bytes@),
        decreases bytes@.len(),
    {
        if bytes.len() == 0 {
            self.is_word = true;
            proof {
                assert forall|w: Seq<u8>|
                    final(self).contains_word(w) == (old(self).contains_word(w) || w
                        == bytes@) by {
                    assert(bytes@ =~= Seq::<u8>::empty());
                    if w.len() == 0 {
                        assert(w =~= bytes@);
                    } else {
                        assert(final(self).spec_child(w[0]) == old(self).spec_child(w[0]));
                    }
                }
            }
            return ;
        }
        let b = bytes[0];
        let ghost cs_orig = self.children@;
        let idx = find_child_index(&self.children, b);
        if idx == self.children.len() {
            let fresh = Trie::new();
            self.children.push((b, fresh));
        }
        let ghost base = self.children@;
        proof {
            // the base keeps unique well-formed children and has `b` at `idx`
            assert(base[idx as int].0 == b);
            if cs_orig.len() == idx {
                assert(forall|k: int| 0 <= k < cs_orig.len() ==> base[k] == cs_orig[k]);
                assert forall|x: int, y: int| 0 <= x < y < base.len() implies (
                #[trigger] base[x]).0 != (#[trigger] base[y]).0 by {
                    if y < idx {
                        assert(base[x] == cs_orig[x] && base[y] == cs_orig[y]);
                    } else {
                        assert(base[x] == cs_orig[x]);
                    }
                }
            }
            assert(forall|i: int| 0 <= i < base.len() ==> (#[trigger] base[i]).1.wf());
            assert(forall|k: int| 0 <= k < idx ==> (#[trigger] base[k]).0 != b);
        }
        let mut entry = self.children.remove(idx);
        let rest = slice_subrange(bytes, 1, bytes.len());
        proof {
            assert(rest@ =~= bytes@.drop_first());
        }
        entry.1.append_bytes(rest);
        let ghost node1 = entry.1;
        self.children.insert(idx, entry);
        proof {
            assert(self.children@ =~= base.update(idx as int, (b, node1)));
            let cs2 = self.children@;
            // uniqueness and child well-formedness carry over
            assert forall|x: int, y: int| 0 <= x < y < cs2.len() implies (#[trigger] cs2[x]).0 != (
            #[trigger] cs2[y]).0 by {
                assert(cs2[x].0 == base[x].0 && cs2[y].0 == base[y].0);
            }
            assert forall|i: int| 0 <= i < cs2.len() implies (#[trigger] cs2[i]).1.wf() by {
                if i != idx {
                    assert(cs2[i] == base[i]);
                }
            }
            let ghost node0 = base[idx as int].1;
            assert forall|w: Seq<u8>|
                final(self).contains_word(w) == (old(self).contains_word(w) || w == bytes@) by {
                if w.len() == 0 {
                    assert(w != bytes@);
                } else {
                    lemma_find_child_update(base, idx as int, node1, w[0]);
                    if w[0] == b {
                        assert(final(self).spec_child(b) == Some(node1));
                        assert(node1.contains_word(w.drop_first()) == (node0.contains_word(
                            w.drop_first(),
                        ) || w.drop_first() == bytes@.drop_first()));
                        // membership before the append goes through the
                        // child that stood there before
                        if cs_orig.len() == idx {
                            lemma_find_child_none(cs_orig, b);
                            assert(!old(self).contains_word(w));
                            assert(!node0.is_word && node0.children@.len() == 0);
                            assert(!node0.contains_word(w.drop_first()));
                        } else {
                            lemma_find_child_first(cs_orig, b, idx as int);
                            assert(old(self).contains_word(w) == node0.contains_word(
                                w.drop_first(),
                            ));
                        }
                        assert((w == bytes@) == (w[0] == bytes@[0] && w.drop_first()
                            == bytes@.drop_first())) by {
                            if w[0] == bytes@[0] && w.drop_first() == bytes@.drop_first() {
                                assert(w.len() == bytes@.len());
                                assert forall|q: int| 0 <= q < w.len() implies w[q]
                                    == bytes@[q] by {
                                    if q > 0 {
                                        assert(w[q] == w.drop_first()[q - 1]);
                                        assert(bytes@[q] == bytes@.drop_first()[q - 1]);
                                    }
                                }
                                assert(w =~= bytes@);
                            }
                        }
                    } else {
                        assert(final(self).spec_child(w[0]) == find_child(base, w[0]));
                        if cs_orig.len() == idx {
                            lemma_find_child_push(cs_orig, base[idx as int], w[0]);
                            assert(base =~= cs_orig.push(base[idx as int]));
                            assert(find_child(base, w[0]) == find_child(cs_orig, w[0]));
                        }
                        assert(w != bytes@);
                    }
                }
            }
        }
    }

    /// The node the byte path leads to, if the path is present.
    pub fn follow(&self, bytes: &[u8]) -> (r: Option<&Trie>)
        ensures
            match r {
                Some(t) => self.spec_follow(bytes@) == Some(*t),
                None => self.spec_follow(bytes@).is_none(),
            },
        decreases bytes@.len(),
    {
        if bytes.len() == 0 {
            return Some(self);
        }
        let b = bytes[0];
        let idx = find_child_index(&self.children, b);
        if idx < self.children.len() {
            proof {
                lemma_find_child_first(self.children@, b, idx as int);
            }
            let rest = slice_subrange(bytes, 1, bytes.len());
            proof {
                assert(rest@ =~= bytes@.drop_first());
            }
            self.children[idx].1.follow(rest)
        } else {
            proof {
                lemma_find_child_none(self.children@, b);
            }
            None
        }
    }

    /// The node the byte path leads to, if the path is present.
    pub open spec fn spec_follow(self, bytes: Seq<u8>) -> Option<Trie>
        decreases bytes.len(),
    {
        if bytes.len() == 0 {
            Some(self)
        } else {
            match self.spec_child(bytes[0]) {
                None => None,
                Some(t) => t.spec_follow(bytes.drop_first()),
            }
        }
    }

    /// Appends to `words` every word of this subtree, each spelled as
    /// `path` followed by its own bytes, the node's word first, then the
    /// children's in child order.
    pub fn dfs(&self, words: &mut Vec<String>, path: &[u8])
        requires
            self.all_ascii(),
            forall|k: int| 0 <= k < path@.len() ==> #[trigger] path@[k] < 128,
        ensures
            final(words).deep_view() == old(words).deep_view() + self.subtree_words(
                path@,
            ).map_values(|w: Seq<u8>| crate::words_dict::chars_of(w)),
        decreases self,
    {
        let ghost before = words.deep_view();
        let ghost to_chars = |w: Seq<u8>| crate::words_dict::chars_of(w);
        if self.is_word {
            let s = crate::words_dict::bytes_to_string(path);
            words.push(s);
        }
        proof {
            let own: Seq<Seq<u8>> = if self.is_word {
                seq![path@]
            } else {
                seq![]
            };
            assert(words.deep_view() =~= before + own.map_values(to_chars));
        }
        let mut i: usize = 0;
        while i < self.children.len()
            invariant
                self.all_ascii(),
                forall|k: int| 0 <= k < path@.len() ==> #[trigger] path@[k] < 128,
                i <= self.children@.len(),
                to_chars == (|w: Seq<u8>| crate::words_dict::chars_of(w)),
                words.deep_view() + children_words(self.children, path@, i as int).map_values(
                    to_chars,
                ) == before + self.subtree_words(path@).map_values(to_chars),
            decreases self.children@.len() - i,
        {
            let entry = &self.children[i];
            let mut new_path: Vec<u8> = slice_to_vec_bytes(path);
            new_path.push(entry.0);
            proof {
                assert(new_path@ =~= path@.push(entry.0));
                assert((#[trigger] self.children@[i as int]).1 == entry.1);
            }
            let ghost mid = words.deep_view();
            entry.1.dfs(words, new_path.as_slice());
            proof {
                let cw_i = children_words(self.children, path@, i as int);
                let cw_n = children_words(self.children, path@, i + 1);
                let sub = entry.1.subtree_words(path@.push(entry.0));
                assert(cw_i == sub + cw_n);
                assert(cw_i.map_values(to_chars) =~= sub.map_values(to_chars) + cw_n.map_values(
                    to_chars,
                ));
                assert(words.deep_view() =~= mid + sub.map_values(to_chars));
            }
            i = i + 1;
        }
        proof {
            assert(children_words(self.children, path@, i as int) =~= Seq::<Seq<u8>>::empty());
            assert(words.deep_view() =~= words.deep_view() + Seq::<Seq<u8>>::empty().map_values(
                to_chars,
            ));
        }
    }

    /// Whether the pattern, read as bytes, matches some stored word; the
    /// byte `.` stands for any one byte.
    pub fn search(&self, value: &str) -> (r: bool)
        ensures
            r == self.matches_pattern(value.spec_bytes()),
    {
        self.search_bytes(value.as_bytes())
    }

    /// Whether the byte pattern matches some stored word; the byte `.`
    /// stands for any one byte.
    pub fn search_bytes(&self, bytes: &[u8]) -> (r: bool)
        ensures
            r == self.matches_pattern(bytes@),
        decreases bytes@.len(),
    {
        if bytes.len() == 0 {
            return self.is_word;
        }
        let b = bytes[0];
        let rest = slice_subrange(bytes, 1, bytes.len());
        proof {
            assert(rest@ =~= bytes@.drop_first());
        }
        if b == 46 {
            let mut i: usize = 0;
            while i < self.children.len()
                invariant
                    rest@ == bytes@.drop_first(),
                    bytes@.len() > 0,
                    bytes@[0] == 46,
                    i <= self.children@.len(),
                    forall|k: int|
                        0 <= k < i ==> !(#[trigger] self.children@[k]).1.matches_pattern(
                            bytes@.drop_first(),
                        ),
                decreases self.children@.len() - i,
            {
                if self.children[i].1.search_bytes(rest) {
                    return true;
                }
                i = i + 1;
            }
            return false;
        }
        let idx = find_child_index(&self.children, b);
        if idx < self.children.len() {
            proof {
                lemma_find_child_first(self.children@, b, idx as int);
            }
            self.children[idx].1.search_bytes(rest)
        } else {
            proof {
                lemma_find_child_none(self.children@, b);
            }
            false
        }
    }

    /// All stored words that begin with the given prefix, the prefix's own
    /// word first, then deeper words in child order.
    pub fn starts_with(&self, value: &str) -> (r: Vec<String>)
        requires
            self.all_ascii(),
            forall|k: int|
                0 <= k < value.spec_bytes().len() ==> #[trigger] value.spec_bytes()[k] < 128,
        ensures
            match self.spec_follow(value.spec_bytes()) {
                None => r@.len() == 0,
                Some(t) => r.deep_view() == t.subtree_words(value.spec_bytes()).map_values(
                    |w: Seq<u8>| crate::words_dict::chars_of(w),
                ),
            },
    {
        let bytes = value.as_bytes();
        let mut words: Vec<String> = Vec::new();
        proof {
            lemma_follow_ascii(*self, bytes@);
        }
        if let Some(root) = self.follow(bytes) {
            root.dfs(&mut words, bytes);
            proof {
                assert(words.deep_view() =~= root.subtree_words(bytes@).map_values(
                    |w: Seq<u8>| crate::words_dict::chars_of(w),
                ));
            }
        }
        words
    }
}

/// A found child sits at the first entry carrying its key.
proof fn lemma_find_child_some(cs: Seq<(u8, Trie)>, b: u8)
    ensures
        match find_child(cs, b) {
            Some(t2) => exists|j: int|
                0 <= j < cs.len() && #[trigger] cs[j] == (b, t2) && (forall|k: int|
                    0 <= k < j ==> (#[trigger] cs[k]).0 != b),
            None => true,
        },
    decreases cs.len(),
{
    if cs.len() > 0 && cs[0].0 != b {
        lemma_find_child_some(cs.drop_first(), b);
        if find_child(cs, b).is_some() {
            let t2 = find_child(cs, b).unwrap();
            let j = choose|j: int|
                0 <= j < cs.drop_first().len() && #[trigger] cs.drop_first()[j] == (b, t2) && (
                forall|k: int| 0 <= k < j ==> (#[trigger] cs.drop_first()[k]).0 != b);
            assert(cs[j + 1] == (b, t2));
            assert forall|k: int| 0 <= k < j + 1 implies (#[trigger] cs[k]).0 != b by {
                if k > 0 {
                    assert(cs.drop_first()[k - 1] == cs[k]);
                }
            }
            assert(exists|j2: int|
                0 <= j2 < cs.len() && #[trigger] cs[j2] == (b, t2) && (forall|k: int|
                    0 <= k < j2 ==> (#[trigger] cs[k]).0 != b));
        }
    }
}

/// Law: the node `follow` lands on answers membership for the suffixes of
/// the followed path; a missed path means no word carries it.
pub proof fn lemma_follow_words(t: Trie, bytes: Seq<u8>, rest: Seq<u8>)
    ensures
        match t.spec_follow(bytes) {
            Some(t2) => t2.contains_word(rest) == t.contains_word(bytes + rest),
            None => !t.contains_word(bytes + rest),
        },
    decreases bytes.len(),
{
    if bytes.len() == 0 {
        assert(bytes + rest =~= rest);
    } else {
        assert((bytes + rest)[0] == bytes[0]);
        match t.spec_child(bytes[0]) {
            None => {},
            Some(c) => {
                assert((bytes + rest).drop_first() =~= bytes.drop_first() + rest);
                lemma_follow_words(c, bytes.drop_first(), rest);
            },
        }
    }
}

/// Following a path inside a well-formed tree lands on a well-formed node.
proof fn lemma_follow_wf(t: Trie, bytes: Seq<u8>)
    requires
        t.wf(),
    ensures
        match t.spec_follow(bytes) {
            Some(t2) => t2.wf(),
            None => true,
        },
    decreases bytes.len(),
{
    if bytes.len() > 0 {
        match t.spec_child(bytes[0]) {
            None => {},
            Some(c) => {
                lemma_find_child_some(t.children@, bytes[0]);
                lemma_follow_wf(c, bytes.drop_first());
            },
        }
    }
}

/// Law: the listed subtree words are exactly the extensions of the path by
/// the subtree's stored words.
pub proof fn lemma_subtree_words_exact(t: Trie, path: Seq<u8>)
    requires
        t.wf(),
    ensures
        forall|w: Seq<u8>|
            #[trigger] t.subtree_words(path).contains(w) <==> (exists|s: Seq<u8>|
                w == path + s && #[trigger] t.contains_word(s)),
    decreases t, 0int,
{
    lemma_children_words_exact(t.children, path, 0);
    let own: Seq<Seq<u8>> = if t.is_word {
        seq![path]
    } else {
        seq![]
    };
    let cw = children_words(t.children, path, 0);
    let cs = t.children@;
    assert(t.subtree_words(path) == own + cw);
    assert forall|w: Seq<u8>| #[trigger] t.subtree_words(path).contains(w) implies (exists|
        s: Seq<u8>,
    |
        w == path + s && #[trigger] t.contains_word(s)) by {
        let k = choose|k: int| 0 <= k < (own + cw).len() && (own + cw)[k] == w;
        if k < own.len() {
            assert(t.is_word && w == path);
            assert(t.contains_word(Seq::<u8>::empty()));
            assert(w == path + Seq::<u8>::empty()) by {
                assert(path + Seq::<u8>::empty() =~= path);
            }
        } else {
            assert(cw[k - own.len()] == w);
            assert(cw.contains(w));
            let (j, s) = choose|j: int, s: Seq<u8>|
                0 <= j < cs.len() && w == path.push(cs[j].0) + s && #[trigger] cs[j].1
                    .contains_word(s);
            let key = cs[j].0;
            assert(forall|k2: int| 0 <= k2 < j ==> (#[trigger] cs[k2]).0 != key);
            lemma_find_child_first(cs, key, j);
            let s2 = seq![key] + s;
            assert(s2.len() > 0 && s2[0] == key);
            assert(s2.drop_first() =~= s);
            assert(t.contains_word(s2));
            assert(w == path + s2) by {
                assert(path.push(key) + s =~= path + (seq![key] + s));
            }
        }
    }
    assert forall|w: Seq<u8>| (exists|s: Seq<u8>|
        w == path + s && #[trigger] t.contains_word(s)) implies #[trigger] t.subtree_words(
        path,
    ).contains(w) by {
        let s = choose|s: Seq<u8>| w == path + s && #[trigger] t.contains_word(s);
        if s.len() == 0 {
            assert(w =~= path);
            assert(own.len() == 1 && own[0] == path);
            assert((own + cw)[0] == w);
        } else {
            lemma_find_child_some(cs, s[0]);
            let c = t.spec_child(s[0]).unwrap();
            let j = choose|j: int|
                0 <= j < cs.len() && #[trigger] cs[j] == (s[0], c) && (forall|k: int|
                    0 <= k < j ==> (#[trigger] cs[k]).0 != s[0]);
            assert(c.contains_word(s.drop_first()));
            assert(w == path.push(cs[j].0) + s.drop_first()) by {
                assert(path + s =~= path.push(s[0]) + s.drop_first());
            }
            assert(cw.contains(w));
            let k = choose|k: int| 0 <= k < cw.len() && cw[k] == w;
            assert((own + cw)[own.len() + k] == w);
        }
    }
}

/// The words listed from child `i` on are exactly the extensions of the
/// path by one child key and a word stored under it.
proof fn lemma_children_words_exact(cs: Vec<(u8, Trie)>, path: Seq<u8>, i: int)
    requires
        0 <= i,
        forall|j: int| 0 <= j < cs@.len() ==> (#[trigger] cs@[j]).1.wf(),
    ensures
        forall|w: Seq<u8>|
            #[trigger] children_words(cs, path, i).contains(w) <==> (exists|j: int, s: Seq<u8>|
                i <= j < cs@.len() && w == path.push(cs@[j].0) + s && #[trigger] cs@[j].1
                    .contains_word(s)),
    decreases cs, cs@.len() - i,
{
    if 0 <= i < cs@.len() {
        lemma_subtree_words_exact(cs@[i].1, path.push(cs@[i].0));
        lemma_children_words_exact(cs, path, i + 1);
        let sub = cs@[i].1.subtree_words(path.push(cs@[i].0));
        let rest = children_words(cs, path, i + 1);
        assert(children_words(cs, path, i) == sub + rest);
        assert forall|w: Seq<u8>| #[trigger] children_words(cs, path, i).contains(w) implies (
        exists|j: int, s: Seq<u8>|
            i <= j < cs@.len() && w == path.push(cs@[j].0) + s && #[trigger] cs@[j].1
                .contains_word(s)) by {
            let k = choose|k: int| 0 <= k < (sub + rest).len() && (sub + rest)[k] == w;
            if k < sub.len() {
                assert(sub.contains(w));
                let s = choose|s: Seq<u8>|
                    w == path.push(cs@[i].0) + s && #[trigger] cs@[i].1.contains_word(s);
                assert(i <= i < cs@.len() && w == path.push(cs@[i].0) + s && cs@[i].1
                    .contains_word(s));
            } else {
                assert(rest[k - sub.len()] == w);
                assert(rest.contains(w));
            }
        }
        assert forall|w: Seq<u8>| (exists|j: int, s: Seq<u8>|
            i <= j < cs@.len() && w == path.push(cs@[j].0) + s && #[trigger] cs@[j].1
                .contains_word(s)) implies #[trigger] children_words(cs, path, i).contains(
            w,
        ) by {
            let (j, s) = choose|j: int, s: Seq<u8>|
                i <= j < cs@.len() && w == path.push(cs@[j].0) + s && #[trigger] cs@[j].1
                    .contains_word(s);
            if j == i {
                assert(sub.contains(w));
                let k = choose|k: int| 0 <= k < sub.len() && sub[k] == w;
                assert((sub + rest)[k] == w);
            } else {
                assert(rest.contains(w));
                let k = choose|k: int| 0 <= k < rest.len() && rest[k] == w;
                assert((sub + rest)[sub.len() + k] == w);
            }
        }
    }
}

/// Law: `starts_with`'s listing holds exactly the stored words that carry
/// the given prefix.
pub proof fn lemma_prefix_listing_exact(t: Trie, bytes: Seq<u8>)
    requires
        t.wf(),
    ensures
        match t.spec_follow(bytes) {
            Some(t2) => forall|w: Seq<u8>|
                #[trigger] t2.subtree_words(bytes).contains(w) <==> (t.contains_word(w)
                    && crate::words_dict::has_prefix(w, bytes)),
            None => forall|w: Seq<u8>|
                !(#[trigger] t.contains_word(w) && crate::words_dict::has_prefix(w, bytes)),
        },
{
    lemma_follow_wf(t, bytes);
    match t.spec_follow(bytes) {
        Some(t2) => {
            lemma_subtree_words_exact(t2, bytes);
            assert forall|w: Seq<u8>| #[trigger] t2.subtree_words(bytes).contains(w) implies (
            t.contains_word(w) && crate::words_dict::has_prefix(w, bytes)) by {
                let s = choose|s: Seq<u8>| w == bytes + s && #[trigger] t2.contains_word(s);
                lemma_follow_words(t, bytes, s);
                assert(crate::words_dict::has_prefix(w, bytes)) by {
                    assert(w.subrange(0, bytes.len() as int) =~= bytes);
                }
            }
            assert forall|w: Seq<u8>| (t.contains_word(w) && crate::words_dict::has_prefix(
                w,
                bytes,
            )) implies #[trigger] t2.subtree_words(bytes).contains(w) by {
                let s = w.skip(bytes.len() as int);
                assert(w == bytes + s) by {
                    assert(bytes + s =~= w);
                }
                lemma_follow_words(t, bytes, s);
                assert(t2.contains_word(s));
            }
        },
        None => {
            assert forall|w: Seq<u8>| !(#[trigger] t.contains_word(w)
                && crate::words_dict::has_prefix(w, bytes)) by {
                if crate::words_dict::has_prefix(w, bytes) {
                    let s = w.skip(bytes.len() as int);
                    assert(w == bytes + s) by {
                        assert(bytes + s =~= w);
                    }
                    lemma_follow_words(t, bytes, s);
                }
            }
        },
    }
}

/// Law: a pattern without wildcards matches exactly when it is a stored
/// word, so a word that was appended is found again by search.
pub proof fn lemma_plain_pattern_is_membership(t: Trie, pat: Seq<u8>)
    requires
        forall|k: int| 0 <= k < pat.len() ==> #[trigger] pat[k] != 46,
    ensures
        t.matches_pattern(pat) == t.contains_word(pat),
    decreases pat.len(),
{
    if pat.len() > 0 {
        assert(pat[0] != 46);
        match t.spec_child(pat[0]) {
            None => {},
            Some(c) => {
                assert(forall|k: int|
                    0 <= k < pat.drop_first().len() ==> #[trigger] pat.drop_first()[k] == pat[k
                        + 1]);
                lemma_plain_pattern_is_membership(c, pat.drop_first());
            },
        }
    }
}

/// Following a path inside an all-ASCII tree lands on an all-ASCII node.
proof fn lemma_follow_ascii(t: Trie, bytes: Seq<u8>)
    requires
        t.all_ascii(),
    ensures
        match t.spec_follow(bytes) {
            Some(t2) => t2.all_ascii(),
            None => true,
        },
    decreases bytes.len(),
{
    if bytes.len() > 0 {
        match t.spec_child(bytes[0]) {
            None => {},
            Some(c) => {
                lemma_find_child_ascii(t.children@, bytes[0]);
                lemma_follow_ascii(c, bytes.drop_first());
            },
        }
    }
}

/// A child found among all-ASCII children is all-ASCII itself.
proof fn lemma_find_child_ascii(cs: Seq<(u8, Trie)>, b: u8)
    requires
        forall|i: int|
            0 <= i < cs.len() ==> (#[trigger] cs[i]).0 < 128 && cs[i].1.all_ascii(),
    ensures
        match find_child(cs, b) {
            Some(t) => t.all_ascii(),
            None => true,
        },
    decreases cs.len(),
{
    if cs.len() > 0 && cs[0].0 != b {
        assert(forall|i: int| 0 <= i < cs.drop_first().len() ==> cs.drop_first()[i] == cs[i + 1]);
        lemma_find_child_ascii(cs.drop_first(), b);
    }
}

/// Copies a byte slice into a fresh vector.
fn slice_to_vec_bytes(s: &[u8]) -> (v: Vec<u8>)
    ensures
        v@ == s@,
{
    let mut v: Vec<u8> = Vec::new();
    let mut i: usize = 0;
    while i < s.len()
        invariant
            i <= s@.len(),
            v@ == s@.take(i as int),
        decreases s@.len() - i,
    {
        v.push(s[i]);
        proof {
            assert(s@.take(i as int).push(s@[i as int]) =~= s@.take(i + 1));
        }
        i = i + 1;
    }
    proof {
        assert(s@.take(s@.len() as int) =~= s@);
    }
    v
}

impl Default for Trie {
    /// An empty tree.
    fn default() -> (t: Self)
        ensures
            t.wf(),
            t.all_ascii(),
            !t.is_word,
            t.children@.len() == 0,
    {
        Trie::new()
    }
}

} // verus!
