use vstd::prelude::*;
use std::str::Chars;
use vstd::std_specs::iter::IteratorSpec;

verus! {

/// The character at the root of a tree that holds whole words.
pub const ROOT_CHAR: char = ' ';

/// A prefix tree for looking words up by their beginning.
///
/// Every node holds one character; a word is the path of characters from a child of
/// the root down to a node marked as the end of a word.
#[derive(Debug, PartialEq, Eq)]
pub struct Trie {
    root: char,
    is_word: bool,
    leaves: Vec<Trie>,
}

/// The leaves of a node have pairwise distinct characters, and every leaf leads to a
/// stored word, at every depth.
pub closed spec fn trie_wf(t: Trie) -> bool
    decreases t,
{
    &&& forall|i: int, j: int|
        0 <= i < j < t.leaves@.len() ==> #[trigger] t.leaves@[i].root != #[trigger] t.leaves@[j].root
    &&& forall|i: int| 0 <= i < t.leaves@.len() ==> leads_to_word(#[trigger] t.leaves@[i])
    &&& forall|i: int| 0 <= i < t.leaves@.len() ==> trie_wf(#[trigger] t.leaves@[i])
}

/// Some word, possibly the empty one, is stored at or below the node.
pub closed spec fn leads_to_word(t: Trie) -> bool {
    exists|s: Seq<char>| has_word(t, s)
}

/// The path `w`, read from the children of `t` downwards, ends at a node marked as a word.
/// The empty path stands for `t` itself.
pub closed spec fn has_word(t: Trie, w: Seq<char>) -> bool
    decreases w.len(),
{
    if w.len() == 0 {
        t.is_word
    } else {
        exists|i: int|
            0 <= i < t.leaves@.len() && (#[trigger] t.leaves@[i]).root == w[0] && has_word(
                t.leaves@[i],
                w.drop_first(),
            )
    }
}

/// The character of the node.
pub closed spec fn trie_root(t: Trie) -> char {
    t.root
}

impl View for Trie {
    type V = Set<Seq<char>>;

    /// The non-empty words stored below the node.
    open spec fn view(&self) -> Set<Seq<char>> {
        Set::new(|w: Seq<char>| w.len() > 0 && has_word(*self, w))
    }
}

impl Trie {
    /// The tree's invariant: sibling nodes never hold the same character.
    pub open spec fn wf(&self) -> bool {
        trie_wf(*self)
    }

    /// The root node is marked as the end of a word (the empty word was added).
    pub closed spec fn holds_empty_word(&self) -> bool {
        self.is_word
    }

    /// Creates an empty tree.
    pub fn new() -> (res: Self)
        ensures
            res.wf(),
            res@ == Set::<Seq<char>>::empty(),
            trie_root(res) == ROOT_CHAR,
            !res.holds_empty_word(),
            forall|v: Seq<char>| !#[trigger] has_word(res, v),
    {
        let res = Trie { root: ROOT_CHAR, is_word: false, leaves: Vec::new() };
        proof {
            assert(res@ =~= Set::<Seq<char>>::empty());
        }
        res
    }

    /// Removes every word from the tree.
    pub fn clear(&mut self)
        requires
            old(self).wf(),
        ensures
            final(self).wf(),
            final(self)@ == Set::<Seq<char>>::empty(),
            trie_root(*final(self)) == trie_root(*old(self)),
            final(self).holds_empty_word() == old(self).holds_empty_word(),
            forall|v: Seq<char>|
                #[trigger] has_word(*final(self), v) <==> v.len() == 0 && has_word(*old(self), v),
    {
        self.leaves.clear();
        proof {
            assert(self@ =~= Set::<Seq<char>>::empty());
        }
    }
}


/// `a` and `b` are equal node for node: the same characters, the same word marks, and the
/// same leaves in the same order, at every depth.
pub closed spec fn same_tree(a: Trie, b: Trie) -> bool
    decreases a,
{
    &&& a.root == b.root
    &&& a.is_word == b.is_word
    &&& a.leaves@.len() == b.leaves@.len()
    &&& forall|i: int| 0 <= i < a.leaves@.len() ==> same_tree(#[trigger] a.leaves@[i], b.leaves@[i])
}

/// The characters of `s` strictly decrease from one node to the next.
pub closed spec fn roots_descending(s: Seq<Trie>) -> bool {
    forall|i: int, j: int| 0 <= i < j < s.len() ==> (#[trigger] s[i].root as u32) > (#[trigger] s[j].root as u32)
}

/// `after` is the node that adding the word `w` leaves in place of a node with character
/// `root`, word mark `is_word` and leaves `leaves`. At the word's end the node is marked
/// and its leaves are put in descending order of their characters; before it, the word
/// goes on in the leaf with its next character, or in a new leaf put after the others.
pub closed spec fn push_result(root: char, is_word: bool, leaves: Seq<Trie>, w: Seq<char>, after: Trie) -> bool
    decreases w.len(),
{
    &&& after.root == root
    &&& if w.len() == 0 {
        &&& after.is_word
        &&& roots_descending(after.leaves@)
        &&& forall|t: Trie| after.leaves@.contains(t) <==> leaves.contains(t)
    } else {
        &&& after.is_word == is_word
        &&& if exists|i: int| 0 <= i < leaves.len() && (#[trigger] leaves[i]).root == w[0] {
            let i = choose|i: int| 0 <= i < leaves.len() && (#[trigger] leaves[i]).root == w[0];
            &&& after.leaves@.len() == leaves.len()
            &&& forall|j: int| 0 <= j < leaves.len() && j != i ==> after.leaves@[j] == #[trigger] leaves[j]
            &&& push_result(leaves[i].root, leaves[i].is_word, leaves[i].leaves@, w.drop_first(), after.leaves@[i])
        } else {
            &&& after.leaves@.len() == leaves.len() + 1
            &&& forall|j: int| 0 <= j < leaves.len() ==> after.leaves@[j] == #[trigger] leaves[j]
            &&& push_result(w[0], false, Seq::empty(), w.drop_first(), after.leaves@[leaves.len() as int])
        }
    }
}

/// `after` is what adding the word `w` to `t` leaves.
pub closed spec fn pushes(t: Trie, w: Seq<char>, after: Trie) -> bool {
    push_result(t.root, t.is_word, t.leaves@, w, after)
}

proof fn lemma_same_tree_refl(t: Trie)
    ensures
        same_tree(t, t),
    decreases t,
{
    assert forall|i: int| 0 <= i < t.leaves@.len() implies same_tree(#[trigger] t.leaves@[i], t.leaves@[i]) by {
        lemma_same_tree_refl(t.leaves@[i]);
    }
}

/// Two sequences of the same nodes, both in strictly descending order, are the same.
proof fn lemma_descending_unique(a: Seq<Trie>, b: Seq<Trie>)
    requires
        roots_descending(a),
        roots_descending(b),
        forall|t: Trie| a.contains(t) <==> b.contains(t),
    ensures
        a =~= b,
    decreases a.len(),
{
    if a.len() == 0 {
        if b.len() > 0 {
            assert(b.contains(b[0]));
        }
    } else {
        assert(a.contains(a[0]));
        assert(b.len() > 0);
        assert(b.contains(b[0]));
        let i = choose|i: int| 0 <= i < a.len() && a[i] == b[0];
        let j = choose|j: int| 0 <= j < b.len() && b[j] == a[0];
        if i > 0 {
            assert(a[0].root as u32 > a[i].root as u32);
            if j > 0 {
                assert(b[0].root as u32 > b[j].root as u32);
            }
        }
        if j > 0 {
            assert(b[0].root as u32 > b[j].root as u32);
        }
        assert(a[0] == b[0]);
        let a1 = a.drop_first();
        let b1 = b.drop_first();
        assert forall|t: Trie| a1.contains(t) <==> b1.contains(t) by {
            if a1.contains(t) {
                let k = choose|k: int| 0 <= k < a1.len() && a1[k] == t;
                assert(a[k + 1] == t);
                assert(a[0].root as u32 > a[k + 1].root as u32);
                assert(b.contains(t));
                let l = choose|l: int| 0 <= l < b.len() && b[l] == t;
                assert(l != 0);
                assert(b1[l - 1] == t);
            }
            if b1.contains(t) {
                let k = choose|k: int| 0 <= k < b1.len() && b1[k] == t;
                assert(b[k + 1] == t);
                assert(b[0].root as u32 > b[k + 1].root as u32);
                assert(a.contains(t));
                let l = choose|l: int| 0 <= l < a.len() && a[l] == t;
                assert(l != 0);
                assert(a1[l - 1] == t);
            }
        }
        lemma_descending_unique(a1, b1);
        assert forall|k: int| 0 <= k < a.len() implies a[k] == b[k] by {
            if k > 0 {
                assert(a[k] == a1[k - 1]);
                assert(b[k] == b1[k - 1]);
            }
        }
    }
}

proof fn lemma_push_result_unique(root: char, is_word: bool, leaves: Seq<Trie>, w: Seq<char>, a: Trie, b: Trie)
    requires
        push_result(root, is_word, leaves, w, a),
        push_result(root, is_word, leaves, w, b),
    ensures
        same_tree(a, b),
    decreases w.len(),
{
    if w.len() == 0 {
        assert forall|t: Trie| a.leaves@.contains(t) <==> b.leaves@.contains(t) by {
            assert(a.leaves@.contains(t) <==> leaves.contains(t));
            assert(b.leaves@.contains(t) <==> leaves.contains(t));
        }
        lemma_descending_unique(a.leaves@, b.leaves@);
        assert forall|i: int| 0 <= i < a.leaves@.len() implies same_tree(#[trigger] a.leaves@[i], b.leaves@[i]) by {
            lemma_same_tree_refl(a.leaves@[i]);
        }
    } else if exists|i: int| 0 <= i < leaves.len() && (#[trigger] leaves[i]).root == w[0] {
        let i = choose|i: int| 0 <= i < leaves.len() && (#[trigger] leaves[i]).root == w[0];
        lemma_push_result_unique(
            leaves[i].root,
            leaves[i].is_word,
            leaves[i].leaves@,
            w.drop_first(),
            a.leaves@[i],
            b.leaves@[i],
        );
        assert forall|j: int| 0 <= j < a.leaves@.len() implies same_tree(#[trigger] a.leaves@[j], b.leaves@[j]) by {
            if j != i {
                assert(a.leaves@[j] == leaves[j]);
                assert(b.leaves@[j] == leaves[j]);
                lemma_same_tree_refl(a.leaves@[j]);
            }
        }
    } else {
        let n = leaves.len() as int;
        lemma_push_result_unique(w[0], false, Seq::empty(), w.drop_first(), a.leaves@[n], b.leaves@[n]);
        assert forall|j: int| 0 <= j < a.leaves@.len() implies same_tree(#[trigger] a.leaves@[j], b.leaves@[j]) by {
            if j < n {
                assert(a.leaves@[j] == leaves[j]);
                assert(b.leaves@[j] == leaves[j]);
                lemma_same_tree_refl(a.leaves@[j]);
            }
        }
    }
}

/// Law: adding one word to one tree always gives the same tree, node for node, whichever
/// way the word is handed over ([`Trie::push`] with the text, [`Trie::push_chars`] with
/// its characters), since both leave a tree that [`pushes`] describes.
pub proof fn lemma_push_is_deterministic(t: Trie, w: Seq<char>, a: Trie, b: Trie)
    requires
        pushes(t, w, a),
        pushes(t, w, b),
    ensures
        same_tree(a, b),
{
    lemma_push_result_unique(t.root, t.is_word, t.leaves@, w, a, b);
}

impl Trie {
    /// A copy of the tree, node for node.
    fn copy_tree(&self) -> (res: Trie)
        ensures
            same_tree(res, *self),
            res@ == self@,
        decreases self,
    {
        let mut leaves: Vec<Trie> = Vec::new();
        let mut k: usize = 0;
        while k < self.leaves.len()
            invariant
                k <= self.leaves@.len(),
                leaves@.len() == k,
                forall|i: int| 0 <= i < k ==> same_tree(#[trigger] leaves@[i], self.leaves@[i]),
            decreases self.leaves@.len() - k,
        {
            let leaf = self.leaves[k].copy_tree();
            leaves.push(leaf);
            k += 1;
        }
        let res = Trie { root: self.root, is_word: self.is_word, leaves };
        proof {
            assert forall|w: Seq<char>| has_word(res, w) <==> has_word(*self, w) by {
                lemma_same_tree_words(res, *self, w);
            }
            assert(res@ =~= self@);
        }
        res
    }
}

impl Clone for Trie {
    fn clone(&self) -> (res: Self)
        ensures
            same_tree(res, *self),
            res@ == self@,
    {
        self.copy_tree()
    }
}

/// Trees equal node for node hold the same words.
proof fn lemma_same_tree_words(a: Trie, b: Trie, w: Seq<char>)
    requires
        same_tree(a, b),
    ensures
        has_word(a, w) <==> has_word(b, w),
    decreases w.len(),
{
    if w.len() > 0 {
        if has_word(a, w) {
            let i = choose|i: int|
                0 <= i < a.leaves@.len() && (#[trigger] a.leaves@[i]).root == w[0] && has_word(
                    a.leaves@[i],
                    w.drop_first(),
                );
            assert(same_tree(a.leaves@[i], b.leaves@[i]));
            lemma_same_tree_words(a.leaves@[i], b.leaves@[i], w.drop_first());
            assert(b.leaves@[i].root == w[0]);
        }
        if has_word(b, w) {
            let i = choose|i: int|
                0 <= i < b.leaves@.len() && (#[trigger] b.leaves@[i]).root == w[0] && has_word(
                    b.leaves@[i],
                    w.drop_first(),
                );
            assert(same_tree(a.leaves@[i], b.leaves@[i]));
            lemma_same_tree_words(a.leaves@[i], b.leaves@[i], w.drop_first());
        }
    }
}

/// Reads the characters that a `Chars` iterator has still to yield.
fn collect_chars(word: &mut Chars) -> (res: Vec<char>)
    requires
        (*old(word)).decrease() is Some,
    ensures
        res@ == (*old(word)).remaining(),
        (*final(word)).remaining().len() == 0,
{
    broadcast use vstd::string::next_postcondition;
    let mut res: Vec<char> = Vec::new();
    let ghost all = (*word).remaining();
    assert(all == (*old(word)).remaining());
    loop
        invariant
            (*word).obeys_prophetic_iter_laws(),
            (*word).decrease() is Some,
            all == res@ + (*word).remaining(),
            all == (*old(word)).remaining(),
        decreases (*word).decrease()->0,
    {
        match word.next() {
            Some(c) => {
                res.push(c);
            },
            None => {
                assert(all =~= res@);
                return res;
            },
        }
    }
}

proof fn lemma_same_head_tail(v: Seq<char>, s: Seq<char>)
    requires
        v.len() > 0,
        s.len() > 0,
        v[0] == s[0],
        v.drop_first() == s.drop_first(),
    ensures
        v == s,
{
    assert(v.drop_first().len() == v.len() - 1);
    assert(s.drop_first().len() == s.len() - 1);
    assert(v.len() == s.len());
    assert forall|k: int| 0 <= k < v.len() implies v[k] == s[k] by {
        if k > 0 {
            assert(v[k] == v.drop_first()[k - 1]);
            assert(s[k] == s.drop_first()[k - 1]);
        }
    }
    assert(v =~= s);
}

/// Position of the leaf that holds `c`, if any.
fn leaf_position(leaves: &Vec<Trie>, c: char) -> (res: Option<usize>)
    ensures
        res matches Some(i) ==> i < leaves@.len() && leaves@[i as int].root == c,
        res is None ==> forall|i: int| 0 <= i < leaves@.len() ==> leaves@[i].root != c,
{
    let mut k: usize = 0;
    while k < leaves.len()
        invariant
            k <= leaves@.len(),
            forall|i: int| 0 <= i < k ==> leaves@[i].root != c,
        decreases leaves@.len() - k,
    {
        if leaves[k].root == c {
            return Some(k);
        }
        k += 1;
    }
    None
}

/// Orders the leaves by character, from the greatest to the smallest.
fn sort_leaves_descending(leaves: Vec<Trie>) -> (res: Vec<Trie>)
    requires
        forall|i: int, j: int|
            0 <= i < j < leaves@.len() ==> #[trigger] leaves@[i].root != #[trigger] leaves@[j].root,
    ensures
        forall|t: Trie| res@.contains(t) <==> leaves@.contains(t),
        forall|i: int, j: int|
            0 <= i < j < res@.len() ==> (#[trigger] res@[i].root as u32) > (#[trigger] res@[j].root as u32),
{
    let mut remaining = leaves;
    let mut result: Vec<Trie> = Vec::new();
    while remaining.len() > 0
        invariant
            forall|t: Trie| leaves@.contains(t) <==> (result@.contains(t) || remaining@.contains(t)),
            forall|i: int, j: int|
                0 <= i < j < remaining@.len() ==> #[trigger] remaining@[i].root
                    != #[trigger] remaining@[j].root,
            forall|i: int, j: int|
                0 <= i < j < result@.len() ==> (#[trigger] result@[i].root as u32) > (
                #[trigger] result@[j].root as u32),
            forall|i: int, j: int|
                0 <= i < result@.len() && 0 <= j < remaining@.len() ==> (
                #[trigger] result@[i].root as u32) > (#[trigger] remaining@[j].root as u32),
        decreases remaining@.len(),
    {
        let mut m: usize = 0;
        let mut k: usize = 1;
        while k < remaining.len()
            invariant
                0 < remaining@.len(),
                m < remaining@.len(),
                1 <= k <= remaining@.len(),
                m < k,
                forall|j: int| 0 <= j < k ==> (remaining@[j].root as u32) <= (
                remaining@[m as int].root as u32),
            decreases remaining@.len() - k,
        {
            if (remaining[k].root as u32) > (remaining[m].root as u32) {
                m = k;
            }
            k += 1;
        }
        let ghost before = remaining@;
        let ghost result_before = result@;
        let top = remaining.remove(m);
        proof {
            assert forall|j: int| 0 <= j < remaining@.len() implies (remaining@[j].root as u32) < (
            top.root as u32) by {
                if j < m {
                    assert(remaining@[j] == before[j]);
                } else {
                    assert(remaining@[j] == before[j + 1]);
                }
            }
            assert forall|t: Trie| before.contains(t) <==> (remaining@.contains(t) || t == top) by {
                if before.contains(t) {
                    let j = choose|j: int| 0 <= j < before.len() && before[j] == t;
                    if j < m {
                        assert(remaining@[j] == t);
                    } else if j > m {
                        assert(remaining@[j - 1] == t);
                    }
                }
                if remaining@.contains(t) {
                    let j = choose|j: int| 0 <= j < remaining@.len() && remaining@[j] == t;
                    if j < m {
                        assert(before[j] == t);
                    } else {
                        assert(before[j + 1] == t);
                    }
                }
                if t == top {
                    assert(before[m as int] == t);
                }
            }
        }
        result.push(top);
        proof {
            assert forall|t: Trie| result@.contains(t) <==> (result_before.contains(t) || t == top) by {
                if result@.contains(t) {
                    let j = choose|j: int| 0 <= j < result@.len() && result@[j] == t;
                    if j < result_before.len() {
                        assert(result_before[j] == t);
                    }
                }
                if result_before.contains(t) {
                    let j = choose|j: int| 0 <= j < result_before.len() && result_before[j] == t;
                    assert(result@[j] == t);
                }
                if t == top {
                    assert(result@[result@.len() - 1] == t);
                }
            }
        }
    }
    result
}

impl Trie {
    /// Adds a word given by the characters `word` has still to yield.
    pub fn push_chars(&mut self, word: &mut Chars)
        requires
            old(self).wf(),
            (*old(word)).decrease() is Some,
        ensures
            final(self).wf(),
            trie_root(*final(self)) == trie_root(*old(self)),
            forall|v: Seq<char>|
                #[trigger] has_word(*final(self), v) <==> has_word(*old(self), v) || v == (*old(
                    word,
                )).remaining(),
            (*final(word)).remaining().len() == 0,
            pushes(*old(self), (*old(word)).remaining(), *final(self)),
    {
        let chars = collect_chars(word);
        self.push_from(&chars, 0);
        proof {
            assert(chars@.skip(0) =~= chars@);
        }
    }

    /// Adds a word.
    pub fn push(&mut self, word: &str)
        requires
            old(self).wf(),
        ensures
            final(self).wf(),
            trie_root(*final(self)) == trie_root(*old(self)),
            forall|v: Seq<char>|
                #[trigger] has_word(*final(self), v) <==> has_word(*old(self), v) || v == word@,
            word@.len() > 0 ==> final(self)@ == old(self)@.insert(word@),
            word@.len() == 0 ==> final(self)@ == old(self)@,
            pushes(*old(self), word@, *final(self)),
    {
        broadcast use vstd::string::axiom_spec_iter;
        let mut chars = word.chars();
        self.push_chars(&mut chars);
        proof {
            assert(self@ =~= if word@.len() > 0 {
                old(self)@.insert(word@)
            } else {
                old(self)@
            });
        }
    }

    /// Adds the word `word[pos..]` below this node.
    fn push_from(&mut self, word: &Vec<char>, pos: usize)
        requires
            old(self).wf(),
            pos <= word@.len(),
        ensures
            final(self).wf(),
            trie_root(*final(self)) == trie_root(*old(self)),
            forall|v: Seq<char>|
                #[trigger] has_word(*final(self), v) <==> has_word(*old(self), v) || v
                    == word@.skip(pos as int),
            push_result(old(self).root, old(self).is_word, old(self).leaves@, word@.skip(pos as int), *final(self)),
        decreases word@.len() - pos,
    {
        let ghost before = *self;
        if pos == word.len() {
            self.is_word = true;
            let mut leaves: Vec<Trie> = Vec::new();
            std::mem::swap(&mut leaves, &mut self.leaves);
            self.leaves = sort_leaves_descending(leaves);
            proof {
                assert(word@.skip(pos as int) =~= Seq::<char>::empty());
                assert forall|v: Seq<char>| #[trigger]
                    has_word(*self, v) <==> has_word(before, v) || v == word@.skip(pos as int) by {
                    if v.len() == 0 {
                        assert(v =~= word@.skip(pos as int));
                    }
                    if v.len() > 0 {
                        if has_word(*self, v) {
                            let i = choose|i: int|
                                0 <= i < self.leaves@.len() && (#[trigger] self.leaves@[i]).root
                                    == v[0] && has_word(self.leaves@[i], v.drop_first());
                            assert(self.leaves@.contains(self.leaves@[i]));
                            let j = choose|j: int| 0 <= j < before.leaves@.len() && before.leaves@[j] == self.leaves@[i];
                            assert(before.leaves@[j].root == v[0]);
                        }
                        if has_word(before, v) {
                            let i = choose|i: int|
                                0 <= i < before.leaves@.len() && (#[trigger] before.leaves@[i]).root
                                    == v[0] && has_word(before.leaves@[i], v.drop_first());
                            assert(before.leaves@.contains(before.leaves@[i]));
                            let j = choose|j: int| 0 <= j < self.leaves@.len() && self.leaves@[j] == before.leaves@[i];
                            assert(self.leaves@[j].root == v[0]);
                        }
                    }
                }
                assert forall|i: int| 0 <= i < self.leaves@.len() implies trie_wf(#[trigger] self.leaves@[i]) by {
                    assert(self.leaves@.contains(self.leaves@[i]));
                }
                assert forall|i: int| 0 <= i < self.leaves@.len() implies leads_to_word(
                    #[trigger] self.leaves@[i],
                ) by {
                    assert(self.leaves@.contains(self.leaves@[i]));
                    let j = choose|j: int| 0 <= j < before.leaves@.len() && before.leaves@[j] == self.leaves@[i];
                    assert(leads_to_word(before.leaves@[j]));
                }
            }
            return;
        }
        let first = word[pos];
        match leaf_position(&self.leaves, first) {
            None => {
                let mut new = Trie { root: first, is_word: false, leaves: Vec::new() };
                let ghost fresh = new;
                new.push_from(word, pos + 1);
                let ghost child = new;
                self.leaves.push(new);
                proof {
                    let w = word@.skip(pos as int);
                    assert(w[0] == first);
                    assert(w.drop_first() =~= word@.skip(pos + 1));
                    assert(fresh.leaves@ =~= Seq::<Trie>::empty());
                    assert(self.leaves@ == before.leaves@.push(child));
                    assert(!exists|i: int| 0 <= i < before.leaves@.len() && (#[trigger] before.leaves@[i]).root == w[0]);
                    assert(push_result(before.root, before.is_word, before.leaves@, w, *self));
                    assert forall|i: int| 0 <= i < self.leaves@.len() implies leads_to_word(
                        #[trigger] self.leaves@[i],
                    ) by {
                        if i < before.leaves@.len() {
                            assert(self.leaves@[i] == before.leaves@[i]);
                        } else {
                            assert(self.leaves@[i] == child);
                            assert(has_word(child, word@.skip(pos + 1)));
                        }
                    }
                    assert forall|v: Seq<char>| #[trigger]
                        has_word(*self, v) <==> has_word(before, v) || v == word@.skip(pos as int) by {
                        let n = before.leaves@.len() as int;
                        if v.len() > 0 {
                            if has_word(*self, v) {
                                let i = choose|i: int|
                                    0 <= i < self.leaves@.len() && (#[trigger] self.leaves@[i]).root
                                        == v[0] && has_word(self.leaves@[i], v.drop_first());
                                if i < n {
                                    assert(before.leaves@[i] == self.leaves@[i]);
                                    assert(has_word(before, v));
                                } else {
                                    assert(i == n);
                                    assert(self.leaves@[i] == child);
                                    assert(!has_word(fresh, v.drop_first()));
                                    assert(v.drop_first() =~= word@.skip(pos + 1));
                                    assert(word@.skip(pos as int).drop_first() =~= word@.skip(pos + 1));
                                    lemma_same_head_tail(v, word@.skip(pos as int));
                                }
                            }
                            if has_word(before, v) {
                                let i = choose|i: int|
                                    0 <= i < before.leaves@.len() && (#[trigger] before.leaves@[i]).root
                                        == v[0] && has_word(before.leaves@[i], v.drop_first());
                                assert(self.leaves@[i] == before.leaves@[i]);
                            }
                            if v == word@.skip(pos as int) {
                                assert(v.drop_first() =~= word@.skip(pos + 1));
                                assert(self.leaves@[n] == child);
                                assert(has_word(child, v.drop_first()));
                                assert(child.root == first);
                                assert(self.leaves@[n].root == v[0]);
                            }
                        } else {
                            assert(word@.skip(pos as int).len() > 0);
                        }
                    }
                }
            },
            Some(i) => {
                self.leaves[i].push_from(word, pos + 1);
                proof {
                    let w = word@.skip(pos as int);
                    assert(w[0] == first);
                    assert(w.drop_first() =~= word@.skip(pos + 1));
                    assert(before.leaves@[i as int].root == w[0]);
                    let c = choose|c: int| 0 <= c < before.leaves@.len() && (#[trigger] before.leaves@[c]).root == w[0];
                    if c != i as int {
                        if c < i as int {
                            assert(before.leaves@[c].root != before.leaves@[i as int].root);
                        } else {
                            assert(before.leaves@[i as int].root != before.leaves@[c].root);
                        }
                    }
                    assert(push_result(before.root, before.is_word, before.leaves@, w, *self));
                    assert forall|j: int| 0 <= j < self.leaves@.len() implies leads_to_word(
                        #[trigger] self.leaves@[j],
                    ) by {
                        assert(leads_to_word(before.leaves@[j]));
                        let s = choose|s: Seq<char>| has_word(before.leaves@[j], s);
                        if j == i {
                            assert(has_word(self.leaves@[j], s));
                        } else {
                            assert(self.leaves@[j] == before.leaves@[j]);
                        }
                    }
                    assert forall|v: Seq<char>| #[trigger]
                        has_word(*self, v) <==> has_word(before, v) || v == word@.skip(pos as int) by {
                        if v.len() > 0 {
                            if has_word(*self, v) {
                                let j = choose|j: int|
                                    0 <= j < self.leaves@.len() && (#[trigger] self.leaves@[j]).root
                                        == v[0] && has_word(self.leaves@[j], v.drop_first());
                                if j != i {
                                    assert(before.leaves@[j] == self.leaves@[j]);
                                } else if has_word(before.leaves@[j], v.drop_first()) {
                                } else {
                                    assert(v.drop_first() =~= word@.skip(pos + 1));
                                    assert(word@.skip(pos as int).drop_first() =~= word@.skip(pos + 1));
                                    lemma_same_head_tail(v, word@.skip(pos as int));
                                }
                            }
                            if has_word(before, v) {
                                let j = choose|j: int|
                                    0 <= j < before.leaves@.len() && (#[trigger] before.leaves@[j]).root
                                        == v[0] && has_word(before.leaves@[j], v.drop_first());
                                assert(has_word(self.leaves@[j], v.drop_first()));
                            }
                            if v == word@.skip(pos as int) {
                                assert(v.drop_first() =~= word@.skip(pos + 1));
                                assert(has_word(self.leaves@[i as int], v.drop_first()));
                            }
                        } else {
                            assert(word@.skip(pos as int).len() > 0);
                        }
                    }
                }
            },
        }
    }
}


/// The words of a node's subtree, each starting with the node's own character, in the
/// order in which [`Trie::words`] lists them: the node itself first, then its leaves.
pub closed spec fn node_listing(t: Trie) -> Seq<Seq<char>>
    decreases t, 0int,
{
    let own: Seq<Seq<char>> = if t.is_word {
        seq![seq![t.root]]
    } else {
        seq![]
    };
    own + leaves_listing(t.leaves@, t.leaves@.len() as int).map_values(
        |s: Seq<char>| seq![t.root] + s,
    )
}

/// The listings of the first `n` leaves, one after the other.
pub closed spec fn leaves_listing(ls: Seq<Trie>, n: int) -> Seq<Seq<char>>
    decreases ls, n,
{
    if n <= 0 || n > ls.len() {
        seq![]
    } else {
        leaves_listing(ls, n - 1) + node_listing(ls[n - 1])
    }
}

/// The words below the node, in the order in which [`Trie::words`] lists them.
pub closed spec fn word_listing(t: Trie) -> Seq<Seq<char>> {
    leaves_listing(t.leaves@, t.leaves@.len() as int)
}

/// The texts of a list of strings.
pub open spec fn texts(v: Seq<String>) -> Seq<Seq<char>> {
    v.map_values(|s: String| s@)
}

/// `String::push`: appends a character to a string.
#[verifier::external_body]
fn string_push(s: &mut String, c: char)
    ensures
        final(s)@ == old(s)@.push(c),
{
    s.push(c);
}

impl Trie {
    /// Lists the words below the node. For a node found by [`Trie::find_by_prefix`],
    /// the words do not include the prefix.
    pub fn words(&self) -> (res: Vec<String>)
        ensures
            texts(res@) == word_listing(*self),
    {
        let mut words: Vec<String> = Vec::new();
        let mut k: usize = 0;
        while k < self.leaves.len()
            invariant
                k <= self.leaves@.len(),
                texts(words@) =~= leaves_listing(self.leaves@, k as int),
            decreases self.leaves@.len() - k,
        {
            let ghost before = texts(words@);
            self.leaves[k].words_recursive("", &mut words);
            proof {
                reveal_strlit("");
                assert(node_listing(self.leaves@[k as int]).map_values(|s: Seq<char>| ""@ + s)
                    =~= node_listing(self.leaves@[k as int]));
            }
            k += 1;
        }
        words
    }

    fn words_recursive(&self, prefix: &str, words: &mut Vec<String>)
        ensures
            texts(final(words)@) =~= texts(old(words)@) + node_listing(*self).map_values(
                |s: Seq<char>| prefix@ + s,
            ),
        decreases *self,
    {
        let mut own = prefix.to_owned();
        string_push(&mut own, self.root);
        let ghost start = texts(words@);
        if self.is_word {
            words.push(own.clone());
        }
        let ghost own_part: Seq<Seq<char>> = if self.is_word {
            seq![own@]
        } else {
            seq![]
        };
        assert(texts(words@) =~= start + own_part);
        let mut k: usize = 0;
        while k < self.leaves.len()
            invariant
                k <= self.leaves@.len(),
                own@ == prefix@.push(self.root),
                texts(words@) =~= start + own_part + leaves_listing(self.leaves@, k as int).map_values(
                    |s: Seq<char>| own@ + s,
                ),
            decreases self.leaves@.len() - k,
        {
            self.leaves[k].words_recursive(own.as_str(), words);
            k += 1;
        }
        proof {
            let ls = leaves_listing(self.leaves@, self.leaves@.len() as int);
            assert(ls.map_values(|s: Seq<char>| seq![self.root] + s).map_values(|s: Seq<char>| prefix@ + s)
                =~= ls.map_values(|s: Seq<char>| own@ + s)) by {
                assert forall|j: int| 0 <= j < ls.len() implies prefix@ + (seq![self.root] + ls[j])
                    =~= own@ + ls[j] by {
                }
            }
            if self.is_word {
                assert(seq![self.root].map_values(|c: char| c) =~= seq![self.root]);
                assert(prefix@ + seq![self.root] =~= own@);
            }
        }
    }
}

/// The node reached from `t` by following `path`, whose first character must be `t`'s
/// own; among leaves that lead to a match, the last one is taken.
pub closed spec fn find_path(t: Trie, path: Seq<char>) -> Option<Trie>
    decreases t, 0int,
{
    if path.len() == 0 || path[0] != t.root {
        None
    } else if path.len() == 1 {
        Some(t)
    } else {
        find_in_leaves(t.leaves@, t.leaves@.len() as int, path.drop_first())
    }
}

/// The match found among the first `n` leaves, the last one winning.
pub closed spec fn find_in_leaves(ls: Seq<Trie>, n: int, path: Seq<char>) -> Option<Trie>
    decreases ls, n,
{
    if n <= 0 || n > ls.len() {
        None
    } else {
        match find_path(ls[n - 1], path) {
            Some(found) => Some(found),
            None => find_in_leaves(ls, n - 1, path),
        }
    }
}

impl Trie {
    /// The node for the words that start with `prefix`, if there is one. Its words are
    /// then the completions of `prefix`, without the prefix itself.
    pub fn find_by_prefix(&self, prefix: &str) -> (res: Option<&Trie>)
        ensures
            res is Some <==> find_path(*self, seq![ROOT_CHAR] + prefix@) is Some,
            res is Some ==> *res.unwrap() == find_path(*self, seq![ROOT_CHAR] + prefix@).unwrap(),
            self.wf() && trie_root(*self) == ROOT_CHAR ==> (res is Some <==> (prefix@.len() == 0
                || exists|s: Seq<char>| #[trigger] has_word(*self, prefix@ + s))),
            self.wf() && trie_root(*self) == ROOT_CHAR ==> (res matches Some(found) ==> found.wf()
                && forall|s: Seq<char>| #[trigger] has_word(*found, s) <==> has_word(*self, prefix@ + s)),
            trie_root(*self) == ROOT_CHAR && prefix@.len() == 0 ==> res == Some(self),
    {
        proof {
            if trie_root(*self) == ROOT_CHAR && prefix@.len() == 0 {
                assert(seq![ROOT_CHAR] + prefix@ =~= seq![ROOT_CHAR]);
            }
            if self.wf() && trie_root(*self) == ROOT_CHAR {
                lemma_find_path(*self, prefix@);
                if prefix@.len() == 0 {
                    assert(seq![ROOT_CHAR] + prefix@ =~= seq![ROOT_CHAR]);
                }
                if find_path(*self, seq![ROOT_CHAR] + prefix@) is Some && prefix@.len() > 0 {
                    let found = find_path(*self, seq![ROOT_CHAR] + prefix@).unwrap();
                    let s = choose|s: Seq<char>| has_word(found, s);
                    assert(has_word(*self, prefix@ + s));
                }
            }
        }
        broadcast use vstd::string::axiom_spec_iter;
        let mut chars = prefix.chars();
        let rest = collect_chars(&mut chars);
        let mut part: Vec<char> = Vec::new();
        part.push(ROOT_CHAR);
        let mut k: usize = 0;
        while k < rest.len()
            invariant
                k <= rest@.len(),
                part@ =~= seq![ROOT_CHAR] + rest@.take(k as int),
            decreases rest@.len() - k,
        {
            part.push(rest[k]);
            k += 1;
        }
        proof {
            assert(rest@.take(rest@.len() as int) =~= rest@);
            assert(part@.skip(0) =~= part@);
        }
        self.find_recursive(&part, 0)
    }

    fn find_recursive<'a>(&'a self, part: &Vec<char>, pos: usize) -> (res: Option<&'a Trie>)
        requires
            pos <= part@.len(),
        ensures
            res is Some <==> find_path(*self, part@.skip(pos as int)) is Some,
            res is Some ==> *res.unwrap() == find_path(*self, part@.skip(pos as int)).unwrap(),
        decreases *self,
    {
        if pos >= part.len() || self.root != part[pos] {
            return None;
        }
        if pos + 1 == part.len() {
            return Some(self);
        }
        let ghost path = part@.skip(pos as int);
        proof {
            assert(path.drop_first() =~= part@.skip(pos + 1));
        }
        let mut found: Option<&'a Trie> = None;
        let mut k: usize = 0;
        while k < self.leaves.len()
            invariant
                k <= self.leaves@.len(),
                pos + 1 < part.len(),
                found is Some <==> find_in_leaves(self.leaves@, k as int, part@.skip(pos + 1)) is Some,
                found is Some ==> *found.unwrap() == find_in_leaves(
                    self.leaves@,
                    k as int,
                    part@.skip(pos + 1),
                ).unwrap(),
            decreases self.leaves@.len() - k,
        {
            if let Some(f) = self.leaves[k].find_recursive(part, pos + 1) {
                found = Some(f);
            }
            k += 1;
        }
        found
    }

    /// The completions of `prefix`: the words that start with it, without it; empty when
    /// no word does.
    pub fn find_completions(&self, prefix: &str) -> (res: Vec<String>)
        ensures
            texts(res@) == completion_listing(*self, prefix@),
            self.wf() && trie_root(*self) == ROOT_CHAR ==> texts(res@).no_duplicates(),
            self.wf() && trie_root(*self) == ROOT_CHAR ==> forall|s: Seq<char>| #[trigger]
                texts(res@).contains(s) <==> s.len() > 0 && has_word(*self, prefix@ + s),
    {
        proof {
            if self.wf() && trie_root(*self) == ROOT_CHAR {
                lemma_completions_are_the_continuations(*self, prefix@);
            }
        }
        match self.find_by_prefix(prefix) {
            Some(t) => t.words(),
            None => {
                let res: Vec<String> = Vec::new();
                assert(texts(res@) =~= Seq::<Seq<char>>::empty());
                res
            },
        }
    }
}

// ---------------------------------------------------------------------------
// What the listings and look-ups hold.
// ---------------------------------------------------------------------------

/// The words of a node's listing are its own character followed by a word stored below it;
/// those of the first `n` leaves are the words stored below one of them, led by its character.
proof fn lemma_listing_contents(t: Trie)
    requires
        trie_wf(t),
    ensures
        forall|s: Seq<char>|
            #[trigger] node_listing(t).contains(s) <==> (s.len() > 0 && s[0] == t.root && has_word(
                t,
                s.drop_first(),
            )),
    decreases t, 0int,
{
    lemma_leaves_listing_contents(t.leaves@, t.leaves@.len() as int);
    let own: Seq<Seq<char>> = if t.is_word {
        seq![seq![t.root]]
    } else {
        seq![]
    };
    let ls = leaves_listing(t.leaves@, t.leaves@.len() as int);
    let mapped = ls.map_values(|u: Seq<char>| seq![t.root] + u);
    assert(node_listing(t) == own + mapped);
    assert forall|s: Seq<char>| #[trigger] node_listing(t).contains(s) <==> (s.len() > 0 && s[0]
        == t.root && has_word(t, s.drop_first())) by {
        if node_listing(t).contains(s) {
            let k = choose|k: int| 0 <= k < node_listing(t).len() && node_listing(t)[k] == s;
            if k < own.len() {
                assert(s =~= seq![t.root]);
                assert(s.drop_first() =~= Seq::<char>::empty());
            } else {
                let u = ls[k - own.len()];
                assert(s == seq![t.root] + u);
                assert(ls.contains(u));
                assert(s.drop_first() =~= u);
            }
        }
        if s.len() > 0 && s[0] == t.root && has_word(t, s.drop_first()) {
            let u = s.drop_first();
            assert(s =~= seq![t.root] + u);
            if u.len() == 0 {
                assert(own[0] == s);
                assert(node_listing(t)[0] == s);
            } else {
                assert(ls.contains(u));
                let k = choose|k: int| 0 <= k < ls.len() && ls[k] == u;
                assert(mapped[k] == s);
                assert(node_listing(t)[own.len() + k] == s);
            }
        }
    }
}

proof fn lemma_leaves_listing_contents(ls: Seq<Trie>, n: int)
    requires
        0 <= n <= ls.len(),
        forall|i: int| 0 <= i < ls.len() ==> trie_wf(#[trigger] ls[i]),
    ensures
        forall|s: Seq<char>|
            #[trigger] leaves_listing(ls, n).contains(s) <==> (s.len() > 0 && exists|i: int|
                0 <= i < n && (#[trigger] ls[i]).root == s[0] && has_word(ls[i], s.drop_first())),
    decreases ls, n,
{
    if n > 0 {
        lemma_leaves_listing_contents(ls, n - 1);
        lemma_listing_contents(ls[n - 1]);
        let a = leaves_listing(ls, n - 1);
        let b = node_listing(ls[n - 1]);
        assert(leaves_listing(ls, n) == a + b);
        assert forall|s: Seq<char>| #[trigger] leaves_listing(ls, n).contains(s) <==> (s.len() > 0
            && exists|i: int|
            0 <= i < n && (#[trigger] ls[i]).root == s[0] && has_word(ls[i], s.drop_first())) by {
            vstd::seq_lib::lemma_seq_concat_contains_all_elements(a, b, s);
            if s.len() > 0 && exists|i: int|
                0 <= i < n && (#[trigger] ls[i]).root == s[0] && has_word(ls[i], s.drop_first()) {
                let i = choose|i: int|
                    0 <= i < n && (#[trigger] ls[i]).root == s[0] && has_word(ls[i], s.drop_first());
                if i < n - 1 {
                    assert(a.contains(s));
                } else {
                    assert(b.contains(s));
                }
            }
        }
    } else {
        assert(leaves_listing(ls, n) =~= Seq::<Seq<char>>::empty());
    }
}

/// No word is listed twice.
proof fn lemma_listing_no_duplicates(t: Trie)
    requires
        trie_wf(t),
    ensures
        node_listing(t).no_duplicates(),
    decreases t, 0int,
{
    lemma_leaves_listing_no_duplicates(t.leaves@, t.leaves@.len() as int);
    let own: Seq<Seq<char>> = if t.is_word {
        seq![seq![t.root]]
    } else {
        seq![]
    };
    let ls = leaves_listing(t.leaves@, t.leaves@.len() as int);
    let mapped = ls.map_values(|u: Seq<char>| seq![t.root] + u);
    lemma_leaves_listing_contents(t.leaves@, t.leaves@.len() as int);
    assert forall|i: int, j: int| 0 <= i < mapped.len() && 0 <= j < mapped.len() && i != j implies mapped[i]
        != mapped[j] by {
        assert(mapped[i].drop_first() =~= ls[i]);
        assert(mapped[j].drop_first() =~= ls[j]);
    }
    assert forall|i: int, j: int| 0 <= i < own.len() && 0 <= j < mapped.len() implies own[i]
        != mapped[j] by {
        assert(ls.contains(ls[j]));
        assert(mapped[j].len() == 1 + ls[j].len());
    }
    vstd::seq_lib::lemma_no_dup_in_concat(own, mapped);
    assert(node_listing(t) == own + mapped);
}

proof fn lemma_leaves_listing_no_duplicates(ls: Seq<Trie>, n: int)
    requires
        0 <= n <= ls.len(),
        forall|i: int| 0 <= i < ls.len() ==> trie_wf(#[trigger] ls[i]),
        forall|i: int, j: int|
            0 <= i < j < ls.len() ==> #[trigger] ls[i].root != #[trigger] ls[j].root,
    ensures
        leaves_listing(ls, n).no_duplicates(),
    decreases ls, n,
{
    if n > 0 {
        lemma_leaves_listing_no_duplicates(ls, n - 1);
        lemma_listing_no_duplicates(ls[n - 1]);
        lemma_leaves_listing_contents(ls, n - 1);
        lemma_listing_contents(ls[n - 1]);
        let a = leaves_listing(ls, n - 1);
        let b = node_listing(ls[n - 1]);
        assert forall|i: int, j: int| 0 <= i < a.len() && 0 <= j < b.len() implies a[i] != b[j] by {
            assert(a.contains(a[i]));
            assert(b.contains(b[j]));
        }
        vstd::seq_lib::lemma_no_dup_in_concat(a, b);
        assert(leaves_listing(ls, n) == a + b);
    } else {
        assert(leaves_listing(ls, n) =~= Seq::<Seq<char>>::empty());
    }
}

/// Law: the words listed by [`Trie::words`] are exactly the non-empty words stored below
/// the node, each listed once.
pub proof fn lemma_words_are_the_stored_words(t: Trie)
    requires
        t.wf(),
    ensures
        word_listing(t).no_duplicates(),
        forall|s: Seq<char>| #[trigger] word_listing(t).contains(s) <==> t@.contains(s),
{
    lemma_leaves_listing_no_duplicates(t.leaves@, t.leaves@.len() as int);
    lemma_leaves_listing_contents(t.leaves@, t.leaves@.len() as int);
}

/// With distinct leaf characters, only the leaf that holds the path's first character
/// can lead to a match.
proof fn lemma_find_in_leaves(ls: Seq<Trie>, n: int, path: Seq<char>)
    requires
        0 <= n <= ls.len(),
        path.len() > 0,
        forall|i: int, j: int|
            0 <= i < j < ls.len() ==> #[trigger] ls[i].root != #[trigger] ls[j].root,
    ensures
        (exists|i: int| 0 <= i < n && (#[trigger] ls[i]).root == path[0]) ==> find_in_leaves(
            ls,
            n,
            path,
        ) == find_path(ls[choose|i: int| 0 <= i < n && (#[trigger] ls[i]).root == path[0]], path),
        !(exists|i: int| 0 <= i < n && (#[trigger] ls[i]).root == path[0]) ==> find_in_leaves(
            ls,
            n,
            path,
        ) is None,
    decreases n,
{
    if n > 0 {
        lemma_find_in_leaves(ls, n - 1, path);
        let last = ls[n - 1];
        let rest = find_in_leaves(ls, n - 1, path);
        assert(find_in_leaves(ls, n, path) == match find_path(last, path) {
            Some(found) => Some(found),
            None => rest,
        });
        if last.root == path[0] {
            let i = choose|i: int| 0 <= i < n && (#[trigger] ls[i]).root == path[0];
            assert(i == n - 1);
            assert(!(exists|j: int| 0 <= j < n - 1 && (#[trigger] ls[j]).root == path[0]));
            assert(rest is None);
        } else {
            assert(find_path(last, path) is None);
            if exists|i: int| 0 <= i < n && (#[trigger] ls[i]).root == path[0] {
                let i = choose|i: int| 0 <= i < n && (#[trigger] ls[i]).root == path[0];
                assert(exists|j: int| 0 <= j < n - 1 && (#[trigger] ls[j]).root == path[0]) by {
                    assert(ls[i].root == path[0]);
                }
                let j = choose|j: int| 0 <= j < n - 1 && (#[trigger] ls[j]).root == path[0];
                assert(i == j);
            } else {
                assert(!(exists|j: int| 0 <= j < n - 1 && (#[trigger] ls[j]).root == path[0]));
            }
        }
    } else {
        assert(find_in_leaves(ls, n, path) is None);
    }
}

/// Following the path `[t.root] + p` reaches the node below which exactly the words that
/// continue `p` are stored; it fails exactly when no such node exists.
proof fn lemma_find_path(t: Trie, p: Seq<char>)
    requires
        trie_wf(t),
    ensures
        find_path(t, seq![t.root] + p) matches Some(found) ==> trie_wf(found) && forall|s: Seq<
            char,
        >| #[trigger] has_word(found, s) <==> has_word(t, p + s),
        find_path(t, seq![t.root] + p) is None ==> forall|s: Seq<char>| !#[trigger] has_word(
            t,
            p + s,
        ),
        p.len() > 0 && find_path(t, seq![t.root] + p) is Some ==> leads_to_word(
            find_path(t, seq![t.root] + p).unwrap(),
        ),
    decreases p.len(),
{
    let path = seq![t.root] + p;
    if p.len() == 0 {
        assert forall|s: Seq<char>| #[trigger] has_word(t, s) <==> has_word(t, p + s) by {
            assert(p + s =~= s);
        }
    } else {
        assert(path.drop_first() =~= p);
        lemma_find_in_leaves(t.leaves@, t.leaves@.len() as int, p);
        if exists|i: int| 0 <= i < t.leaves@.len() && (#[trigger] t.leaves@[i]).root == p[0] {
            let i = choose|i: int| 0 <= i < t.leaves@.len() && (#[trigger] t.leaves@[i]).root == p[0];
            let leaf = t.leaves@[i];
            assert(p =~= seq![leaf.root] + p.drop_first());
            lemma_find_path(leaf, p.drop_first());
            assert(leads_to_word(leaf));
            if p.drop_first().len() == 0 {
                assert(p =~= seq![leaf.root]);
            }
            assert forall|s: Seq<char>| has_word(leaf, p.drop_first() + s) <==> #[trigger] has_word(
                t,
                p + s,
            ) by {
                assert((p + s).drop_first() =~= p.drop_first() + s);
                assert((p + s)[0] == p[0]);
                if has_word(t, p + s) {
                    let j = choose|j: int|
                        0 <= j < t.leaves@.len() && (#[trigger] t.leaves@[j]).root == (p + s)[0]
                            && has_word(t.leaves@[j], (p + s).drop_first());
                    assert(j == i);
                }
            }
        } else {
            assert forall|s: Seq<char>| !#[trigger] has_word(t, p + s) by {
                assert((p + s)[0] == p[0]);
            }
        }
    }
}

/// What [`Trie::find_completions`] lists for `prefix`: the words below the node that the
/// prefix leads to, none where it leads nowhere.
pub open spec fn completion_listing(t: Trie, prefix: Seq<char>) -> Seq<Seq<char>> {
    match find_path(t, seq![ROOT_CHAR] + prefix) {
        Some(found) => word_listing(found),
        None => Seq::<Seq<char>>::empty(),
    }
}

/// Law: for a tree built by [`Trie::new`], [`Trie::find_completions`] lists exactly the
/// non-empty continuations `s` for which `prefix + s` is a stored word, each once.
pub proof fn lemma_completions_are_the_continuations(t: Trie, prefix: Seq<char>)
    requires
        t.wf(),
        trie_root(t) == ROOT_CHAR,
    ensures
        ({
            let listed = completion_listing(t, prefix);
            &&& listed.no_duplicates()
            &&& forall|s: Seq<char>| #[trigger] listed.contains(s) <==> s.len() > 0 && has_word(
                t,
                prefix + s,
            )
        }),
{
    lemma_find_path(t, prefix);
    match find_path(t, seq![ROOT_CHAR] + prefix) {
        Some(found) => {
            lemma_words_are_the_stored_words(found);
        },
        None => {},
    }
}

impl Default for Trie {
    /// An empty tree, as [`Trie::new`].
    fn default() -> (res: Self)
        ensures
            res.wf(),
            res@ == Set::<Seq<char>>::empty(),
            trie_root(res) == ROOT_CHAR,
            !res.holds_empty_word(),
            forall|v: Seq<char>| !#[trigger] has_word(res, v),
    {
        Trie::new()
    }
}
} // verus!
