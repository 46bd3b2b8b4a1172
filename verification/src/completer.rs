use vstd::prelude::*;
use crate::trie::{
    completion_listing, has_word, lemma_completions_are_the_continuations, texts, trie_root, Trie,
    ROOT_CHAR,
};

verus! {

/// `a` comes strictly before `b` in the lexicographic order of their characters (the
/// order of `String`, which compares UTF-8 bytes, is the same).
pub open spec fn seq_lt(a: Seq<char>, b: Seq<char>) -> bool
    decreases a.len(),
{
    if a.len() == 0 {
        b.len() > 0
    } else if b.len() == 0 {
        false
    } else if a[0] != b[0] {
        (a[0] as int) < (b[0] as int)
    } else {
        seq_lt(a.drop_first(), b.drop_first())
    }
}

proof fn lemma_seq_lt_irreflexive(a: Seq<char>)
    ensures
        !seq_lt(a, a),
    decreases a.len(),
{
    if a.len() > 0 {
        lemma_seq_lt_irreflexive(a.drop_first());
    }
}

proof fn lemma_seq_lt_total(a: Seq<char>, b: Seq<char>)
    ensures
        a == b || seq_lt(a, b) || seq_lt(b, a),
        !(seq_lt(a, b) && seq_lt(b, a)),
    decreases a.len(),
{
    if a.len() > 0 && b.len() > 0 {
        if a[0] == b[0] {
            lemma_seq_lt_total(a.drop_first(), b.drop_first());
            if a.drop_first() == b.drop_first() {
                assert(a =~= seq![a[0]] + a.drop_first());
                assert(b =~= seq![b[0]] + b.drop_first());
            }
        } else {
            assert((a[0] as int) != (b[0] as int));
        }
    } else if a.len() == 0 && b.len() == 0 {
        assert(a =~= b);
    }
}

proof fn lemma_seq_lt_transitive(a: Seq<char>, b: Seq<char>, c: Seq<char>)
    requires
        seq_lt(a, b),
        seq_lt(b, c),
    ensures
        seq_lt(a, c),
    decreases a.len(),
{
    if a.len() > 0 && b.len() > 0 && c.len() > 0 {
        if a[0] == b[0] && b[0] == c[0] {
            lemma_seq_lt_transitive(a.drop_first(), b.drop_first(), c.drop_first());
        }
    }
}

/// Where the first `k` characters of `a` and `b` are equal, the rest of them compare as
/// the whole sequences do.
proof fn lemma_seq_lt_skip(a: Seq<char>, b: Seq<char>, k: int)
    requires
        0 <= k <= a.len(),
        k <= b.len(),
        a.take(k) == b.take(k),
    ensures
        seq_lt(a, b) == seq_lt(a.skip(k), b.skip(k)),
    decreases k,
{
    if k > 0 {
        assert(a[0] == a.take(k)[0]);
        assert(b[0] == b.take(k)[0]);
        assert(a.drop_first().take(k - 1) =~= a.take(k).drop_first());
        assert(b.drop_first().take(k - 1) =~= b.take(k).drop_first());
        lemma_seq_lt_skip(a.drop_first(), b.drop_first(), k - 1);
        assert(a.drop_first().skip(k - 1) =~= a.skip(k));
        assert(b.drop_first().skip(k - 1) =~= b.skip(k));
    } else {
        assert(a.skip(0) =~= a);
        assert(b.skip(0) =~= b);
    }
}

/// Whether `a` comes strictly before `b`.
fn str_lt(a: &str, b: &str) -> (r: bool)
    ensures
        r == seq_lt(a@, b@),
{
    let n = a.unicode_len();
    let m = b.unicode_len();
    let mut k: usize = 0;
    while k < n && k < m
        invariant
            n == a@.len(),
            m == b@.len(),
            k <= n,
            k <= m,
            a@.take(k as int) == b@.take(k as int),
        decreases n - k,
    {
        let x = a.get_char(k);
        let y = b.get_char(k);
        if x != y {
            proof {
                lemma_seq_lt_skip(a@, b@, k as int);
                assert(a@.skip(k as int)[0] == x);
                assert(b@.skip(k as int)[0] == y);
            }
            return x < y;
        }
        proof {
            assert(a@.take(k + 1) =~= a@.take(k as int).push(x));
            assert(b@.take(k + 1) =~= b@.take(k as int).push(y));
        }
        k += 1;
    }
    proof {
        lemma_seq_lt_skip(a@, b@, k as int);
    }
    k == n && k < m
}

/// The texts are in strictly increasing order.
pub open spec fn strictly_sorted(v: Seq<Seq<char>>) -> bool {
    forall|i: int, j: int| 0 <= i < j < v.len() ==> seq_lt(#[trigger] v[i], #[trigger] v[j])
}

/// Adds `s` to a strictly sorted list of strings, where it is not there yet.
fn insert_sorted(v: &mut Vec<String>, s: String)
    requires
        strictly_sorted(texts(old(v)@)),
    ensures
        strictly_sorted(texts(final(v)@)),
        forall|t: Seq<char>| #[trigger] texts(final(v)@).contains(t) <==> (texts(old(v)@).contains(t)
            || t == s@),
{
    let ghost v0 = texts(v@);
    let mut p: usize = 0;
    while p < v.len() && str_lt(v[p].as_str(), s.as_str())
        invariant
            texts(v@) == v0,
            p <= v@.len(),
            forall|i: int| 0 <= i < p ==> seq_lt(#[trigger] v0[i], s@),
        decreases v@.len() - p,
    {
        p += 1;
    }
    if p < v.len() && v[p] == s {
        proof {
            assert(v0[p as int] == s@);
            assert forall|t: Seq<char>| #[trigger] texts(v@).contains(t) <==> (v0.contains(t) || t == s@) by {
                if t == s@ {
                    assert(v0[p as int] == t);
                }
            }
        }
        return;
    }
    proof {
        if p < v@.len() {
            lemma_seq_lt_total(v0[p as int], s@);
        }
    }
    v.insert(p, s);
    proof {
        let v1 = texts(v@);
        assert(v1 =~= v0.insert(p as int, s@));
        assert forall|i: int, j: int| 0 <= i < j < v1.len() implies seq_lt(#[trigger] v1[i], #[trigger] v1[j]) by {
            if j < p {
            } else if j == p {
            } else if i < p {
                assert(v1[j] == v0[j - 1]);
                if p < v0.len() {
                    if j - 1 > p {
                        assert(seq_lt(v0[p as int], v0[j - 1]));
                        lemma_seq_lt_transitive(s@, v0[p as int], v0[j - 1]);
                    }
                    lemma_seq_lt_transitive(v0[i], s@, v0[j - 1]);
                }
            } else if i == p {
                if j - 1 > p {
                    lemma_seq_lt_transitive(s@, v0[p as int], v0[j - 1]);
                }
            } else {
                assert(v1[i] == v0[i - 1]);
                assert(v1[j] == v0[j - 1]);
            }
        }
        assert forall|t: Seq<char>| #[trigger] v1.contains(t) <==> (v0.contains(t) || t == s@) by {
            if v1.contains(t) {
                let k = choose|k: int| 0 <= k < v1.len() && v1[k] == t;
                if k < p {
                    assert(v0[k] == t);
                } else if k > p {
                    assert(v0[k - 1] == t);
                }
            }
            if v0.contains(t) {
                let k = choose|k: int| 0 <= k < v0.len() && v0[k] == t;
                if k < p {
                    assert(v1[k] == t);
                } else {
                    assert(v1[k + 1] == t);
                }
            }
            if t == s@ {
                assert(v1[p as int] == t);
            }
        }
    }
}


/// A key that the completion popup reacts to.
#[derive(Clone, Copy, Debug, PartialEq, Eq, Structural)]
pub enum CompleterKey {
    Escape,
    ArrowDown,
    ArrowUp,
    Tab,
}

/// What the text editor is to do after a key was handled.
#[derive(Debug)]
pub enum CompleterAction {
    /// Give the keyboard focus back to the text editor with this identifier, if known.
    Focus(Option<u64>),
    /// Nothing but the selection changed.
    Select,
    /// Paste this text at the cursor.
    Paste(String),
}

/// How a completion is coloured in the popup.
#[derive(Clone, Copy, Debug, PartialEq, Eq, Structural)]
pub enum TokenKind {
    /// A word that starts with `[`.
    Bracketed,
    /// A word that starts with `{`.
    Braced,
    Plain,
}

/// The colour class of a completion: by its first character.
pub fn token_kind(word: &str) -> (res: TokenKind)
    ensures
        res == if word@.len() > 0 && word@[0] == '[' {
            TokenKind::Bracketed
        } else if word@.len() > 0 && word@[0] == '{' {
            TokenKind::Braced
        } else {
            TokenKind::Plain
        },
{
    if word.unicode_len() > 0 {
        let c = word.get_char(0);
        if c == '[' {
            return TokenKind::Bracketed;
        } else if c == '{' {
            return TokenKind::Braced;
        }
    }
    TokenKind::Plain
}

/// The index of the last completion, 0 when there is none.
pub open spec fn last_variant(len: nat) -> int {
    if len == 0 {
        0
    } else {
        len - 1
    }
}

/// The selection after the down arrow: the next completion, round to the first after the
/// last.
pub open spec fn next_variant(v: int, last: int) -> int {
    if v == last {
        0
    } else if v < last {
        v + 1
    } else {
        last
    }
}

/// The selection after the up arrow: the previous completion, round to the last before
/// the first.
pub open spec fn prev_variant(v: int, last: int) -> int {
    if v == 0 {
        last
    } else {
        v - 1
    }
}

/// Law: with a selection among the completions, the up arrow undoes the down arrow, and
/// the down arrow undoes the up arrow.
pub proof fn lemma_arrows_undo_each_other(v: int, last: int)
    requires
        0 <= v <= last,
    ensures
        prev_variant(next_variant(v, last), last) == v,
        next_variant(prev_variant(v, last), last) == v,
{
}

/// Law: the arrows move the selection by one completion: the down arrow to the next one,
/// from the last round to the first; the up arrow to the one before, from the first round
/// to the last.
pub proof fn lemma_arrows_move_by_one(v: int, last: int)
    requires
        0 <= v <= last,
    ensures
        v < last ==> next_variant(v, last) == v + 1,
        v == last ==> next_variant(v, last) == 0,
        v > 0 ==> prev_variant(v, last) == v - 1,
        v == 0 ==> prev_variant(v, last) == last,
        0 <= next_variant(v, last) <= last,
        0 <= prev_variant(v, last) <= last,
{
}

/// Completes the word under the cursor of a text editor with the words it was given,
/// shown in a popup under the cursor.
#[derive(Debug)]
pub struct Completer {
    prefix: String,
    cursor: usize,
    ignore_cursor: Option<usize>,
    words: Trie,
    variant_id: usize,
    completions: Vec<String>,
    text_edit_id: Option<u64>,
}

impl Completer {
    /// The invariant: the word tree is well formed and holds whole words, and the
    /// completions are sorted, each once.
    pub open spec fn wf(&self) -> bool {
        &&& self.spec_words().wf()
        &&& trie_root(self.spec_words()) == ROOT_CHAR
        &&& strictly_sorted(self.spec_completions())
    }

    /// The word being completed: the text before the cursor.
    pub closed spec fn spec_prefix(&self) -> Seq<char> {
        self.prefix@
    }

    /// Where the cursor was last seen.
    pub closed spec fn spec_cursor(&self) -> usize {
        self.cursor
    }

    /// A cursor position at which the popup was dismissed.
    pub closed spec fn spec_ignore_cursor(&self) -> Option<usize> {
        self.ignore_cursor
    }

    /// The words that completions come from.
    pub closed spec fn spec_words(&self) -> Trie {
        self.words
    }

    /// The selected completion.
    pub closed spec fn spec_variant(&self) -> usize {
        self.variant_id
    }

    /// The completions on offer, in order.
    pub closed spec fn spec_completions(&self) -> Seq<Seq<char>> {
        texts(self.completions@)
    }

    /// The text editor that last had the keyboard focus.
    pub closed spec fn spec_text_edit_id(&self) -> Option<u64> {
        self.text_edit_id
    }

    /// A completer with no words, at cursor 0.
    pub fn new() -> (res: Self)
        ensures
            res.wf(),
            res.spec_prefix() == Seq::<char>::empty(),
            res.spec_cursor() == 0,
            res.spec_ignore_cursor() is None,
            res.spec_words()@ == Set::<Seq<char>>::empty(),
            forall|v: Seq<char>| !#[trigger] has_word(res.spec_words(), v),
            res.spec_variant() == 0,
            res.spec_completions() == Seq::<Seq<char>>::empty(),
            res.spec_text_edit_id() is None,
    {
        let res = Completer {
            prefix: String::new(),
            cursor: 0,
            ignore_cursor: None,
            words: Trie::new(),
            variant_id: 0,
            completions: Vec::new(),
            text_edit_id: None,
        };
        proof {
            assert(res.spec_completions() =~= Seq::<Seq<char>>::empty());
        }
        res
    }

    /// Forgets every word.
    pub fn clear_words(&mut self)
        requires
            old(self).wf(),
        ensures
            final(self).wf(),
            final(self).spec_words()@ == Set::<Seq<char>>::empty(),
            forall|v: Seq<char>|
                #[trigger] has_word(final(self).spec_words(), v) <==> v.len() == 0 && has_word(
                    old(self).spec_words(),
                    v,
                ),
            final(self).spec_prefix() == old(self).spec_prefix(),
            final(self).spec_cursor() == old(self).spec_cursor(),
            final(self).spec_ignore_cursor() == old(self).spec_ignore_cursor(),
            final(self).spec_variant() == old(self).spec_variant(),
            final(self).spec_completions() == old(self).spec_completions(),
            final(self).spec_text_edit_id() == old(self).spec_text_edit_id(),
    {
        self.words.clear();
    }

    /// Adds a word that completions may come from.
    pub fn add_word(&mut self, word: &str)
        requires
            old(self).wf(),
        ensures
            final(self).wf(),
            forall|v: Seq<char>|
                #[trigger] has_word(final(self).spec_words(), v) <==> has_word(old(self).spec_words(), v)
                    || v == word@,
            final(self).spec_prefix() == old(self).spec_prefix(),
            final(self).spec_cursor() == old(self).spec_cursor(),
            final(self).spec_ignore_cursor() == old(self).spec_ignore_cursor(),
            final(self).spec_variant() == old(self).spec_variant(),
            final(self).spec_completions() == old(self).spec_completions(),
            final(self).spec_text_edit_id() == old(self).spec_text_edit_id(),
    {
        self.words.push(word);
    }

    /// Sets the word being completed.
    pub fn set_prefix(&mut self, prefix: String)
        ensures
            final(self).spec_prefix() == prefix@,
            final(self).spec_cursor() == old(self).spec_cursor(),
            final(self).spec_ignore_cursor() == old(self).spec_ignore_cursor(),
            final(self).spec_words() == old(self).spec_words(),
            final(self).spec_variant() == old(self).spec_variant(),
            final(self).spec_completions() == old(self).spec_completions(),
            final(self).spec_text_edit_id() == old(self).spec_text_edit_id(),
    {
        self.prefix = prefix;
    }

    /// Notes the text editor that has the keyboard focus, if any; the last one known is
    /// kept otherwise.
    pub fn note_focus(&mut self, focused: Option<u64>)
        ensures
            final(self).spec_text_edit_id() == match focused {
                Some(id) => Some(id),
                None => old(self).spec_text_edit_id(),
            },
            final(self).spec_prefix() == old(self).spec_prefix(),
            final(self).spec_cursor() == old(self).spec_cursor(),
            final(self).spec_ignore_cursor() == old(self).spec_ignore_cursor(),
            final(self).spec_words() == old(self).spec_words(),
            final(self).spec_variant() == old(self).spec_variant(),
            final(self).spec_completions() == old(self).spec_completions(),
    {
        if focused.is_some() {
            self.text_edit_id = focused;
        }
    }

    /// Follows the cursor of the text editor to `index`. A move forgets the word being
    /// completed, the dismissal and the selection. Returns whether the popup stays
    /// dismissed at this position (the editor then keeps the focus); otherwise the
    /// dismissal is forgotten.
    pub fn move_cursor(&mut self, index: usize) -> (dismissed: bool)
        ensures
            final(self).spec_cursor() == index,
            final(self).spec_prefix() == if old(self).spec_cursor() != index {
                Seq::<char>::empty()
            } else {
                old(self).spec_prefix()
            },
            final(self).spec_variant() == if old(self).spec_cursor() != index {
                0
            } else {
                old(self).spec_variant()
            },
            dismissed == (old(self).spec_cursor() == index && old(self).spec_ignore_cursor()
                == Some(index)),
            final(self).spec_ignore_cursor() == if dismissed {
                Some(index)
            } else {
                None
            },
            final(self).spec_words() == old(self).spec_words(),
            final(self).spec_completions() == old(self).spec_completions(),
            final(self).spec_text_edit_id() == old(self).spec_text_edit_id(),
    {
        if self.cursor != index {
            self.cursor = index;
            self.prefix = String::new();
            self.ignore_cursor = None;
            self.variant_id = 0;
        }
        match self.ignore_cursor {
            Some(c) => {
                if c == self.cursor {
                    return true;
                }
            },
            None => {},
        }
        self.ignore_cursor = None;
        false
    }

    /// Looks the completions of the word being completed up, unless there is no such word
    /// or the popup was dismissed at the cursor. Returns whether there are completions to
    /// offer, and so whether keys are to be handled.
    pub fn refresh_completions(&mut self) -> (active: bool)
        requires
            old(self).wf(),
        ensures
            final(self).wf(),
            ({
                let skipped = old(self).spec_prefix().len() == 0 || old(self).spec_ignore_cursor()
                    == Some(old(self).spec_cursor());
                &&& skipped ==> !active && final(self).spec_completions()
                    == old(self).spec_completions()
                &&& !skipped ==> (forall|s: Seq<char>| #[trigger] final(self).spec_completions().contains(s)
                    <==> s.len() > 0 && has_word(old(self).spec_words(), old(self).spec_prefix() + s))
                    && active == (final(self).spec_completions().len() > 0)
            }),
            final(self).spec_prefix() == old(self).spec_prefix(),
            final(self).spec_cursor() == old(self).spec_cursor(),
            final(self).spec_ignore_cursor() == old(self).spec_ignore_cursor(),
            final(self).spec_words() == old(self).spec_words(),
            final(self).spec_variant() == old(self).spec_variant(),
            final(self).spec_text_edit_id() == old(self).spec_text_edit_id(),
    {
        if self.prefix.unicode_len() == 0 {
            return false;
        }
        match self.ignore_cursor {
            Some(c) => {
                if c == self.cursor {
                    return false;
                }
            },
            None => {},
        }
        let found = self.words.find_completions(self.prefix.as_str());
        proof {
            lemma_completions_are_the_continuations(self.words, self.prefix@);
        }
        let mut completions: Vec<String> = Vec::new();
        let mut k: usize = 0;
        proof {
            assert(texts(completions@) =~= Seq::<Seq<char>>::empty());
        }
        while k < found.len()
            invariant
                k <= found@.len(),
                strictly_sorted(texts(completions@)),
                forall|s: Seq<char>| #[trigger] texts(completions@).contains(s) <==> texts(found@).take(
                    k as int,
                ).contains(s),
            decreases found@.len() - k,
        {
            let ghost before = texts(completions@);
            insert_sorted(&mut completions, found[k].clone());
            proof {
                assert(texts(found@).take(k + 1) =~= texts(found@).take(k as int).push(found@[k as int]@));
                assert forall|s: Seq<char>| #[trigger] texts(completions@).contains(s) <==> texts(found@).take(
                    k + 1,
                ).contains(s) by {
                    if s == found@[k as int]@ {
                        assert(texts(found@).take(k + 1)[k as int] == s);
                    }
                    if texts(found@).take(k as int).contains(s) {
                        let q = choose|q: int| 0 <= q < k && #[trigger] texts(found@).take(k as int)[q] == s;
                        assert(texts(found@).take(k + 1)[q] == s);
                    }
                    if texts(found@).take(k + 1).contains(s) && s != found@[k as int]@ {
                        let q = choose|q: int| 0 <= q < k + 1 && #[trigger] texts(found@).take(k + 1)[q] == s;
                        assert(texts(found@).take(k as int)[q] == s);
                    }
                }
            }
            k += 1;
        }
        proof {
            assert(texts(found@).take(found@.len() as int) =~= texts(found@));
            let listed = completion_listing(self.words, self.prefix@);
            assert(texts(found@) == listed);
            lemma_completions_are_the_continuations(self.words, self.prefix@);
            assert forall|s: Seq<char>| #[trigger] texts(completions@).contains(s) <==> s.len() > 0
                && has_word(self.words, self.prefix@ + s) by {
                assert(texts(completions@).contains(s) == texts(found@).contains(s));
                assert(listed.contains(s) <==> s.len() > 0 && has_word(self.words, self.prefix@ + s));
            }
        }
        self.completions = completions;
        proof {
            assert(self.spec_completions().len() == self.completions@.len());
        }
        self.completions.len() > 0
    }

    /// Handles a key of the popup: the escape key dismisses it at the cursor and gives
    /// the focus back to the editor, the arrows move the selection round the
    /// completions, and the tab key pastes the selected completion (nothing where the
    /// selection is past the last).
    pub fn handle_key(&mut self, key: CompleterKey) -> (action: CompleterAction)
        ensures
            final(self).spec_prefix() == old(self).spec_prefix(),
            final(self).spec_cursor() == old(self).spec_cursor(),
            final(self).spec_words() == old(self).spec_words(),
            final(self).spec_completions() == old(self).spec_completions(),
            final(self).spec_text_edit_id() == old(self).spec_text_edit_id(),
            ({
                let last = last_variant(old(self).spec_completions().len());
                let v = old(self).spec_variant() as int;
                match key {
                    CompleterKey::Escape => final(self).spec_ignore_cursor() == Some(
                        old(self).spec_cursor(),
                    ) && final(self).spec_variant() == v && action == CompleterAction::Focus(
                        old(self).spec_text_edit_id(),
                    ),
                    CompleterKey::ArrowDown => final(self).spec_ignore_cursor()
                        == old(self).spec_ignore_cursor() && final(self).spec_variant()
                        == next_variant(v, last) && action is Select,
                    CompleterKey::ArrowUp => final(self).spec_ignore_cursor()
                        == old(self).spec_ignore_cursor() && final(self).spec_variant()
                        == prev_variant(v, last) && action is Select,
                    CompleterKey::Tab => final(self).spec_ignore_cursor()
                        == old(self).spec_ignore_cursor() && final(self).spec_variant() == v && (
                    action matches CompleterAction::Paste(text) && text@ == if v
                        < old(self).spec_completions().len() {
                        old(self).spec_completions()[v]
                    } else {
                        Seq::<char>::empty()
                    }),
                }
            }),
    {
        let last = if self.completions.len() > 0 {
            self.completions.len() - 1
        } else {
            0
        };
        match key {
            CompleterKey::Escape => {
                self.ignore_cursor = Some(self.cursor);
                CompleterAction::Focus(self.text_edit_id)
            },
            CompleterKey::ArrowDown => {
                self.variant_id = if self.variant_id == last {
                    0
                } else if self.variant_id < last {
                    self.variant_id + 1
                } else {
                    last
                };
                CompleterAction::Select
            },
            CompleterKey::ArrowUp => {
                self.variant_id = if self.variant_id == 0 {
                    last
                } else {
                    self.variant_id - 1
                };
                CompleterAction::Select
            },
            CompleterKey::Tab => {
                if self.variant_id < self.completions.len() {
                    CompleterAction::Paste(self.completions[self.variant_id].clone())
                } else {
                    CompleterAction::Paste(String::new())
                }
            },
        }
    }

    /// Whether the popup is to be shown: there is a word being completed and completions
    /// to offer.
    pub fn shows_popup(&self) -> (res: bool)
        ensures
            res == (self.spec_prefix().len() > 0 && self.spec_completions().len() > 0),
    {
        self.prefix.unicode_len() > 0 && self.completions.len() > 0
    }

    /// The completions on offer, in order.
    pub fn completions(&self) -> (res: &Vec<String>)
        ensures
            texts(res@) == self.spec_completions(),
    {
        &self.completions
    }

    /// The selected completion's position.
    pub fn variant_id(&self) -> (res: usize)
        ensures
            res == self.spec_variant(),
    {
        self.variant_id
    }

    /// The text editor that last had the keyboard focus.
    pub fn text_edit_id(&self) -> (res: Option<u64>)
        ensures
            res == self.spec_text_edit_id(),
    {
        self.text_edit_id
    }

    /// The word being completed.
    pub fn prefix(&self) -> (res: &str)
        ensures
            res@ == self.spec_prefix(),
    {
        self.prefix.as_str()
    }
}

impl Default for Completer {
    fn default() -> (res: Self)
        ensures
            res.wf(),
            res.spec_prefix() == Seq::<char>::empty(),
            res.spec_cursor() == 0,
            res.spec_ignore_cursor() is None,
            res.spec_words()@ == Set::<Seq<char>>::empty(),
            forall|v: Seq<char>| !#[trigger] has_word(res.spec_words(), v),
            res.spec_variant() == 0,
            res.spec_completions() == Seq::<Seq<char>>::empty(),
            res.spec_text_edit_id() is None,
    {
        Completer::new()
    }
}

} // verus!
