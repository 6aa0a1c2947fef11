//! The prefix index: a trie over the uppercase letters `'A'..='Z'`, with one
//! fixed 26-slot child table per node. A node is terminal when the prefix
//! that leads to it is itself a complete dictionary word.

use vstd::prelude::*;

verus! {

/// True for the characters the index can store: the uppercase letters.
pub open spec fn is_upper(c: char) -> bool {
    65 <= c as int <= 90
}

/// Slot of an uppercase letter in a node's child table: 0 for 'A', 25 for 'Z'.
pub open spec fn letter_index(c: char) -> int {
    c as int - 65
}

/// One prefix position in the dictionary. `children[letter_index(c)]` is the
/// node for the prefix extended by `c`, if any inserted word has that prefix;
/// `is_word` marks the prefix ending here as a complete dictionary word.
pub struct TrieNode {
    pub children: Vec<Option<TrieNode>>,
    pub is_word: bool,
}

impl TrieNode {
    /// Every node of the tree has exactly one child slot per letter.
    pub open spec fn wf(self) -> bool
        decreases self,
    {
        &&& self.children@.len() == 26
        &&& forall|i: int|
            0 <= i < self.children@.len() ==> ((#[trigger] self.children@[i]) matches Some(t)
                ==> t.wf())
    }

    /// The child reached from this node by the character `c`, if present.
    pub open spec fn spec_child(self, c: char) -> Option<TrieNode> {
        if is_upper(c) && 0 <= letter_index(c) < self.children@.len() {
            self.children@[letter_index(c)]
        } else {
            None
        }
    }

    /// The node reached by descending one character of `w` at a time, if the
    /// whole of `w` is a stored prefix.
    pub open spec fn subtrie(self, w: Seq<char>) -> Option<TrieNode>
        decreases w.len(),
    {
        if w.len() <= 0 {
            Some(self)
        } else {
            match self.spec_child(w[0]) {
                Some(t) => t.subtrie(w.subrange(1, w.len() as int)),
                None => None,
            }
        }
    }

    /// Whether `w` is a word of the dictionary this trie stores.
    pub open spec fn contains_word(self, w: Seq<char>) -> bool {
        match self.subtrie(w) {
            Some(t) => t.is_word,
            None => false,
        }
    }

    /// A fresh index that stores no word at all.
    pub fn new() -> (t: TrieNode)
        ensures
            t.wf(),
            !t.is_word,
            forall|c: char| t.spec_child(c) is None,
            forall|w: Seq<char>| !t.contains_word(w),
    {
        let mut children: Vec<Option<TrieNode>> = Vec::new();
        let mut i: usize = 0;
        while i < 26
            invariant
                i <= 26,
                children@.len() == i as int,
                forall|j: int| 0 <= j < i as int ==> (#[trigger] children@[j]) is None,
            decreases 26 - i,
        {
            children.push(None);
            i = i + 1;
        }
        let t = TrieNode { children, is_word: false };
        proof {
            assert forall|w: Seq<char>| !t.contains_word(w) by {
                if w.len() > 0 {
                    assert(t.spec_child(w[0]) is None);
                }
            }
        }
        t
    }

    /// Whether the prefix ending at this node is a complete dictionary word.
    pub fn is_terminal(&self) -> (b: bool)
        ensures
            b == self.is_word,
    {
        self.is_word
    }

    /// The sole query primitive of the search: the child for one character,
    /// as a reference, so a caller can keep descending without walking the
    /// prefix again from the root.
    pub fn child_for(&self, c: char) -> (res: Option<&TrieNode>)
        requires
            self.wf(),
        ensures
            match res {
                Some(t) => self.spec_child(c) == Some(*t) && t.wf(),
                None => self.spec_child(c) is None,
            },
    {
        let code = c as u32;
        if 65 <= code && code <= 90 {
            let idx = (code - 65) as usize;
            match &self.children[idx] {
                Some(t) => Some(t),
                None => None,
            }
        } else {
            None
        }
    }

    /// Stores one word: walks a chain of nodes, one per character, creating
    /// the missing ones, and marks the last node terminal. Afterwards the
    /// dictionary holds exactly what it held before, plus this word.
    pub fn insert(&mut self, word: &str)
        requires
            old(self).wf(),
            word@.len() >= 1,
            forall|j: int| 0 <= j < word@.len() ==> is_upper(#[trigger] word@[j]),
        ensures
            final(self).wf(),
            forall|w: Seq<char>|
                final(self).contains_word(w) <==> old(self).contains_word(w) || w == word@,
    {
        self.insert_from(word, 0);
        proof {
            assert(word@.subrange(0, word@.len() as int) =~= word@);
        }
    }

    /// Stores the suffix of `word` that starts at character `i`, seen from
    /// this node.
    fn insert_from(&mut self, word: &str, i: usize)
        requires
            old(self).wf(),
            i <= word@.len(),
            forall|j: int| i <= j < word@.len() ==> is_upper(#[trigger] word@[j]),
        ensures
            final(self).wf(),
            forall|w: Seq<char>|
                final(self).contains_word(w) <==> old(self).contains_word(w) || w
                    == word@.subrange(i as int, word@.len() as int),
        decreases word@.len() - i,
    {
        let ghost suffix = word@.subrange(i as int, word@.len() as int);
        if i == word.unicode_len() {
            self.is_word = true;
            proof {
                assert forall|w: Seq<char>|
                    self.contains_word(w) <==> (old(self).contains_word(w) || w == suffix) by {
                    if w.len() == 0 {
                        assert(w =~= suffix);
                    } else {
                        assert(self.spec_child(w[0]) == old(self).spec_child(w[0]));
                        assert(w.len() != suffix.len());
                    }
                }
            }
        } else {
            let ch = word.get_char(i);
            let idx = ((ch as u32) - 65) as usize;
            assert(idx as int == letter_index(ch) && 0 <= letter_index(ch) < 26);
            let slot = self.children.remove(idx);
            let ghost oldslot = slot;
            let mut child = match slot {
                Some(t) => t,
                None => TrieNode::new(),
            };
            let ghost child0 = child;
            child.insert_from(word, i + 1);
            let ghost child1 = child;
            self.children.insert(idx, Some(child));
            proof {
                let suffix1 = word@.subrange(i as int + 1, word@.len() as int);
                assert(self.children@ =~= old(self).children@.update(idx as int, Some(child1)));
                assert(self.is_word == old(self).is_word);
                assert forall|w: Seq<char>|
                    self.contains_word(w) <==> (old(self).contains_word(w) || w == suffix) by {
                    assert(suffix[0] == ch && suffix.len() == word@.len() - i);
                    if w.len() == 0 {
                        assert(w != suffix);
                    } else {
                        let w1 = w.subrange(1, w.len() as int);
                        if is_upper(w[0]) && letter_index(w[0]) == idx as int {
                            assert(w[0] as int == ch as int);
                            assert(w[0] == ch);
                            assert(self.spec_child(w[0]) == Some(child1));
                            assert(old(self).spec_child(w[0]) == oldslot);
                            assert(self.contains_word(w) == child1.contains_word(w1));
                            // `w` is the whole suffix exactly when its tail is
                            // the shorter suffix.
                            if w1 == suffix1 && w[0] == ch {
                                assert forall|k: int| 0 <= k < w.len() implies w[k] == suffix[k] by {
                                    if k > 0 {
                                        assert(w1[k - 1] == suffix1[k - 1]);
                                    }
                                }
                                assert(w =~= suffix);
                            }
                            if w == suffix {
                                assert(w1 =~= suffix1);
                            }
                            match oldslot {
                                Some(oldchild) => {
                                    assert(old(self).contains_word(w) == oldchild.contains_word(
                                        w1,
                                    ));
                                    assert(child1.contains_word(w1) <==> oldchild.contains_word(w1)
                                        || w1 == suffix1);
                                },
                                None => {
                                    assert(!old(self).contains_word(w));
                                    assert(!child0.contains_word(w1));
                                    assert(child1.contains_word(w1) <==> w1 == suffix1);
                                },
                            }
                        } else {
                            assert(self.spec_child(w[0]) == old(self).spec_child(w[0]));
                            assert(w != suffix) by {
                                if w == suffix {
                                    assert(w[0] == ch);
                                }
                            }
                        }
                    }
                }
            }
        }
    }
}

/// Inserting a word a second time is a no-op for every query: a dictionary
/// that holds the word already answers afterwards exactly as before.
pub proof fn lemma_insert_idempotent(t0: TrieNode, t1: TrieNode, t2: TrieNode, word: Seq<char>)
    requires
        forall|w: Seq<char>| t1.contains_word(w) <==> t0.contains_word(w) || w == word,
        forall|w: Seq<char>| t2.contains_word(w) <==> t1.contains_word(w) || w == word,
    ensures
        forall|w: Seq<char>| t2.contains_word(w) <==> t1.contains_word(w),
{
}

/// Descending by a concatenation is descending by its parts in turn.
pub proof fn lemma_subtrie_split(t: TrieNode, a: Seq<char>, b: Seq<char>)
    ensures
        t.subtrie(a + b) == (match t.subtrie(a) {
            Some(m) => m.subtrie(b),
            None => None::<TrieNode>,
        }),
    decreases a.len(),
{
    if a.len() == 0 {
        assert(a + b =~= b);
    } else {
        assert((a + b)[0] == a[0]);
        match t.spec_child(a[0]) {
            Some(m) => {
                assert((a + b).subrange(1, (a + b).len() as int) =~= a.subrange(
                    1,
                    a.len() as int,
                ) + b);
                lemma_subtrie_split(m, a.subrange(1, a.len() as int), b);
            },
            None => {},
        }
    }
}

/// Every node reached from a well-formed node is well formed.
pub proof fn lemma_subtrie_wf(t: TrieNode, w: Seq<char>)
    requires
        t.wf(),
    ensures
        t.subtrie(w) matches Some(m) ==> m.wf(),
    decreases w.len(),
{
    if w.len() > 0 {
        match t.spec_child(w[0]) {
            Some(m) => {
                lemma_subtrie_wf(m, w.subrange(1, w.len() as int));
            },
            None => {},
        }
    }
}

} // verus!
