//! The search engine: a backtracking depth-first walk over the grid that
//! follows the prefix index in lock-step, prunes every path whose prefix has
//! no dictionary continuation, collects each discovered word once, and ranks
//! the result.

use vstd::prelude::*;

use crate::ranking::{distinct_words, has_word, ranks_before, sort_ranked, strictly_ranked, views_of};
use crate::trie::{is_upper, lemma_subtrie_split, lemma_subtrie_wf, TrieNode};

verus! {

/// The reported strings, as character sequences.
pub open spec fn string_views(s: Seq<String>) -> Seq<Seq<char>> {
    s.map_values(|x: String| x@)
}

/// Cells within one king's move of each other, and not the same cell.
pub open spec fn adjacent(a: (int, int), b: (int, int)) -> bool {
    &&& a != b
    &&& -1 <= b.0 - a.0 <= 1
    &&& -1 <= b.1 - a.1 <= 1
}

/// The rows of the visited mask, as boolean sequences.
pub open spec fn mask_view(m: Seq<Vec<bool>>) -> Seq<Seq<bool>> {
    m.map_values(|row: Vec<bool>| row@)
}

/// How many cells of the mask are unset.
pub open spec fn count_false_row(s: Seq<bool>) -> nat
    decreases s.len(),
{
    if s.len() == 0 {
        0
    } else {
        (if s[0] {
            0nat
        } else {
            1nat
        }) + count_false_row(s.drop_first())
    }
}

/// How many cells of the whole mask are unset.
pub open spec fn count_false(m: Seq<Seq<bool>>) -> nat
    decreases m.len(),
{
    if m.len() == 0 {
        0
    } else {
        count_false_row(m[0]) + count_false(m.drop_first())
    }
}

proof fn lemma_count_false_row_set(s: Seq<bool>, c: int)
    requires
        0 <= c < s.len(),
        !s[c],
    ensures
        count_false_row(s.update(c, true)) + 1 == count_false_row(s),
    decreases s.len(),
{
    let t = s.update(c, true);
    if c == 0 {
        assert(t.drop_first() =~= s.drop_first());
    } else {
        assert(t.drop_first() =~= s.drop_first().update(c - 1, true));
        lemma_count_false_row_set(s.drop_first(), c - 1);
        assert(t[0] == s[0]);
    }
}

proof fn lemma_count_false_replace_row(m: Seq<Seq<bool>>, r: int, row2: Seq<bool>)
    requires
        0 <= r < m.len(),
    ensures
        count_false(m.update(r, row2)) + count_false_row(m[r]) == count_false(m) + count_false_row(
            row2,
        ),
    decreases m.len(),
{
    let t = m.update(r, row2);
    if r == 0 {
        assert(t.drop_first() =~= m.drop_first());
        assert(t[0] == row2);
    } else {
        assert(t.drop_first() =~= m.drop_first().update(r - 1, row2));
        lemma_count_false_replace_row(m.drop_first(), r - 1, row2);
        assert(t[0] == m[0]);
    }
}

/// The solver: an immutable grid of uppercase letters and the prefix index of
/// the dictionary, built once before any search.
pub struct BoggleSolver {
    pub trie: TrieNode,
    pub board: Vec<Vec<char>>,
    pub rows: i32,
    pub cols: i32,
}

impl BoggleSolver {
    /// The grid is rectangular, nonempty, and holds uppercase letters only;
    /// the stored dimensions match it; the index is well formed.
    pub open spec fn wf(self) -> bool {
        &&& 1 <= self.rows
        &&& 0 <= self.cols
        &&& self.board@.len() == self.rows as int
        &&& forall|r: int|
            0 <= r < self.rows as int ==> (#[trigger] self.board@[r])@.len() == self.cols as int
        &&& forall|r: int, c: int|
            0 <= r < self.rows as int && 0 <= c < self.cols as int ==> is_upper(
                #[trigger] self.board@[r]@[c],
            )
        &&& self.trie.wf()
    }

    pub open spec fn in_bounds(self, p: (int, int)) -> bool {
        0 <= p.0 < self.rows as int && 0 <= p.1 < self.cols as int
    }

    pub open spec fn letter_at(self, p: (int, int)) -> char {
        self.board@[p.0]@[p.1]
    }

    /// A legal trail over the grid: in bounds, no cell twice, each step to an
    /// adjacent cell.
    pub open spec fn is_path(self, p: Seq<(int, int)>) -> bool {
        &&& forall|k: int| 0 <= k < p.len() ==> self.in_bounds(#[trigger] p[k])
        &&& forall|k: int, l: int| 0 <= k < l < p.len() ==> p[k] != p[l]
        &&& forall|k: int| 0 <= k < p.len() - 1 ==> adjacent(#[trigger] p[k], p[k + 1])
    }

    /// The word a trail spells.
    pub open spec fn word_of(self, p: Seq<(int, int)>) -> Seq<char> {
        Seq::new(p.len(), |k: int| self.letter_at(p[k]))
    }

    /// A word of the dictionary that some trail on the grid spells: exactly
    /// what one run of the search reports.
    pub open spec fn findable(self, w: Seq<char>) -> bool {
        &&& self.trie.contains_word(w)
        &&& exists|p: Seq<(int, int)>| p.len() >= 1 && self.is_path(p) && w == self.word_of(p)
    }

    /// A word the search can still reach from `start`, after having walked
    /// `cells`: the dictionary contains it, and it is spelled by `cells`
    /// extended with a trail that begins at `start`.
    pub open spec fn words_from(self, cells: Seq<(int, int)>, start: (int, int), w: Seq<char>) -> bool {
        &&& self.trie.contains_word(w)
        &&& exists|q: Seq<(int, int)>|
            q.len() >= 1 && q[0] == start && self.is_path(cells + q) && w == self.word_of(
                cells + q,
            )
    }

    /// The mask has the grid's shape and marks exactly the cells of `cells`.
    pub open spec fn mask_marks(self, m: Seq<Seq<bool>>, cells: Seq<(int, int)>) -> bool {
        &&& m.len() == self.rows as int
        &&& forall|r: int| 0 <= r < m.len() ==> (#[trigger] m[r]).len() == self.cols as int
        &&& forall|r: int, c: int|
            0 <= r < self.rows as int && 0 <= c < self.cols as int ==> ((#[trigger] m[r][c])
                <==> cells.contains((r, c)))
    }
}

/// What `solve` reports is a function of the grid and the dictionary alone:
/// any two results that meet its contract — in particular, the results of
/// running the search twice over the restored mask — have the same count and
/// the same ranked list.
pub proof fn lemma_solve_unique(
    s: BoggleSolver,
    n1: usize,
    t1: Seq<Seq<char>>,
    all1: Seq<Seq<char>>,
    n2: usize,
    t2: Seq<Seq<char>>,
    all2: Seq<Seq<char>>,
)
    requires
        strictly_ranked(all1),
        forall|w: Seq<char>| has_word(all1, w) == s.findable(w),
        n1 as int == all1.len(),
        t1 == all1.subrange(
            0,
            if all1.len() <= 6 {
                all1.len() as int
            } else {
                6
            },
        ),
        strictly_ranked(all2),
        forall|w: Seq<char>| has_word(all2, w) == s.findable(w),
        n2 as int == all2.len(),
        t2 == all2.subrange(
            0,
            if all2.len() <= 6 {
                all2.len() as int
            } else {
                6
            },
        ),
    ensures
        n1 == n2,
        t1 == t2,
{
    crate::ranking::lemma_ranked_unique(all1, all2);
}

/// Writes one cell of the visited mask, leaving every other row untouched.
fn set_cell(m: &mut Vec<Vec<bool>>, r: usize, c: usize, b: bool)
    requires
        r < old(m)@.len(),
        c < old(m)@[r as int]@.len(),
    ensures
        final(m)@.len() == old(m)@.len(),
        forall|i: int| 0 <= i < old(m)@.len() && i != r as int ==> final(m)@[i] == old(m)@[i],
        final(m)@[r as int]@ == old(m)@[r as int]@.update(c as int, b),
{
    m[r][c] = b;
}

/// A fresh all-false mask of the given shape.
fn make_mask(rows: usize, cols: usize) -> (m: Vec<Vec<bool>>)
    ensures
        m@.len() == rows as int,
        forall|i: int| 0 <= i < rows as int ==> (#[trigger] m@[i])@.len() == cols as int,
        forall|i: int, j: int|
            0 <= i < rows as int && 0 <= j < cols as int ==> !(#[trigger] m@[i]@[j]),
{
    let mut m: Vec<Vec<bool>> = Vec::new();
    let mut i: usize = 0;
    while i < rows
        invariant
            i <= rows,
            m@.len() == i as int,
            forall|k: int| 0 <= k < i as int ==> (#[trigger] m@[k])@.len() == cols as int,
            forall|k: int, j: int|
                0 <= k < i as int && 0 <= j < cols as int ==> !(#[trigger] m@[k]@[j]),
        decreases rows - i,
    {
        let mut row: Vec<bool> = Vec::new();
        let mut j: usize = 0;
        while j < cols
            invariant
                j <= cols,
                row@.len() == j as int,
                forall|l: int| 0 <= l < j as int ==> !(#[trigger] row@[l]),
            decreases cols - j,
        {
            row.push(false);
            j = j + 1;
        }
        m.push(row);
        i = i + 1;
    }
    m
}

/// Whether two words are the same sequence of characters.
fn chars_eq(a: &Vec<char>, b: &Vec<char>) -> (r: bool)
    ensures
        r == (a@ == b@),
{
    if a.len() != b.len() {
        return false;
    }
    let mut k: usize = 0;
    while k < a.len()
        invariant
            a@.len() == b@.len(),
            k <= a@.len(),
            forall|j: int| 0 <= j < k ==> a@[j] == b@[j],
        decreases a@.len() - k,
    {
        if a[k] != b[k] {
            return false;
        }
        k = k + 1;
    }
    proof {
        assert(a@ =~= b@);
    }
    true
}

/// Whether the found list already holds this word.
fn holds_word(ws: &Vec<Vec<char>>, w: &Vec<char>) -> (r: bool)
    ensures
        r == has_word(views_of(ws@), w@),
{
    let mut k: usize = 0;
    while k < ws.len()
        invariant
            k <= ws@.len(),
            forall|j: int| 0 <= j < k ==> views_of(ws@)[j] != w@,
        decreases ws@.len() - k,
    {
        if chars_eq(&ws[k], w) {
            proof {
                assert(views_of(ws@)[k as int] == w@);
            }
            return true;
        }
        k = k + 1;
    }
    proof {
        if has_word(views_of(ws@), w@) {
            let j = choose|j: int| 0 <= j < views_of(ws@).len() && views_of(ws@)[j] == w@;
            assert(views_of(ws@)[j] != w@);
        }
    }
    false
}

/// A copy of the word accumulated on the path.
fn copy_word(v: &Vec<char>) -> (r: Vec<char>)
    ensures
        r@ == v@,
{
    let mut r: Vec<char> = Vec::new();
    let mut k: usize = 0;
    while k < v.len()
        invariant
            k <= v@.len(),
            r@ == v@.subrange(0, k as int),
        decreases v@.len() - k,
    {
        r.push(v[k]);
        k = k + 1;
        proof {
            assert(r@ =~= v@.subrange(0, k as int));
        }
    }
    proof {
        assert(v@.subrange(0, v@.len() as int) =~= v@);
    }
    r
}

/// Relies on `String::push`: appends exactly the one character at the end of
/// the string.
#[verifier::external_body]
fn push_char(s: &mut String, c: char)
    ensures
        final(s)@ == old(s)@.push(c),
{
    s.push(c);
}

/// The word, as a string of the same characters.
fn chars_to_string(v: &Vec<char>) -> (s: String)
    ensures
        s@ == v@,
{
    let mut s = String::new();
    let mut k: usize = 0;
    while k < v.len()
        invariant
            k <= v@.len(),
            s@ == v@.subrange(0, k as int),
        decreases v@.len() - k,
    {
        push_char(&mut s, v[k]);
        k = k + 1;
        proof {
            assert(s@ =~= v@.subrange(0, k as int));
        }
    }
    proof {
        assert(v@.subrange(0, v@.len() as int) =~= v@);
    }
    s
}

impl BoggleSolver {
    /// Concatenated trails spell the concatenation of their words.
    pub proof fn lemma_word_of_append(self, p: Seq<(int, int)>, q: Seq<(int, int)>)
        ensures
            self.word_of(p + q) == self.word_of(p) + self.word_of(q),
    {
        assert(self.word_of(p + q) =~= self.word_of(p) + self.word_of(q));
    }

    /// One step of the walk, arriving at `cells.push(start)` from a shorter
    /// walk, finds exactly what the longer walk finds from its own start.
    proof fn lemma_step_words(self, cells: Seq<(int, int)>, start: (int, int), nxt: (int, int), w: Seq<char>)
        requires
            self.words_from(cells.push(start), nxt, w),
        ensures
            self.words_from(cells, start, w),
    {
        let cells2 = cells.push(start);
        let q = choose|q: Seq<(int, int)>|
            q.len() >= 1 && q[0] == nxt && self.is_path(cells2 + q) && w == self.word_of(
                cells2 + q,
            );
        let q2 = seq![start] + q;
        assert(cells + q2 =~= cells2 + q);
        assert(q2[0] == start);
        assert(self.is_path(cells + q2));
        assert(w == self.word_of(cells + q2));
    }

    /// A word found from `start` by more than the one-cell walk is found from
    /// one of the cells adjacent to `start`, after stepping onto `start`.
    proof fn lemma_words_decompose(self, cells: Seq<(int, int)>, start: (int, int), w: Seq<char>)
        requires
            self.words_from(cells, start, w),
            w != self.word_of(cells.push(start)),
        ensures
            exists|nxt: (int, int)|
                adjacent(start, nxt) && #[trigger] self.words_from(cells.push(start), nxt, w),
    {
        let cells2 = cells.push(start);
        let q = choose|q: Seq<(int, int)>|
            q.len() >= 1 && q[0] == start && self.is_path(cells + q) && w == self.word_of(
                cells + q,
            );
        if q.len() == 1 {
            assert(cells + q =~= cells2);
            assert(false);
        }
        let q1 = q.subrange(1, q.len() as int);
        assert(cells + q =~= cells2 + q1);
        assert((cells + q)[cells.len() as int] == start);
        assert((cells + q)[cells.len() as int + 1] == q[1]);
        assert(adjacent(start, q[1]));
        assert(q1[0] == q[1]);
        assert(self.is_path(cells2 + q1));
        assert(w == self.word_of(cells2 + q1));
        assert(self.words_from(cells2, q[1], w));
    }

    /// Builds a solver over the given grid: the dictionary words, already
    /// uppercased by the caller, are stored in the prefix index, those of
    /// length 3 to 16; the others are left out, so they can never be found.
    pub fn new(board: Vec<Vec<char>>, words: &Vec<String>) -> (s: BoggleSolver)
        requires
            1 <= board@.len() < 0x8000_0000,
            board@[0]@.len() < 0x8000_0000,
            forall|r: int|
                0 <= r < board@.len() ==> (#[trigger] board@[r])@.len() == board@[0]@.len(),
            forall|r: int, c: int|
                0 <= r < board@.len() && 0 <= c < board@[0]@.len() ==> is_upper(
                    #[trigger] board@[r]@[c],
                ),
            forall|k: int, j: int|
                0 <= k < words@.len() && 0 <= j < words@[k]@.len() ==> is_upper(
                    #[trigger] words@[k]@[j],
                ),
        ensures
            s.wf(),
            s.board@ == board@,
            s.rows as int == board@.len(),
            s.cols as int == board@[0]@.len(),
            forall|w: Seq<char>|
                s.trie.contains_word(w) == (3 <= w.len() <= 16 && exists|k: int|
                    0 <= k < words@.len() && words@[k]@ == w),
    {
        let mut trie = TrieNode::new();
        let mut k: usize = 0;
        while k < words.len()
            invariant
                trie.wf(),
                k <= words@.len(),
                forall|k2: int, j: int|
                    0 <= k2 < words@.len() && 0 <= j < words@[k2]@.len() ==> is_upper(
                        #[trigger] words@[k2]@[j],
                    ),
                forall|w: Seq<char>|
                    trie.contains_word(w) == (3 <= w.len() <= 16 && exists|j: int|
                        0 <= j < k && words@[j]@ == w),
            decreases words@.len() - k,
        {
            let wstr = &words[k];
            let len = wstr.as_str().unicode_len();
            let ghost pre = trie;
            if len >= 3 && len <= 16 {
                trie.insert(wstr.as_str());
            }
            k = k + 1;
            proof {
                assert forall|w: Seq<char>|
                    trie.contains_word(w) == (3 <= w.len() <= 16 && exists|j: int|
                        0 <= j < k && words@[j]@ == w) by {
                    if 3 <= w.len() <= 16 && exists|j: int| 0 <= j < k && words@[j]@ == w {
                        let j = choose|j: int| 0 <= j < k && words@[j]@ == w;
                        if j == k - 1 {
                            assert(trie.contains_word(w));
                        }
                    }
                    if trie.contains_word(w) && !pre.contains_word(w) {
                        assert(w == words@[k - 1]@);
                    }
                }
            }
        }
        let rows = board.len() as i32;
        let first = &board[0];
        let cols = first.len() as i32;
        BoggleSolver { trie, board, rows, cols }
    }

    /// One step of the backtracking walk: arriving at cell `(r, c)` with the
    /// walked cells marked in `visited`, their word in `path`, and `node` the
    /// index position that word leads to. It adds to `found` exactly the
    /// dictionary words that extend the walk through `(r, c)`, each once, and
    /// restores the mask and the path before returning.
    pub fn dfs(
        &self,
        r: i32,
        c: i32,
        node: &TrieNode,
        path: &mut Vec<char>,
        visited: &mut Vec<Vec<bool>>,
        found: &mut Vec<Vec<char>>,
        cells: Ghost<Seq<(int, int)>>,
    )
        requires
            self.wf(),
            self.is_path(cells@),
            self.mask_marks(mask_view(old(visited)@), cells@),
            old(path)@ == self.word_of(cells@),
            self.trie.subtrie(old(path)@) == Some(*node),
            cells@.len() >= 1 ==> adjacent(cells@[cells@.len() - 1], (r as int, c as int)),
            distinct_words(views_of(old(found)@)),
        ensures
            mask_view(final(visited)@) == mask_view(old(visited)@),
            final(path)@ == old(path)@,
            distinct_words(views_of(final(found)@)),
            forall|w: Seq<char>|
                has_word(views_of(final(found)@), w) == (has_word(views_of(old(found)@), w)
                    || self.words_from(cells@, (r as int, c as int), w)),
        decreases count_false(mask_view(old(visited)@)),
    {
        let ghost start = (r as int, c as int);
        if r < 0 || r >= self.rows || c < 0 || c >= self.cols {
            proof {
                assert forall|w: Seq<char>| !self.words_from(cells@, start, w) by {
                    if self.words_from(cells@, start, w) {
                        let q = choose|q: Seq<(int, int)>|
                            q.len() >= 1 && q[0] == start && self.is_path(cells@ + q) && w
                                == self.word_of(cells@ + q);
                        assert((cells@ + q)[cells@.len() as int] == q[0]);
                        assert(self.in_bounds(start));
                    }
                }
            }
            return ;
        }
        let ru = r as usize;
        let cu = c as usize;
        proof {
            assert(mask_view(visited@)[r as int] == visited@[r as int]@);
        }
        let row = &visited[ru];
        if row[cu] {
            proof {
                assert(cells@.contains(start));
                assert forall|w: Seq<char>| !self.words_from(cells@, start, w) by {
                    if self.words_from(cells@, start, w) {
                        let q = choose|q: Seq<(int, int)>|
                            q.len() >= 1 && q[0] == start && self.is_path(cells@ + q) && w
                                == self.word_of(cells@ + q);
                        let i = choose|i: int| 0 <= i < cells@.len() && cells@[i] == start;
                        assert((cells@ + q)[i] == start);
                        assert((cells@ + q)[cells@.len() as int] == start);
                    }
                }
            }
            return ;
        }
        let boardrow = &self.board[ru];
        let ch = boardrow[cu];
        proof {
            assert(ch == self.letter_at(start));
            lemma_subtrie_wf(self.trie, path@);
        }
        match node.child_for(ch) {
            None => {
                proof {
                    assert forall|w: Seq<char>| !self.words_from(cells@, start, w) by {
                        if self.words_from(cells@, start, w) {
                            let q = choose|q: Seq<(int, int)>|
                                q.len() >= 1 && q[0] == start && self.is_path(cells@ + q) && w
                                    == self.word_of(cells@ + q);
                            self.lemma_word_of_append(cells@, q);
                            lemma_subtrie_split(self.trie, self.word_of(cells@), self.word_of(q));
                            assert((cells@ + q)[cells@.len() as int] == q[0]);
                            assert(self.word_of(q)[0] == self.letter_at(q[0]));
                            assert(self.word_of(q).len() >= 1);
                            assert(node.subtrie(self.word_of(q)) is None);
                            assert(!self.trie.contains_word(w));
                        }
                    }
                }
                return ;
            },
            Some(next) => {
                let ghost mask0 = mask_view(visited@);
                set_cell(visited, ru, cu, true);
                path.push(ch);
                let ghost cells2 = cells@.push(start);
                let ghost mask1 = mask_view(visited@);
                proof {
                    assert(mask1 =~= mask0.update(
                        r as int,
                        mask0[r as int].update(c as int, true),
                    ));
                    lemma_count_false_replace_row(
                        mask0,
                        r as int,
                        mask0[r as int].update(c as int, true),
                    );
                    lemma_count_false_row_set(mask0[r as int], c as int);
                    assert(count_false(mask1) + 1 == count_false(mask0));
                    // the lengthened walk is still a legal trail
                    assert(cells2[cells2.len() - 1] == start);
                    assert forall|k: int, l: int|
                        0 <= k < l < cells2.len() implies cells2[k] != cells2[l] by {
                        if l == cells2.len() - 1 {
                            if cells2[k] == start {
                                assert(cells@[k] == start);
                                assert(cells@.contains(start));
                            }
                        }
                    }
                    assert(self.is_path(cells2));
                    // the mask now marks exactly the lengthened walk
                    assert forall|rr: int, cc: int|
                        0 <= rr < self.rows as int && 0 <= cc < self.cols as int implies (
                    mask1[rr][cc] <==> cells2.contains((rr, cc))) by {
                        if rr == r as int && cc == c as int {
                            assert(cells2[cells2.len() - 1] == (rr, cc));
                        } else {
                            if cells2.contains((rr, cc)) {
                                let i = choose|i: int|
                                    0 <= i < cells2.len() && cells2[i] == (rr, cc);
                                assert(cells@[i] == (rr, cc));
                                assert(cells@.contains((rr, cc)));
                            }
                            if cells@.contains((rr, cc)) {
                                let i = choose|i: int|
                                    0 <= i < cells@.len() && cells@[i] == (rr, cc);
                                assert(cells2[i] == (rr, cc));
                                assert(cells2.contains((rr, cc)));
                            }
                        }
                    }
                    assert(self.mask_marks(mask1, cells2));
                    // the grown path spells the grown walk
                    assert(path@ =~= self.word_of(cells2));
                    // and leads the index to the child node
                    assert(cells2 =~= cells@ + seq![start]);
                    self.lemma_word_of_append(cells@, seq![start]);
                    lemma_subtrie_split(self.trie, self.word_of(cells@), self.word_of(seq![start]));
                    assert(self.word_of(seq![start]) =~= seq![ch]);
                    assert(seq![ch][0] == ch);
                    assert(seq![ch].subrange(1, 1).len() == 0);
                    assert((*next).subtrie(seq![ch].subrange(1, 1)) == Some(*next));
                    assert(node.subtrie(seq![ch]) == Some(*next));
                    assert(self.trie.subtrie(self.word_of(cells2)) == Some(*next));
                }
                let ghost found0 = views_of(found@);
                if next.is_terminal() {
                    let w = copy_word(path);
                    if !holds_word(found, &w) {
                        found.push(w);
                        proof {
                            assert(views_of(found@) =~= found0.push(path@));
                        }
                    }
                }
                let ghost found1 = views_of(found@);
                proof {
                    assert forall|w: Seq<char>|
                        has_word(found1, w) == (has_word(found0, w) || (next.is_word && w
                            == self.word_of(cells2))) by {
                        if found1 =~= found0.push(self.word_of(cells2)) {
                            if has_word(found1, w) {
                                let i = choose|i: int| 0 <= i < found1.len() && found1[i] == w;
                                if i < found0.len() {
                                    assert(found0[i] == w);
                                }
                            }
                            if has_word(found0, w) {
                                let i = choose|i: int| 0 <= i < found0.len() && found0[i] == w;
                                assert(found1[i] == w);
                            }
                            if w == self.word_of(cells2) {
                                assert(found1[found1.len() - 1] == w);
                            }
                        }
                    }
                    assert(distinct_words(found1));
                }
                self.dfs(r - 1, c - 1, next, path, visited, found, Ghost(cells2));
                self.dfs(r - 1, c, next, path, visited, found, Ghost(cells2));
                self.dfs(r - 1, c + 1, next, path, visited, found, Ghost(cells2));
                self.dfs(r, c - 1, next, path, visited, found, Ghost(cells2));
                self.dfs(r, c + 1, next, path, visited, found, Ghost(cells2));
                self.dfs(r + 1, c - 1, next, path, visited, found, Ghost(cells2));
                self.dfs(r + 1, c, next, path, visited, found, Ghost(cells2));
                self.dfs(r + 1, c + 1, next, path, visited, found, Ghost(cells2));
                proof {
                    assert(mask_view(visited@) == mask1);
                    assert(mask_view(visited@)[r as int] == visited@[r as int]@);
                }
                set_cell(visited, ru, cu, false);
                let _popped = path.pop();
                proof {
                    // the mask and the path are restored
                    assert forall|i: int| 0 <= i < mask0.len() implies mask_view(visited@)[i]
                        =~= mask0[i] by {
                        assert(mask_view(visited@)[i] == visited@[i]@);
                        if i == r as int {
                            assert(!mask0[r as int][c as int]);
                            assert(visited@[i]@ == mask1[i].update(c as int, false));
                            assert(visited@[i]@ =~= mask0[i]);
                        } else {
                            assert(visited@[i]@ == mask1[i]);
                            assert(mask1[i] == mask0[i]);
                        }
                    }
                    assert(mask_view(visited@) =~= mask0);
                    assert(path@ =~= old(path)@);
                    // what the eight onward steps found, together with the
                    // word ending here, is exactly what is findable from here
                    assert forall|w: Seq<char>|
                        has_word(views_of(found@), w) == (has_word(found0, w)
                            || self.words_from(cells@, start, w)) by {
                        if has_word(views_of(found@), w) && !has_word(found0, w) {
                            if has_word(found1, w) {
                                // the word ending at this cell
                                assert(next.is_word && w == self.word_of(cells2));
                                assert(self.trie.contains_word(w));
                                let q = seq![start];
                                assert(cells@ + q =~= cells2);
                                assert(q[0] == start);
                                assert(self.is_path(cells@ + q));
                                assert(w == self.word_of(cells@ + q));
                                assert(self.words_from(cells@, start, w));
                            } else {
                                // a word found beyond one of the neighbours
                                let nxt = choose|nxt: (int, int)|
                                    adjacent(start, nxt) && #[trigger] self.words_from(
                                        cells2,
                                        nxt,
                                        w,
                                    );
                                self.lemma_step_words(cells@, start, nxt, w);
                            }
                        }
                        if self.words_from(cells@, start, w) && !has_word(found0, w) {
                            if w == self.word_of(cells2) {
                                // found by the one-cell extension: the child
                                // node is terminal
                                assert(self.trie.contains_word(w));
                                assert(next.is_word);
                                assert(has_word(found1, w));
                            } else {
                                self.lemma_words_decompose(cells@, start, w);
                                let nxt = choose|nxt: (int, int)|
                                    adjacent(start, nxt) && #[trigger] self.words_from(
                                        cells2,
                                        nxt,
                                        w,
                                    );
                                let dr = nxt.0 - r as int;
                                let dc = nxt.1 - c as int;
                                assert(-1 <= dr <= 1 && -1 <= dc <= 1 && (dr != 0 || dc != 0));
                                assert(nxt == (r as int + dr, c as int + dc));
                            }
                        }
                    }
                }
            },
        }
    }

    /// Runs the whole search: one walk from every grid cell in row-major
    /// order, then the ranking. Returns the count of distinct dictionary
    /// words findable on the grid, and the first six of them in reporting
    /// order — all of them, if fewer than six were found. The returned pair
    /// is determined by the grid and the dictionary alone.
    pub fn solve(&self) -> (res: (usize, Vec<String>))
        requires
            self.wf(),
        ensures
            res.1@.len() == (if res.0 as int <= 6 {
                res.0 as int
            } else {
                6
            }),
            strictly_ranked(string_views(res.1@)),
            forall|k: int| 0 <= k < res.1@.len() ==> self.findable(#[trigger] res.1@[k]@),
            exists|all: Seq<Seq<char>>|
                {
                    &&& strictly_ranked(all)
                    &&& (forall|w: Seq<char>| has_word(all, w) == self.findable(w))
                    &&& res.0 as int == all.len()
                    &&& string_views(res.1@) == all.subrange(
                        0,
                        if all.len() <= 6 {
                            all.len() as int
                        } else {
                            6
                        },
                    )
                },
    {
        let ghost nocells = Seq::<(int, int)>::empty();
        let mut found: Vec<Vec<char>> = Vec::new();
        let mut visited = make_mask(self.rows as usize, self.cols as usize);
        let mut path: Vec<char> = Vec::new();
        proof {
            assert forall|i: int| 0 <= i < mask_view(visited@).len() implies #[trigger] mask_view(
                visited@,
            )[i] == visited@[i]@ by {}
            assert(self.mask_marks(mask_view(visited@), nocells));
        }
        let mut r: i32 = 0;
        while r < self.rows
            invariant
                self.wf(),
                0 <= r <= self.rows,
                self.mask_marks(mask_view(visited@), nocells),
                nocells == Seq::<(int, int)>::empty(),
                path@ == Seq::<char>::empty(),
                distinct_words(views_of(found@)),
                forall|w: Seq<char>|
                    has_word(views_of(found@), w) == (exists|p: (int, int)|
                        self.in_bounds(p) && p.0 < r as int && #[trigger] self.words_from(
                            nocells,
                            p,
                            w,
                        )),
            decreases self.rows as int - r as int,
        {
            let mut c: i32 = 0;
            while c < self.cols
                invariant
                    self.wf(),
                    0 <= r < self.rows,
                    0 <= c <= self.cols,
                    self.mask_marks(mask_view(visited@), nocells),
                    nocells == Seq::<(int, int)>::empty(),
                    path@ == Seq::<char>::empty(),
                    distinct_words(views_of(found@)),
                    forall|w: Seq<char>|
                        has_word(views_of(found@), w) == (exists|p: (int, int)|
                            self.in_bounds(p) && (p.0 < r as int || (p.0 == r as int && p.1
                                < c as int)) && #[trigger] self.words_from(nocells, p, w)),
                decreases self.cols as int - c as int,
            {
                let ghost found_pre = views_of(found@);
                proof {
                    assert(path@ =~= self.word_of(nocells));
                    assert(self.is_path(nocells));
                }
                self.dfs(r, c, &self.trie, &mut path, &mut visited, &mut found, Ghost(nocells));
                c = c + 1;
                proof {
                    assert forall|w: Seq<char>|
                        has_word(views_of(found@), w) == (exists|p: (int, int)|
                            self.in_bounds(p) && (p.0 < r as int || (p.0 == r as int && p.1
                                < c as int)) && #[trigger] self.words_from(nocells, p, w)) by {
                        if has_word(views_of(found@), w) {
                            if !has_word(found_pre, w) {
                                assert(self.words_from(nocells, (r as int, c as int - 1), w));
                                assert(self.in_bounds((r as int, c as int - 1)));
                            }
                        }
                    }
                }
            }
            r = r + 1;
            proof {
                assert forall|w: Seq<char>|
                    has_word(views_of(found@), w) == (exists|p: (int, int)|
                        self.in_bounds(p) && p.0 < r as int && #[trigger] self.words_from(
                            nocells,
                            p,
                            w,
                        )) by {
                    if has_word(views_of(found@), w) {
                        let p = choose|p: (int, int)|
                            self.in_bounds(p) && (p.0 < r as int - 1 || (p.0 == r as int - 1 && p.1
                                < self.cols as int)) && #[trigger] self.words_from(nocells, p, w);
                        assert(p.0 < r as int && self.words_from(nocells, p, w));
                    }
                }
            }
        }
        proof {
            assert forall|w: Seq<char>| has_word(views_of(found@), w) == self.findable(w) by {
                if has_word(views_of(found@), w) {
                    let p = choose|p: (int, int)|
                        self.in_bounds(p) && p.0 < self.rows as int && #[trigger] self.words_from(
                            nocells,
                            p,
                            w,
                        );
                    let q = choose|q: Seq<(int, int)>|
                        q.len() >= 1 && q[0] == p && self.is_path(nocells + q) && w == self.word_of(
                            nocells + q,
                        );
                    assert(nocells + q =~= q);
                    assert(q.len() >= 1 && self.is_path(q) && w == self.word_of(q));
                }
                if self.findable(w) {
                    let q = choose|q: Seq<(int, int)>|
                        q.len() >= 1 && self.is_path(q) && w == self.word_of(q);
                    let st = q[0];
                    assert(self.in_bounds(st));
                    assert(nocells + q =~= q);
                    assert(self.words_from(nocells, st, w));
                }
            }
        }
        let total = found.len();
        let sorted = sort_ranked(found);
        let ghost all = views_of(sorted@);
        let mut top: Vec<String> = Vec::new();
        let mut k: usize = 0;
        while k < sorted.len() && k < 6
            invariant
                k <= sorted@.len(),
                k <= 6,
                all == views_of(sorted@),
                top@.len() == k as int,
                forall|j: int| 0 <= j < k as int ==> #[trigger] top@[j]@ == all[j],
            decreases sorted@.len() - k as int,
        {
            let s = chars_to_string(&sorted[k]);
            top.push(s);
            k = k + 1;
        }
        proof {
            let cap = if all.len() <= 6 {
                all.len() as int
            } else {
                6
            };
            assert(string_views(top@) =~= all.subrange(0, cap));
            assert forall|kk: int, ll: int|
                0 <= kk < ll < string_views(top@).len() implies ranks_before(
                #[trigger] string_views(top@)[kk],
                #[trigger] string_views(top@)[ll],
            ) by {
                assert(string_views(top@)[kk] == all[kk]);
                assert(string_views(top@)[ll] == all[ll]);
                assert(ranks_before(all[kk], all[ll]));
            }
            assert forall|kk: int| 0 <= kk < top@.len() implies self.findable(
                #[trigger] top@[kk]@,
            ) by {
                assert(top@[kk]@ == all[kk]);
                assert(has_word(all, all[kk]));
            }
        }
        (total, top)
    }
}

} // verus!
