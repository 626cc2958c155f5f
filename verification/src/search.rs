//! Tracing a word through the grid, from cell to adjacent cell.

use crate::adjacency::as_ints;
use crate::grid::Grid;
use vstd::prelude::*;

verus! {

/// An upper bound on the work that one pending entry can still cause when
/// `remaining` characters are left to match: the entry itself, and at most
/// eight entries with one character fewer.
spec fn branch_budget(remaining: nat) -> nat
    decreases remaining,
{
    if remaining == 0 {
        1
    } else {
        1 + 8 * branch_budget((remaining - 1) as nat)
    }
}

/// The sum of the budgets of all pending entries, for a word of `target`
/// characters.
spec fn pending_budget(pending: Seq<(usize, usize)>, target: nat) -> nat
    decreases pending.len(),
{
    if pending.len() == 0 {
        0
    } else {
        pending_budget(pending.drop_last(), target) + branch_budget(
            (target - pending.last().1) as nat,
        )
    }
}

/// One pending entry for each of the given cells, all with the same number
/// of characters matched.
spec fn successors(cells: Seq<usize>, matched: usize) -> Seq<(usize, usize)> {
    Seq::new(cells.len(), |m: int| (cells[m], matched))
}

proof fn lemma_budget_concat(front: Seq<(usize, usize)>, back: Seq<(usize, usize)>, target: nat)
    ensures
        pending_budget(front + back, target) == pending_budget(front, target) + pending_budget(
            back,
            target,
        ),
    decreases back.len(),
{
    if back.len() == 0 {
        assert(front + back =~= front);
    } else {
        lemma_budget_concat(front, back.drop_last(), target);
        assert((front + back).drop_last() =~= front + back.drop_last());
    }
}

proof fn lemma_budget_successors(cells: Seq<usize>, matched: usize, target: nat)
    ensures
        pending_budget(successors(cells, matched), target) == cells.len() * branch_budget(
            (target - matched) as nat,
        ),
    decreases cells.len(),
{
    let b = branch_budget((target - matched) as nat);
    if cells.len() == 0 {
        assert(0 * b == 0) by (nonlinear_arith);
    } else {
        lemma_budget_successors(cells.drop_last(), matched, target);
        assert(successors(cells, matched).drop_last() =~= successors(cells.drop_last(), matched));
        assert(cells.len() * b == (cells.len() - 1) * b + b) by (nonlinear_arith);
    }
}

impl Grid {
    /// Starting in `cell` with the first `matched` characters of `word`
    /// already accounted for, the rest of the word can be traced: each
    /// remaining character is found in the current cell, and the trace then
    /// steps to some adjacent cell. A cell may be visited more than once.
    ///
    /// A step is taken after the last character too, so a cell without
    /// neighbours traces only the empty rest.
    pub open spec fn traces(&self, word: Seq<char>, cell: int, matched: int) -> bool
        decreases word.len() - matched,
    {
        if matched >= word.len() {
            true
        } else {
            &&& self.letters@[cell] == word[matched]
            &&& exists|k: int|
                0 <= k < self.spec_neighbours(cell).len() && self.traces(
                    word,
                    #[trigger] self.spec_neighbours(cell)[k],
                    matched + 1,
                )
        }
    }

    /// `start` is the first cell, in row-major order, from which the whole
    /// of `word` can be traced.
    pub open spec fn first_trace(&self, word: Seq<char>, start: int) -> bool {
        &&& 0 <= start < self.letters.len()
        &&& self.traces(word, start, 0)
        &&& forall|earlier: int| 0 <= earlier < start ==> !self.traces(word, earlier, 0)
    }

    /// `cells` is a chain for `word`: it has one cell more than the word has
    /// characters, each cell but the last holds the character of its
    /// position, and each cell is followed by one of its neighbours.
    pub open spec fn is_chain(&self, word: Seq<char>, cells: Seq<int>) -> bool {
        self.chain_tail(word, cells, 0)
    }

    /// Cell `k` of `cells` holds the character `k` places after position
    /// `matched`, and the next cell is one of its neighbours.
    pub open spec fn chain_link(
        &self,
        word: Seq<char>,
        cells: Seq<int>,
        matched: int,
        k: int,
    ) -> bool {
        &&& self.letters@[cells[k]] == word[matched + k]
        &&& self.spec_neighbours(cells[k]).contains(cells[k + 1])
    }

    /// `cells` is the part of a chain for `word` that starts at the
    /// character in position `matched`.
    pub open spec fn chain_tail(&self, word: Seq<char>, cells: Seq<int>, matched: int) -> bool {
        &&& cells.len() == word.len() - matched + 1
        &&& forall|k: int|
            0 <= k < word.len() - matched ==> #[trigger] self.chain_link(word, cells, matched, k)
    }

    proof fn lemma_trace_gives_chain(&self, word: Seq<char>, cell: int, matched: int) -> (cells:
        Seq<int>)
        requires
            0 <= matched <= word.len(),
            self.traces(word, cell, matched),
        ensures
            self.chain_tail(word, cells, matched),
            cells[0] == cell,
        decreases word.len() - matched,
    {
        if matched == word.len() {
            seq![cell]
        } else {
            let around = self.spec_neighbours(cell);
            let k = choose|k: int|
                0 <= k < around.len() && self.traces(word, #[trigger] around[k], matched + 1);
            let rest = self.lemma_trace_gives_chain(word, around[k], matched + 1);
            let cells = seq![cell] + rest;
            assert forall|j: int| 0 <= j < word.len() - matched implies #[trigger] self.chain_link(
                word,
                cells,
                matched,
                j,
            ) by {
                if j == 0 {
                    assert(cells[0] == cell);
                    assert(cells[1] == rest[0]);
                    assert(around.contains(around[k]));
                } else {
                    assert(self.chain_link(word, rest, matched + 1, j - 1));
                    assert(cells[j] == rest[j - 1]);
                    assert(cells[j + 1] == rest[j - 1 + 1]);
                }
            }
            cells
        }
    }

    proof fn lemma_chain_gives_trace(&self, word: Seq<char>, cells: Seq<int>, matched: int)
        requires
            0 <= matched <= word.len(),
            self.chain_tail(word, cells, matched),
        ensures
            self.traces(word, cells[0], matched),
        decreases word.len() - matched,
    {
        if matched < word.len() {
            let rest = cells.drop_first();
            assert forall|j: int| 0 <= j < word.len() - (matched + 1) implies #[trigger] self.chain_link(
                word,
                rest,
                matched + 1,
                j,
            ) by {
                assert(self.chain_link(word, cells, matched, j + 1));
                assert(rest[j] == cells[j + 1]);
                assert(rest[j + 1] == cells[j + 1 + 1]);
            }
            self.lemma_chain_gives_trace(word, rest, matched + 1);
            assert(self.chain_link(word, cells, matched, 0));
            let around = self.spec_neighbours(cells[0]);
            let k = choose|k: int| 0 <= k < around.len() && around[k] == cells[0int + 1];
            assert(rest[0] == cells[1]);
            assert(self.traces(word, around[k], matched + 1));
        }
    }

    /// A word can be traced from a cell exactly where a chain for the word
    /// starts in that cell.
    pub proof fn lemma_trace_is_chain(&self, word: Seq<char>, start: int)
        ensures
            self.traces(word, start, 0) <==> exists|cells: Seq<int>|
                #[trigger] self.is_chain(word, cells) && cells[0] == start,
    {
        if self.traces(word, start, 0) {
            let cells = self.lemma_trace_gives_chain(word, start, 0);
            assert(self.is_chain(word, cells) && cells[0] == start);
        }
        if exists|cells: Seq<int>| #[trigger] self.is_chain(word, cells) && cells[0] == start {
            let cells = choose|cells: Seq<int>| #[trigger]
                self.is_chain(word, cells) && cells[0] == start;
            self.lemma_chain_gives_trace(word, cells, 0);
        }
    }

    /// What a search for `word` owes: the coordinate of the first cell from
    /// which the word can be traced, or nothing where no cell will do.
    pub open spec fn found_first(&self, word: Seq<char>, found: Option<[usize; 2]>) -> bool {
        match found {
            Some(coordinate) => {
                &&& self.in_bounds(coordinate[0] as int, coordinate[1] as int)
                &&& self.first_trace(
                    word,
                    self.index_of(coordinate[0] as int, coordinate[1] as int),
                )
            },
            None => forall|start: int|
                0 <= start < self.letters.len() ==> !self.traces(word, start, 0),
        }
    }

    /// Some pending entry stands for a trace that succeeds.
    spec fn some_pending_traces(&self, word: Seq<char>, pending: Seq<(usize, usize)>) -> bool {
        exists|e: int|
            0 <= e < pending.len() && self.traces(
                word,
                (#[trigger] pending[e]).0 as int,
                pending[e].1 as int,
            )
    }

    /// Every pending entry names a cell of the grid and a prefix of the word.
    spec fn pending_valid(&self, pending: Seq<(usize, usize)>, target: nat) -> bool {
        forall|e: int|
            0 <= e < pending.len() ==> (#[trigger] pending[e]).0 < self.letters.len()
                && pending[e].1 <= target
    }

    proof fn lemma_pending_concat(
        &self,
        word: Seq<char>,
        front: Seq<(usize, usize)>,
        back: Seq<(usize, usize)>,
    )
        ensures
            self.some_pending_traces(word, front + back) <==> self.some_pending_traces(word, front)
                || self.some_pending_traces(word, back),
    {
        let whole = front + back;
        if self.some_pending_traces(word, whole) {
            let e = choose|e: int|
                0 <= e < whole.len() && self.traces(
                    word,
                    (#[trigger] whole[e]).0 as int,
                    whole[e].1 as int,
                );
            if e < front.len() {
                assert(front[e] == whole[e]);
            } else {
                assert(back[e - front.len()] == whole[e]);
            }
        }
        if self.some_pending_traces(word, front) {
            let e = choose|e: int|
                0 <= e < front.len() && self.traces(
                    word,
                    (#[trigger] front[e]).0 as int,
                    front[e].1 as int,
                );
            assert(whole[e] == front[e]);
        }
        if self.some_pending_traces(word, back) {
            let e = choose|e: int|
                0 <= e < back.len() && self.traces(
                    word,
                    (#[trigger] back[e]).0 as int,
                    back[e].1 as int,
                );
            assert(whole[front.len() + e] == back[e]);
        }
    }

    /// Where the character in `cell` is the next one of the word, a trace
    /// from `cell` is a trace from one of its neighbours.
    proof fn lemma_traces_step(
        &self,
        word: Seq<char>,
        cell: usize,
        matched: usize,
        deeper: usize,
        adjacent: Seq<usize>,
    )
        requires
            cell < self.letters.len(),
            matched < word.len(),
            deeper == matched + 1,
            self.letters@[cell as int] == word[matched as int],
            as_ints(adjacent) == self.spec_neighbours(cell as int),
        ensures
            self.traces(word, cell as int, matched as int) <==> self.some_pending_traces(
                word,
                successors(adjacent, deeper),
            ),
    {
        let around = self.spec_neighbours(cell as int);
        let next = successors(adjacent, deeper);
        assert(as_ints(adjacent).len() == adjacent.len());
        if self.traces(word, cell as int, matched as int) {
            let k = choose|k: int|
                0 <= k < around.len() && self.traces(word, #[trigger] around[k], matched + 1);
            assert(as_ints(adjacent)[k] == adjacent[k] as int);
            assert(next[k] == (adjacent[k], deeper));
        }
        if self.some_pending_traces(word, next) {
            let e = choose|e: int|
                0 <= e < next.len() && self.traces(
                    word,
                    (#[trigger] next[e]).0 as int,
                    next[e].1 as int,
                );
            assert(as_ints(adjacent)[e] == adjacent[e] as int);
            assert(self.traces(word, around[e], matched + 1));
        }
    }

    /// Finds the first cell from which `word` can be traced, and returns its
    /// coordinate.
    pub fn find_word(&self, word: &str) -> (found: Option<[usize; 2]>)
        requires
            self.wf(),
        ensures
            self.found_first(word@, found),
    {
        let mut chars: Vec<char> = Vec::new();
        for c in read: word.chars()
            invariant
                read.seq() == word@,
                chars@ == word@.take(read.index()),
        {
            chars.push(c);
            proof {
                assert(word@.take(read.index() + 1) =~= word@.take(read.index()).push(c));
            }
        }
        proof {
            assert(word@.take(word@.len() as int) =~= word@);
        }
        self.find_char_slice(chars.as_slice())
    }

    /// No search has two outcomes: where two results both meet
    /// [`Grid::found_first`], they name the same cell, or are both nothing.
    pub proof fn lemma_found_first_unique(
        &self,
        word: Seq<char>,
        one: Option<[usize; 2]>,
        other: Option<[usize; 2]>,
    )
        requires
            self.wf(),
            self.found_first(word, one),
            self.found_first(word, other),
        ensures
            one is Some <==> other is Some,
            one is Some ==> one->0[0] == other->0[0] && one->0[1] == other->0[1],
    {
        if let Some(a) = one {
            self.lemma_coordinate_round_trip(a[0] as int, a[1] as int);
            if let Some(b) = other {
                self.lemma_coordinate_round_trip(b[0] as int, b[1] as int);
            }
        }
        if let Some(b) = other {
            self.lemma_coordinate_round_trip(b[0] as int, b[1] as int);
        }
    }

    /// While no more than `position` characters are matched, nothing traces
    /// a word whose character at `position` is in no cell.
    proof fn lemma_absent_character_blocks(
        &self,
        word: Seq<char>,
        position: int,
        cell: int,
        matched: int,
    )
        requires
            self.wf(),
            0 <= matched <= position < word.len(),
            0 <= cell < self.letters.len(),
            forall|c: int| 0 <= c < self.letters.len() ==> self.letters@[c] != word[position],
        ensures
            !self.traces(word, cell, matched),
        decreases position - matched,
    {
        if matched < position {
            self.lemma_neighbours_in_range(cell);
            let around = self.spec_neighbours(cell);
            assert forall|k: int| 0 <= k < around.len() implies !self.traces(
                word,
                #[trigger] around[k],
                matched + 1,
            ) by {
                self.lemma_absent_character_blocks(word, position, around[k], matched + 1);
            }
        }
    }

    /// A word that holds a character found in no cell of the grid cannot be
    /// traced from any cell, so a search for it finds nothing.
    pub proof fn lemma_absent_character_not_found(&self, word: Seq<char>, position: int)
        requires
            self.wf(),
            0 <= position < word.len(),
            forall|c: int| 0 <= c < self.letters.len() ==> self.letters@[c] != word[position],
        ensures
            forall|start: int| 0 <= start < self.letters.len() ==> !self.traces(word, start, 0),
            forall|found: Option<[usize; 2]>| self.found_first(word, found) ==> found is None,
    {
        assert forall|start: int| 0 <= start < self.letters.len() implies !self.traces(
            word,
            start,
            0,
        ) by {
            self.lemma_absent_character_blocks(word, position, start, 0);
        }
        assert forall|found: Option<[usize; 2]>| self.found_first(word, found) implies found
            is None by {
            if let Some(coordinate) = found {
                self.lemma_coordinate_round_trip(coordinate[0] as int, coordinate[1] as int);
            }
        }
    }

    /// The empty word is traced from every cell, so a search for it finds
    /// the first cell of the grid, at column 0 of row 0.
    pub proof fn lemma_empty_word_found_at_origin(&self, word: Seq<char>)
        requires
            self.wf(),
            word.len() == 0,
        ensures
            self.first_trace(word, 0),
            forall|found: Option<[usize; 2]>|
                self.found_first(word, found) ==> found is Some && found->0[0] == 0
                    && found->0[1] == 0,
    {
        assert(0 < self.width * self.height) by (nonlinear_arith)
            requires
                self.width > 0,
                self.height > 0,
        ;
        assert(self.traces(word, 0, 0));
        assert forall|found: Option<[usize; 2]>|
            self.found_first(word, found) implies found is Some && found->0[0] == 0
            && found->0[1] == 0 by {
            if let Some(coordinate) = found {
                let x = coordinate[0] as int;
                let y = coordinate[1] as int;
                self.lemma_coordinate_round_trip(x, y);
                assert(self.index_of(x, y) == 0);
                assert(self.coordinate_of(0) == (0int, 0int));
            }
        }
    }

    /// Finds the first cell from which `word` can be traced, and returns its
    /// coordinate.
    pub fn find_char_slice(&self, word: &[char]) -> (found: Option<[usize; 2]>)
        requires
            self.wf(),
        ensures
            self.found_first(word@, found),
    {
        let mut start: usize = 0;
        while start < self.letters.len()
            invariant
                self.wf(),
                start <= self.letters.len(),
                forall|earlier: int| 0 <= earlier < start ==> !self.traces(word@, earlier, 0),
            decreases self.letters.len() - start,
        {
            let mut pending: Vec<(usize, usize)> = Vec::new();
            pending.push((start, 0));
            proof {
                assert(pending@[0] == (start, 0usize));
            }
            while pending.len() > 0
                invariant
                    self.wf(),
                    start < self.letters.len(),
                    forall|earlier: int|
                        0 <= earlier < start ==> !self.traces(word@, earlier, 0),
                    self.pending_valid(pending@, word@.len()),
                    self.traces(word@, start as int, 0) <==> self.some_pending_traces(
                        word@,
                        pending@,
                    ),
                decreases pending_budget(pending@, word@.len()),
            {
                let ghost before = pending@;
                let next = pending.pop().unwrap();
                let ghost rest = pending@;
                proof {
                    assert(rest =~= before.drop_last());
                    assert(before =~= rest + seq![next]);
                    assert(before.last() == next);
                    assert(seq![next][0] == next);
                    self.lemma_pending_concat(word@, rest, seq![next]);
                    assert(self.some_pending_traces(word@, seq![next]) <==> self.traces(
                        word@,
                        next.0 as int,
                        next.1 as int,
                    ));
                }
                if next.1 == word.len() {
                    return Some(self.get_coord(start));
                }
                if self.letters[next.0] == word[next.1] {
                    let adjacent = self.neighbours(next.0);
                    let deeper: usize = next.1 + 1;
                    let mut k: usize = 0;
                    while k < adjacent.len()
                        invariant
                            k <= adjacent@.len(),
                            pending@ == rest + successors(adjacent@.take(k as int), deeper),
                        decreases adjacent@.len() - k,
                    {
                        pending.push((adjacent[k], deeper));
                        proof {
                            assert(successors(adjacent@.take(k + 1), deeper) =~= successors(
                                adjacent@.take(k as int),
                                deeper,
                            ).push((adjacent@[k as int], deeper)));
                        }
                        k += 1;
                    }
                    proof {
                        let added = successors(adjacent@, deeper);
                        let target = word@.len();
                        assert(adjacent@.take(k as int) =~= adjacent@);
                        self.lemma_traces_step(word@, next.0, next.1, deeper, adjacent@);
                        self.lemma_pending_concat(word@, rest, added);
                        lemma_budget_concat(rest, added, target);
                        lemma_budget_successors(adjacent@, deeper, target);
                        let b = branch_budget((target - deeper) as nat);
                        assert(as_ints(adjacent@).len() == adjacent@.len());
                        assert(adjacent@.len() <= 8);
                        assert(adjacent@.len() * b <= 8 * b) by (nonlinear_arith)
                            requires
                                0 <= adjacent@.len() <= 8,
                                0 <= b,
                        ;
                        assert(branch_budget((target - next.1) as nat) == 1 + 8 * b);
                    }
                }
            }
            start += 1;
        }
        None
    }
}

} // verus!
