use vstd::prelude::*;

use crate::board::{Board, col_of, contains_val, is_permutation, row_of};

verus! {

/// `|a - b|` for mathematical integers.
pub open spec fn absdiff(a: int, b: int) -> int {
    if a >= b {
        a - b
    } else {
        b - a
    }
}

/// The cell that tile `t` occupies in the solved arrangement.
pub open spec fn goal_index(t: u8) -> int {
    if t == 0 {
        15
    } else {
        t - 1
    }
}

/// Manhattan distance between two cells of the 4x4 grid.
pub open spec fn cell_dist(i: int, j: int) -> int {
    absdiff(row_of(i), row_of(j)) + absdiff(col_of(i), col_of(j))
}

/// The contribution of cell `i` to the Manhattan heuristic: the distance of
/// its tile from that tile's solved cell, or zero for the blank.
pub open spec fn tile_term(s: Seq<u8>, i: int) -> int {
    if s[i] == 0 {
        0
    } else {
        cell_dist(i, goal_index(s[i]))
    }
}

/// The Manhattan heuristic summed over the first `n` cells.
pub open spec fn manhattan_upto(s: Seq<u8>, n: int) -> int
    decreases n,
{
    if n <= 0 {
        0
    } else {
        manhattan_upto(s, n - 1) + tile_term(s, n - 1)
    }
}

/// The Manhattan-distance heuristic: the sum, over all fifteen numbered
/// tiles, of how many rows plus columns each tile is from its solved cell.
pub open spec fn manhattan(s: Seq<u8>) -> int {
    manhattan_upto(s, 16)
}

/// Sixteen cells, every tile value in range (weaker than `is_permutation`;
/// enough for the heuristic to be defined).
pub open spec fn in_range(s: Seq<u8>) -> bool {
    &&& s.len() == 16
    &&& forall|i: int| 0 <= i < 16 ==> s[i] < 16
}

/// The cell holding the blank.
pub open spec fn blank_of(s: Seq<u8>) -> int {
    choose|i: int| 0 <= i < 16 && s[i] == 0
}

/// How a move label shifts the blank's linear index.
pub open spec fn move_delta(c: char) -> int {
    if c == 'l' {
        -1
    } else if c == 'r' {
        1
    } else if c == 'u' {
        -4
    } else {
        4
    }
}

/// The arrangement with the contents of cells `i` and `j` exchanged.
pub open spec fn swap_cells(s: Seq<u8>, i: int, j: int) -> Seq<u8> {
    s.update(i, s[j]).update(j, s[i])
}

/// The move labelled `c` is legal on `s`: there is a blank and the target
/// cell does not fall off the grid.
pub open spec fn legal(s: Seq<u8>, c: char) -> bool {
    &&& s.len() == 16
    &&& contains_val(s, 0)
    &&& if c == 'l' {
        col_of(blank_of(s)) > 0
    } else if c == 'r' {
        col_of(blank_of(s)) < 3
    } else if c == 'u' {
        row_of(blank_of(s)) > 0
    } else if c == 'd' {
        row_of(blank_of(s)) < 3
    } else {
        false
    }
}

/// The arrangement after sliding the blank as move `c` says.
pub open spec fn apply_label(s: Seq<u8>, c: char) -> Seq<u8> {
    swap_cells(s, blank_of(s), blank_of(s) + move_delta(c))
}

/// The arrangement after playing the whole label sequence `p` from `s`.
pub open spec fn apply_path(s: Seq<u8>, p: Seq<char>) -> Seq<u8>
    decreases p.len(),
{
    if p.len() == 0 {
        s
    } else {
        apply_path(apply_label(s, p[0]), p.subrange(1, p.len() as int))
    }
}

/// Every move of `p` is legal at the arrangement where it is played.
pub open spec fn path_ok(s: Seq<u8>, p: Seq<char>) -> bool
    decreases p.len(),
{
    p.len() == 0 || (legal(s, p[0]) && path_ok(apply_label(s, p[0]), p.subrange(1, p.len() as int)))
}

/// The legal moves from `s`, in the fixed generation order left, right, up,
/// down.
pub open spec fn legal_labels(s: Seq<u8>) -> Seq<char> {
    (if legal(s, 'l') {
        seq!['l']
    } else {
        Seq::<char>::empty()
    }) + (if legal(s, 'r') {
        seq!['r']
    } else {
        Seq::<char>::empty()
    }) + (if legal(s, 'u') {
        seq!['u']
    } else {
        Seq::<char>::empty()
    }) + (if legal(s, 'd') {
        seq!['d']
    } else {
        Seq::<char>::empty()
    })
}

/// A search node: an arrangement together with the move labels that reached
/// it from the start, the exact cost so far `g`, the heuristic estimate `h`,
/// and the total priority `f = g + h`.
pub struct State {
    pub order: Board,
    pub moves: Vec<char>,
    pub g: u32,
    pub h: u32,
    pub f: u32,
}

/// `child` is exactly the node that playing `c` on `parent` produces.
pub open spec fn child_of(parent: &State, child: &State, c: char) -> bool {
    &&& child.order@ == apply_label(parent.order@, c)
    &&& child.moves@ == parent.moves@.push(c)
    &&& child.g == parent.g + 1
    &&& child.h as int == manhattan(child.order@)
    &&& child.f == child.g + child.h
}

impl State {
    /// The internal consistency of a node: a real arrangement, an honest
    /// heuristic, `f = g + h`, and a path of length `g`.
    pub open spec fn wf(&self) -> bool {
        &&& is_permutation(self.order@)
        &&& self.h as int == manhattan(self.order@)
        &&& self.f == self.g + self.h
        &&& self.moves@.len() == self.g
    }

    /// The start node of a search: no moves yet, cost zero, priority equal
    /// to the heuristic of the start arrangement.
    pub fn init(order: &Board) -> (r: State)
        requires
            in_range(order@),
        ensures
            r.order@ == order@,
            r.moves@ == Seq::<char>::empty(),
            r.g == 0,
            r.h as int == manhattan(order@),
            r.f == r.h,
            is_permutation(order@) ==> r.wf(),
    {
        let h = State::calc_g(order);
        State { order: order.duplicate(), moves: Vec::new(), g: 0, h, f: h }
    }

    /// The first cell holding `tile`; the caller must know the tile occurs.
    pub fn find_index(order: &Board, tile: u8) -> (r: usize)
        requires
            order@.len() == 16,
            contains_val(order@, tile),
        ensures
            r < 16,
            order@[r as int] == tile,
            forall|j: int| 0 <= j < r ==> order@[j] != tile,
    {
        let mut i: usize = 0;
        while i < 16
            invariant
                i <= 16,
                order@.len() == 16,
                contains_val(order@, tile),
                forall|j: int| 0 <= j < i ==> order@[j] != tile,
            decreases 16 - i,
        {
            if order.tiles[i] == tile {
                return i;
            }
            i = i + 1;
        }
        proof {
            let w = choose|k: int| 0 <= k < 16 && order@[k] == tile;
            assert(order@[w] != tile);
        }
        unreached()
    }

    /// The Manhattan-distance heuristic of an arrangement: admissible and
    /// consistent, so the search never overestimates the remaining moves.
    pub fn calc_g(current: &Board) -> (r: u32)
        requires
            in_range(current@),
        ensures
            r as int == manhattan(current@),
            r <= 96,
    {
        let mut acc: u32 = 0;
        let mut i: usize = 0;
        while i < 16
            invariant
                i <= 16,
                in_range(current@),
                acc as int == manhattan_upto(current@, i as int),
                acc <= 6 * i,
            decreases 16 - i,
        {
            let t = current.tiles[i];
            if t != 0 {
                let cur_row = i / 4;
                let cur_col = i % 4;
                let gi = (t - 1) as usize;
                let goal_row = gi / 4;
                let goal_col = gi % 4;
                let dr = if cur_row >= goal_row {
                    cur_row - goal_row
                } else {
                    goal_row - cur_row
                };
                let dc = if cur_col >= goal_col {
                    cur_col - goal_col
                } else {
                    goal_col - cur_col
                };
                proof {
                    assert(row_of(i as int) == cur_row as int);
                    assert(col_of(i as int) == cur_col as int);
                    assert(goal_index(current@[i as int]) == gi as int);
                    assert(dr + dc <= 6);
                    assert((dr + dc) as int == tile_term(current@, i as int));
                }
                acc = acc + (dr as u32) + (dc as u32);
            }
            i = i + 1;
        }
        acc
    }

    /// Slide the blank left: exchange cell `index` with cell `index - 1`.
    pub fn left(index: usize, order: &Board) -> (r: (Board, char))
        requires
            order@.len() == 16,
            index < 16,
            col_of(index as int) > 0,
        ensures
            r.0@ == swap_cells(order@, index as int, index as int - 1),
            r.1 == 'l',
    {
        let mut b = order.duplicate();
        let moved = b.tiles[index - 1];
        let blank = b.tiles[index];
        b.tiles.set(index, moved);
        b.tiles.set(index - 1, blank);
        (b, 'l')
    }

    /// Slide the blank right: exchange cell `index` with cell `index + 1`.
    pub fn right(index: usize, order: &Board) -> (r: (Board, char))
        requires
            order@.len() == 16,
            index < 16,
            col_of(index as int) < 3,
        ensures
            r.0@ == swap_cells(order@, index as int, index as int + 1),
            r.1 == 'r',
    {
        let mut b = order.duplicate();
        let moved = b.tiles[index + 1];
        let blank = b.tiles[index];
        b.tiles.set(index, moved);
        b.tiles.set(index + 1, blank);
        (b, 'r')
    }

    /// Slide the blank up: exchange cell `index` with cell `index - 4`.
    pub fn up(index: usize, order: &Board) -> (r: (Board, char))
        requires
            order@.len() == 16,
            index < 16,
            row_of(index as int) > 0,
        ensures
            r.0@ == swap_cells(order@, index as int, index as int - 4),
            r.1 == 'u',
    {
        let mut b = order.duplicate();
        let moved = b.tiles[index - 4];
        let blank = b.tiles[index];
        b.tiles.set(index, moved);
        b.tiles.set(index - 4, blank);
        (b, 'u')
    }

    /// Slide the blank down: exchange cell `index` with cell `index + 4`.
    pub fn down(index: usize, order: &Board) -> (r: (Board, char))
        requires
            order@.len() == 16,
            index < 16,
            row_of(index as int) < 3,
        ensures
            r.0@ == swap_cells(order@, index as int, index as int + 4),
            r.1 == 'd',
    {
        let mut b = order.duplicate();
        let moved = b.tiles[index + 4];
        let blank = b.tiles[index];
        b.tiles.set(index, moved);
        b.tiles.set(index + 4, blank);
        (b, 'd')
    }

    /// The successor node that playing the move labelled `label` produces:
    /// a fresh arrangement, the path extended by the label, `g` one higher,
    /// and the heuristic recomputed.
    pub fn make_move(&self, label: char) -> (r: State)
        requires
            is_permutation(self.order@),
            legal(self.order@, label),
            self.g < 1000000000,
        ensures
            child_of(self, &r, label),
            self.wf() ==> r.wf(),
    {
        proof {
            crate::laws::lemma_move_preserves_permutation(self.order@, label);
        }
        let blank = State::find_index(&self.order, 0);
        proof {
            lemma_blank_unique(self.order@, blank as int);
        }
        let (new_order, from) = if label == 'l' {
            State::left(blank, &self.order)
        } else if label == 'r' {
            State::right(blank, &self.order)
        } else if label == 'u' {
            State::up(blank, &self.order)
        } else {
            State::down(blank, &self.order)
        };
        proof {
            assert(new_order@ == apply_label(self.order@, label));
        }
        let mut moves: Vec<char> = Vec::new();
        let mut i: usize = 0;
        while i < self.moves.len()
            invariant
                i <= self.moves.len(),
                moves@ == self.moves@.take(i as int),
            decreases self.moves.len() - i,
        {
            moves.push(self.moves[i]);
            i = i + 1;
            proof {
                assert(moves@ =~= self.moves@.take(i as int));
            }
        }
        proof {
            assert(moves@ =~= self.moves@);
        }
        moves.push(from);
        let new_g = self.g + 1;
        let new_h = State::calc_g(&new_order);
        State { order: new_order, moves, g: new_g, h: new_h, f: new_g + new_h }
    }

    /// All legal successor nodes, generated in the fixed order left, right,
    /// up, down.
    pub fn children(&self) -> (r: Vec<State>)
        requires
            is_permutation(self.order@),
            self.g < 1000000000,
        ensures
            r@.len() == legal_labels(self.order@).len(),
            forall|i: int|
                0 <= i < r@.len() ==> child_of(self, #[trigger] &r@[i], legal_labels(self.order@)[i]),
            forall|i: int|
                0 <= i < r@.len() ==> legal(self.order@, #[trigger] legal_labels(self.order@)[i]),
            self.wf() ==> forall|i: int| 0 <= i < r@.len() ==> (#[trigger] r@[i]).wf(),
    {
        proof {
            crate::laws::lemma_legal_labels(self.order@);
        }
        let s = &self.order;
        let index = State::find_index(s, 0);
        proof {
            lemma_blank_unique(self.order@, index as int);
        }
        let col = index % 4;
        let row = index / 4;
        let mut new_states: Vec<State> = Vec::new();
        let ghost mut labels: Seq<char> = Seq::<char>::empty();
        if col > 0 {
            new_states.push(self.make_move('l'));
            proof {
                labels = labels.push('l');
            }
        }
        if col < 3 {
            new_states.push(self.make_move('r'));
            proof {
                labels = labels.push('r');
            }
        }
        if row > 0 {
            new_states.push(self.make_move('u'));
            proof {
                labels = labels.push('u');
            }
        }
        if row < 3 {
            new_states.push(self.make_move('d'));
            proof {
                labels = labels.push('d');
            }
        }
        proof {
            assert(labels =~= legal_labels(self.order@));
        }
        new_states
    }
}

/// With a full permutation the blank cell is unique, so any cell found to
/// hold `0` is the `blank_of` the arrangement.
pub proof fn lemma_blank_unique(s: Seq<u8>, i: int)
    requires
        s.len() == 16,
        0 <= i < 16,
        s[i] == 0,
        forall|a: int, b: int| 0 <= a < b < 16 ==> s[a] != s[b],
    ensures
        blank_of(s) == i,
        contains_val(s, 0),
{
    assert(contains_val(s, 0));
    let b = blank_of(s);
    assert(0 <= b < 16 && s[b] == 0);
    if b != i {
        if b < i {
            assert(s[b] != s[i]);
        } else {
            assert(s[i] != s[b]);
        }
    }
}

} // verus!
