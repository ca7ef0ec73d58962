use vstd::prelude::*;

use crate::board::{contains_val, is_permutation};
use crate::board::{goal_seq, inv_from, inv_row, inv_term, inversions, row_of, solvable};
use crate::state::{
    apply_label, apply_path, blank_of, cell_dist, goal_index, legal, legal_labels, manhattan,
    manhattan_upto, move_delta, path_ok, swap_cells, tile_term,
};

verus! {

/// Exchanging two cells of a permutation leaves a permutation: the sixteen
/// values are only rearranged.
pub proof fn lemma_swap_preserves_permutation(s: Seq<u8>, i: int, j: int)
    requires
        is_permutation(s),
        0 <= i < 16,
        0 <= j < 16,
    ensures
        is_permutation(swap_cells(s, i, j)),
{
    let t = swap_cells(s, i, j);
    assert(t.len() == 16);
    assert forall|a: int, b: int| 0 <= a < b < 16 implies t[a] != t[b] by {
        let pa: int = if a == j {
            i
        } else if a == i {
            j
        } else {
            a
        };
        let pb: int = if b == j {
            i
        } else if b == i {
            j
        } else {
            b
        };
        assert(t[a] == s[pa]);
        assert(t[b] == s[pb]);
        assert(pa != pb);
        if pa < pb {
            assert(s[pa] != s[pb]);
        } else {
            assert(s[pb] != s[pa]);
        }
    }
    assert forall|v: u8| v < 16 implies #[trigger] contains_val(t, v) by {
        assert(contains_val(s, v));
        let k = choose|k: int| 0 <= k < 16 && s[k] == v;
        let w: int = if k == i {
            j
        } else if k == j {
            i
        } else {
            k
        };
        assert(t[w] == s[k]);
    }
}

/// Every legal blank-slide keeps the arrangement a permutation of `0..16`:
/// a move only exchanges the blank with one neighbouring tile.
pub proof fn lemma_move_preserves_permutation(s: Seq<u8>, c: char)
    requires
        is_permutation(s),
        legal(s, c),
    ensures
        is_permutation(apply_label(s, c)),
        0 <= blank_of(s) + move_delta(c) < 16,
        0 <= blank_of(s) < 16,
        s[blank_of(s)] == 0,
{
    let b = blank_of(s);
    assert(0 <= b < 16 && s[b] == 0);
    lemma_swap_preserves_permutation(s, b, b + move_delta(c));
}

/// If two arrangements agree everywhere but at cells `i` and `j`, their
/// partial Manhattan sums differ only by the terms of those two cells.
proof fn lemma_sum_two_cells(s: Seq<u8>, t: Seq<u8>, i: int, j: int, n: int)
    requires
        s.len() == 16,
        t.len() == 16,
        0 <= i < 16,
        0 <= j < 16,
        i != j,
        0 <= n <= 16,
        forall|k: int| 0 <= k < 16 && k != i && k != j ==> s[k] == t[k],
    ensures
        manhattan_upto(t, n) - manhattan_upto(s, n) == (if i < n {
            tile_term(t, i) - tile_term(s, i)
        } else {
            0
        }) + (if j < n {
            tile_term(t, j) - tile_term(s, j)
        } else {
            0
        }),
    decreases n,
{
    if n > 0 {
        lemma_sum_two_cells(s, t, i, j, n - 1);
        if n - 1 != i && n - 1 != j {
            assert(tile_term(t, n - 1) == tile_term(s, n - 1));
        }
    }
}

/// A partial Manhattan sum of vanishing terms vanishes.
proof fn lemma_sum_zero(s: Seq<u8>, n: int)
    requires
        0 <= n <= 16,
        s.len() == 16,
        forall|k: int| 0 <= k < n ==> tile_term(s, k) == 0,
    ensures
        manhattan_upto(s, n) == 0,
    decreases n,
{
    if n > 0 {
        lemma_sum_zero(s, n - 1);
    }
}

/// The heuristic of the solved arrangement is zero: every tile already
/// stands on its solved cell.
pub proof fn lemma_manhattan_goal()
    ensures
        manhattan(goal_seq()) == 0,
{
    assert forall|k: int| 0 <= k < 16 implies tile_term(goal_seq(), k) == 0 by {
        if k < 15 {
            assert(goal_seq()[k] == (k + 1) as u8);
            assert(goal_index(goal_seq()[k]) == k);
        } else {
            assert(goal_seq()[k] == 0);
        }
    }
    lemma_sum_zero(goal_seq(), 16);
}

/// Consistency of the Manhattan heuristic: one legal move changes the
/// estimate by at most one, in either direction. With admissibility this is
/// what lets the search finalize each arrangement at its best cost without
/// ever reopening it.
pub proof fn lemma_consistency(s: Seq<u8>, c: char)
    requires
        is_permutation(s),
        legal(s, c),
    ensures
        manhattan(apply_label(s, c)) <= manhattan(s) + 1,
        manhattan(s) <= manhattan(apply_label(s, c)) + 1,
{
    let b = blank_of(s);
    let o = b + move_delta(c);
    let t = apply_label(s, c);
    lemma_move_preserves_permutation(s, c);
    assert(s[o] != 0) by {
        if o < b {
            assert(s[o] != s[b]);
        } else {
            assert(s[b] != s[o]);
        }
    }
    lemma_sum_two_cells(s, t, b, o, 16);
    assert(tile_term(s, b) == 0);
    assert(t[o] == s[b]);
    assert(tile_term(t, o) == 0);
    assert(t[b] == s[o]);
    let g = goal_index(s[o]);
    assert(tile_term(s, o) == cell_dist(o, g));
    assert(tile_term(t, b) == cell_dist(b, g));
    lemma_adjacent_cells(b, o, c);
    lemma_dist_triangle(b, o, g);
    lemma_dist_triangle(o, b, g);
}

/// The two cells a move exchanges are grid neighbours: their Manhattan
/// distance is exactly one.
proof fn lemma_adjacent_cells(b: int, o: int, c: char)
    requires
        0 <= b < 16,
        0 <= o < 16,
        o == b + move_delta(c),
        c == 'l' || c == 'r' || c == 'u' || c == 'd',
        c == 'l' ==> b % 4 > 0,
        c == 'r' ==> b % 4 < 3,
    ensures
        cell_dist(b, o) == 1,
{
    if c == 'l' {
        assert(o / 4 == b / 4 && absdiff_int(b % 4, o % 4) == 1) by (nonlinear_arith)
            requires
                0 <= b < 16,
                o == b - 1,
                b % 4 > 0,
        ;
    } else if c == 'r' {
        assert(o / 4 == b / 4 && absdiff_int(b % 4, o % 4) == 1) by (nonlinear_arith)
            requires
                0 <= b < 16,
                o == b + 1,
                b % 4 < 3,
        ;
    } else {
        assert(b % 4 == o % 4 && absdiff_int(b / 4, o / 4) == 1) by (nonlinear_arith)
            requires
                0 <= b < 16,
                0 <= o < 16,
                move_delta(c) == 4 || move_delta(c) == -4,
                o == b + move_delta(c),
        ;
    }
}

/// Shorthand so the nonlinear solver sees a plain integer function.
spec fn absdiff_int(a: int, b: int) -> int {
    crate::state::absdiff(a, b)
}

/// Triangle inequality for the grid's Manhattan distance.
proof fn lemma_dist_triangle(x: int, y: int, z: int)
    ensures
        cell_dist(x, z) <= cell_dist(x, y) + cell_dist(y, z),
{
}

/// Admissibility of the Manhattan heuristic: no legal path from an
/// arrangement to the goal is shorter than the heuristic says. In
/// particular the length of any returned solution is at least the start's
/// heuristic.
pub proof fn lemma_admissible(s: Seq<u8>, p: Seq<char>)
    requires
        is_permutation(s),
        path_ok(s, p),
        apply_path(s, p) == goal_seq(),
    ensures
        manhattan(s) <= p.len(),
    decreases p.len(),
{
    if p.len() == 0 {
        lemma_manhattan_goal();
    } else {
        lemma_move_preserves_permutation(s, p[0]);
        lemma_consistency(s, p[0]);
        lemma_admissible(apply_label(s, p[0]), p.subrange(1, p.len() as int));
    }
}

/// Every arrangement along a legal path from a permutation is itself a
/// permutation of `0..16`.
pub proof fn lemma_path_preserves_permutation(s: Seq<u8>, p: Seq<char>)
    requires
        is_permutation(s),
        crate::state::path_ok(s, p),
    ensures
        is_permutation(crate::state::apply_path(s, p)),
    decreases p.len(),
{
    if p.len() > 0 {
        lemma_move_preserves_permutation(s, p[0]);
        lemma_path_preserves_permutation(apply_label(s, p[0]), p.subrange(1, p.len() as int));
    }
}

/// Extending a legal path by one legal move keeps it legal, and playing it
/// ends one move further on.
pub proof fn lemma_path_snoc(s: Seq<u8>, p: Seq<char>, c: char)
    requires
        path_ok(s, p),
        legal(apply_path(s, p), c),
    ensures
        path_ok(s, p.push(c)),
        apply_path(s, p.push(c)) == apply_label(apply_path(s, p), c),
    decreases p.len(),
{
    let q = p.push(c);
    if p.len() == 0 {
        assert(apply_path(s, p) == s);
        assert(q[0] == c);
        assert(q.subrange(1, q.len() as int) =~= Seq::<char>::empty());
        assert(apply_path(apply_label(s, c), q.subrange(1, q.len() as int)) == apply_label(
            s,
            c,
        ));
        assert(path_ok(apply_label(s, q[0]), q.subrange(1, q.len() as int)));
        assert(path_ok(s, q));
        assert(apply_path(s, q) == apply_label(apply_path(s, p), c));
    } else {
        assert(q[0] == p[0]);
        assert(q.subrange(1, q.len() as int) =~= p.subrange(1, p.len() as int).push(c));
        assert(legal(s, p[0]) && path_ok(apply_label(s, p[0]), p.subrange(1, p.len() as int)));
        assert(apply_path(s, p) == apply_path(apply_label(s, p[0]), p.subrange(1, p.len() as int)));
        lemma_path_snoc(apply_label(s, p[0]), p.subrange(1, p.len() as int), c);
        assert(path_ok(s, q));
        assert(apply_path(s, q) == apply_path(apply_label(s, q[0]), q.subrange(1, q.len() as int)));
    }
}

/// Every label that the move generator lists is legal where it is listed.
pub proof fn lemma_legal_labels(s: Seq<u8>)
    ensures
        forall|i: int|
            0 <= i < legal_labels(s).len() ==> legal(s, #[trigger] legal_labels(s)[i]),
{
    let a = if legal(s, 'l') {
        seq!['l']
    } else {
        Seq::<char>::empty()
    };
    let b = if legal(s, 'r') {
        seq!['r']
    } else {
        Seq::<char>::empty()
    };
    let cc = if legal(s, 'u') {
        seq!['u']
    } else {
        Seq::<char>::empty()
    };
    let d = if legal(s, 'd') {
        seq!['d']
    } else {
        Seq::<char>::empty()
    };
    assert(legal_labels(s) == a + b + cc + d);
    assert forall|i: int| 0 <= i < legal_labels(s).len() implies legal(
        s,
        #[trigger] legal_labels(s)[i],
    ) by {
        let ll = legal_labels(s);
        if i < a.len() {
            assert(ll[i] == a[0]);
        } else if i < a.len() + b.len() {
            assert(ll[i] == b[0]);
        } else if i < a.len() + b.len() + cc.len() {
            assert(ll[i] == cc[0]);
        } else {
            assert(ll[i] == d[0]);
        }
    }
}

proof fn lemma_goal_inv_row(i: int, j: int)
    requires
        0 <= i < 16,
        i < j,
    ensures
        inv_row(goal_seq(), i, j) == 0,
    decreases 16 - j,
{
    if j < 16 {
        assert(inv_term(goal_seq(), i, j) == 0);
        lemma_goal_inv_row(i, j + 1);
    }
}

proof fn lemma_goal_inv_from(i: int)
    requires
        0 <= i,
    ensures
        inv_from(goal_seq(), i) == 0,
    decreases 16 - i,
{
    if i < 16 {
        lemma_goal_inv_row(i, i + 1);
        lemma_goal_inv_from(i + 1);
    }
}

/// The solved arrangement satisfies the solvability criterion: no
/// inversions, blank on the last row.
pub proof fn lemma_goal_solvable()
    ensures
        solvable(goal_seq()),
{
    lemma_goal_inv_from(0);
    assert(inversions(goal_seq()) == 0);
    crate::board::lemma_goal_is_permutation();
    crate::state::lemma_blank_unique(goal_seq(), 15);
    assert(row_of(15) == 3);
}

/// One inverted pair: `x` stands before `y` and both are numbered tiles
/// out of order.
spec fn gt_term(x: u8, y: u8) -> int {
    if x != 0 && y != 0 && x > y {
        1int
    } else {
        0int
    }
}

/// Inversions of the fixed value `x` against the cells `j..16` of `s`.
spec fn gt_row(s: Seq<u8>, x: u8, j: int) -> int
    decreases 16 - j,
{
    if j >= 16 {
        0
    } else {
        gt_term(x, s[j]) + gt_row(s, x, j + 1)
    }
}

/// Inversions of `x` against the cells of the segment `m..t`.
spec fn mid_gt(s: Seq<u8>, x: u8, m: int, t: int) -> int
    decreases t - m,
{
    if m >= t {
        0
    } else {
        gt_term(x, s[m]) + mid_gt(s, x, m + 1, t)
    }
}

/// Inversions of the cells of the segment `m..t` against `x`.
spec fn mid_lt(s: Seq<u8>, x: u8, m: int, t: int) -> int
    decreases t - m,
{
    if m >= t {
        0
    } else {
        gt_term(s[m], x) + mid_lt(s, x, m + 1, t)
    }
}

/// A row of the inversion table is the inversions of its own tile value.
proof fn lemma_inv_row_eval(s: Seq<u8>, i: int, j: int)
    requires
        0 <= i < 16,
        s.len() == 16,
    ensures
        inv_row(s, i, j) == gt_row(s, s[i], j),
    decreases 16 - j,
{
    if j < 16 {
        lemma_inv_row_eval(s, i, j + 1);
    }
}

/// The blank inverts nothing.
proof fn lemma_gt_row_blank(s: Seq<u8>, j: int)
    ensures
        gt_row(s, 0, j) == 0,
    decreases 16 - j,
{
    if j < 16 {
        lemma_gt_row_blank(s, j + 1);
    }
}

/// Two arrangements that agree on `j..16` hold the same inversions of any
/// value against that range.
proof fn lemma_gt_row_agree(s: Seq<u8>, s2: Seq<u8>, x: u8, j: int)
    requires
        s.len() == 16,
        s2.len() == 16,
        forall|m: int| j <= m < 16 ==> s[m] == s2[m],
    ensures
        gt_row(s, x, j) == gt_row(s2, x, j),
    decreases 16 - j,
{
    if j < 16 {
        lemma_gt_row_agree(s, s2, x, j + 1);
    }
}

/// Two arrangements that agree but at cells `p` and `q` differ in a value's
/// inversions only by the terms of those two cells.
proof fn lemma_gt_row_two(s: Seq<u8>, s2: Seq<u8>, x: u8, p: int, q: int, j: int)
    requires
        0 <= j,
        s.len() == 16,
        s2.len() == 16,
        0 <= p < 16,
        0 <= q < 16,
        p != q,
        forall|m: int| #![trigger s[m]] 0 <= m < 16 && m != p && m != q ==> s[m] == s2[m],
    ensures
        gt_row(s2, x, j) - gt_row(s, x, j) == (if j <= p {
            gt_term(x, s2[p]) - gt_term(x, s[p])
        } else {
            0
        }) + (if j <= q {
            gt_term(x, s2[q]) - gt_term(x, s[q])
        } else {
            0
        }),
    decreases 16 - j,
{
    if j < 16 {
        lemma_gt_row_two(s, s2, x, p, q, j + 1);
        if j != p && j != q {
            assert(s[j] == s2[j]);
        }
    }
}

/// Two arrangements that agree on the cells `i..16` agree on the
/// inversions among those cells.
proof fn lemma_inv_from_agree(s: Seq<u8>, s2: Seq<u8>, i: int)
    requires
        0 <= i,
        s.len() == 16,
        s2.len() == 16,
        forall|m: int| #![trigger s[m]] i <= m < 16 ==> s[m] == s2[m],
    ensures
        inv_from(s, i) == inv_from(s2, i),
    decreases 16 - i,
{
    if i < 16 {
        assert(s[i] == s2[i]);
        lemma_inv_row_eval(s, i, i + 1);
        lemma_inv_row_eval(s2, i, i + 1);
        lemma_gt_row_agree(s, s2, s[i], i + 1);
        lemma_inv_from_agree(s, s2, i + 1);
    }
}

/// The common setting of the swap lemmas: `s2` is `s` with the blank moved
/// from cell `p` up to cell `q`, carrying the tile `s[q]` down to `p`, and
/// the blank is nowhere else.
spec fn swap_setting(s: Seq<u8>, s2: Seq<u8>, p: int, q: int) -> bool {
    &&& s.len() == 16
    &&& s2.len() == 16
    &&& 0 <= p < q < 16
    &&& s[p] == 0
    &&& s2[q] == 0
    &&& s2[p] == s[q]
    &&& s[q] != 0
    &&& forall|m: int| #![trigger s2[m]] 0 <= m < 16 && m != p && m != q ==> s[m] == s2[m]
    &&& forall|m: int| #![trigger s[m]] 0 <= m < 16 && m != p ==> s[m] != 0
    &&& forall|m: int| #![trigger s[m]] 0 <= m < 16 && m != q ==> s[m] != s[q]
}

/// Inversions from row `i` on, for rows strictly between the two swapped
/// cells: the moved tile leaves each such row's scope, costing that row its
/// inversion against the moved tile.
proof fn lemma_swap_inv_mid(s: Seq<u8>, s2: Seq<u8>, p: int, q: int, i: int)
    requires
        swap_setting(s, s2, p, q),
        p < i <= q,
    ensures
        inv_from(s2, i) - inv_from(s, i) == -mid_lt(s, s[q], i, q) - gt_row(s, s[q], q + 1),
    decreases q - i,
{
    let x = s[q];
    if i == q {
        lemma_inv_row_eval(s, q, q + 1);
        lemma_inv_row_eval(s2, q, q + 1);
        lemma_gt_row_blank(s2, q + 1);
        lemma_gt_row_agree(s, s2, x, q + 1);
        lemma_inv_from_agree(s, s2, q + 1);
        assert(gt_row(s2, s2[q], q + 1) == 0);
    } else {
        assert(s2[i] == s[i]);
        lemma_inv_row_eval(s, i, i + 1);
        lemma_inv_row_eval(s2, i, i + 1);
        lemma_gt_row_two(s, s2, s[i], p, q, i + 1);
        assert(inv_row(s2, i, i + 1) - inv_row(s, i, i + 1) == -gt_term(s[i], x));
        lemma_swap_inv_mid(s, s2, p, q, i + 1);
    }
}

/// Inversions from row `i` on, for rows at or before the blank's old cell:
/// rows before the swap see the moved tile leave one scope and enter
/// another, which cancels; the blank's own row takes over the moved tile's
/// inversions against the cells after it.
proof fn lemma_swap_inv_low(s: Seq<u8>, s2: Seq<u8>, p: int, q: int, i: int)
    requires
        swap_setting(s, s2, p, q),
        0 <= i <= p,
    ensures
        inv_from(s2, i) - inv_from(s, i) == gt_row(s2, s[q], p + 1) - mid_lt(s, s[q], p + 1, q)
            - gt_row(s, s[q], q + 1),
    decreases p - i,
{
    let x = s[q];
    if i == p {
        lemma_inv_row_eval(s, p, p + 1);
        lemma_inv_row_eval(s2, p, p + 1);
        lemma_gt_row_blank(s, p + 1);
        assert(gt_row(s, s[p], p + 1) == 0);
        lemma_swap_inv_mid(s, s2, p, q, p + 1);
    } else {
        assert(s2[i] == s[i]);
        lemma_inv_row_eval(s, i, i + 1);
        lemma_inv_row_eval(s2, i, i + 1);
        lemma_gt_row_two(s, s2, s[i], p, q, i + 1);
        assert(inv_row(s2, i, i + 1) - inv_row(s, i, i + 1) == gt_term(s[i], s2[p]) - gt_term(
            s[i],
            x,
        ));
        assert(gt_term(s[i], s2[p]) == gt_term(s[i], x));
        lemma_swap_inv_low(s, s2, p, q, i + 1);
    }
}

/// The moved tile's inversions from its new cell on, split at its old
/// cell: its inversions against the cells strictly between, then (its old
/// cell now holds the blank) its old inversions against the tail.
proof fn lemma_swap_span(s: Seq<u8>, s2: Seq<u8>, p: int, q: int, j: int)
    requires
        swap_setting(s, s2, p, q),
        p < j <= q,
    ensures
        gt_row(s2, s[q], j) == mid_gt(s, s[q], j, q) + gt_row(s, s[q], q + 1),
    decreases q - j,
{
    let x = s[q];
    if j == q {
        assert(gt_term(x, s2[q]) == 0);
        lemma_gt_row_agree(s, s2, x, q + 1);
    } else {
        assert(s2[j] == s[j]);
        lemma_swap_span(s, s2, p, q, j + 1);
    }
}

/// Between two distinct numbered tiles, exactly one of the two orders is an
/// inversion: over a segment free of the blank and of `x`, the two counts
/// add up to the segment's length.
proof fn lemma_mid_pair(s: Seq<u8>, x: u8, m: int, t: int)
    requires
        s.len() == 16,
        0 <= m <= t <= 16,
        x != 0,
        forall|m2: int| #![trigger s[m2]] m <= m2 < t ==> s[m2] != 0 && s[m2] != x,
    ensures
        mid_gt(s, x, m, t) + mid_lt(s, x, m, t) == t - m,
        0 <= mid_lt(s, x, m, t) <= t - m,
    decreases t - m,
{
    if m < t {
        assert(gt_term(x, s[m]) + gt_term(s[m], x) == 1);
        lemma_mid_pair(s, x, m + 1, t);
    }
}

/// Moving the blank from cell `p` up to cell `q` changes the inversion
/// count by the number of cells strictly between, less twice the number of
/// those whose tiles exceed the moved one.
proof fn lemma_swap_inversions(s: Seq<u8>, s2: Seq<u8>, p: int, q: int)
    requires
        swap_setting(s, s2, p, q),
    ensures
        inversions(s2) == inversions(s) + (q - p - 1) - 2 * mid_lt(s, s[q], p + 1, q),
        0 <= mid_lt(s, s[q], p + 1, q) <= q - p - 1,
    decreases q - p,
{
    let x = s[q];
    lemma_swap_inv_low(s, s2, p, q, 0);
    lemma_swap_span(s, s2, p, q, p + 1);
    lemma_mid_pair(s, x, p + 1, q);
}

/// Every legal move preserves the solvability criterion: a horizontal
/// slide changes neither the inversions nor the blank's row, and a
/// vertical slide changes the inversions by an odd amount and the blank's
/// row by one.
pub proof fn lemma_move_preserves_solvable(s: Seq<u8>, c: char)
    requires
        is_permutation(s),
        legal(s, c),
    ensures
        solvable(apply_label(s, c)) == solvable(s),
{
    let b = blank_of(s);
    let o = b + move_delta(c);
    let s2 = apply_label(s, c);
    lemma_move_preserves_permutation(s, c);
    assert(s2[o] == 0);
    crate::state::lemma_blank_unique(s2, o);
    assert forall|m: int| 0 <= m < 16 && m != b implies s[m] != 0 by {
        if m < b {
            assert(s[m] != s[b]);
        } else {
            assert(s[b] != s[m]);
        }
    }
    assert forall|m: int| 0 <= m < 16 && m != o implies s[m] != s[o] by {
        if m < o {
            assert(s[m] != s[o]);
        } else {
            assert(s[o] != s[m]);
        }
    }
    assert forall|m: int| 0 <= m < 16 && m != o implies s2[m] != 0 by {
        if m < o {
            assert(s2[m] != s2[o]);
        } else {
            assert(s2[o] != s2[m]);
        }
    }
    assert forall|m: int| 0 <= m < 16 && m != b implies s2[m] != s2[b] by {
        if m < b {
            assert(s2[m] != s2[b]);
        } else {
            assert(s2[b] != s2[m]);
        }
    }
    let ghost mut shift: int = 0;
    if o > b {
        assert(swap_setting(s, s2, b, o));
        lemma_swap_inversions(s, s2, b, o);
        shift = (o - b - 1) - 2 * mid_lt(s, s[o], b + 1, o);
    } else {
        assert(swap_setting(s2, s, o, b));
        lemma_swap_inversions(s2, s, o, b);
        shift = -((b - o - 1) - 2 * mid_lt(s2, s2[b], o + 1, b));
    }
    assert(inversions(s2) == inversions(s) + shift);
    if c == 'l' || c == 'r' {
        assert(shift == 0);
        assert(row_of(o) == row_of(b)) by (nonlinear_arith)
            requires
                0 <= b < 16,
                0 <= o < 16,
                o == b - 1 || o == b + 1,
                o == b - 1 ==> b % 4 > 0,
                o == b + 1 ==> b % 4 < 3,
        ;
    } else {
        let a = inversions(s) + row_of(b);
        let a2 = inversions(s2) + row_of(o);
        assert(row_of(o) == row_of(b) + 1 || row_of(o) == row_of(b) - 1) by (nonlinear_arith)
            requires
                0 <= b < 16,
                0 <= o < 16,
                o == b - 4 || o == b + 4,
        ;
        assert(a2 % 2 == a % 2) by (nonlinear_arith)
            requires
                a2 == a + shift + row_of(o) - row_of(b),
                shift == 3 - 2 * mid_lt(s, s[o], b + 1, o) || shift == -(3 - 2 * mid_lt(
                    s2,
                    s2[b],
                    o + 1,
                    b,
                )),
                row_of(o) == row_of(b) + 1 || row_of(o) == row_of(b) - 1,
        ;
    }
}

/// Any arrangement from which a legal path reaches the goal satisfies the
/// solvability criterion: the criterion holds at the goal and every move
/// keeps it. So an arrangement that fails the criterion is truly
/// unsolvable, and the search may report it without exploring.
pub proof fn lemma_goal_path_implies_solvable(s: Seq<u8>, p: Seq<char>)
    requires
        is_permutation(s),
        path_ok(s, p),
        apply_path(s, p) == goal_seq(),
    ensures
        solvable(s),
    decreases p.len(),
{
    if p.len() == 0 {
        lemma_goal_solvable();
    } else {
        lemma_move_preserves_permutation(s, p[0]);
        lemma_move_preserves_solvable(s, p[0]);
        lemma_goal_path_implies_solvable(apply_label(s, p[0]), p.subrange(1, p.len() as int));
    }
}

/// Consistency summed along a path: the heuristic drops by at most one per
/// move, so it never undercounts by more than the path's length.
pub proof fn lemma_h_path_lower(s: Seq<u8>, p: Seq<char>)
    requires
        is_permutation(s),
        path_ok(s, p),
    ensures
        manhattan(s) <= p.len() + manhattan(apply_path(s, p)),
    decreases p.len(),
{
    if p.len() > 0 {
        lemma_move_preserves_permutation(s, p[0]);
        lemma_consistency(s, p[0]);
        lemma_h_path_lower(apply_label(s, p[0]), p.subrange(1, p.len() as int));
    }
}

/// A legal path splits at any position: the prefix is legal, the suffix is
/// legal from where the prefix ends, and the next move is the one the path
/// lists there.
pub proof fn lemma_path_split(s: Seq<u8>, p: Seq<char>, i: int)
    requires
        path_ok(s, p),
        0 <= i <= p.len(),
    ensures
        path_ok(s, p.take(i)),
        path_ok(apply_path(s, p.take(i)), p.skip(i)),
        apply_path(apply_path(s, p.take(i)), p.skip(i)) == apply_path(s, p),
        i < p.len() ==> legal(apply_path(s, p.take(i)), p[i]),
        i < p.len() ==> apply_path(s, p.take(i + 1)) == apply_label(
            apply_path(s, p.take(i)),
            p[i],
        ),
    decreases p.len(),
{
    if i == 0 {
        assert(p.take(0) =~= Seq::<char>::empty());
        assert(p.skip(0) =~= p);
        assert(apply_path(s, p.take(0)) == s);
        if 0 < p.len() {
            lemma_path_snoc(s, Seq::<char>::empty(), p[0]);
            assert(p.take(1) =~= Seq::<char>::empty().push(p[0]));
        }
    } else {
        let s1 = apply_label(s, p[0]);
        let q = p.subrange(1, p.len() as int);
        lemma_path_split(s1, q, i - 1);
        assert(p.take(i).subrange(1, i) =~= q.take(i - 1));
        assert(p.take(i)[0] == p[0]);
        assert(apply_path(s, p.take(i)) == apply_path(s1, p.take(i).subrange(1, i)));
        assert(p.skip(i) =~= q.skip(i - 1));
        if i < p.len() {
            assert(p[i] == q[i - 1]);
            assert(p.take(i + 1).subrange(1, i + 1) =~= q.take(i));
            assert(p.take(i + 1)[0] == p[0]);
            assert(apply_path(s, p.take(i + 1)) == apply_path(s1, p.take(i + 1).subrange(1, i + 1)));
        }
    }
}

/// Every legal move is listed by the move generator at some position.
pub proof fn lemma_label_in_legal(s: Seq<u8>, c: char)
    requires
        legal(s, c),
    ensures
        exists|i: int| 0 <= i < legal_labels(s).len() && legal_labels(s)[i] == c,
{
    let a = if legal(s, 'l') {
        seq!['l']
    } else {
        Seq::<char>::empty()
    };
    let b = if legal(s, 'r') {
        seq!['r']
    } else {
        Seq::<char>::empty()
    };
    let cc = if legal(s, 'u') {
        seq!['u']
    } else {
        Seq::<char>::empty()
    };
    let d = if legal(s, 'd') {
        seq!['d']
    } else {
        Seq::<char>::empty()
    };
    let ll = legal_labels(s);
    assert(ll == a + b + cc + d);
    if c == 'l' {
        assert(ll[0] == c);
    } else if c == 'r' {
        assert(ll[a.len() as int] == c);
    } else if c == 'u' {
        assert(ll[(a.len() + b.len()) as int] == c);
    } else if c == 'd' {
        assert(ll[(a.len() + b.len() + cc.len()) as int] == c);
    } else {
        assert(false);
    }
}

/// A legal move really moves: the blank changes cell, so the successor
/// arrangement differs from its parent.
pub proof fn lemma_move_changes(s: Seq<u8>, c: char)
    requires
        is_permutation(s),
        legal(s, c),
    ensures
        apply_label(s, c) != s,
{
    let b = blank_of(s);
    let o = b + move_delta(c);
    lemma_move_preserves_permutation(s, c);
    assert(s[o] != 0) by {
        if o < b {
            assert(s[o] != s[b]);
        } else {
            assert(s[b] != s[o]);
        }
    }
    assert(apply_label(s, c)[b] == s[o]);
}

} // verus!
