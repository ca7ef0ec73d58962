use vstd::prelude::*;

use crate::errors::SearchError;

verus! {

/// The tile in the solved arrangement at cell `i`: tiles `1..=15` in order,
/// then the blank (`0`) in the last cell.
pub open spec fn goal_at(i: int) -> u8 {
    if i == 15 {
        0u8
    } else {
        (i + 1) as u8
    }
}

/// The canonical solved arrangement `[1, 2, ..., 15, 0]`.
pub open spec fn goal_seq() -> Seq<u8> {
    Seq::new(16, |i: int| goal_at(i))
}

/// The value `v` occurs somewhere among the sixteen cells of `s`.
pub open spec fn contains_val(s: Seq<u8>, v: u8) -> bool {
    exists|i: int| 0 <= i < 16 && s[i] == v
}

/// A valid arrangement: sixteen cells holding each of the values `0..16`
/// exactly once (`0` is the blank).
pub open spec fn is_permutation(s: Seq<u8>) -> bool {
    &&& s.len() == 16
    &&& forall|i: int| 0 <= i < 16 ==> s[i] < 16
    &&& forall|i: int, j: int| 0 <= i < j < 16 ==> s[i] != s[j]
    &&& forall|v: u8| v < 16 ==> #[trigger] contains_val(s, v)
}

/// Row of the cell with linear index `i` on the 4x4 grid.
pub open spec fn row_of(i: int) -> int {
    i / 4
}

/// Column of the cell with linear index `i` on the 4x4 grid.
pub open spec fn col_of(i: int) -> int {
    i % 4
}

/// A 4x4 tile arrangement: sixteen cells in row-major order, the blank
/// written as `0`.
pub struct Board {
    pub tiles: Vec<u8>,
}

impl View for Board {
    type V = Seq<u8>;

    open spec fn view(&self) -> Seq<u8> {
        self.tiles@
    }
}

impl Board {
    /// Builds a board from its sixteen cells; nothing is checked here, use
    /// `validate` before searching.
    pub fn new(tiles: Vec<u8>) -> (r: Board)
        ensures
            r@ == tiles@,
    {
        Board { tiles }
    }

    /// An exact copy of this board.
    pub fn duplicate(&self) -> (r: Board)
        ensures
            r@ == self@,
    {
        let mut tiles: Vec<u8> = Vec::new();
        let mut i: usize = 0;
        while i < self.tiles.len()
            invariant
                i <= self.tiles.len(),
                tiles@ == self.tiles@.take(i as int),
            decreases self.tiles.len() - i,
        {
            tiles.push(self.tiles[i]);
            i = i + 1;
            proof {
                assert(tiles@ =~= self.tiles@.take(i as int));
            }
        }
        proof {
            assert(tiles@ =~= self.tiles@);
        }
        Board { tiles }
    }

    /// Checks that the arrangement is a permutation of `0..16`; rejects the
    /// board with `InvalidStartState` otherwise.
    pub fn validate(&self) -> (r: Result<(), SearchError>)
        ensures
            match r {
                Ok(()) => is_permutation(self@),
                Err(e) => !is_permutation(self@) && e == SearchError::InvalidStartState,
            },
    {
        if self.tiles.len() != 16 {
            return Err(SearchError::InvalidStartState);
        }
        let mut seen: Vec<bool> = Vec::new();
        let mut k: usize = 0;
        while k < 16
            invariant
                k <= 16,
                seen@.len() == k,
                forall|v: int| 0 <= v < k ==> !seen@[v],
            decreases 16 - k,
        {
            seen.push(false);
            k = k + 1;
        }
        let mut i: usize = 0;
        while i < 16
            invariant
                i <= 16,
                self.tiles@.len() == 16,
                seen@.len() == 16,
                forall|j: int| 0 <= j < i ==> self.tiles@[j] < 16,
                forall|j: int, l: int| 0 <= j < l < i ==> self.tiles@[j] != self.tiles@[l],
                forall|v: u8|
                    v < 16 ==> (seen@[v as int] <==> exists|j: int|
                        0 <= j < i && self.tiles@[j] == v),
            decreases 16 - i,
        {
            let t = self.tiles[i];
            if t >= 16 {
                return Err(SearchError::InvalidStartState);
            }
            if seen[t as usize] {
                proof {
                    let j = choose|j: int| 0 <= j < i && self.tiles@[j] == t;
                    assert(self.tiles@[j] == self.tiles@[i as int]);
                }
                return Err(SearchError::InvalidStartState);
            }
            seen.set(t as usize, true);
            i = i + 1;
        }
        let mut v: usize = 0;
        while v < 16
            invariant
                v <= 16,
                self.tiles@.len() == 16,
                seen@.len() == 16,
                forall|j: int| 0 <= j < 16 ==> self.tiles@[j] < 16,
                forall|j: int, l: int| 0 <= j < l < 16 ==> self.tiles@[j] != self.tiles@[l],
                forall|w: u8|
                    w < 16 ==> (seen@[w as int] <==> exists|j: int|
                        0 <= j < 16 && self.tiles@[j] == w),
                forall|w: int| 0 <= w < v ==> seen@[w],
            decreases 16 - v,
        {
            if !seen[v] {
                proof {
                    assert(!contains_val(self@, v as u8));
                }
                return Err(SearchError::InvalidStartState);
            }
            v = v + 1;
        }
        proof {
            assert forall|w: u8| w < 16 implies #[trigger] contains_val(self@, w) by {
                assert(seen@[w as int]);
                let j = choose|j: int| 0 <= j < 16 && self.tiles@[j] == w;
                assert(0 <= j < 16 && self@[j] == w);
            }
        }
        Ok(())
    }

    /// True exactly when this board is the solved arrangement.
    pub fn is_goal(&self) -> (r: bool)
        requires
            self@.len() == 16,
        ensures
            r <==> self@ == goal_seq(),
    {
        let mut i: usize = 0;
        while i < 16
            invariant
                i <= 16,
                self@.len() == 16,
                forall|j: int| 0 <= j < i ==> self@[j] == goal_at(j),
            decreases 16 - i,
        {
            let expected: u8 = if i == 15 {
                0
            } else {
                (i + 1) as u8
            };
            if self.tiles[i] != expected {
                proof {
                    assert(goal_seq()[i as int] == goal_at(i as int));
                }
                return false;
            }
            i = i + 1;
        }
        proof {
            assert(self@ =~= goal_seq());
        }
        true
    }

    /// Locates the unique blank (`0`) cell; reports `CorruptState` when the
    /// blank is missing or present more than once.
    pub fn blank_position(&self) -> (r: Result<usize, SearchError>)
        ensures
            match r {
                Ok(i) => i < self@.len() && self@[i as int] == 0 && forall|j: int|
                    0 <= j < self@.len() && j != i ==> self@[j] != 0,
                Err(e) => e == SearchError::CorruptState && !(exists|i: int|
                    {
                        &&& 0 <= i < self@.len()
                        &&& self@[i] == 0
                        &&& forall|j: int| 0 <= j < self@.len() && j != i ==> self@[j] != 0
                    }),
            },
    {
        let n = self.tiles.len();
        let mut i: usize = 0;
        let mut found: bool = false;
        let mut pos: usize = 0;
        while i < n
            invariant
                i <= n,
                n == self@.len(),
                found ==> pos < i && self@[pos as int] == 0 && forall|j: int|
                    0 <= j < i && j != pos ==> self@[j] != 0,
                !found ==> forall|j: int| 0 <= j < i ==> self@[j] != 0,
            decreases n - i,
        {
            if self.tiles[i] == 0 {
                if found {
                    return Err(SearchError::CorruptState);
                }
                found = true;
                pos = i;
            }
            i = i + 1;
        }
        if found {
            Ok(pos)
        } else {
            Err(SearchError::CorruptState)
        }
    }
}

/// The arrangement read as a base-16 number, least significant digit
/// last: the canonical key of a board, derived from the arrangement alone.
pub open spec fn key_nat(s: Seq<u8>) -> nat
    decreases s.len(),
{
    if s.len() == 0 {
        0
    } else {
        (key_nat(s.drop_last()) * 16 + s.last()) as nat
    }
}

/// `16^n`.
pub open spec fn pow16(n: nat) -> nat
    decreases n,
{
    if n == 0 {
        1
    } else {
        16 * pow16((n - 1) as nat)
    }
}

proof fn lemma_pow16_mono(a: nat, b: nat)
    requires
        a <= b,
    ensures
        pow16(a) <= pow16(b),
    decreases b,
{
    if a < b {
        lemma_pow16_mono(a, (b - 1) as nat);
    }
}

/// A board's digits bound its key: sixteen in-range digits stay below
/// sixteen to the sixteenth.
pub proof fn lemma_key_nat_bound(s: Seq<u8>)
    requires
        forall|i: int| 0 <= i < s.len() ==> s[i] < 16,
    ensures
        key_nat(s) < pow16(s.len()),
    decreases s.len(),
{
    if s.len() > 0 {
        lemma_key_nat_bound(s.drop_last());
        let a = key_nat(s.drop_last());
        let la = s.last();
        assert(la < 16);
        assert(a * 16 + la < pow16(s.len())) by (nonlinear_arith)
            requires
                a < pow16((s.len() - 1) as nat),
                la < 16,
                pow16(s.len()) == 16 * pow16((s.len() - 1) as nat),
        ;
    }
}

/// The canonical key determines the arrangement: distinct boards of
/// in-range digits never collide.
pub proof fn lemma_key_injective(s: Seq<u8>, t: Seq<u8>)
    requires
        s.len() == t.len(),
        forall|i: int| 0 <= i < s.len() ==> s[i] < 16,
        forall|i: int| 0 <= i < t.len() ==> t[i] < 16,
        key_nat(s) == key_nat(t),
    ensures
        s == t,
    decreases s.len(),
{
    if s.len() > 0 {
        let a = key_nat(s.drop_last());
        let b = key_nat(t.drop_last());
        let la = s.last();
        let lb = t.last();
        assert(la < 16 && lb < 16);
        assert(a * 16 + la == b * 16 + lb);
        assert(a == b && la == lb) by (nonlinear_arith)
            requires
                a * 16 + (la as int) == b * 16 + (lb as int),
                (la as int) < 16,
                (lb as int) < 16,
                a >= 0,
                b >= 0,
        ;
        lemma_key_injective(s.drop_last(), t.drop_last());
        assert(s =~= s.drop_last().push(s.last()));
        assert(t =~= t.drop_last().push(t.last()));
        assert(s =~= t);
    } else {
        assert(s =~= t);
    }
}

/// A pair of cells `i < j` holding two numbered tiles out of order. The
/// blank does not take part in inversions.
pub open spec fn inv_term(s: Seq<u8>, i: int, j: int) -> int {
    if s[i] != 0 && s[j] != 0 && s[i] > s[j] {
        1int
    } else {
        0int
    }
}

/// Inversions of cell `i` against cells `j..16`.
pub open spec fn inv_row(s: Seq<u8>, i: int, j: int) -> int
    decreases 16 - j,
{
    if j >= 16 {
        0
    } else {
        inv_term(s, i, j) + inv_row(s, i, j + 1)
    }
}

/// Inversions among all pairs of cells with first index `i` or later.
pub open spec fn inv_from(s: Seq<u8>, i: int) -> int
    decreases 16 - i,
{
    if i >= 16 {
        0
    } else {
        inv_row(s, i, i + 1) + inv_from(s, i + 1)
    }
}

/// The number of inverted pairs of numbered tiles in the arrangement.
pub open spec fn inversions(s: Seq<u8>) -> int {
    inv_from(s, 0)
}

/// The classical solvability criterion of the 4x4 puzzle: an arrangement
/// can reach the solved one exactly when the inversion count plus the
/// blank's row has the same (odd) parity as the solved arrangement, where
/// every legal move preserves that parity.
pub open spec fn solvable(s: Seq<u8>) -> bool {
    (inversions(s) + row_of(crate::state::blank_of(s))) % 2 == 1
}

proof fn lemma_inv_row_bound(s: Seq<u8>, i: int, j: int)
    ensures
        0 <= inv_row(s, i, j) <= if j < 16 {
            16 - j
        } else {
            0
        },
    decreases 16 - j,
{
    if j < 16 {
        lemma_inv_row_bound(s, i, j + 1);
    }
}

proof fn lemma_inv_from_bound(s: Seq<u8>, i: int)
    requires
        0 <= i,
    ensures
        0 <= inv_from(s, i) <= if i < 16 {
            (16 - i) * 16
        } else {
            0
        },
    decreases 16 - i,
{
    if i < 16 {
        lemma_inv_row_bound(s, i, i + 1);
        lemma_inv_from_bound(s, i + 1);
        let a = inv_row(s, i, i + 1);
        let b = inv_from(s, i + 1);
        assert(0 <= a + b <= (16 - i) * 16) by (nonlinear_arith)
            requires
                0 <= i < 16,
                0 <= a <= if i + 1 < 16 {
                    16 - (i + 1)
                } else {
                    0
                },
                0 <= b <= if i + 1 < 16 {
                    (16 - (i + 1)) * 16
                } else {
                    0
                },
        ;
    }
}

impl Board {
    /// The canonical key of the arrangement: sixteen tile values packed as
    /// base-16 digits of one `u64`. Derived from the arrangement alone, so
    /// two boards with one arrangement always agree on it.
    pub fn canonical_key(&self) -> (r: u64)
        requires
            crate::state::in_range(self@),
        ensures
            r as nat == key_nat(self@),
    {
        let mut acc: u64 = 0;
        let mut i: usize = 0;
        while i < 16
            invariant
                i <= 16,
                crate::state::in_range(self@),
                acc as nat == key_nat(self@.take(i as int)),
                (acc as nat) < pow16(i as nat),
            decreases 16 - i,
        {
            let t = self.tiles[i];
            proof {
                lemma_pow16_mono(i as nat, 15);
                assert(pow16(16) == 0x10000000000000000) by {
                    reveal_with_fuel(pow16, 17);
                }
                assert(pow16(16) == 16 * pow16(15));
                assert(self@.take(i as int + 1).drop_last() =~= self@.take(i as int));
                assert(self@.take(i as int + 1).last() == self@[i as int]);
            }
            acc = acc * 16 + (t as u64);
            i = i + 1;
        }
        proof {
            assert(self@.take(16) =~= self@);
        }
        acc
    }

    /// Counts the inverted pairs of numbered tiles.
    pub fn count_inversions(&self) -> (r: u32)
        requires
            self@.len() == 16,
        ensures
            r as int == inversions(self@),
            r <= 256,
    {
        proof {
            lemma_inv_from_bound(self@, 0);
        }
        let mut acc: u32 = 0;
        let mut i: usize = 0;
        while i < 16
            invariant
                i <= 16,
                self@.len() == 16,
                acc as int + inv_from(self@, i as int) == inversions(self@),
                acc <= 256,
            decreases 16 - i,
        {
            proof {
                lemma_inv_from_bound(self@, i as int);
                lemma_inv_from_bound(self@, i as int + 1);
                lemma_inv_row_bound(self@, i as int, i as int + 1);
            }
            let ti = self.tiles[i];
            let mut j: usize = i + 1;
            while j < 16
                invariant
                    i < 16,
                    i < j <= 16,
                    self@.len() == 16,
                    ti == self@[i as int],
                    acc as int + inv_row(self@, i as int, j as int) + inv_from(
                        self@,
                        i as int + 1,
                    ) == inversions(self@),
                    acc <= 256,
                decreases 16 - j,
            {
                proof {
                    lemma_inv_row_bound(self@, i as int, j as int + 1);
                    lemma_inv_from_bound(self@, i as int + 1);
                    lemma_inv_from_bound(self@, 0);
                }
                let tj = self.tiles[j];
                if ti != 0 && tj != 0 && ti > tj {
                    acc = acc + 1;
                }
                j = j + 1;
            }
            i = i + 1;
        }
        acc
    }

    /// Decides the solvability criterion for a validated board: inversion
    /// parity against the blank's row.
    pub fn check_solvable(&self) -> (r: bool)
        requires
            is_permutation(self@),
        ensures
            r == solvable(self@),
    {
        let inv = self.count_inversions();
        let bp = match self.blank_position() {
            Ok(p) => p,
            Err(_) => {
                proof {
                    assert(contains_val(self@, 0));
                    let w = choose|k: int| 0 <= k < 16 && self@[k] == 0;
                    assert forall|j: int| 0 <= j < self@.len() && j != w implies self@[j] != 0 by {
                        if j < w {
                            assert(self@[j] != self@[w]);
                        } else {
                            assert(self@[w] != self@[j]);
                        }
                    }
                }
                unreached()
            },
        };
        proof {
            crate::state::lemma_blank_unique(self@, bp as int);
        }
        let row = (bp / 4) as u32;
        (inv + row) % 2 == 1
    }
}

/// The solved arrangement really is a permutation of `0..16`.
pub proof fn lemma_goal_is_permutation()
    ensures
        is_permutation(goal_seq()),
{
    assert forall|v: u8| v < 16 implies #[trigger] contains_val(goal_seq(), v) by {
        if v == 0 {
            assert(goal_seq()[15] == v);
        } else {
            assert(goal_seq()[v - 1] == v);
        }
    }
}

} // verus!
