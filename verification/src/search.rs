use vstd::prelude::*;

use std::collections::HashMap;

use crate::board::{Board, goal_seq, is_permutation, key_nat, solvable};
use crate::errors::SearchError;
use crate::frontier::{KeyQueue, queue_entries, queue_get, queue_new, queue_pop, queue_push,
    queue_set};
use crate::state::{State, apply_label, apply_path, child_of, legal, legal_labels, manhattan,
    path_ok};

verus! {

broadcast use vstd::std_specs::hash::group_hash_axioms;

/// A successful search outcome: the move labels from start to goal in
/// order, their count, and how often a finalized arrangement was reopened
/// (with the Manhattan heuristic this stays zero, and the contract says so).
#[derive(Debug)]
pub struct Solution {
    pub moves: Vec<char>,
    pub length: usize,
    pub reopened: u64,
}

/// The bookkeeping relation of one stored search node: internally
/// consistent, its path legal from the start and leading exactly to its
/// arrangement, and its cost no more than the steps taken so far.
pub open spec fn node_ok(start: Seq<u8>, st: State, bound: int) -> bool {
    &&& st.wf()
    &&& path_ok(start, st.moves@)
    &&& apply_path(start, st.moves@) == st.order@
    &&& st.g <= bound
}

/// One more than the largest value the low 64 bits of a priority can hold.
pub const PRIO_BASE: u128 = 0x10000000000000000;

/// The priority lies in the band that belongs to total cost `f`: the high
/// 64 bits hold `u32::MAX - f`, so between two open entries the smaller `f`
/// always carries the strictly greater priority.
pub open spec fn prio_band(p: u128, f: u32) -> bool {
    &&& ((u32::MAX - f) as int) * (PRIO_BASE as int) <= p as int
    &&& (p as int) < ((u32::MAX - f) as int + 1) * (PRIO_BASE as int)
}

/// Some open node holds the arrangement `a` at cost at most `gb`.
spec fn open_has(nodes: Map<u64, State>, a: Seq<u8>, gb: int) -> bool {
    exists|k: u64| #[trigger] nodes.contains_key(k) && nodes[k].order@ == a && nodes[k].g <= gb
}

/// The successor of `parent` by move `c` is accounted for: already
/// finalized, or on the frontier at cost at most `gb`.
spec fn settled(
    cm: Map<Seq<u8>, int>,
    nodes: Map<u64, State>,
    parent: Seq<u8>,
    c: char,
    gb: int,
) -> bool {
    ||| cm.contains_key(apply_label(parent, c))
    ||| open_has(nodes, apply_label(parent, c), gb)
}

/// Every move out of the finalized region lands on the frontier one step
/// dearer at most, except moves onto the arrangement `excl` (the one whose
/// expansion is in progress).
spec fn boundary_ok(cm: Map<Seq<u8>, int>, nodes: Map<u64, State>, excl: Seq<u8>) -> bool {
    forall|a: Seq<u8>, c: char| #![trigger cm.contains_key(a), legal(a, c)]
        cm.contains_key(a) && legal(a, c) && !cm.contains_key(apply_label(a, c)) && apply_label(
            a,
            c,
        ) != excl ==> open_has(nodes, apply_label(a, c), cm[a] + 1)
}

/// Every finalized arrangement was finalized at a cost that no legal path
/// from the start beats.
spec fn closed_bounds(start: Seq<u8>, cm: Map<Seq<u8>, int>) -> bool {
    forall|p: Seq<char>| #![trigger path_ok(start, p)]
        path_ok(start, p) && cm.contains_key(apply_path(start, p)) ==> cm[apply_path(start, p)]
            <= p.len()
}

/// The ghost record of finalized arrangements mirrors the explored-set
/// queue: same members (through the canonical key, which is injective on
/// in-range arrangements), and the stored priority is the final `f`.
spec fn closed_sync(cm: Map<Seq<u8>, int>, centries: Map<u64, u128>) -> bool {
    &&& forall|a: Seq<u8>| #[trigger] cm.contains_key(a) ==> {
        &&& is_permutation(a)
        &&& 0 <= cm[a]
        &&& key_nat(a) < 0x10000000000000000
        &&& centries.contains_key(key_nat(a) as u64)
        &&& centries[key_nat(a) as u64] as int == cm[a] + manhattan(a)
    }
    &&& forall|k: u64| #[trigger]
        centries.contains_key(k) ==> exists|a: Seq<u8>| #[trigger]
            cm.contains_key(a) && key_nat(a) == k as nat
}

/// Packs a node's total cost and an insertion counter into one queue
/// priority: lower `f` wins, and among equal `f` the earlier insertion, so
/// the tie-break is deterministic.
fn encode_priority(f: u32, counter: u64) -> (r: u128)
    ensures
        prio_band(r, f),
{
    let hi: u128 = ((u32::MAX - f) as u128) << 64;
    let lo: u128 = (u64::MAX - counter) as u128;
    proof {
        let x: u128 = (u32::MAX - f) as u128;
        let y: u128 = (u64::MAX - counter) as u128;
        assert((x << 64) | y == x * 0x10000000000000000 + y) by (bit_vector)
            requires
                x < 0x100000000,
                y < 0x10000000000000000,
        ;
    }
    hi | lo
}

/// Between two banded priorities, the greater priority carries the total
/// cost that is no larger.
proof fn lemma_band_le(p1: u128, f1: u32, p2: u128, f2: u32)
    requires
        prio_band(p1, f1),
        prio_band(p2, f2),
        p1 <= p2,
    ensures
        f2 <= f1,
{
    if f1 < f2 {
        assert((u32::MAX - f1) as int >= (u32::MAX - f2) as int + 1);
    }
}

/// A path whose endpoint is not finalized, taken from a finalized prefix,
/// crosses the finalized region's boundary somewhere.
proof fn lemma_first_crossing(cm: Map<Seq<u8>, int>, s: Seq<u8>, p: Seq<char>, j: int)
    requires
        path_ok(s, p),
        0 <= j <= p.len(),
        cm.contains_key(apply_path(s, p.take(j))),
        !cm.contains_key(apply_path(s, p)),
    ensures
        exists|i: int|
            0 <= i < p.len() && cm.contains_key(apply_path(s, #[trigger] p.take(i)))
                && !cm.contains_key(apply_path(s, p.take(i + 1))),
    decreases p.len() - j,
{
    assert(p.take(p.len() as int) =~= p);
    assert(j < p.len());
    if cm.contains_key(apply_path(s, p.take(j + 1))) {
        lemma_first_crossing(cm, s, p, j + 1);
    } else {
        assert(0 <= j < p.len() && cm.contains_key(apply_path(s, p.take(j)))
            && !cm.contains_key(apply_path(s, p.take(j + 1))));
    }
}

/// An open node sitting at position `iw` of a path to `e` carries, through
/// consistency along the path's remainder, a total cost of at most the
/// path's length plus the heuristic of `e`; so does anything below it.
proof fn lemma_witness_bound(gstart: Seq<u8>, p: Seq<char>, e: Seq<u8>, w: State, iw: int, fmin: int)
    requires
        is_permutation(gstart),
        path_ok(gstart, p),
        apply_path(gstart, p) == e,
        0 <= iw <= p.len(),
        w.wf(),
        w.order@ == apply_path(gstart, p.take(iw)),
        w.g <= iw,
        fmin <= w.f as int,
    ensures
        fmin <= p.len() + manhattan(e),
{
    crate::laws::lemma_path_split(gstart, p, iw);
    crate::laws::lemma_path_preserves_permutation(gstart, p.take(iw));
    crate::laws::lemma_h_path_lower(w.order@, p.skip(iw));
}

/// Replacing an entry of the keyed node store by a node of the same
/// arrangement and no worse cost keeps every frontier fact.
proof fn lemma_open_insert_preserves(
    nodes: Map<u64, State>,
    nodes2: Map<u64, State>,
    ck: u64,
    child: State,
)
    requires
        nodes2 == nodes.insert(ck, child),
        child.wf(),
        is_permutation(child.order@),
        key_nat(child.order@) == ck as nat,
        forall|k2: u64| #[trigger]
            nodes.contains_key(k2) ==> nodes[k2].wf() && key_nat(nodes[k2].order@) == k2 as nat,
        nodes.contains_key(ck) ==> nodes[ck].f >= child.f,
    ensures
        forall|a: Seq<u8>, gb: int| #[trigger] open_has(nodes, a, gb) ==> open_has(nodes2, a, gb),
        nodes.contains_key(ck) ==> nodes[ck].order@ == child.order@,
{
    if nodes.contains_key(ck) {
        crate::board::lemma_key_injective(nodes[ck].order@, child.order@);
    }
    assert forall|a: Seq<u8>, gb: int| #[trigger] open_has(nodes, a, gb) implies open_has(
        nodes2,
        a,
        gb,
    ) by {
        let kw = choose|kw: u64|
            #[trigger] nodes.contains_key(kw) && nodes[kw].order@ == a && nodes[kw].g <= gb;
        if kw == ck {
            assert(nodes[ck].h == child.h);
            assert(nodes2.contains_key(ck) && nodes2[ck].order@ == a && nodes2[ck].g <= gb);
        } else {
            assert(nodes2.contains_key(kw) && nodes2[kw].order@ == a && nodes2[kw].g <= gb);
        }
    }
}

/// The search of `solve`, reporting also how many expansions the run
/// performed: the step budget is exceeded only after exactly `max_steps`
/// of them.
pub fn search_report(start: &Board, max_steps: usize) -> (r: (usize, Result<Solution, SearchError>))
    requires
        max_steps <= 1000000000,
    ensures
        r.0 <= max_steps,
        (r.1 matches Err(SearchError::StepLimitExceeded)) ==> r.0 == max_steps,
        !is_permutation(start@) ==> (r.1 matches Err(e) && e == SearchError::InvalidStartState),
        is_permutation(start@) ==> !(r.1 matches Err(SearchError::InvalidStartState)),
        is_permutation(start@) && !solvable(start@) ==> (r.1 matches Err(e) && e == SearchError::Unsolvable),
        r.1 matches Err(SearchError::Unsolvable) ==> forall|p: Seq<char>|
            !(#[trigger] path_ok(start@, p) && apply_path(start@, p) == goal_seq()),
        !(r.1 matches Err(SearchError::CorruptState)),
        r.1 matches Err(SearchError::Unsolvable) ==> is_permutation(start@),
        r.1 matches Err(SearchError::StepLimitExceeded) ==> is_permutation(start@) && solvable(
            start@,
        ),
        match r.1 {
            Ok(sol) => {
                &&& is_permutation(start@)
                &&& solvable(start@)
                &&& path_ok(start@, sol.moves@)
                &&& apply_path(start@, sol.moves@) == goal_seq()
                &&& sol.length == sol.moves@.len()
                &&& manhattan(start@) <= sol.moves@.len()
                &&& sol.reopened == 0
                &&& forall|p: Seq<char>|
                    #[trigger] path_ok(start@, p) && apply_path(start@, p) == goal_seq()
                        ==> sol.moves@.len() <= p.len()
            },
            Err(_) => true,
        },
        start@ == goal_seq() && max_steps >= 1 ==> match r.1 {
            Ok(sol) => sol.moves@.len() == 0,
            Err(_) => false,
        },
{
    match start.validate() {
        Err(e) => {
            proof {
                if start@ == goal_seq() {
                    crate::board::lemma_goal_is_permutation();
                }
            }
            return (0, Err(e));
        },
        Ok(()) => {},
    }
    if !start.check_solvable() {
        proof {
            if start@ == goal_seq() {
                crate::laws::lemma_goal_solvable();
            }
            assert forall|p: Seq<char>|
                !(#[trigger] path_ok(start@, p) && apply_path(start@, p) == goal_seq()) by {
                if path_ok(start@, p) && apply_path(start@, p) == goal_seq() {
                    crate::laws::lemma_goal_path_implies_solvable(start@, p);
                }
            }
        }
        return (0, Err(SearchError::Unsolvable));
    }
    let ghost gstart = start@;
    let mut open_q: KeyQueue = queue_new(16);
    let mut closed_q: KeyQueue = queue_new(16);
    let mut open_nodes: HashMap<u64, State> = HashMap::new();
    let ghost mut closed_m: Map<Seq<u8>, int> = Map::empty();
    let node0 = State::init(start);
    let k0 = start.canonical_key();
    let mut counter: u64 = 0;
    let prio0 = encode_priority(node0.f, counter);
    counter = 1;
    proof {
        assert(path_ok(gstart, node0.moves@));
        assert(apply_path(gstart, node0.moves@) == gstart);
    }
    queue_push(&mut open_q, k0, prio0);
    open_nodes.insert(k0, node0);
    proof {
        assert(queue_entries(open_q).dom() =~= open_nodes@.dom());
        assert(open_nodes@.dom() =~= set![k0]);
        assert(open_nodes@.contains_key(k0) && open_nodes@[k0].order@ == gstart
            && open_nodes@[k0].g <= 0);
        assert(open_has(open_nodes@, gstart, 0));
    }
    let mut steps: usize = 0;
    let mut reopened: u64 = 0;
    let ghost mut lastf: int = 0;
    while steps < max_steps
        invariant
            is_permutation(gstart),
            solvable(gstart),
            gstart == start@,
            steps <= max_steps,
            max_steps <= 1000000000,
            queue_entries(open_q).dom() == open_nodes@.dom(),
            forall|k: u64| #[trigger]
                open_nodes@.contains_key(k) ==> node_ok(gstart, open_nodes@[k], steps as int),
            forall|k: u64| #[trigger]
                open_nodes@.contains_key(k) ==> prio_band(
                    queue_entries(open_q)[k],
                    open_nodes@[k].f,
                ),
            forall|k: u64| #[trigger] open_nodes@.contains_key(k) ==> open_nodes@[k].f as int >= lastf,
            forall|k: u64| #[trigger]
                open_nodes@.contains_key(k) ==> key_nat(open_nodes@[k].order@) == k as nat
                    && !closed_m.contains_key(open_nodes@[k].order@),
            forall|k: u64| #[trigger]
                queue_entries(closed_q).contains_key(k) ==> queue_entries(closed_q)[k] as int
                    <= lastf,
            closed_sync(closed_m, queue_entries(closed_q)),
            closed_bounds(gstart, closed_m),
            boundary_ok(closed_m, open_nodes@, Seq::<u8>::empty()),
            closed_m.contains_key(gstart) || open_has(open_nodes@, gstart, 0),
            !closed_m.contains_key(goal_seq()),
            0 <= lastf,
            reopened == 0,
            gstart == goal_seq() ==> (steps == 0 && open_nodes@.dom() == set![k0]
                && open_nodes@[k0].order@ == gstart && open_nodes@[k0].moves@.len() == 0),
        decreases max_steps - steps,
    {
        let ghost pre_entries = queue_entries(open_q);
        match queue_pop(&mut open_q) {
            None => {
                proof {
                    if gstart == goal_seq() {
                        assert(open_nodes@.dom().contains(k0));
                    }
                    assert forall|p: Seq<char>|
                        !(#[trigger] path_ok(gstart, p) && apply_path(gstart, p)
                            == goal_seq()) by {
                        if path_ok(gstart, p) && apply_path(gstart, p) == goal_seq() {
                            if closed_m.contains_key(gstart) {
                                assert(p.take(0) =~= Seq::<char>::empty());
                                assert(apply_path(gstart, p.take(0)) == gstart);
                                lemma_first_crossing(closed_m, gstart, p, 0);
                                let i = choose|i: int|
                                    0 <= i < p.len() && closed_m.contains_key(
                                        apply_path(gstart, #[trigger] p.take(i)),
                                    ) && !closed_m.contains_key(apply_path(gstart, p.take(i + 1)));
                                crate::laws::lemma_path_split(gstart, p, i);
                                let a = apply_path(gstart, p.take(i));
                                assert(a.len() == 16);
                                assert(apply_label(a, p[i]).len() == 16);
                                assert(apply_label(a, p[i]) != Seq::<u8>::empty());
                                assert(open_has(open_nodes@, apply_label(a, p[i]), closed_m[a] + 1));
                                let kw = choose|kw: u64|
                                    #[trigger] open_nodes@.contains_key(kw)
                                        && open_nodes@[kw].order@ == apply_label(a, p[i])
                                        && open_nodes@[kw].g <= closed_m[a] + 1;
                                assert(false);
                            } else {
                                assert(open_has(open_nodes@, gstart, 0));
                                let kw = choose|kw: u64|
                                    #[trigger] open_nodes@.contains_key(kw)
                                        && open_nodes@[kw].order@ == gstart && open_nodes@[kw].g
                                        <= 0;
                                assert(false);
                            }
                        }
                    }
                }
                return (steps, Err(SearchError::Unsolvable));
            },
            Some((k, prio)) => {
                proof {
                    assert(open_nodes@.contains_key(k));
                }
                let ghost stg = open_nodes@[k];
                let ghost e = stg.order@;
                proof {
                    assert(prio_band(pre_entries[k], stg.f));
                    assert forall|p: Seq<char>|
                        #[trigger] path_ok(gstart, p) && apply_path(gstart, p)
                            == e implies stg.g as int <= p.len() by {
                        if closed_m.contains_key(gstart) {
                            assert(p.take(0) =~= Seq::<char>::empty());
                            assert(apply_path(gstart, p.take(0)) == gstart);
                            assert(!closed_m.contains_key(e));
                            lemma_first_crossing(closed_m, gstart, p, 0);
                            let i = choose|i: int|
                                0 <= i < p.len() && closed_m.contains_key(
                                    apply_path(gstart, #[trigger] p.take(i)),
                                ) && !closed_m.contains_key(apply_path(gstart, p.take(i + 1)));
                            crate::laws::lemma_path_split(gstart, p, i);
                            let a = apply_path(gstart, p.take(i));
                            assert(path_ok(gstart, p.take(i)));
                            assert(closed_m[a] <= p.take(i).len());
                            assert(a.len() == 16);
                            assert(apply_label(a, p[i]).len() == 16);
                            assert(apply_label(a, p[i]) != Seq::<u8>::empty());
                            assert(open_has(open_nodes@, apply_label(a, p[i]), closed_m[a] + 1));
                            let kw = choose|kw: u64|
                                #[trigger] open_nodes@.contains_key(kw) && open_nodes@[kw].order@
                                    == apply_label(a, p[i]) && open_nodes@[kw].g <= closed_m[a]
                                    + 1;
                            assert(pre_entries.contains_key(kw) && pre_entries[kw] <= prio);
                            lemma_band_le(pre_entries[kw], open_nodes@[kw].f, pre_entries[k], stg.f);
                            lemma_witness_bound(gstart, p, e, open_nodes@[kw], i + 1, stg.f as int);
                        } else {
                            assert(open_has(open_nodes@, gstart, 0));
                            let kw = choose|kw: u64|
                                #[trigger] open_nodes@.contains_key(kw) && open_nodes@[kw].order@
                                    == gstart && open_nodes@[kw].g <= 0;
                            assert(p.take(0) =~= Seq::<char>::empty());
                            assert(apply_path(gstart, p.take(0)) == gstart);
                            assert(pre_entries.contains_key(kw) && pre_entries[kw] <= prio);
                            lemma_band_le(pre_entries[kw], open_nodes@[kw].f, pre_entries[k], stg.f);
                            lemma_witness_bound(gstart, p, e, open_nodes@[kw], 0, stg.f as int);
                        }
                    }
                }
                let ghost nodes_pre = open_nodes@;
                let st = match open_nodes.remove(&k) {
                    Some(st) => st,
                    None => unreached(),
                };
                proof {
                    assert(st == stg);
                    assert(node_ok(gstart, st, steps as int));
                    assert(queue_entries(open_q).dom() =~= open_nodes@.dom());
                    assert forall|k2: u64| #[trigger]
                        open_nodes@.contains_key(k2) implies open_nodes@[k2].f as int
                        >= st.f as int by {
                        assert(pre_entries.contains_key(k2) && pre_entries[k2] <= prio);
                        lemma_band_le(pre_entries[k2], open_nodes@[k2].f, pre_entries[k], st.f);
                    }
                    assert forall|k2: u64| #[trigger]
                        open_nodes@.contains_key(k2) implies open_nodes@[k2].order@ != e by {
                        if open_nodes@[k2].order@ == e {
                            crate::board::lemma_key_injective(open_nodes@[k2].order@, e);
                        }
                    }
                    assert(st.f as int >= lastf);
                    lastf = st.f as int;
                }
                if st.order.is_goal() {
                    proof {
                        crate::laws::lemma_admissible(gstart, st.moves@);
                    }
                    let length = st.moves.len();
                    return (steps, Ok(Solution { moves: st.moves, length, reopened }));
                }
                proof {
                    if gstart == goal_seq() {
                        assert(set![k0].contains(k));
                        assert(false);
                    }
                }
                proof {
                    assert forall|a: Seq<u8>, c: char|
                        #[trigger] closed_m.contains_key(a) && #[trigger] legal(a, c)
                            && !closed_m.contains_key(apply_label(a, c)) && apply_label(a, c)
                            != st.order@ implies open_has(
                        open_nodes@,
                        apply_label(a, c),
                        closed_m[a] + 1,
                    ) by {
                        assert(apply_label(a, c).len() == 16);
                        assert(apply_label(a, c) != Seq::<u8>::empty());
                        assert(open_has(nodes_pre, apply_label(a, c), closed_m[a] + 1));
                        let kw = choose|kw: u64|
                            #[trigger] nodes_pre.contains_key(kw) && nodes_pre[kw].order@
                                == apply_label(a, c) && nodes_pre[kw].g <= closed_m[a] + 1;
                        assert(kw != k);
                        assert(open_nodes@.contains_key(kw));
                    }
                    if !closed_m.contains_key(gstart) {
                        assert(open_has(nodes_pre, gstart, 0));
                        let kw = choose|kw: u64|
                            #[trigger] nodes_pre.contains_key(kw) && nodes_pre[kw].order@ == gstart
                                && nodes_pre[kw].g <= 0;
                        if kw == k {
                            assert(gstart == st.order@);
                        } else {
                            assert(open_nodes@.contains_key(kw));
                            assert(open_has(open_nodes@, gstart, 0));
                        }
                    }
                }
                let mut kids = st.children();
                let ghost orig_labels = legal_labels(st.order@);
                let ghost mut done: int = 0;
                proof {
                    assert forall|i: int| 0 <= i < kids@.len() implies node_ok(
                        gstart,
                        kids@[i],
                        steps as int + 1,
                    ) by {
                        let c = legal_labels(st.order@)[i];
                        assert(child_of(&st, &kids@[i], c));
                        assert(legal(st.order@, c));
                        crate::laws::lemma_path_snoc(gstart, st.moves@, c);
                        crate::laws::lemma_consistency(st.order@, c);
                    }
                    assert forall|i: int| 0 <= i < kids@.len() implies (#[trigger] kids@[i]).f as int
                        >= lastf by {
                        let c = legal_labels(st.order@)[i];
                        assert(child_of(&st, &kids@[i], c));
                        crate::laws::lemma_consistency(st.order@, c);
                    }
                    assert(kids@.len() <= 4);
                }
                while kids.len() > 0
                    invariant
                        is_permutation(gstart),
                        gstart != goal_seq(),
                        steps < max_steps <= 1000000000,
                        queue_entries(open_q).dom() == open_nodes@.dom(),
                        forall|k2: u64| #[trigger]
                            open_nodes@.contains_key(k2) ==> node_ok(
                                gstart,
                                open_nodes@[k2],
                                steps as int + 1,
                            ),
                        forall|k2: u64| #[trigger]
                            open_nodes@.contains_key(k2) ==> prio_band(
                                queue_entries(open_q)[k2],
                                open_nodes@[k2].f,
                            ),
                        forall|k2: u64| #[trigger]
                            open_nodes@.contains_key(k2) ==> open_nodes@[k2].f as int >= lastf,
                        forall|k2: u64| #[trigger]
                            open_nodes@.contains_key(k2) ==> key_nat(open_nodes@[k2].order@)
                                == k2 as nat && !closed_m.contains_key(open_nodes@[k2].order@),
                        forall|k2: u64| #[trigger]
                            open_nodes@.contains_key(k2) ==> open_nodes@[k2].order@ != st.order@,
                        forall|k2: u64| #[trigger]
                            queue_entries(closed_q).contains_key(k2) ==> queue_entries(
                                closed_q,
                            )[k2] as int <= lastf,
                        closed_sync(closed_m, queue_entries(closed_q)),
                        closed_bounds(gstart, closed_m),
                        boundary_ok(closed_m, open_nodes@, st.order@),
                        closed_m.contains_key(gstart) || open_has(open_nodes@, gstart, 0)
                            || gstart == st.order@,
                        !closed_m.contains_key(goal_seq()),
                        !closed_m.contains_key(st.order@),
                        node_ok(gstart, st, steps as int),
                        st.order@ != goal_seq(),
                        key_nat(st.order@) == k as nat,
                        forall|p: Seq<char>|
                            #[trigger] path_ok(gstart, p) && apply_path(gstart, p) == st.order@
                                ==> st.g as int <= p.len(),
                        orig_labels == legal_labels(st.order@),
                        0 <= done,
                        done + kids@.len() == orig_labels.len(),
                        forall|i: int|
                            0 <= i < kids@.len() ==> child_of(
                                &st,
                                #[trigger] &kids@[i],
                                orig_labels[done + i],
                            ) && legal(st.order@, orig_labels[done + i]),
                        forall|j: int|
                            0 <= j < done ==> settled(
                                closed_m,
                                open_nodes@,
                                st.order@,
                                #[trigger] orig_labels[j],
                                st.g as int + 1,
                            ),
                        forall|i: int|
                            0 <= i < kids@.len() ==> node_ok(
                                gstart,
                                #[trigger] kids@[i],
                                steps as int + 1,
                            ),
                        forall|i: int|
                            0 <= i < kids@.len() ==> (#[trigger] kids@[i]).f as int >= lastf,
                        lastf == st.f as int,
                        0 <= lastf,
                        kids@.len() <= 4,
                        reopened == 0,
                    decreases kids.len(),
                {
                    let ghost c_cur = orig_labels[done];
                    let child = kids.remove(0);
                    proof {
                        assert(node_ok(gstart, child, steps as int + 1));
                        assert(child_of(&st, &child, c_cur));
                        assert(legal(st.order@, c_cur));
                        crate::laws::lemma_move_changes(st.order@, c_cur);
                        assert(child.order@ != st.order@);
                    }
                    let ck = child.order.canonical_key();
                    let ghost pre_nodes = open_nodes@;
                    let open_f: Option<u32> = match open_nodes.get(&ck) {
                        Some(n) => Some(n.f),
                        None => None,
                    };
                    match open_f {
                        Some(oldf) => {
                            if oldf > child.f {
                                let p2 = encode_priority(child.f, counter);
                                counter = if counter < u64::MAX {
                                    counter + 1
                                } else {
                                    counter
                                };
                                let _was_there = queue_set(&mut open_q, ck, p2);
                                open_nodes.insert(ck, child);
                                proof {
                                    assert(queue_entries(open_q).dom() =~= open_nodes@.dom());
                                    lemma_open_insert_preserves(pre_nodes, open_nodes@, ck, child);
                                    assert(open_nodes@.contains_key(ck) && open_nodes@[ck].order@
                                        == apply_label(st.order@, c_cur) && open_nodes@[ck].g
                                        <= st.g as int + 1);
                                    assert(open_has(
                                        open_nodes@,
                                        apply_label(st.order@, c_cur),
                                        st.g as int + 1,
                                    ));
                                }
                            } else {
                                proof {
                                    assert(pre_nodes.contains_key(ck));
                                    crate::board::lemma_key_injective(
                                        pre_nodes[ck].order@,
                                        child.order@,
                                    );
                                    assert(pre_nodes[ck].h == child.h);
                                    assert(open_nodes@.contains_key(ck) && open_nodes@[ck].order@
                                        == apply_label(st.order@, c_cur) && open_nodes@[ck].g
                                        <= st.g as int + 1);
                                    assert(open_has(
                                        open_nodes@,
                                        apply_label(st.order@, c_cur),
                                        st.g as int + 1,
                                    ));
                                }
                            }
                        },
                        None => {
                            let closed_f: Option<u128> = queue_get(&closed_q, ck);
                            let reopen = match closed_f {
                                Some(cf) => cf > (child.f as u128),
                                None => false,
                            };
                            let fresh = match closed_f {
                                Some(_) => false,
                                None => true,
                            };
                            proof {
                                assert(!reopen);
                                if !fresh {
                                    let a = choose|a: Seq<u8>| #[trigger]
                                        closed_m.contains_key(a) && key_nat(a) == ck as nat;
                                    crate::board::lemma_key_injective(a, child.order@);
                                    assert(closed_m.contains_key(apply_label(st.order@, c_cur)));
                                }
                            }
                            if reopen || fresh {
                                let p2 = encode_priority(child.f, counter);
                                counter = if counter < u64::MAX {
                                    counter + 1
                                } else {
                                    counter
                                };
                                queue_push(&mut open_q, ck, p2);
                                open_nodes.insert(ck, child);
                                if reopen {
                                    reopened = reopened + 1;
                                }
                                proof {
                                    assert(queue_entries(open_q).dom() =~= open_nodes@.dom());
                                    lemma_open_insert_preserves(pre_nodes, open_nodes@, ck, child);
                                    if closed_m.contains_key(child.order@) {
                                        assert(queue_entries(closed_q).contains_key(
                                            key_nat(child.order@) as u64,
                                        ));
                                        assert(key_nat(child.order@) as u64 == ck);
                                        assert(false);
                                    }
                                    assert(open_nodes@.contains_key(ck) && open_nodes@[ck].order@
                                        == apply_label(st.order@, c_cur) && open_nodes@[ck].g
                                        <= st.g as int + 1);
                                    assert(open_has(
                                        open_nodes@,
                                        apply_label(st.order@, c_cur),
                                        st.g as int + 1,
                                    ));
                                }
                            }
                        },
                    }
                    proof {
                        done = done + 1;
                        assert(settled(
                            closed_m,
                            open_nodes@,
                            st.order@,
                            orig_labels[done - 1],
                            st.g as int + 1,
                        ));
                        assert forall|j: int| 0 <= j < done implies settled(
                            closed_m,
                            open_nodes@,
                            st.order@,
                            #[trigger] orig_labels[j],
                            st.g as int + 1,
                        ) by {
                            if j < done - 1 {
                                assert(settled(
                                    closed_m,
                                    pre_nodes,
                                    st.order@,
                                    orig_labels[j],
                                    st.g as int + 1,
                                ));
                            }
                        }
                        assert forall|a: Seq<u8>, c: char|
                            #[trigger] closed_m.contains_key(a) && #[trigger] legal(a, c)
                                && !closed_m.contains_key(apply_label(a, c)) && apply_label(a, c)
                                != st.order@ implies open_has(
                            open_nodes@,
                            apply_label(a, c),
                            closed_m[a] + 1,
                        ) by {
                            assert(open_has(pre_nodes, apply_label(a, c), closed_m[a] + 1));
                        }
                    }
                }
                let ghost old_closed = closed_m;
                let ghost old_cent = queue_entries(closed_q);
                proof {
                    closed_m = closed_m.insert(st.order@, st.g as int);
                }
                queue_push(&mut closed_q, k, st.f as u128);
                proof {
                    crate::board::lemma_key_nat_bound(e);
                    assert(crate::board::pow16(16) == 0x10000000000000000) by {
                        reveal_with_fuel(crate::board::pow16, 17);
                    }
                    assert(closed_m == old_closed.insert(e, st.g as int));
                    assert(queue_entries(closed_q) == old_cent.insert(k, st.f as u128));
                    assert forall|a: Seq<u8>| #[trigger] closed_m.contains_key(a) implies {
                        &&& is_permutation(a)
                        &&& 0 <= closed_m[a]
                        &&& key_nat(a) < 0x10000000000000000
                        &&& queue_entries(closed_q).contains_key(key_nat(a) as u64)
                        &&& queue_entries(closed_q)[key_nat(a) as u64] as int == closed_m[a]
                            + manhattan(a)
                    } by {
                        if a == e {
                            assert(key_nat(e) == k as nat);
                            assert(key_nat(e) as u64 == k);
                        } else {
                            assert(old_closed.contains_key(a));
                            if key_nat(a) as u64 == k {
                                assert(key_nat(a) == k as nat);
                                crate::board::lemma_key_injective(a, e);
                            }
                        }
                    }
                    assert forall|k2: u64| #[trigger]
                        queue_entries(closed_q).contains_key(k2) implies exists|a: Seq<u8>|
                        #[trigger] closed_m.contains_key(a) && key_nat(a) == k2 as nat by {
                        if k2 == k {
                            assert(closed_m.contains_key(e) && key_nat(e) == k2 as nat);
                        } else {
                            let a = choose|a: Seq<u8>| #[trigger]
                                old_closed.contains_key(a) && key_nat(a) == k2 as nat;
                            assert(closed_m.contains_key(a) && key_nat(a) == k2 as nat);
                        }
                    }
                    assert forall|p: Seq<char>|
                        #[trigger] path_ok(gstart, p) && closed_m.contains_key(
                            apply_path(gstart, p),
                        ) implies closed_m[apply_path(gstart, p)] <= p.len() by {
                        if apply_path(gstart, p) != e {
                            assert(old_closed.contains_key(apply_path(gstart, p)));
                        }
                    }
                    assert forall|a: Seq<u8>, c: char|
                        #[trigger] closed_m.contains_key(a) && #[trigger] legal(a, c)
                            && !closed_m.contains_key(apply_label(a, c)) && apply_label(a, c)
                            != Seq::<u8>::empty() implies open_has(
                        open_nodes@,
                        apply_label(a, c),
                        closed_m[a] + 1,
                    ) by {
                        if a == e {
                            crate::laws::lemma_label_in_legal(e, c);
                            let idx = choose|idx: int|
                                0 <= idx < legal_labels(e).len() && legal_labels(e)[idx] == c;
                            assert(settled(old_closed, open_nodes@, e, orig_labels[idx], st.g as int
                                + 1));
                            assert(!old_closed.contains_key(apply_label(e, c)));
                        } else {
                            assert(old_closed.contains_key(a));
                            assert(open_has(open_nodes@, apply_label(a, c), old_closed[a] + 1));
                        }
                    }
                }
                steps = steps + 1;
            },
        }
    }
    (steps, Err(SearchError::StepLimitExceeded))
}

/// Runs the A* search from `start` towards the solved arrangement, popping
/// the lowest-`f` frontier entry, expanding its successors, and finalizing
/// it in the explored set, for at most `max_steps` expansions.
///
/// An input that is no permutation of `0..16` is rejected at once; an
/// arrangement on the wrong side of the solvability parity can never reach
/// the goal and is reported `Unsolvable` without search, which also bounds
/// the run on such inputs. A returned path is optimal: no legal move
/// sequence from the start to the goal is shorter. `Unsolvable` comes only
/// when no legal move sequence reaches the goal at all, and the consistent
/// heuristic keeps the reopen counter at zero.
pub fn solve(start: &Board, max_steps: usize) -> (r: Result<Solution, SearchError>)
    requires
        max_steps <= 1000000000,
    ensures
        !is_permutation(start@) ==> (r matches Err(e) && e == SearchError::InvalidStartState),
        is_permutation(start@) ==> !(r matches Err(SearchError::InvalidStartState)),
        is_permutation(start@) && !solvable(start@) ==> (r matches Err(e) && e == SearchError::Unsolvable),
        r matches Err(SearchError::Unsolvable) ==> forall|p: Seq<char>|
            !(#[trigger] path_ok(start@, p) && apply_path(start@, p) == goal_seq()),
        !(r matches Err(SearchError::CorruptState)),
        r matches Err(SearchError::Unsolvable) ==> is_permutation(start@),
        r matches Err(SearchError::StepLimitExceeded) ==> is_permutation(start@) && solvable(
            start@,
        ),
        match r {
            Ok(sol) => {
                &&& is_permutation(start@)
                &&& solvable(start@)
                &&& path_ok(start@, sol.moves@)
                &&& apply_path(start@, sol.moves@) == goal_seq()
                &&& sol.length == sol.moves@.len()
                &&& manhattan(start@) <= sol.moves@.len()
                &&& sol.reopened == 0
                &&& forall|p: Seq<char>|
                    #[trigger] path_ok(start@, p) && apply_path(start@, p) == goal_seq()
                        ==> sol.moves@.len() <= p.len()
            },
            Err(_) => true,
        },
        start@ == goal_seq() && max_steps >= 1 ==> match r {
            Ok(sol) => sol.moves@.len() == 0,
            Err(_) => false,
        },
{
    let outcome = search_report(start, max_steps);
    outcome.1
}

} // verus!
