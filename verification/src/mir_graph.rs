use vstd::prelude::*;

use crate::compiler::{lemma_unvisited_push, unvisited};
use crate::mir::{block_of, mir_successors, successors, MirBlockId, MirFunction};

verus! {

/// The blocks a block can go on to: its terminator's targets, or none when
/// the block or its terminator is missing.
pub open spec fn succ_of(f: MirFunction, b: MirBlockId) -> Seq<MirBlockId> {
    match block_of(f, b) {
        Some(block) => match block.terminator {
            Some(t) => successors(t.kind),
            None => Seq::empty(),
        },
        None => Seq::empty(),
    }
}

/// `p` is a walk along the function's edges.
pub open spec fn is_walk(f: MirFunction, p: Seq<MirBlockId>) -> bool {
    &&& p.len() > 0
    &&& forall|i: int| 0 <= i < p.len() - 1 ==> succ_of(f, #[trigger] p[i]).contains(p[i + 1])
}

/// Some walk leads from `from` to `to` (a block reaches itself).
pub open spec fn reaches(f: MirFunction, from: MirBlockId, to: MirBlockId) -> bool {
    exists|p: Seq<MirBlockId>| is_walk(f, p) && p[0] == from && p.last() == to
}

/// Some block of `starts` reaches `to`.
pub open spec fn reached_from(f: MirFunction, starts: Seq<MirBlockId>, to: MirBlockId) -> bool {
    exists|k: int| 0 <= k < starts.len() && reaches(f, #[trigger] starts[k], to)
}

/// A block lies on a cycle: one of the blocks it goes on to reaches it again.
pub open spec fn on_cycle(f: MirFunction, origin: MirBlockId) -> bool {
    reached_from(f, succ_of(f, origin), origin)
}

/// Every block the function can go to: the targets of each block's terminator.
pub open spec fn all_targets(blocks: Seq<crate::mir::MirBasicBlock>) -> Seq<MirBlockId>
    decreases blocks.len(),
{
    if blocks.len() == 0 {
        Seq::empty()
    } else {
        all_targets(blocks.drop_last()) + match blocks.last().terminator {
            Some(t) => successors(t.kind),
            None => Seq::empty(),
        }
    }
}

proof fn lemma_all_targets(blocks: Seq<crate::mir::MirBasicBlock>, i: int, t: crate::mir::MirTerminator, x: MirBlockId)
    requires
        0 <= i < blocks.len(),
        blocks[i].terminator == Some(t),
        successors(t.kind).contains(x),
    ensures
        all_targets(blocks).contains(x),
    decreases blocks.len(),
{
    let rest = all_targets(blocks.drop_last());
    if i < blocks.len() - 1 {
        assert(blocks.drop_last()[i] == blocks[i]);
        lemma_all_targets(blocks.drop_last(), i, t, x);
        let k = choose|k: int| 0 <= k < rest.len() && rest[k] == x;
        assert(all_targets(blocks)[k] == x);
    } else {
        let s = successors(t.kind);
        let k = choose|k: int| 0 <= k < s.len() && s[k] == x;
        assert(all_targets(blocks)[rest.len() + k] == x);
    }
}

proof fn lemma_succ_in_targets(f: MirFunction, b: MirBlockId, x: MirBlockId)
    requires
        succ_of(f, b).contains(x),
    ensures
        all_targets(f.blocks@).contains(x),
{
    let bl = block_of(f, b)->0;
    assert(block_of(f, b) is Some);
    assert(bl.terminator is Some);
    let i = crate::mir::lemma_block_of_index(f, b);
    lemma_all_targets(f.blocks@, i, bl.terminator->0, x);
}

/// A walk to `x` extends by an edge out of `x`.
proof fn lemma_reaches_step(f: MirFunction, s: MirBlockId, x: MirBlockId, y: MirBlockId)
    requires
        reaches(f, s, x),
        succ_of(f, x).contains(y),
    ensures
        reaches(f, s, y),
{
    let p = choose|p: Seq<MirBlockId>| is_walk(f, p) && p[0] == s && p.last() == x;
    let q = p.push(y);
    assert forall|i: int| 0 <= i < q.len() - 1 implies succ_of(f, #[trigger] q[i]).contains(q[i + 1]) by {
        if i < p.len() - 1 {
            assert(q[i] == p[i]);
            assert(q[i + 1] == p[i + 1]);
        } else {
            assert(q[i] == x);
        }
    }
    assert(is_walk(f, q));
    assert(q[0] == s && q.last() == y);
}

/// Every block of a walk starting in a set closed under edges is in the set.
proof fn lemma_walk_stays(f: MirFunction, closed: Seq<MirBlockId>, p: Seq<MirBlockId>, n: int)
    requires
        is_walk(f, p),
        closed.contains(p[0]),
        forall|x: MirBlockId, y: MirBlockId| #[trigger] closed.contains(x) && succ_of(f, x).contains(y) ==> #[trigger] closed.contains(y),
        0 <= n < p.len(),
    ensures
        closed.contains(p[n]),
    decreases n,
{
    if n > 0 {
        lemma_walk_stays(f, closed, p, n - 1);
        assert(succ_of(f, p[n - 1]).contains(p[n]));
    }
}

/// The blocks a block goes on to, in order.
pub fn block_successors(function: &MirFunction, block: MirBlockId) -> (r: Vec<MirBlockId>)
    ensures
        r@ == succ_of(*function, block),
{
    match function.block(block) {
        Some(b) => match &b.terminator {
            Some(t) => mir_successors(&t.kind),
            None => Vec::new(),
        },
        None => Vec::new(),
    }
}

fn contains_id(v: &Vec<MirBlockId>, x: MirBlockId) -> (r: bool)
    ensures
        r == v@.contains(x),
{
    let mut i: usize = 0;
    while i < v.len()
        invariant
            i <= v@.len(),
            forall|k: int| 0 <= k < i ==> v@[k] != x,
        decreases v.len() - i,
    {
        if v[i] == x {
            return true;
        }
        i = i + 1;
    }
    false
}

/// Whether some block of `starts` reaches `target`, searching depth first
/// with a stack of blocks still to visit and the set of blocks visited.
fn search_reaches(function: &MirFunction, starts: Vec<MirBlockId>, target: MirBlockId) -> (r: bool)
    ensures
        r == reached_from(*function, starts@, target),
{
    let ghost f = *function;
    let ghost u = starts@ + all_targets(f.blocks@);
    let ghost origins = starts@;
    let mut pending = starts;
    let mut visited: Vec<MirBlockId> = Vec::new();
    proof {
        assert forall|k: int| 0 <= k < pending@.len() implies u.contains(#[trigger] pending@[k]) by {
            assert(u[k] == pending@[k]);
        }
        assert forall|k: int| 0 <= k < pending@.len() implies reached_from(f, origins, #[trigger] pending@[k]) by {
            let p = seq![pending@[k]];
            assert(is_walk(f, p));
            assert(p[0] == origins[k] && p.last() == pending@[k]);
            assert(reaches(f, origins[k], pending@[k]));
        }
    }
    while pending.len() > 0
        invariant
            f == *function,
            origins == starts@,
            u == origins + all_targets(f.blocks@),
            forall|k: int| 0 <= k < pending@.len() ==> u.contains(#[trigger] pending@[k]),
            forall|k: int| 0 <= k < pending@.len() ==> reached_from(f, origins, #[trigger] pending@[k]),
            forall|k: int| 0 <= k < visited@.len() ==> reached_from(f, origins, #[trigger] visited@[k]),
            !visited@.contains(target),
            forall|x: MirBlockId, y: MirBlockId|
                #[trigger] visited@.contains(x) && succ_of(f, x).contains(y) ==> #[trigger] visited@.contains(y)
                    || pending@.contains(y),
            forall|k: int| 0 <= k < origins.len() ==> visited@.contains(#[trigger] origins[k]) || pending@.contains(
                origins[k],
            ),
        decreases unvisited(u, visited@), pending@.len(),
    {
        let ghost before_pending = pending@;
        let ghost before_visited = visited@;
        let block = pending.pop().unwrap();
        proof {
            assert(before_pending == pending@.push(block));
            assert(before_pending[before_pending.len() - 1] == block);
            assert(reached_from(f, origins, block));
        }
        if block == target {
            return true;
        }
        if contains_id(&visited, block) {
            proof {
                assert forall|x: MirBlockId, y: MirBlockId|
                    #[trigger] visited@.contains(x) && succ_of(f, x).contains(y) implies #[trigger] visited@.contains(y)
                    || pending@.contains(y) by {
                    if before_pending.contains(y) && !visited@.contains(y) {
                        let k = choose|k: int| 0 <= k < before_pending.len() && before_pending[k] == y;
                        if k < pending@.len() {
                            assert(pending@[k] == y);
                        }
                    }
                }
                assert forall|k: int| 0 <= k < origins.len() implies visited@.contains(#[trigger] origins[k])
                    || pending@.contains(origins[k]) by {
                    if before_pending.contains(origins[k]) && !visited@.contains(origins[k]) {
                        let j = choose|j: int| 0 <= j < before_pending.len() && before_pending[j] == origins[k];
                        if j < pending@.len() {
                            assert(pending@[j] == origins[k]);
                        }
                    }
                }
            }
            continue;
        }
        visited.push(block);
        let next = block_successors(function, block);
        let ghost popped = pending@;
        let mut extra = next;
        pending.append(&mut extra);
        proof {
            assert(u.contains(block));
            lemma_unvisited_push(u, before_visited, block);
            let nexts = succ_of(f, block);
            assert(pending@ == popped + nexts);
            assert forall|k: int| 0 <= k < pending@.len() implies u.contains(#[trigger] pending@[k]) by {
                if k < popped.len() {
                    assert(pending@[k] == popped[k]);
                } else {
                    assert(pending@[k] == nexts[k - popped.len()]);
                    assert(nexts.contains(pending@[k]));
                    lemma_succ_in_targets(f, block, pending@[k]);
                    let j = choose|j: int| 0 <= j < all_targets(f.blocks@).len() && all_targets(f.blocks@)[j] == pending@[k];
                    assert(u[origins.len() + j] == pending@[k]);
                }
            }
            assert(reached_from(f, origins, block));
            assert forall|k: int| 0 <= k < pending@.len() implies reached_from(f, origins, #[trigger] pending@[k]) by {
                if k < popped.len() {
                    assert(pending@[k] == popped[k]);
                } else {
                    assert(pending@[k] == nexts[k - popped.len()]);
                    assert(nexts.contains(pending@[k]));
                    let j = choose|j: int| 0 <= j < origins.len() && reaches(f, #[trigger] origins[j], block);
                    lemma_reaches_step(f, origins[j], block, pending@[k]);
                }
            }
            assert forall|k: int| 0 <= k < visited@.len() implies reached_from(f, origins, #[trigger] visited@[k]) by {
                if k < before_visited.len() {
                    assert(visited@[k] == before_visited[k]);
                }
            }
            assert(!visited@.contains(target)) by {
                if visited@.contains(target) {
                    let k = choose|k: int| 0 <= k < visited@.len() && visited@[k] == target;
                    if k < before_visited.len() {
                        assert(before_visited[k] == target);
                    }
                }
            }
            assert forall|x: MirBlockId, y: MirBlockId|
                #[trigger] visited@.contains(x) && succ_of(f, x).contains(y) implies #[trigger] visited@.contains(y)
                || pending@.contains(y) by {
                if x == block {
                    let j = choose|j: int| 0 <= j < nexts.len() && nexts[j] == y;
                    assert(pending@[popped.len() + j] == y);
                } else {
                    let k = choose|k: int| 0 <= k < visited@.len() && visited@[k] == x;
                    if k < before_visited.len() {
                        assert(before_visited[k] == x);
                        assert(before_visited.contains(x));
                        if before_visited.contains(y) {
                            let t = choose|t: int| 0 <= t < before_visited.len() && before_visited[t] == y;
                            assert(visited@[t] == y);
                        } else if y == block {
                            assert(visited@[before_visited.len() as int] == y);
                        } else {
                            let t = choose|t: int| 0 <= t < before_pending.len() && before_pending[t] == y;
                            assert(t < popped.len());
                            assert(pending@[t] == y);
                        }
                    }
                }
            }
            assert forall|k: int| 0 <= k < origins.len() implies visited@.contains(#[trigger] origins[k])
                || pending@.contains(origins[k]) by {
                let o = origins[k];
                if before_visited.contains(o) {
                    let t = choose|t: int| 0 <= t < before_visited.len() && before_visited[t] == o;
                    assert(visited@[t] == o);
                } else if o == block {
                    assert(visited@[before_visited.len() as int] == o);
                } else {
                    let t = choose|t: int| 0 <= t < before_pending.len() && before_pending[t] == o;
                    assert(t < popped.len());
                    assert(pending@[t] == o);
                }
            }
        }
    }
    proof {
        assert(!reached_from(f, origins, target)) by {
            if reached_from(f, origins, target) {
                let k = choose|k: int| 0 <= k < origins.len() && reaches(f, #[trigger] origins[k], target);
                let p = choose|p: Seq<MirBlockId>| is_walk(f, p) && p[0] == origins[k] && p.last() == target;
                assert(visited@.contains(origins[k]));
                lemma_walk_stays(f, visited@, p, p.len() - 1);
            }
        }
    }
    false
}

/// Whether a walk leads from `start` to `target`.
pub fn mir_reaches(function: &MirFunction, start: MirBlockId, target: MirBlockId) -> (r: bool)
    ensures
        r == reaches(*function, start, target),
{
    let r = search_reaches(function, vec![start], target);
    proof {
        if reaches(*function, start, target) {
            assert(seq![start][0] == start);
            assert(reached_from(*function, seq![start], target));
        }
        if reached_from(*function, seq![start], target) {
            let k = choose|k: int| 0 <= k < 1 && reaches(*function, #[trigger] seq![start][k], target);
        }
    }
    r
}

/// Whether `origin` lies on a cycle: one of the blocks it goes on to reaches
/// it again; false when it has no terminator.
pub fn block_is_cyclic(function: &MirFunction, origin: MirBlockId) -> (r: bool)
    ensures
        r == on_cycle(*function, origin),
{
    let pending = block_successors(function, origin);
    search_reaches(function, pending, origin)
}

} // verus!
