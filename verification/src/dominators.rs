use vstd::prelude::*;

use std::collections::BTreeMap;

use crate::mir::{copy_ids, mir_successors, successors, MirBasicBlock, MirBlockId, MirFunction};
use vstd::set_lib::{lemma_len_subset, lemma_subset_equality};

verus! {

broadcast use {vstd::std_specs::btree::group_btree_axioms, vstd::seq_lib::group_seq_properties};

/// How many times `x` occurs in `s`.
pub open spec fn count_of(s: Seq<MirBlockId>, x: MirBlockId) -> nat
    decreases s.len(),
{
    if s.len() == 0 {
        0
    } else {
        count_of(s.drop_last(), x) + if s.last() == x {
            1nat
        } else {
            0nat
        }
    }
}

/// The blocks a terminated block goes on to.
pub open spec fn block_targets(b: MirBasicBlock) -> Seq<MirBlockId> {
    match b.terminator {
        Some(t) => successors(t.kind),
        None => Seq::empty(),
    }
}

/// The predecessors of `x`: in block order, each block once for each of its
/// edges to `x`.
pub open spec fn predecessors_of(blocks: Seq<MirBasicBlock>, x: MirBlockId) -> Seq<MirBlockId>
    decreases blocks.len(),
{
    if blocks.len() == 0 {
        Seq::empty()
    } else {
        let b = blocks.last();
        predecessors_of(blocks.drop_last(), x) + Seq::new(count_of(block_targets(b), x), |_i: int| b.id)
    }
}

proof fn lemma_count_positive(s: Seq<MirBlockId>, x: MirBlockId)
    ensures
        count_of(s, x) > 0 <==> s.contains(x),
    decreases s.len(),
{
    if s.len() > 0 {
        lemma_count_positive(s.drop_last(), x);
        if s.drop_last().contains(x) {
            let k = choose|k: int| 0 <= k < s.drop_last().len() && s.drop_last()[k] == x;
            assert(s[k] == x);
        }
        if s.contains(x) && s.last() != x {
            let k = choose|k: int| 0 <= k < s.len() && s[k] == x;
            assert(s.drop_last()[k] == x);
        }
    }
}

/// A block lists `b` among its predecessors exactly when `b` is a block
/// with an edge to it: the predecessor lists mirror the successor lists.
pub proof fn law_predecessors_mirror_successors(blocks: Seq<MirBasicBlock>, x: MirBlockId, b: MirBlockId)
    ensures
        predecessors_of(blocks, x).contains(b) <==> exists|i: int|
            0 <= i < blocks.len() && (#[trigger] blocks[i]).id == b && block_targets(blocks[i]).contains(x),
    decreases blocks.len(),
{
    if blocks.len() > 0 {
        let rest = blocks.drop_last();
        let last = blocks.last();
        law_predecessors_mirror_successors(rest, x, b);
        lemma_count_positive(block_targets(last), x);
        let tail = Seq::new(count_of(block_targets(last), x), |_i: int| last.id);
        let all = predecessors_of(rest, x) + tail;
        assert(predecessors_of(blocks, x) == all);
        if all.contains(b) {
            let k = choose|k: int| 0 <= k < all.len() && all[k] == b;
            if k >= predecessors_of(rest, x).len() {
                assert(tail[k - predecessors_of(rest, x).len()] == b);
                assert(blocks[blocks.len() - 1] == last);
            } else {
                assert(predecessors_of(rest, x)[k] == b);
                let i = choose|i: int| 0 <= i < rest.len() && (#[trigger] rest[i]).id == b && block_targets(rest[i]).contains(x);
                assert(blocks[i] == rest[i]);
            }
        }
        if exists|i: int| 0 <= i < blocks.len() && (#[trigger] blocks[i]).id == b && block_targets(blocks[i]).contains(x) {
            let i = choose|i: int| 0 <= i < blocks.len() && (#[trigger] blocks[i]).id == b && block_targets(blocks[i]).contains(x);
            if i == blocks.len() - 1 {
                assert(tail[0] == b);
                assert(all[predecessors_of(rest, x).len() as int] == b);
            } else {
                assert(rest[i] == blocks[i]);
                let k = choose|k: int| 0 <= k < predecessors_of(rest, x).len() && predecessors_of(rest, x)[k] == b;
                assert(all[k] == b);
            }
        }
    }
}

/// The predecessor table of a list of blocks: an entry for each block some
/// edge leads to.
pub open spec fn predecessor_table(
    blocks: Seq<MirBasicBlock>,
    table: Map<MirBlockId, Vec<MirBlockId>>,
) -> bool {
    &&& forall|x: MirBlockId| #[trigger] table.contains_key(x) <==> predecessors_of(blocks, x).len() > 0
    &&& forall|x: MirBlockId| #[trigger] table.contains_key(x) ==> table[x]@ == predecessors_of(blocks, x)
}

/// The predecessors of every block that some edge leads to, each list in
/// block order with a block once per edge.
pub fn mir_predecessors(function: &MirFunction) -> (r: BTreeMap<MirBlockId, Vec<MirBlockId>>)
    ensures
        predecessor_table(function.blocks@, r@),
{
    let mut predecessors: BTreeMap<MirBlockId, Vec<MirBlockId>> = BTreeMap::new();
    let mut i: usize = 0;
    while i < function.blocks.len()
        invariant
            i <= function.blocks@.len(),
            predecessor_table(function.blocks@.take(i as int), predecessors@),
        decreases function.blocks.len() - i,
    {
        let block = &function.blocks[i];
        let ghost before = function.blocks@.take(i as int);
        let targets: Vec<MirBlockId> = match &block.terminator {
            Some(terminator) => mir_successors(&terminator.kind),
            None => Vec::new(),
        };
        let ghost id = block.id;
        let mut j: usize = 0;
        proof {
            assert(targets@.take(0) =~= Seq::<MirBlockId>::empty());
            assert forall|x: MirBlockId| #[trigger] predecessors_of(before, x) == predecessors_of(before, x)
                + Seq::new(count_of(targets@.take(0), x), |_k: int| id) by {
                assert(predecessors_of(before, x) =~= predecessors_of(before, x) + Seq::new(
                    count_of(targets@.take(0), x),
                    |_k: int| id,
                ));
            }
        }
        while j < targets.len()
            invariant
                j <= targets@.len(),
                targets@ == block_targets(function.blocks@[i as int]),
                id == function.blocks@[i as int].id,
                block.id == id,
                forall|x: MirBlockId| #[trigger] predecessors@.contains_key(x) <==> (predecessors_of(before, x)
                    + Seq::new(count_of(targets@.take(j as int), x), |_k: int| id)).len() > 0,
                forall|x: MirBlockId| #[trigger] predecessors@.contains_key(x) ==> predecessors@[x]@
                    == predecessors_of(before, x) + Seq::new(count_of(targets@.take(j as int), x), |_k: int| id),
            decreases targets.len() - j,
        {
            let successor = targets[j];
            let ghost old_map = predecessors@;
            let ghost prior = predecessors_of(before, successor) + Seq::new(
                count_of(targets@.take(j as int), successor),
                |_k: int| id,
            );
            let mut list: Vec<MirBlockId> = match predecessors.remove(&successor) {
                Some(list) => list,
                None => Vec::new(),
            };
            proof {
                if !old_map.contains_key(successor) {
                    assert(prior =~= Seq::<MirBlockId>::empty());
                }
                assert(list@ == prior);
            }
            list.push(block.id);
            let ghost pushed = list@;
            assert(pushed =~= prior.push(id));
            predecessors.insert(successor, list);
            proof {
                let t1 = targets@.take(j + 1);
                assert(t1.drop_last() =~= targets@.take(j as int));
                assert(t1.last() == successor);
                assert forall|x: MirBlockId| #[trigger] predecessors@.contains_key(x) <==> (predecessors_of(before, x)
                    + Seq::new(count_of(targets@.take(j + 1), x), |_k: int| id)).len() > 0 by {
                    if x != successor {
                        assert(count_of(t1, x) == count_of(targets@.take(j as int), x));
                    }
                }
                assert forall|x: MirBlockId| #[trigger] predecessors@.contains_key(x) implies predecessors@[x]@
                    == predecessors_of(before, x) + Seq::new(count_of(targets@.take(j + 1), x), |_k: int| id) by {
                    if x == successor {
                        assert(count_of(t1, x) == count_of(targets@.take(j as int), x) + 1);
                        assert(predecessors_of(before, x) + Seq::new(count_of(t1, x), |_k: int| id) =~= prior.push(id));
                        assert(predecessors@[x]@ == pushed);
                    } else {
                        assert(predecessors@[x] == old_map[x]);
                        assert(count_of(t1, x) == count_of(targets@.take(j as int), x));
                    }
                }
            }
            j = j + 1;
        }
        proof {
            assert(targets@.take(j as int) =~= targets@);
            let after = function.blocks@.take(i + 1);
            assert(after.drop_last() =~= before);
            assert(after.last() == function.blocks@[i as int]);
        }
        i = i + 1;
    }
    proof {
        assert(function.blocks@.take(i as int) =~= function.blocks@);
    }
    predecessors
}

/// The ids of a function's blocks.
pub open spec fn block_set(f: MirFunction) -> Set<MirBlockId> {
    Set::new(|b: MirBlockId| exists|i: int| 0 <= i < f.blocks@.len() && (#[trigger] f.blocks@[i]).id == b)
}

/// A table of id lists, each read as a set.
pub open spec fn set_view(table: Map<MirBlockId, Vec<MirBlockId>>) -> Map<MirBlockId, Set<MirBlockId>> {
    Map::new(|k: MirBlockId| table.contains_key(k), |k: MirBlockId| table[k]@.to_set())
}

/// The predecessors a table lists for `b` (none without an entry).
pub open spec fn listed_predecessors(preds: Map<MirBlockId, Vec<MirBlockId>>, b: MirBlockId) -> Seq<MirBlockId> {
    if preds.contains_key(b) {
        preds[b]@
    } else {
        Seq::empty()
    }
}

/// What the blocks `ps` share as dominators: those of the first (none when
/// it has no entry), narrowed by those of each later block that has one.
pub open spec fn shared_dominators(d: Map<MirBlockId, Set<MirBlockId>>, ps: Seq<MirBlockId>) -> Set<MirBlockId>
    decreases ps.len(),
{
    if ps.len() <= 1 {
        if ps.len() == 1 && d.contains_key(ps[0]) {
            d[ps[0]]
        } else {
            Set::empty()
        }
    } else {
        let rest = shared_dominators(d, ps.drop_last());
        if d.contains_key(ps.last()) {
            rest.intersect(d[ps.last()])
        } else {
            rest
        }
    }
}

/// One step of the dominator equations at `b`: `b` itself and what its
/// predecessors share.
pub open spec fn dominator_step(
    preds: Map<MirBlockId, Vec<MirBlockId>>,
    d: Map<MirBlockId, Set<MirBlockId>>,
    b: MirBlockId,
) -> Set<MirBlockId> {
    shared_dominators(d, listed_predecessors(preds, b)).insert(b)
}

/// `d1` gives each block no more than `d2` does.
pub open spec fn at_most(d1: Map<MirBlockId, Set<MirBlockId>>, d2: Map<MirBlockId, Set<MirBlockId>>) -> bool {
    &&& d1.dom() == d2.dom()
    &&& forall|k: MirBlockId| #[trigger] d1.contains_key(k) ==> d1[k].subset_of(d2[k])
}

/// `d` solves the dominator equations of `f` over the predecessor table:
/// every block has a set of blocks, the entry only itself, and every other
/// block exactly its step.
pub open spec fn dominator_solution(
    f: MirFunction,
    preds: Map<MirBlockId, Vec<MirBlockId>>,
    d: Map<MirBlockId, Set<MirBlockId>>,
) -> bool {
    &&& d.dom() == block_set(f)
    &&& forall|b: MirBlockId| #[trigger] d.contains_key(b) ==> d[b].subset_of(block_set(f))
    &&& block_set(f).contains(f.entry_block) ==> d[f.entry_block] == set![f.entry_block]
    &&& forall|b: MirBlockId| #[trigger] d.contains_key(b) && b != f.entry_block ==> d[b] == dominator_step(preds, d, b)
}

proof fn lemma_shared_monotone(d1: Map<MirBlockId, Set<MirBlockId>>, d2: Map<MirBlockId, Set<MirBlockId>>, ps: Seq<MirBlockId>)
    requires
        at_most(d1, d2),
    ensures
        shared_dominators(d1, ps).subset_of(shared_dominators(d2, ps)),
    decreases ps.len(),
{
    if ps.len() > 1 {
        lemma_shared_monotone(d1, d2, ps.drop_last());
        if d1.contains_key(ps.last()) {
            assert(d2.contains_key(ps.last()));
        }
    } else if ps.len() == 1 && d1.contains_key(ps[0]) {
        assert(d1[ps[0]].subset_of(d2[ps[0]]));
    }
}

/// The step only shrinks when the sets it reads shrink.
pub proof fn lemma_step_monotone(
    preds: Map<MirBlockId, Vec<MirBlockId>>,
    d1: Map<MirBlockId, Set<MirBlockId>>,
    d2: Map<MirBlockId, Set<MirBlockId>>,
    b: MirBlockId,
)
    requires
        at_most(d1, d2),
    ensures
        dominator_step(preds, d1, b).subset_of(dominator_step(preds, d2, b)),
{
    lemma_shared_monotone(d1, d2, listed_predecessors(preds, b));
}

proof fn lemma_shared_within(d: Map<MirBlockId, Set<MirBlockId>>, ps: Seq<MirBlockId>, s: Set<MirBlockId>)
    requires
        forall|k: MirBlockId| #[trigger] d.contains_key(k) ==> d[k].subset_of(s),
    ensures
        shared_dominators(d, ps).subset_of(s),
    decreases ps.len(),
{
    if ps.len() > 1 {
        lemma_shared_within(d, ps.drop_last(), s);
    }
}

/// The sum of the lengths of the lists a table holds for `ids`.
pub open spec fn total_len(m: Map<MirBlockId, Vec<MirBlockId>>, ids: Seq<MirBlockId>) -> nat
    decreases ids.len(),
{
    if ids.len() == 0 {
        0
    } else {
        total_len(m, ids.drop_last()) + m[ids.last()]@.len()
    }
}

proof fn lemma_total_len_insert(m: Map<MirBlockId, Vec<MirBlockId>>, ids: Seq<MirBlockId>, b: MirBlockId, v: Vec<MirBlockId>)
    requires
        ids.no_duplicates(),
    ensures
        ids.contains(b) ==> total_len(m.insert(b, v), ids) + m[b]@.len() == total_len(m, ids) + v@.len(),
        !ids.contains(b) ==> total_len(m.insert(b, v), ids) == total_len(m, ids),
    decreases ids.len(),
{
    if ids.len() > 0 {
        let rest = ids.drop_last();
        assert(rest.no_duplicates());
        lemma_total_len_insert(m, rest, b, v);
        if ids.last() == b {
            assert(!rest.contains(b));
        } else {
            if ids.contains(b) {
                let i = choose|i: int| 0 <= i < ids.len() && ids[i] == b;
                assert(rest[i] == b);
            }
            if rest.contains(b) {
                let i = choose|i: int| 0 <= i < rest.len() && rest[i] == b;
                assert(ids[i] == b);
            }
        }
    }
}

fn list_contains(v: &Vec<MirBlockId>, x: MirBlockId) -> (r: bool)
    ensures
        r == v@.contains(x),
{
    let mut i: usize = 0;
    while i < v.len()
        invariant
            i <= v@.len(),
            forall|k: int| 0 <= k < i ==> v@[k] != x,
        decreases v.len() - i,
    {
        if v[i] == x {
            return true;
        }
        i = i + 1;
    }
    false
}

/// The items of `a` that `b` also holds, in the order of `a`.
fn keep_common(a: &Vec<MirBlockId>, b: &Vec<MirBlockId>) -> (r: Vec<MirBlockId>)
    requires
        a@.no_duplicates(),
    ensures
        r@.no_duplicates(),
        r@.to_set() == a@.to_set().intersect(b@.to_set()),
{
    let mut r: Vec<MirBlockId> = Vec::new();
    let mut i: usize = 0;
    while i < a.len()
        invariant
            i <= a@.len(),
            a@.no_duplicates(),
            r@.no_duplicates(),
            forall|x: MirBlockId| r@.contains(x) <==> (a@.take(i as int).contains(x) && b@.contains(x)),
        decreases a.len() - i,
    {
        let x = a[i];
        proof {
            assert(a@.take(i + 1) =~= a@.take(i as int).push(x));
        }
        if list_contains(b, x) {
            proof {
                assert(!a@.take(i as int).contains(x)) by {
                    if a@.take(i as int).contains(x) {
                        let k = choose|k: int| 0 <= k < i && a@.take(i as int)[k] == x;
                        assert(a@[k] == a@[i as int]);
                    }
                }
            }
            r.push(x);
        }
        i = i + 1;
    }
    proof {
        assert(a@.take(i as int) =~= a@);
        assert(r@.to_set() =~= a@.to_set().intersect(b@.to_set()));
    }
    r
}

/// The distinct block ids, in the order the blocks come.
fn distinct_block_ids(function: &MirFunction) -> (r: Vec<MirBlockId>)
    ensures
        r@.no_duplicates(),
        r@.to_set() == block_set(*function),
{
    let mut r: Vec<MirBlockId> = Vec::new();
    let mut i: usize = 0;
    while i < function.blocks.len()
        invariant
            i <= function.blocks@.len(),
            r@.no_duplicates(),
            forall|x: MirBlockId| r@.contains(x) <==> exists|k: int| 0 <= k < i && (#[trigger] function.blocks@[k]).id == x,
        decreases function.blocks.len() - i,
    {
        let id = function.blocks[i].id;
        if !list_contains(&r, id) {
            r.push(id);
        }
        proof {
            assert forall|x: MirBlockId| r@.contains(x) <==> exists|k: int| 0 <= k < i + 1 && (#[trigger] function.blocks@[k]).id == x by {
                if x == id {
                    assert(function.blocks@[i as int].id == x);
                }
            }
        }
        i = i + 1;
    }
    proof {
        assert(r@.to_set() =~= block_set(*function));
    }
    r
}

/// The step of the dominator equations at `block`, over the current table.
fn dominator_step_of(
    predecessors: &BTreeMap<MirBlockId, Vec<MirBlockId>>,
    dominators: &BTreeMap<MirBlockId, Vec<MirBlockId>>,
    block: MirBlockId,
) -> (r: Vec<MirBlockId>)
    requires
        forall|k: MirBlockId| #[trigger] dominators@.contains_key(k) ==> dominators@[k]@.no_duplicates(),
    ensures
        r@.no_duplicates(),
        r@.to_set() == dominator_step(predecessors@, set_view(dominators@), block),
{
    let ghost d = set_view(dominators@);
    let ps: Vec<MirBlockId> = match predecessors.get(&block) {
        Some(list) => copy_ids(list),
        None => Vec::new(),
    };
    assert(ps@ == listed_predecessors(predecessors@, block));
    let mut next: Vec<MirBlockId> = Vec::new();
    if ps.len() > 0 {
        match dominators.get(&ps[0]) {
            Some(first) => {
                next = copy_ids(first);
            },
            None => {},
        }
        proof {
            assert(ps@.take(1).len() == 1);
            assert(ps@.take(1)[0] == ps@[0]);
            assert(next@.to_set() =~= shared_dominators(d, ps@.take(1)));
        }
    }
    let mut q: usize = 1;
    while q < ps.len()
        invariant
            1 <= q,
            ps@.len() > 0 ==> q <= ps@.len(),
            ps@.len() == 0 ==> next@ == Seq::<MirBlockId>::empty(),
            d == set_view(dominators@),
            forall|k: MirBlockId| #[trigger] dominators@.contains_key(k) ==> dominators@[k]@.no_duplicates(),
            next@.no_duplicates(),
            ps@.len() > 0 ==> next@.to_set() == shared_dominators(d, ps@.take(q as int)),
        decreases ps.len() - q,
    {
        let ghost before = next@;
        match dominators.get(&ps[q]) {
            Some(other) => {
                next = keep_common(&next, other);
            },
            None => {},
        }
        proof {
            let t = ps@.take(q + 1);
            assert(t.drop_last() =~= ps@.take(q as int));
            assert(t.last() == ps@[q as int]);
        }
        q = q + 1;
    }
    proof {
        if ps@.len() > 0 {
            assert(ps@.take(q as int) =~= ps@);
        } else {
            assert(next@.to_set() =~= Set::<MirBlockId>::empty());
        }
    }
    if !list_contains(&next, block) {
        next.push(block);
    }
    proof {
        assert(next@.to_set() =~= dominator_step(predecessors@, d, block));
    }
    next
}

/// What the dominator table keeps while it is narrowed: every block has a
/// list without repeats, within the blocks; the entry only itself; no step
/// gives a block more than it has; and no solution gives a block more.
pub open spec fn narrowing(
    f: MirFunction,
    preds: Map<MirBlockId, Vec<MirBlockId>>,
    ids: Seq<MirBlockId>,
    table: Map<MirBlockId, Vec<MirBlockId>>,
) -> bool {
    &&& ids.no_duplicates()
    &&& ids.to_set() == block_set(f)
    &&& table.dom() == block_set(f)
    &&& forall|b: MirBlockId| #[trigger] table.contains_key(b) ==> table[b]@.no_duplicates()
    &&& forall|b: MirBlockId| #[trigger] table.contains_key(b) ==> table[b]@.to_set().subset_of(block_set(f))
    &&& block_set(f).contains(f.entry_block) ==> table[f.entry_block]@.to_set() == set![f.entry_block]
    &&& forall|b: MirBlockId| #[trigger] table.contains_key(b) && b != f.entry_block ==> dominator_step(
        preds,
        set_view(table),
        b,
    ).subset_of(set_view(table)[b])
    &&& forall|d: Map<MirBlockId, Set<MirBlockId>>| #[trigger] dominator_solution(f, preds, d) ==> at_most(d, set_view(table))
}

proof fn lemma_narrowing_update(
    f: MirFunction,
    preds: Map<MirBlockId, Vec<MirBlockId>>,
    ids: Seq<MirBlockId>,
    table: Map<MirBlockId, Vec<MirBlockId>>,
    b: MirBlockId,
    next: Vec<MirBlockId>,
)
    requires
        narrowing(f, preds, ids, table),
        table.contains_key(b),
        b != f.entry_block,
        next@.no_duplicates(),
        next@.to_set() == dominator_step(preds, set_view(table), b),
    ensures
        narrowing(f, preds, ids, table.insert(b, next)),
        at_most(set_view(table.insert(b, next)), set_view(table)),
{
    let d = set_view(table);
    let t2 = table.insert(b, next);
    let d2 = set_view(t2);
    assert(d2 =~= d.insert(b, next@.to_set()));
    assert(t2.dom() =~= table.dom());
    assert(at_most(d2, d));
    assert forall|c: MirBlockId| #[trigger] t2.contains_key(c) && c != f.entry_block implies dominator_step(
        preds,
        d2,
        c,
    ).subset_of(d2[c]) by {
        lemma_step_monotone(preds, d2, d, c);
    }
    assert forall|s: Map<MirBlockId, Set<MirBlockId>>| #[trigger] dominator_solution(f, preds, s) implies at_most(s, d2) by {
        assert(at_most(s, d));
        lemma_step_monotone(preds, s, d, b);
        assert(s.contains_key(b));
    }
    assert forall|c: MirBlockId| #[trigger] t2.contains_key(c) implies t2[c]@.to_set().subset_of(block_set(f)) by {
        if c == b {
            assert(d[b].subset_of(block_set(f)));
        }
    }
}

/// The dominators of every block: the greatest solution of the dominator
/// equations, found by narrowing each block's set, from all blocks (the
/// entry: itself), to its step until no step narrows any.
pub fn mir_dominators(
    function: &MirFunction,
    predecessors: &BTreeMap<MirBlockId, Vec<MirBlockId>>,
) -> (r: BTreeMap<MirBlockId, Vec<MirBlockId>>)
    ensures
        dominator_solution(*function, predecessors@, set_view(r@)),
        forall|d: Map<MirBlockId, Set<MirBlockId>>| #[trigger] dominator_solution(*function, predecessors@, d) ==> at_most(
            d,
            set_view(r@),
        ),
        forall|b: MirBlockId| #[trigger] r@.contains_key(b) ==> r@[b]@.no_duplicates(),
{
    let ids = distinct_block_ids(function);
    let entry = function.entry_block;
    let ghost blocks = block_set(*function);
    let mut dominators: BTreeMap<MirBlockId, Vec<MirBlockId>> = BTreeMap::new();
    let mut k: usize = 0;
    while k < ids.len()
        invariant
            k <= ids@.len(),
            ids@.no_duplicates(),
            ids@.to_set() == blocks,
            blocks == block_set(*function),
            entry == function.entry_block,
            forall|b: MirBlockId| #[trigger] dominators@.contains_key(b) <==> ids@.take(k as int).contains(b),
            forall|b: MirBlockId| #[trigger] dominators@.contains_key(b) ==> dominators@[b]@ == (if b == entry {
                seq![entry]
            } else {
                ids@
            }),
        decreases ids.len() - k,
    {
        let id = ids[k];
        let initial = if id == entry {
            vec![entry]
        } else {
            copy_ids(&ids)
        };
        dominators.insert(id, initial);
        proof {
            assert(ids@.take(k + 1) =~= ids@.take(k as int).push(id));
        }
        k = k + 1;
    }
    proof {
        assert(ids@.take(k as int) =~= ids@);
        let d = set_view(dominators@);
        assert(dominators@.dom() =~= blocks);
        assert forall|b: MirBlockId| #[trigger] dominators@.contains_key(b) implies dominators@[b]@.no_duplicates() by {
            if b == entry {
                assert(dominators@[b]@ == seq![entry]);
            }
        }
        assert forall|b: MirBlockId| #[trigger] dominators@.contains_key(b) implies dominators@[b]@.to_set().subset_of(
            blocks,
        ) by {
            if b == entry {
                assert(seq![entry].to_set() =~= set![entry]);
            }
        }
        if blocks.contains(entry) {
            assert(seq![entry].to_set() =~= set![entry]);
        }
        assert forall|b: MirBlockId| #[trigger] dominators@.contains_key(b) && b != entry implies dominator_step(
            predecessors@,
            d,
            b,
        ).subset_of(d[b]) by {
            lemma_shared_within(d, listed_predecessors(predecessors@, b), blocks);
        }
        assert forall|s: Map<MirBlockId, Set<MirBlockId>>| #[trigger] dominator_solution(*function, predecessors@, s) implies at_most(
            s,
            d,
        ) by {
            assert(d.dom() =~= blocks);
            assert(s.dom() == blocks);
            assert forall|c: MirBlockId| #[trigger] s.contains_key(c) implies s[c].subset_of(d[c]) by {
                assert(blocks.contains(c));
                assert(dominators@.contains_key(c));
                if c == entry {
                    assert(seq![entry].to_set() =~= set![entry]);
                    assert(d[c] == seq![entry].to_set());
                } else {
                    assert(d[c] == ids@.to_set());
                    assert(s[c].subset_of(blocks));
                }
            }
        }
    }
    loop
        invariant
            narrowing(*function, predecessors@, ids@, dominators@),
            entry == function.entry_block,
        decreases total_len(dominators@, ids@),
    {
        let ghost start = dominators@;
        let mut changed = false;
        let mut k: usize = 0;
        while k < ids.len()
            invariant
                k <= ids@.len(),
                narrowing(*function, predecessors@, ids@, dominators@),
                entry == function.entry_block,
                !changed ==> dominators@ == start,
                changed ==> total_len(dominators@, ids@) < total_len(start, ids@),
                total_len(dominators@, ids@) <= total_len(start, ids@),
                !changed ==> forall|j: int| 0 <= j < k && ids@[j] != entry ==> set_view(dominators@)[ids@[j]]
                    == #[trigger] dominator_step(predecessors@, set_view(dominators@), ids@[j]),
            decreases ids.len() - k,
        {
            let block = ids[k];
            proof {
                assert(ids@.to_set().contains(block));
            }
            if block != entry {
                let next = dominator_step_of(predecessors, &dominators, block);
                let current = match dominators.get(&block) {
                    Some(list) => list.len(),
                    None => 0,
                };
                let ghost d = set_view(dominators@);
                proof {
                    assert(dominators@.contains_key(block));
                    assert(current == dominators@[block]@.len());
                    next@.unique_seq_to_set();
                    dominators@[block]@.unique_seq_to_set();
                    lemma_len_subset(next@.to_set(), d[block]);
                }
                if next.len() < current {
                    let ghost table = dominators@;
                    proof {
                        lemma_narrowing_update(*function, predecessors@, ids@, table, block, next);
                        lemma_total_len_insert(table, ids@, block, next);
                    }
                    dominators.insert(block, next);
                    changed = true;
                } else {
                    proof {
                        lemma_subset_equality(next@.to_set(), d[block]);
                    }
                }
            }
            k = k + 1;
        }
        if !changed {
            proof {
                let d = set_view(dominators@);
                assert forall|b: MirBlockId| #[trigger] d.contains_key(b) && b != entry implies d[b]
                    == dominator_step(predecessors@, d, b) by {
                    assert(ids@.to_set().contains(b));
                    let j = choose|j: int| 0 <= j < ids@.len() && ids@[j] == b;
                    assert(ids@[j] != entry);
                }
                assert(d.dom() =~= block_set(*function));
                if block_set(*function).contains(entry) {
                    assert(d[entry] == dominators@[entry]@.to_set());
                }
                assert(at_most(d, d));
            }
            return dominators;
        }
    }
}

} // verus!
