//! What the breadth-first reveal search has covered when it stops: every
//! search state it keeps is either waiting in its queue or expanded, so when
//! the queue runs dry within budget, no capped plan gains more than the best
//! plan it recorded, and none that gains as much is shorter.
use vstd::prelude::*;
use crate::board::{BoardState, Move, replay, legal_plan};
use crate::search::{Node, ROOT, path, arena_ok, lemma_path_push, lemma_legal_prefix};
use crate::advisor::{
    MAX_CONSEC_REVERSIBLE, made_progress, rev_run, row_known, capped, deals_planned, deal_free, reward, allowed,
    expandable,
};
use crate::dfs::{hash_separates, reaches};

verus! {

/// The key of a search state: the board's hash and the run of reversible
/// moves that led to it.
pub open spec fn state_key(h: u64, run: u32) -> u128 {
    (h as u128 + run as u128 * 0x1_0000_0000_0000_0000) as u128
}

/// Distinct states have distinct keys.
pub proof fn lemma_state_key_injective(h1: u64, r1: u32, h2: u64, r2: u32)
    requires
        state_key(h1, r1) == state_key(h2, r2),
    ensures
        h1 == h2,
        r1 == r2,
{
    assert(h1 as int + r1 as int * 0x1_0000_0000_0000_0000 == h2 as int + r2 as int * 0x1_0000_0000_0000_0000);
    if r1 < r2 {
        assert(r1 as int * 0x1_0000_0000_0000_0000 + 0x1_0000_0000_0000_0000 <= r2 as int * 0x1_0000_0000_0000_0000);
    } else if r2 < r1 {
        assert(r2 as int * 0x1_0000_0000_0000_0000 + 0x1_0000_0000_0000_0000 <= r1 as int * 0x1_0000_0000_0000_0000);
    }
}

/// The board at tree node `i`.
pub open spec fn nboard(s: BoardState, a: Seq<Node>, i: int) -> BoardState {
    replay(s, path(a, i))
}

/// How many moves lead to tree node `i`.
pub open spec fn ndepth(a: Seq<Node>, i: int) -> int {
    path(a, i).len() as int
}

/// Node `i` was reached by a deal that turned up cards nobody had seen: it is
/// recorded, never expanded.
pub open spec fn terminal(s: BoardState, a: Seq<Node>, i: int) -> bool {
    i > 0 && !expandable(s, path(a, i))
}

/// A deal onto an unknown row is a terminal step.
pub open spec fn terminal_step(b: BoardState, m: Move) -> bool {
    m == Move::Deal && !row_known(b)
}

/// The run of reversible moves after playing `m` from `b` with `run` before.
pub open spec fn next_run(b: BoardState, m: Move, run: int) -> int {
    if made_progress(b, b.after(m)) {
        0
    } else {
        run + 1
    }
}

/// Move `m` from node `i` is one the search would take, and its outcome is
/// recorded in the tree at most one level deeper: as that very board for a
/// terminal deal, else as a kept state with the same hash and run.
pub open spec fn covered(s: BoardState, allow_deals: bool, a: Seq<Node>, revs: Seq<u32>, i: int, m: Move) -> bool {
    let b = nboard(s, a, i);
    let child = b.after(m);
    b.moves().contains(m) && allowed(m, allow_deals) && (made_progress(b, child) || revs[i] < MAX_CONSEC_REVERSIBLE)
        ==> if terminal_step(b, m) {
        exists|j: int| 0 <= j < a.len() && #[trigger] nboard(s, a, j) == child && ndepth(a, j) <= ndepth(a, i) + 1
    } else {
        exists|j: int|
            0 <= j < a.len() && !terminal(s, a, j) && (#[trigger] nboard(s, a, j)).hash() == child.hash() && revs[j]
                == next_run(b, m, revs[i] as int) && ndepth(a, j) <= ndepth(a, i) + 1
    }
}

/// The search's bookkeeping while it runs (`cur` is the node being expanded,
/// or -1 between expansions; `dlast` the depth of the last node taken from
/// the queue):
/// - every kept key belongs to a non-terminal node;
/// - an expanded node is non-terminal and covers all its moves;
/// - every other non-terminal node but `cur` waits in the queue;
/// - the queue holds non-terminal nodes in order of depth, none shallower
///   than `dlast`, and no node lies deeper than `dlast + 1`;
/// - nodes come in order of depth.
#[verifier::opaque]
pub open spec fn bfs_ok(
    s: BoardState,
    allow_deals: bool,
    a: Seq<Node>,
    revs: Seq<u32>,
    keys: Set<u128>,
    queue: Seq<u32>,
    expanded: Set<int>,
    dlast: int,
    cur: int,
) -> bool {
    &&& forall|k: u128|
        keys.contains(k) ==> exists|j: int|
            0 <= j < a.len() && !terminal(s, a, j) && k == state_key((#[trigger] nboard(s, a, j)).hash(), revs[j])
    &&& forall|i: int|
        0 <= i < a.len() && #[trigger] expanded.contains(i) ==> !terminal(s, a, i) && forall|m: Move|
            #[trigger] covered(s, allow_deals, a, revs, i, m)
    &&& forall|i: int|
        0 <= i < a.len() && !expanded.contains(i) && !terminal(s, a, i) && i != cur ==> #[trigger] queue.contains(
            i as u32,
        )
    &&& forall|x: int| 0 <= x < queue.len() ==> (#[trigger] queue[x]) < a.len() && !terminal(s, a, queue[x] as int)
        && dlast <= ndepth(a, queue[x] as int)
    &&& forall|x: int, y: int| 0 <= x < y < queue.len() ==> ndepth(a, #[trigger] queue[x] as int) <= ndepth(a, #[trigger] queue[y] as int)
    &&& forall|j: int| 0 <= j < a.len() ==> #[trigger] ndepth(a, j) <= dlast + 1
    &&& forall|x: int, y: int| #![trigger ndepth(a, x), ndepth(a, y)] 0 <= x < y < a.len() ==> ndepth(a, x) <= ndepth(a, y)
    &&& cur >= 0 ==> cur < a.len() && !terminal(s, a, cur) && ndepth(a, cur) == dlast && !expanded.contains(cur)
    &&& forall|i: int| #[trigger] expanded.contains(i) ==> 0 <= i < a.len()
    &&& forall|x: int| 0 <= x < queue.len() ==> !expanded.contains(#[trigger] queue[x] as int)
    &&& forall|x: int, y: int| 0 <= x < y < queue.len() ==> #[trigger] queue[x] < #[trigger] queue[y]
    &&& cur >= 0 ==> forall|x: int| 0 <= x < queue.len() ==> #[trigger] queue[x] != cur as u32
    &&& a.len() < ROOT
}

/// The tree before anything is expanded: the root alone, queued, its key kept.
pub proof fn lemma_bfs_start(s: BoardState, allow_deals: bool, a: Seq<Node>, revs: Seq<u32>)
    requires
        a.len() == 1,
        revs.len() == 1,
        revs[0] == 0,
    ensures
        bfs_ok(s, allow_deals, a, revs, set![state_key(s.hash(), 0)], seq![0u32], Set::empty(), 0, -1),
{
    reveal(bfs_ok);
    assert(path(a, 0) == Seq::<Move>::empty());
    assert(nboard(s, a, 0) == s);
    assert(seq![0u32].contains(0u32)) by {
        assert(seq![0u32][0] == 0u32);
    }
    assert forall|k: u128| set![state_key(s.hash(), 0)].contains(k) implies exists|j: int|
        0 <= j < a.len() && !terminal(s, a, j) && k == state_key((#[trigger] nboard(s, a, j)).hash(), revs[j]) by {
        assert(nboard(s, a, 0).hash() == s.hash());
    }
}

/// Taking the front of the queue to expand it.
pub proof fn lemma_bfs_pop(
    s: BoardState,
    allow_deals: bool,
    a: Seq<Node>,
    revs: Seq<u32>,
    keys: Set<u128>,
    queue: Seq<u32>,
    expanded: Set<int>,
    dlast: int,
)
    requires
        bfs_ok(s, allow_deals, a, revs, keys, queue, expanded, dlast, -1),
        queue.len() > 0,
    ensures
        bfs_ok(s, allow_deals, a, revs, keys, queue.drop_first(), expanded, ndepth(a, queue[0] as int), queue[0] as int),
        dlast <= ndepth(a, queue[0] as int),
{
    reveal(bfs_ok);
    let idx = queue[0] as int;
    let q = queue.drop_first();
    assert(dlast <= ndepth(a, idx));
    assert forall|i: int| 0 <= i < a.len() && !expanded.contains(i) && !terminal(s, a, i) && i != idx implies #[trigger] q.contains(
        i as u32,
    ) by {
        assert(queue.contains(i as u32));
        let x = choose|x: int| 0 <= x < queue.len() && queue[x] == i as u32;
        assert(x != 0);
        assert(q[x - 1] == i as u32);
    }
    assert forall|x: int| 0 <= x < q.len() implies (#[trigger] q[x]) < a.len() && !terminal(s, a, q[x] as int)
        && ndepth(a, idx) <= ndepth(a, q[x] as int) by {
        assert(q[x] == queue[x + 1]);
        assert(ndepth(a, queue[0] as int) <= ndepth(a, queue[x + 1] as int));
    }
    assert forall|x: int, y: int| 0 <= x < y < q.len() implies ndepth(a, #[trigger] q[x] as int) <= ndepth(a, #[trigger] q[y] as int) by {
        assert(q[x] == queue[x + 1]);
        assert(q[y] == queue[y + 1]);
        assert(ndepth(a, queue[x + 1] as int) <= ndepth(a, queue[y + 1] as int));
    }
    assert forall|x: int| 0 <= x < q.len() implies !expanded.contains(#[trigger] q[x] as int) by {
        assert(q[x] == queue[x + 1]);
    }
    assert forall|x: int, y: int| 0 <= x < y < q.len() implies #[trigger] q[x] < #[trigger] q[y] by {
        assert(q[x] == queue[x + 1]);
        assert(q[y] == queue[y + 1]);
    }
    assert forall|x: int| 0 <= x < q.len() implies #[trigger] q[x] != idx as u32 by {
        assert(q[x] == queue[x + 1]);
        assert(queue[0] < queue[x + 1]);
    }
    assert(!expanded.contains(queue[0] as int));
}

/// A move the search does not take (not allowed, or over the cap of
/// reversible moves) needs nothing recorded.
pub proof fn lemma_bfs_skip(s: BoardState, allow_deals: bool, a: Seq<Node>, revs: Seq<u32>, i: int, m: Move)
    requires
        !allowed(m, allow_deals) || (!made_progress(nboard(s, a, i), nboard(s, a, i).after(m)) && revs[i] >= MAX_CONSEC_REVERSIBLE),
    ensures
        covered(s, allow_deals, a, revs, i, m),
{
}

/// A non-terminal move whose state is already kept is covered by the node
/// that keeps it.
pub proof fn lemma_bfs_seen(
    s: BoardState,
    allow_deals: bool,
    a: Seq<Node>,
    revs: Seq<u32>,
    keys: Set<u128>,
    queue: Seq<u32>,
    expanded: Set<int>,
    cur: int,
    m: Move,
)
    requires
        bfs_ok(s, allow_deals, a, revs, keys, queue, expanded, ndepth(a, cur), cur),
        0 <= cur,
        !terminal_step(nboard(s, a, cur), m),
        0 <= next_run(nboard(s, a, cur), m, revs[cur] as int) <= u32::MAX,
        keys.contains(
            state_key(nboard(s, a, cur).after(m).hash(), next_run(nboard(s, a, cur), m, revs[cur] as int) as u32),
        ),
    ensures
        covered(s, allow_deals, a, revs, cur, m),
{
    reveal(bfs_ok);
    let b = nboard(s, a, cur);
    let rc = next_run(b, m, revs[cur] as int) as u32;
    let k = state_key(b.after(m).hash(), rc);
    let j = choose|j: int| 0 <= j < a.len() && !terminal(s, a, j) && k == state_key((#[trigger] nboard(s, a, j)).hash(), revs[j]);
    lemma_state_key_injective(b.after(m).hash(), rc, nboard(s, a, j).hash(), revs[j]);
    assert(ndepth(a, j) <= ndepth(a, cur) + 1);
}

/// Adding a node leaves the older nodes as they were.
pub proof fn lemma_bfs_older(s: BoardState, a: Seq<Node>, x: Node, i: int)
    requires
        0 <= i < a.len(),
    ensures
        nboard(s, a.push(x), i) == nboard(s, a, i),
        ndepth(a.push(x), i) == ndepth(a, i),
        terminal(s, a.push(x), i) == terminal(s, a, i),
{
    lemma_path_push(a, x, i);
}

/// A move covered before a node is added stays covered.
pub proof fn lemma_covered_grows(
    s: BoardState,
    allow_deals: bool,
    a: Seq<Node>,
    revs: Seq<u32>,
    x: Node,
    r: u32,
    i: int,
    m: Move,
)
    requires
        0 <= i < a.len(),
        revs.len() == a.len(),
        covered(s, allow_deals, a, revs, i, m),
    ensures
        covered(s, allow_deals, a.push(x), revs.push(r), i, m),
{
    let a2 = a.push(x);
    let r2 = revs.push(r);
    lemma_bfs_older(s, a, x, i);
    let b = nboard(s, a, i);
    let child = b.after(m);
    if b.moves().contains(m) && allowed(m, allow_deals) && (made_progress(b, child) || revs[i] < MAX_CONSEC_REVERSIBLE) {
        if terminal_step(b, m) {
            let j = choose|j: int| 0 <= j < a.len() && #[trigger] nboard(s, a, j) == child && ndepth(a, j) <= ndepth(a, i) + 1;
            lemma_bfs_older(s, a, x, j);
            assert(nboard(s, a2, j) == child);
        } else {
            let j = choose|j: int|
                0 <= j < a.len() && !terminal(s, a, j) && (#[trigger] nboard(s, a, j)).hash() == child.hash() && revs[j]
                    == next_run(b, m, revs[i] as int) && ndepth(a, j) <= ndepth(a, i) + 1;
            lemma_bfs_older(s, a, x, j);
            assert(r2[j] == revs[j]);
            assert(nboard(s, a2, j).hash() == child.hash());
        }
    }
}

/// Recording the outcome of move `m` from the node `cur` being expanded as a
/// new node: a terminal deal is only recorded; any other state is also kept
/// and queued.
pub proof fn lemma_bfs_record(
    s: BoardState,
    allow_deals: bool,
    a: Seq<Node>,
    revs: Seq<u32>,
    keys: Set<u128>,
    queue: Seq<u32>,
    expanded: Set<int>,
    cur: int,
    m: Move,
    rc: u32,
)
    requires
        bfs_ok(s, allow_deals, a, revs, keys, queue, expanded, ndepth(a, cur), cur),
        0 <= cur,
        revs.len() == a.len(),
        a.len() + 1 < ROOT,
        rc == next_run(nboard(s, a, cur), m, revs[cur] as int),
    ensures
        ({
            let x = Node { parent: cur as u32, mv: m };
            let a2 = a.push(x);
            let n = a.len() as int;
            let child = nboard(s, a, cur).after(m);
            let t = terminal_step(nboard(s, a, cur), m);
            let keys2 = if t { keys } else { keys.insert(state_key(child.hash(), rc)) };
            let q2 = if t { queue } else { queue.push(n as u32) };
            &&& bfs_ok(s, allow_deals, a2, revs.push(rc), keys2, q2, expanded, ndepth(a2, cur), cur)
            &&& covered(s, allow_deals, a2, revs.push(rc), cur, m)
            &&& nboard(s, a2, n) == child
            &&& ndepth(a2, n) == ndepth(a, cur) + 1
            &&& terminal(s, a2, n) == t
        }),
{
    reveal(bfs_ok);
    let x = Node { parent: cur as u32, mv: m };
    let a2 = a.push(x);
    let r2 = revs.push(rc);
    let n = a.len() as int;
    let b = nboard(s, a, cur);
    let child = b.after(m);
    let t = terminal_step(b, m);
    let keys2 = if t { keys } else { keys.insert(state_key(child.hash(), rc)) };
    let q2 = if t { queue } else { queue.push(n as u32) };
    let d = ndepth(a, cur);
    lemma_bfs_older(s, a, x, cur);
    lemma_path_push(a, x, cur);
    assert(path(a2, n) == path(a2, cur).push(m));
    assert(path(a2, n).drop_last() =~= path(a, cur));
    assert(nboard(s, a2, n) == child);
    assert(ndepth(a2, n) == d + 1);
    assert(terminal(s, a2, n) == t);
    assert forall|i: int| 0 <= i < n implies #[trigger] nboard(s, a2, i) == nboard(s, a, i) && ndepth(a2, i) == ndepth(a, i)
        && terminal(s, a2, i) == terminal(s, a, i) && r2[i] == revs[i] by {
        lemma_bfs_older(s, a, x, i);
    }
    // kept keys
    assert forall|k: u128| keys2.contains(k) implies exists|j: int|
        0 <= j < a2.len() && !terminal(s, a2, j) && k == state_key((#[trigger] nboard(s, a2, j)).hash(), r2[j]) by {
        if !t && k == state_key(child.hash(), rc) {
            assert(k == state_key(nboard(s, a2, n).hash(), r2[n]));
        } else {
            let j = choose|j: int| 0 <= j < a.len() && !terminal(s, a, j) && k == state_key((#[trigger] nboard(s, a, j)).hash(), revs[j]);
            assert(nboard(s, a2, j) == nboard(s, a, j));
        }
    }
    // expanded nodes keep covering
    assert forall|i: int| 0 <= i < a2.len() && #[trigger] expanded.contains(i) implies !terminal(s, a2, i) && forall|mm: Move|
        #[trigger] covered(s, allow_deals, a2, r2, i, mm) by {
        assert(i < n);
        lemma_bfs_older(s, a, x, i);
        assert forall|mm: Move| #[trigger] covered(s, allow_deals, a2, r2, i, mm) by {
            assert(covered(s, allow_deals, a, revs, i, mm));
            lemma_covered_grows(s, allow_deals, a, revs, x, rc, i, mm);
        }
    }
    // waiting nodes
    assert forall|i: int| 0 <= i < a2.len() && !expanded.contains(i) && !terminal(s, a2, i) && i != cur implies #[trigger] q2.contains(
        i as u32,
    ) by {
        if i == n {
            assert(q2[queue.len() as int] == n as u32);
        } else {
            lemma_bfs_older(s, a, x, i);
            assert(queue.contains(i as u32));
            let y = choose|y: int| 0 <= y < queue.len() && queue[y] == i as u32;
            assert(q2[y] == i as u32);
        }
    }
    assert forall|y: int| 0 <= y < q2.len() implies (#[trigger] q2[y]) < a2.len() && !terminal(s, a2, q2[y] as int) && d
        <= ndepth(a2, q2[y] as int) by {
        if y < queue.len() {
            assert(q2[y] == queue[y]);
            lemma_bfs_older(s, a, x, queue[y] as int);
        }
    }
    assert forall|y: int, z: int| 0 <= y < z < q2.len() implies ndepth(a2, #[trigger] q2[y] as int) <= ndepth(a2, #[trigger] q2[z] as int) by {
        assert(q2[y] == queue[y]);
        lemma_bfs_older(s, a, x, queue[y] as int);
        assert(ndepth(a, queue[y] as int) <= d + 1);
        if z < queue.len() {
            assert(q2[z] == queue[z]);
            lemma_bfs_older(s, a, x, queue[z] as int);
        }
    }
    assert forall|j: int| 0 <= j < a2.len() implies #[trigger] ndepth(a2, j) <= d + 1 by {
        if j < n {
            lemma_bfs_older(s, a, x, j);
            assert(ndepth(a, j) <= d + 1);
        }
    }
    assert forall|y: int, z: int| #![trigger ndepth(a2, y), ndepth(a2, z)] 0 <= y < z < a2.len() implies ndepth(a2, y) <= ndepth(a2, z) by {
        lemma_bfs_older(s, a, x, y);
        assert(ndepth(a, y) <= d + 1);
        if z < n {
            lemma_bfs_older(s, a, x, z);
            assert(ndepth(a, y) <= ndepth(a, z));
        }
    }
    assert forall|y: int| 0 <= y < q2.len() implies !expanded.contains(#[trigger] q2[y] as int) by {
        if y < queue.len() {
            assert(q2[y] == queue[y]);
        }
    }
    assert forall|y: int, z: int| 0 <= y < z < q2.len() implies #[trigger] q2[y] < #[trigger] q2[z] by {
        assert(q2[y] == queue[y]);
        if z < queue.len() {
            assert(q2[z] == queue[z]);
        }
    }
    assert forall|y: int| 0 <= y < q2.len() implies #[trigger] q2[y] != cur as u32 by {
        if y < queue.len() {
            assert(q2[y] == queue[y]);
        }
    }
    // the move itself
    if t {
        assert(nboard(s, a2, n) == child && ndepth(a2, n) <= ndepth(a2, cur) + 1);
    } else {
        assert(r2[n] == next_run(b, m, r2[cur] as int));
        assert(nboard(s, a2, n).hash() == child.hash());
    }
    assert(covered(s, allow_deals, a2, r2, cur, m));
    assert(bfs_ok(s, allow_deals, a2, r2, keys2, q2, expanded, ndepth(a2, cur), cur));
}

/// Once every move of `cur` is covered, `cur` counts as expanded.
pub proof fn lemma_bfs_finish(
    s: BoardState,
    allow_deals: bool,
    a: Seq<Node>,
    revs: Seq<u32>,
    keys: Set<u128>,
    queue: Seq<u32>,
    expanded: Set<int>,
    cur: int,
)
    requires
        bfs_ok(s, allow_deals, a, revs, keys, queue, expanded, ndepth(a, cur), cur),
        0 <= cur,
        forall|m: Move| nboard(s, a, cur).moves().contains(m) ==> #[trigger] covered(s, allow_deals, a, revs, cur, m),
    ensures
        bfs_ok(s, allow_deals, a, revs, keys, queue, expanded.insert(cur), ndepth(a, cur), -1),
{
    reveal(bfs_ok);
    let e2 = expanded.insert(cur);
    assert forall|i: int| 0 <= i < a.len() && #[trigger] e2.contains(i) implies !terminal(s, a, i) && forall|m: Move|
        #[trigger] covered(s, allow_deals, a, revs, i, m) by {
        if i == cur {
            assert forall|m: Move| #[trigger] covered(s, allow_deals, a, revs, i, m) by {
                if nboard(s, a, cur).moves().contains(m) {
                }
            }
        }
    }
    assert forall|x: int| 0 <= x < queue.len() implies !e2.contains(#[trigger] queue[x] as int) by {
        assert(queue[x] != cur as u32);
    }
}

/// The plans the reveal search is after: legal, never more than
/// `MAX_CONSEC_REVERSIBLE` reversible moves in a row, going on past a deal
/// only when its row was known, and without deals unless they are allowed.
pub open spec fn search_plan(s: BoardState, p: Seq<Move>, allow_deals: bool) -> bool {
    &&& legal_plan(s, p)
    &&& capped(s, p, MAX_CONSEC_REVERSIBLE as nat)
    &&& deals_planned(s, p)
    &&& (!allow_deals ==> deal_free(p))
}

/// Step `k` of a plan, taken from the board after its first `k` moves.
proof fn lemma_plan_step(s: BoardState, p: Seq<Move>, k: int)
    requires
        s.wf(),
        legal_plan(s, p),
        0 <= k < p.len(),
    ensures
        legal_plan(s, p.take(k)),
        legal_plan(s, p.take(k + 1)),
        replay(s, p.take(k)).moves().contains(p[k]),
        replay(s, p.take(k + 1)) == replay(s, p.take(k)).after(p[k]),
        rev_run(s, p.take(k + 1)) == next_run(replay(s, p.take(k)), p[k], rev_run(s, p.take(k)) as int),
{
    lemma_legal_prefix(s, p, k);
    let q = p.take(k + 1);
    assert(q.drop_last() =~= p.take(k));
    assert(q.last() == p[k]);
    if k + 1 < p.len() {
        lemma_legal_prefix(s, p, k + 1);
    } else {
        assert(q =~= p);
    }
}

/// Once the queue is empty, every state a searched-for plan passes through
/// (before any terminal deal) is kept by a node no deeper than the plan.
proof fn lemma_bfs_reach(
    s: BoardState,
    allow_deals: bool,
    a: Seq<Node>,
    revs: Seq<u32>,
    keys: Set<u128>,
    expanded: Set<int>,
    dlast: int,
    p: Seq<Move>,
    k: int,
)
    requires
        s.wf(),
        bfs_ok(s, allow_deals, a, revs, keys, Seq::empty(), expanded, dlast, -1),
        arena_ok(s, a),
        revs.len() == a.len(),
        forall|i: int| 0 <= i < a.len() ==> #[trigger] revs[i] == rev_run(s, path(a, i)),
        hash_separates(s),
        search_plan(s, p, allow_deals),
        0 <= k <= p.len(),
        forall|j: int| 0 <= j < k ==> !terminal_step(#[trigger] replay(s, p.take(j)), p[j]),
    ensures
        exists|i: int|
            0 <= i < a.len() && !terminal(s, a, i) && #[trigger] nboard(s, a, i) == replay(s, p.take(k)) && revs[i]
                == rev_run(s, p.take(k)) && ndepth(a, i) <= k,
    decreases k,
{
    if k == 0 {
        assert(p.take(0) =~= Seq::<Move>::empty());
        assert(path(a, 0) == Seq::<Move>::empty());
        assert(nboard(s, a, 0) == replay(s, p.take(0)));
        assert(revs[0] == rev_run(s, path(a, 0)));
    } else {
        lemma_bfs_reach(s, allow_deals, a, revs, keys, expanded, dlast, p, k - 1);
        let i = choose|i: int|
            0 <= i < a.len() && !terminal(s, a, i) && #[trigger] nboard(s, a, i) == replay(s, p.take(k - 1)) && revs[i]
                == rev_run(s, p.take(k - 1)) && ndepth(a, i) <= k - 1;
        reveal(bfs_ok);
        if !expanded.contains(i) {
            assert(Seq::<u32>::empty().contains(i as u32));
        }
        let b = nboard(s, a, i);
        let m = p[k - 1];
        lemma_plan_step(s, p, k - 1);
        assert(rev_run(s, p.take(k)) <= MAX_CONSEC_REVERSIBLE);
        if !allow_deals {
            assert(p[k - 1] != Move::Deal);
        }
        assert(covered(s, allow_deals, a, revs, i, m));
        assert(!terminal_step(replay(s, p.take(k - 1)), m));
        let child = b.after(m);
        let j = choose|j: int|
            0 <= j < a.len() && !terminal(s, a, j) && (#[trigger] nboard(s, a, j)).hash() == child.hash() && revs[j]
                == next_run(b, m, revs[i] as int) && ndepth(a, j) <= ndepth(a, i) + 1;
        assert(reaches(s, nboard(s, a, j)));
        assert(reaches(s, child));
        assert(nboard(s, a, j) == child);
    }
}

/// A searched-for plan takes no terminal deal before its last move.
proof fn lemma_planned_steps(s: BoardState, p: Seq<Move>, allow_deals: bool)
    requires
        search_plan(s, p, allow_deals),
    ensures
        forall|j: int| 0 <= j < p.len() - 1 ==> !terminal_step(#[trigger] replay(s, p.take(j)), p[j]),
{
    assert forall|j: int| 0 <= j < p.len() - 1 implies !terminal_step(#[trigger] replay(s, p.take(j)), p[j]) by {
        if p[j] == Move::Deal {
            assert(row_known(replay(s, p.take(j))));
        }
    }
}

/// A plan ending in a terminal deal: the node keeping the state before the
/// deal is expanded, so the deal's outcome is recorded.
proof fn lemma_bfs_terminal_end(
    s: BoardState,
    allow_deals: bool,
    a: Seq<Node>,
    revs: Seq<u32>,
    keys: Set<u128>,
    expanded: Set<int>,
    dlast: int,
    p: Seq<Move>,
    i: int,
)
    requires
        s.wf(),
        bfs_ok(s, allow_deals, a, revs, keys, Seq::empty(), expanded, dlast, -1),
        search_plan(s, p, allow_deals),
        p.len() > 0,
        0 <= i < a.len(),
        !terminal(s, a, i),
        nboard(s, a, i) == replay(s, p.take(p.len() - 1)),
        revs[i] == rev_run(s, p.take(p.len() - 1)),
        ndepth(a, i) <= p.len() - 1,
        terminal_step(replay(s, p.take(p.len() - 1)), p.last()),
    ensures
        exists|f: int| 0 <= f < a.len() && #[trigger] nboard(s, a, f) == replay(s, p) && ndepth(a, f) <= p.len(),
{
    let n = p.len() as int;
    reveal(bfs_ok);
    if !expanded.contains(i) {
        assert(Seq::<u32>::empty().contains(i as u32));
    }
    let m = p[n - 1];
    lemma_plan_step(s, p, n - 1);
    assert(p.take(n) =~= p);
    assert(rev_run(s, p.take(n)) <= MAX_CONSEC_REVERSIBLE);
    if !allow_deals {
        assert(p[n - 1] != Move::Deal);
    }
    assert(covered(s, allow_deals, a, revs, i, m));
    let j = choose|j: int| 0 <= j < a.len() && #[trigger] nboard(s, a, j) == nboard(s, a, i).after(m) && ndepth(a, j) <= ndepth(a, i) + 1;
    assert(nboard(s, a, j) == replay(s, p));
}

/// When the search empties its queue, the end of every searched-for plan is
/// the board of some node no deeper than the plan, provided hashes separate
/// the boards reached.
#[verifier::spinoff_prover]
#[verifier::rlimit(50)]
pub proof fn lemma_bfs_complete(
    s: BoardState,
    allow_deals: bool,
    a: Seq<Node>,
    revs: Seq<u32>,
    keys: Set<u128>,
    expanded: Set<int>,
    dlast: int,
    p: Seq<Move>,
)
    requires
        s.wf(),
        bfs_ok(s, allow_deals, a, revs, keys, Seq::empty(), expanded, dlast, -1),
        arena_ok(s, a),
        revs.len() == a.len(),
        forall|i: int| 0 <= i < a.len() ==> #[trigger] revs[i] == rev_run(s, path(a, i)),
        hash_separates(s),
        search_plan(s, p, allow_deals),
    ensures
        exists|f: int| 0 <= f < a.len() && #[trigger] nboard(s, a, f) == replay(s, p) && ndepth(a, f) <= p.len(),
{
    let n = p.len() as int;
    lemma_planned_steps(s, p, allow_deals);
    if n == 0 || !terminal_step(replay(s, p.take(n - 1)), p[n - 1]) {
        lemma_bfs_reach(s, allow_deals, a, revs, keys, expanded, dlast, p, n);
        let f = choose|i: int|
            0 <= i < a.len() && !terminal(s, a, i) && #[trigger] nboard(s, a, i) == replay(s, p.take(n)) && revs[i]
                == rev_run(s, p.take(n)) && ndepth(a, i) <= n;
        assert(p.take(n) =~= p);
    } else {
        lemma_bfs_reach(s, allow_deals, a, revs, keys, expanded, dlast, p, n - 1);
        let i = choose|i: int|
            0 <= i < a.len() && !terminal(s, a, i) && #[trigger] nboard(s, a, i) == replay(s, p.take(n - 1)) && revs[i]
                == rev_run(s, p.take(n - 1)) && ndepth(a, i) <= n - 1;
        lemma_bfs_terminal_end(s, allow_deals, a, revs, keys, expanded, dlast, p, i);
    }
}

/// Nodes come in order of depth.
pub proof fn lemma_bfs_depth_order(
    s: BoardState,
    allow_deals: bool,
    a: Seq<Node>,
    revs: Seq<u32>,
    keys: Set<u128>,
    queue: Seq<u32>,
    expanded: Set<int>,
    dlast: int,
    cur: int,
    x: int,
    y: int,
)
    requires
        bfs_ok(s, allow_deals, a, revs, keys, queue, expanded, dlast, cur),
        0 <= x <= y < a.len(),
    ensures
        ndepth(a, x) <= ndepth(a, y),
{
    reveal(bfs_ok);
    if x < y {
        assert(ndepth(a, x) <= ndepth(a, y));
    }
}

/// The first `n` moves of `ms` from node `i` are covered.
#[verifier::opaque]
pub open spec fn covered_upto(s: BoardState, allow_deals: bool, a: Seq<Node>, revs: Seq<u32>, i: int, ms: Seq<Move>, n: int) -> bool {
    forall|j: int| 0 <= j < n ==> #[trigger] covered(s, allow_deals, a, revs, i, ms[j])
}

/// One more move covered.
pub proof fn lemma_covered_upto_next(
    s: BoardState,
    allow_deals: bool,
    a: Seq<Node>,
    revs: Seq<u32>,
    i: int,
    ms: Seq<Move>,
    n: int,
)
    requires
        covered_upto(s, allow_deals, a, revs, i, ms, n),
        0 <= n < ms.len(),
        covered(s, allow_deals, a, revs, i, ms[n]),
    ensures
        covered_upto(s, allow_deals, a, revs, i, ms, n + 1),
{
    reveal(covered_upto);
}

/// Adding a node keeps the covered moves covered.
pub proof fn lemma_covered_upto_grows(
    s: BoardState,
    allow_deals: bool,
    a: Seq<Node>,
    revs: Seq<u32>,
    x: Node,
    r: u32,
    i: int,
    ms: Seq<Move>,
    n: int,
)
    requires
        covered_upto(s, allow_deals, a, revs, i, ms, n),
        0 <= i < a.len(),
        revs.len() == a.len(),
    ensures
        covered_upto(s, allow_deals, a.push(x), revs.push(r), i, ms, n),
{
    reveal(covered_upto);
    assert forall|j: int| 0 <= j < n implies #[trigger] covered(s, allow_deals, a.push(x), revs.push(r), i, ms[j]) by {
        lemma_covered_grows(s, allow_deals, a, revs, x, r, i, ms[j]);
    }
}

/// All moves of the node's board covered.
pub proof fn lemma_covered_upto_all(
    s: BoardState,
    allow_deals: bool,
    a: Seq<Node>,
    revs: Seq<u32>,
    i: int,
    ms: Seq<Move>,
)
    requires
        covered_upto(s, allow_deals, a, revs, i, ms, ms.len() as int),
        ms == nboard(s, a, i).moves(),
    ensures
        forall|m: Move| nboard(s, a, i).moves().contains(m) ==> #[trigger] covered(s, allow_deals, a, revs, i, m),
{
    reveal(covered_upto);
    assert forall|m: Move| nboard(s, a, i).moves().contains(m) implies #[trigger] covered(s, allow_deals, a, revs, i, m) by {
        let j = choose|j: int| 0 <= j < ms.len() && ms[j] == m;
        assert(covered(s, allow_deals, a, revs, i, ms[j]));
    }
}

/// Nothing needs covering before the first move.
pub proof fn lemma_covered_upto_zero(s: BoardState, allow_deals: bool, a: Seq<Node>, revs: Seq<u32>, i: int, ms: Seq<Move>)
    ensures
        covered_upto(s, allow_deals, a, revs, i, ms, 0),
{
    reveal(covered_upto);
}

} // verus!
