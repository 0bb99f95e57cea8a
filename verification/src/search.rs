//! Building blocks shared by the searches: a move tree stored as a parent
//! array, and a priority queue for best-first search.
use vstd::prelude::*;
use vstd::multiset::Multiset;
use crate::board::{Board, BoardState, Move, replay, legal_plan, lemma_legal_plan_wf, lemma_step_legal};

verus! {

/// Parent index of the root node.
pub const ROOT: u32 = 0xFFFF_FFFF;

/// A search-tree node, kept tiny: just enough to walk back to the root. The
/// board is not stored; it is rebuilt on demand by replaying moves.
#[derive(Clone, Copy)]
pub struct Node {
    /// `ROOT` for the root.
    pub parent: u32,
    /// Move from the parent into this node (meaningless for the root).
    pub mv: Move,
}

/// The moves from the root down to node `i`.
pub open spec fn path(arena: Seq<Node>, i: int) -> Seq<Move>
    decreases i,
{
    if i <= 0 || i >= arena.len() || arena[i].parent as int >= i {
        Seq::empty()
    } else {
        path(arena, arena[i].parent as int).push(arena[i].mv)
    }
}

/// A well-formed tree over `start`: node 0 is the root, every other node's
/// parent comes before it, and every node's path is a legal plan.
pub open spec fn arena_ok(start: BoardState, arena: Seq<Node>) -> bool {
    &&& arena.len() >= 1
    &&& arena.len() < ROOT
    &&& arena[0].parent == ROOT
    &&& forall|i: int| 1 <= i < arena.len() ==> (#[trigger] arena[i]).parent < i
    &&& forall|i: int| 0 <= i < arena.len() ==> legal_plan(start, #[trigger] path(arena, i))
}

/// Appending a node leaves the paths of the older nodes unchanged.
pub proof fn lemma_path_push(arena: Seq<Node>, x: Node, i: int)
    requires
        0 <= i < arena.len(),
    ensures
        path(arena.push(x), i) == path(arena, i),
    decreases i,
{
    if i > 0 && arena[i].parent < i {
        lemma_path_push(arena, x, arena[i].parent as int);
    }
}

/// Appending a child reached by a listed move keeps the tree well formed.
pub proof fn lemma_arena_push(start: BoardState, arena: Seq<Node>, parent: u32, m: Move)
    requires
        arena_ok(start, arena),
        parent < arena.len(),
        arena.len() + 1 < ROOT,
        replay(start, path(arena, parent as int)).moves().contains(m),
    ensures
        arena_ok(start, arena.push(Node { parent, mv: m })),
        path(arena.push(Node { parent, mv: m }), arena.len() as int) == path(arena, parent as int).push(m),
{
    let x = Node { parent, mv: m };
    let a2 = arena.push(x);
    lemma_path_push(arena, x, parent as int);
    assert forall|i: int| 0 <= i < a2.len() implies legal_plan(start, #[trigger] path(a2, i)) by {
        if i < arena.len() {
            lemma_path_push(arena, x, i);
            assert(legal_plan(start, path(arena, i)));
        } else {
            assert(a2[i] == x);
            crate::board::lemma_legal_plan_push(start, path(arena, parent as int), m);
        }
    }
    assert(a2[arena.len() as int] == x);
}

/// Every prefix of a node's path is the path of a node no later than it, and
/// a proper prefix is the path of an earlier node.
pub proof fn lemma_path_prefix(arena: Seq<Node>, i: int, j: int) -> (a: int)
    requires
        arena.len() >= 1,
        arena[0].parent == ROOT,
        forall|k: int| 1 <= k < arena.len() ==> (#[trigger] arena[k]).parent < k,
        0 <= i < arena.len(),
        0 <= j <= path(arena, i).len(),
    ensures
        0 <= a <= i,
        path(arena, a) == path(arena, i).take(j),
        j < path(arena, i).len() ==> a < i,
    decreases i,
{
    if j == path(arena, i).len() {
        assert(path(arena, i).take(j) =~= path(arena, i));
        i
    } else {
        let p = arena[i].parent as int;
        let a = lemma_path_prefix(arena, p, j);
        assert(path(arena, i).take(j) =~= path(arena, p).take(j));
        a
    }
}

/// Every prefix of a legal plan is legal, and the next move is listed there.
pub proof fn lemma_legal_prefix(s: BoardState, p: Seq<Move>, j: int)
    requires
        legal_plan(s, p),
        0 <= j < p.len(),
    ensures
        legal_plan(s, p.take(j)),
        replay(s, p.take(j)).moves().contains(p[j]),
    decreases p.len(),
{
    if j == p.len() - 1 {
        assert(p.take(j) =~= p.drop_last());
    } else {
        lemma_legal_prefix(s, p.drop_last(), j);
        assert(p.drop_last().take(j) =~= p.take(j));
    }
}

/// A prefix of a legal plan is legal, and from a well-formed board it ends on
/// a well-formed board.
pub proof fn lemma_legal_prefix_wf(s: BoardState, p: Seq<Move>, j: int)
    requires
        s.wf(),
        legal_plan(s, p),
        0 <= j <= p.len(),
    ensures
        legal_plan(s, p.take(j)),
        replay(s, p.take(j)).wf(),
{
    if j < p.len() {
        lemma_legal_prefix(s, p, j);
    } else {
        assert(p.take(j) =~= p);
    }
    lemma_legal_plan_wf(s, p.take(j));
}

/// Replaying one more move of a plan.
pub proof fn lemma_replay_take(s: BoardState, p: Seq<Move>, j: int)
    requires
        0 <= j < p.len(),
    ensures
        replay(s, p.take(j + 1)) == replay(s, p.take(j)).after(p[j]),
{
    assert(p.take(j + 1).drop_last() =~= p.take(j));
}

/// Play the moves of `moves` in order on `board`.
pub fn play_all(board: &mut Board, moves: &Vec<Move>)
    requires
        old(board)@.wf(),
        legal_plan(old(board)@, moves@),
    ensures
        final(board)@ == replay(old(board)@, moves@),
        final(board)@.wf(),
{
    let ghost s = board@;
    let mut k: usize = 0;
    while k < moves.len()
        invariant
            s.wf(),
            legal_plan(s, moves@),
            k <= moves@.len(),
            board@ == replay(s, moves@.take(k as int)),
            board@.wf(),
        decreases moves@.len() - k,
    {
        proof {
            lemma_legal_prefix(s, moves@, k as int);
            lemma_step_legal(board@, moves@[k as int]);
            lemma_replay_take(s, moves@, k as int);
        }
        board.make(moves[k]);
        k = k + 1;
    }
    assert(moves@.take(moves@.len() as int) =~= moves@);
}

/// Walk parent links from `idx` to the root, collecting the moves (last move first).
fn moves_back(arena: &Vec<Node>, idx: u32) -> (rev: Vec<Move>)
    requires
        arena@.len() >= 1,
        arena@.len() < ROOT,
        arena@[0].parent == ROOT,
        forall|i: int| 1 <= i < arena@.len() ==> (#[trigger] arena@[i]).parent < i,
        idx < arena@.len(),
    ensures
        rev@.len() == path(arena@, idx as int).len(),
        forall|t: int| 0 <= t < rev@.len() ==> #[trigger] rev@[t] == path(arena@, idx as int)[rev@.len() - 1 - t],
{
    let mut rev: Vec<Move> = Vec::new();
    let mut i = idx;
    let ghost mut suffix: Seq<Move> = Seq::empty();
    while arena[i as usize].parent != ROOT
        invariant
            arena@.len() >= 1,
            arena@.len() < ROOT,
            arena@[0].parent == ROOT,
            forall|j: int| 1 <= j < arena@.len() ==> (#[trigger] arena@[j]).parent < j,
            i < arena@.len(),
            path(arena@, idx as int) == path(arena@, i as int) + suffix,
            rev@.len() == suffix.len(),
            forall|t: int| 0 <= t < rev@.len() ==> #[trigger] rev@[t] == suffix[suffix.len() - 1 - t],
        decreases i,
    {
        let node = arena[i as usize];
        assert(i > 0);
        proof {
            assert(path(arena@, i as int) == path(arena@, node.parent as int).push(node.mv));
            assert(path(arena@, node.parent as int).push(node.mv) + suffix =~= path(arena@, node.parent as int) + seq![node.mv].add(suffix));
            suffix = seq![node.mv].add(suffix);
        }
        rev.push(node.mv);
        i = node.parent;
    }
    assert(i == 0);
    assert(path(arena@, idx as int) =~= suffix);
    rev
}

/// The moves from the root down to `idx`, in order.
pub fn path_to(arena: &Vec<Node>, idx: u32) -> (moves: Vec<Move>)
    requires
        arena@.len() >= 1,
        arena@.len() < ROOT,
        arena@[0].parent == ROOT,
        forall|i: int| 1 <= i < arena@.len() ==> (#[trigger] arena@[i]).parent < i,
        idx < arena@.len(),
    ensures
        moves@ == path(arena@, idx as int),
{
    let rev = moves_back(arena, idx);
    let mut out: Vec<Move> = Vec::new();
    let mut k = rev.len();
    while k > 0
        invariant
            k <= rev@.len(),
            rev@.len() == path(arena@, idx as int).len(),
            forall|t: int| 0 <= t < rev@.len() ==> #[trigger] rev@[t] == path(arena@, idx as int)[rev@.len() - 1 - t],
            out@ == path(arena@, idx as int).take(rev@.len() - k),
        decreases k,
    {
        out.push(rev[k - 1]);
        k = k - 1;
        assert(out@ =~= path(arena@, idx as int).take(rev@.len() - k));
    }
    assert(out@ =~= path(arena@, idx as int));
    out
}

/// The moves from the root down to `idx`, then `last`.
pub fn reconstruct(arena: &Vec<Node>, idx: u32, last: Move) -> (moves: Vec<Move>)
    requires
        arena@.len() >= 1,
        arena@.len() < ROOT,
        arena@[0].parent == ROOT,
        forall|i: int| 1 <= i < arena@.len() ==> (#[trigger] arena@[i]).parent < i,
        idx < arena@.len(),
    ensures
        moves@ == path(arena@, idx as int).push(last),
{
    let mut moves = path_to(arena, idx);
    moves.push(last);
    moves
}

/// Rebuild a node's board by replaying its path from the root.
pub fn board_at(start: &Board, arena: &Vec<Node>, idx: u32) -> (b: Board)
    requires
        start@.wf(),
        arena_ok(start@, arena@),
        idx < arena@.len(),
    ensures
        b@ == replay(start@, path(arena@, idx as int)),
        b@.wf(),
{
    let moves = path_to(arena, idx);
    let mut board = start.clone();
    play_all(&mut board, &moves);
    board
}


/// An entry of the open set: `(priority, g, node index)`.
pub type Entry = (u32, u32, u32);

/// Whether `a` leaves the open set no later than `b`: lower priority first;
/// on a tie, larger `g` first; then larger node index first.
pub open spec fn ahead(a: Entry, b: Entry) -> bool {
    a.0 < b.0 || (a.0 == b.0 && (a.1 > b.1 || (a.1 == b.1 && a.2 >= b.2)))
}

pub open spec fn parent_of(i: int) -> int {
    (i - 1) / 2
}

/// The heap order: every entry's parent leaves no later than it.
pub open spec fn heap_ordered(v: Seq<Entry>) -> bool {
    forall|i: int| 1 <= i < v.len() ==> ahead(v[parent_of(i)], #[trigger] v[i])
}

proof fn lemma_root_first(v: Seq<Entry>, i: int)
    requires
        heap_ordered(v),
        0 <= i < v.len(),
    ensures
        ahead(v[0], v[i]),
    decreases i,
{
    if i > 0 {
        lemma_root_first(v, parent_of(i));
    }
}

/// A priority queue of search entries: `pop` returns an entry that leaves no
/// later than any other (a binary heap over a vector).
pub struct OpenSet {
    items: Vec<Entry>,
}

impl OpenSet {
    /// The entries currently queued.
    pub closed spec fn contents(&self) -> Multiset<Entry> {
        self.items@.to_multiset()
    }

    /// Number of queued entries.
    pub closed spec fn size(&self) -> nat {
        self.items@.len()
    }

    #[verifier::type_invariant]
    closed spec fn inv(self) -> bool {
        heap_ordered(self.items@)
    }

    pub fn new() -> (q: OpenSet)
        ensures
            q.contents() == Multiset::<Entry>::empty(),
            q.size() == 0,
    {
        broadcast use vstd::seq_lib::group_to_multiset_ensures;
        OpenSet { items: Vec::new() }
    }

    /// Whether no entry is queued.
    pub fn is_empty(&self) -> (r: bool)
        ensures
            r == (self.size() == 0),
    {
        self.items.len() == 0
    }

    pub fn push(&mut self, e: Entry)
        ensures
            final(self).contents() == old(self).contents().insert(e),
            final(self).size() == old(self).size() + 1,
    {
        broadcast use vstd::seq_lib::group_to_multiset_ensures;
        proof {
            use_type_invariant(&*self);
        }
        let mut v: Vec<Entry> = Vec::new();
        std::mem::swap(&mut v, &mut self.items);
        let ghost target = v@.to_multiset().insert(e);
        let ghost n = v@.len() + 1;
        v.push(e);
        let mut k = v.len() - 1;
        while k > 0 && !(ahead_exec(v[(k - 1) / 2], v[k]))
            invariant
                k < v@.len(),
                v@.len() == n,
                v@.to_multiset() == target,
                forall|i: int| 1 <= i < v@.len() && i != k ==> ahead(v@[parent_of(i)], #[trigger] v@[i]),
                forall|i: int|
                    1 <= i < v@.len() && parent_of(i) == k && k > 0 ==> ahead(v@[parent_of(k as int)], #[trigger] v@[i]),
            decreases k,
        {
            let p = (k - 1) / 2;
            let ghost before = v@;
            let a = v[k];
            let b = v[p];
            v.set(k, b);
            v.set(p, a);
            proof {
                assert(v@ == before.update(k as int, before[p as int]).update(p as int, before[k as int]));
                crate::rng::lemma_swap_keeps_multiset(before, k as int, p as int);
            }
            k = p;
        }
        self.items = v;
    }

    /// Remove and return an entry that leaves no later than every other one.
    pub fn pop(&mut self) -> (r: Option<Entry>)
        ensures
            old(self).size() == 0 <==> r is None,
            r is None ==> final(self).contents() == old(self).contents() && final(self).size() == 0,
            r is None ==> old(self).contents() == Multiset::<Entry>::empty(),
            r is Some ==> final(self).size() == old(self).size() - 1,
            r matches Some(e) ==> {
                &&& old(self).contents().contains(e)
                &&& final(self).contents() == old(self).contents().remove(e)
                &&& forall|x: Entry| old(self).contents().contains(x) ==> ahead(e, x)
            },
    {
        broadcast use vstd::seq_lib::group_to_multiset_ensures;
        proof {
            use_type_invariant(&*self);
        }
        let mut v: Vec<Entry> = Vec::new();
        std::mem::swap(&mut v, &mut self.items);
        let ghost orig = v@;
        if v.len() == 0 {
            proof {
                assert(orig =~= Seq::<Entry>::empty());
                assert forall|x: Entry| orig.to_multiset().count(x) == 0 by {
                    vstd::seq_lib::to_multiset_contains(orig, x);
                }
                assert(orig.to_multiset() =~= Multiset::<Entry>::empty());
            }
            self.items = v;
            return None;
        }
        proof {
            assert forall|x: Entry| orig.to_multiset().contains(x) implies ahead(orig[0], x) by {
                assert(orig.contains(x));
                let i = choose|i: int| 0 <= i < orig.len() && orig[i] == x;
                lemma_root_first(orig, i);
            }
        }
        let top = v[0];
        let last = v.pop().unwrap();
        proof {
            assert(orig.drop_last() == v@);
            vstd::seq_lib::to_multiset_remove(orig, orig.len() - 1);
            assert(orig.remove(orig.len() - 1) =~= v@);
        }
        if v.len() == 0 {
            self.items = v;
            return Some(top);
        }
        let ghost mid = v@;
        v.set(0, last);
        proof {
            vstd::seq_lib::to_multiset_update(mid, 0, last);
            assert(orig[0] == mid[0]);
            assert(v@.to_multiset() =~= orig.to_multiset().remove(last).insert(last).remove(top)) by {
                broadcast use vstd::multiset::group_multiset_axioms;
            }
            assert(orig.to_multiset().remove(last).insert(last) =~= orig.to_multiset()) by {
                broadcast use vstd::multiset::group_multiset_axioms;
                assert(orig.contains(last));
            }
        }
        let ghost target = orig.to_multiset().remove(top);
        let n = v.len();
        let mut k: usize = 0;
        loop
            invariant
                n == v@.len(),
                k < n,
                v@.to_multiset() == target,
                forall|i: int| 1 <= i < n && parent_of(i) != k ==> ahead(v@[parent_of(i)], #[trigger] v@[i]),
                forall|i: int|
                    1 <= i < n && parent_of(i) == k && k > 0 ==> ahead(v@[parent_of(k as int)], #[trigger] v@[i]),
            ensures
                heap_ordered(v@),
                v@.to_multiset() == target,
            decreases n - k,
        {
            if k >= n / 2 {
                break;
            }
            let l = 2 * k + 1;
            let r = l + 1;
            let c = if r < n && !ahead_exec(v[l], v[r]) { r } else { l };
            if ahead_exec(v[k], v[c]) {
                break;
            }
            let ghost before = v@;
            let a = v[k];
            let b = v[c];
            v.set(k, b);
            v.set(c, a);
            proof {
                assert(v@ == before.update(k as int, before[c as int]).update(c as int, before[k as int]));
                crate::rng::lemma_swap_keeps_multiset(before, k as int, c as int);
                assert(parent_of(c as int) == k);
            }
            k = c;
        }
        self.items = v;
        Some(top)
    }
}

/// Executable form of `ahead`.
pub fn ahead_exec(a: Entry, b: Entry) -> (r: bool)
    ensures
        r == ahead(a, b),
{
    a.0 < b.0 || (a.0 == b.0 && (a.1 > b.1 || (a.1 == b.1 && a.2 >= b.2)))
}

} // verus!
