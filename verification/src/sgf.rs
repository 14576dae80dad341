use vstd::prelude::*;

use crate::types::Move;

verus! {

/// One node of a parsed game tree: the move recorded on the node, if any
/// (root and setup nodes carry none), and the ordered child nodes. The
/// children's stored order is the branch priority: the first child leads the
/// main variation.
#[derive(Debug)]
pub struct GameNode {
    pub mov: Option<Move>,
    pub children: Vec<GameNode>,
}

impl GameNode {
    pub open spec fn is_leaf(self) -> bool {
        self.children@.len() == 0
    }
}

/// Every root-to-leaf branch of the subtree rooted at `n`, in child order:
/// each branch runs from `n` itself down to one leaf, and a tree with `k`
/// leaves has exactly `k` branches.
pub open spec fn branches(n: GameNode) -> Seq<Seq<GameNode>>
    decreases n, 1int, 0int,
{
    prefix_all(seq![n], tails_from(n, 0))
}

/// The branch tails that start below `n` at child index `i` or later, in
/// child order. For a leaf there is one empty tail: the branch ends here.
pub open spec fn tails_from(n: GameNode, i: int) -> Seq<Seq<GameNode>>
    decreases n, 0int, n.children@.len() - i,
{
    if n.children@.len() == 0 {
        seq![Seq::<GameNode>::empty()]
    } else if i < 0 || i >= n.children@.len() {
        Seq::<Seq<GameNode>>::empty()
    } else {
        branches(n.children@[i]) + tails_from(n, i + 1)
    }
}

/// Each branch of `bs` with the path `p` prepended.
pub open spec fn prefix_all(p: Seq<GameNode>, bs: Seq<Seq<GameNode>>) -> Seq<Seq<GameNode>> {
    Seq::new(bs.len(), |i: int| p + bs[i])
}

/// The number of leaves of the subtree rooted at `n`.
pub open spec fn leaf_count(n: GameNode) -> nat
    decreases n, 1int, 0int,
{
    if n.is_leaf() {
        1
    } else {
        leaf_count_from(n, 0)
    }
}

/// The number of leaves below `n` in the children at index `i` or later.
pub open spec fn leaf_count_from(n: GameNode, i: int) -> nat
    decreases n, 0int, n.children@.len() - i,
{
    if i < 0 || i >= n.children@.len() {
        0
    } else {
        leaf_count(n.children@[i]) + leaf_count_from(n, i + 1)
    }
}

/// Every node of the subtree rooted at `n`.
pub open spec fn tree_nodes(n: GameNode) -> Set<GameNode>
    decreases n, 1int, 0int,
{
    tree_nodes_from(n, 0).insert(n)
}

/// Every node below `n` in the children at index `i` or later.
pub open spec fn tree_nodes_from(n: GameNode, i: int) -> Set<GameNode>
    decreases n, 0int, n.children@.len() - i,
{
    if i < 0 || i >= n.children@.len() {
        Set::<GameNode>::empty()
    } else {
        tree_nodes(n.children@[i]).union(tree_nodes_from(n, i + 1))
    }
}

/// The union of the node sets of a sequence of branches.
pub open spec fn union_of(bs: Seq<Seq<GameNode>>) -> Set<GameNode>
    decreases bs.len(),
{
    if bs.len() == 0 {
        Set::<GameNode>::empty()
    } else {
        bs[0].to_set().union(union_of(bs.drop_first()))
    }
}

/// Every subtree has at least one leaf.
pub proof fn lemma_leaf_count_pos(n: GameNode)
    ensures
        leaf_count(n) >= 1,
    decreases n,
{
    if !n.is_leaf() {
        lemma_leaf_count_pos(n.children@[0]);
        lemma_leaf_count_from_bound(n, 0);
    }
}

proof fn lemma_leaf_count_from_bound(n: GameNode, i: int)
    requires
        0 <= i < n.children@.len(),
    ensures
        leaf_count_from(n, i) >= leaf_count(n.children@[i]),
{
}

/// How many branch tails start at child index `i` or later.
proof fn lemma_tails_count(n: GameNode, i: int)
    ensures
        n.is_leaf() ==> tails_from(n, i).len() == 1,
        !n.is_leaf() ==> tails_from(n, i).len() == leaf_count_from(n, i),
    decreases n, 0int, n.children@.len() - i,
{
    if !n.is_leaf() && 0 <= i < n.children@.len() {
        lemma_branch_count(n.children@[i]);
        lemma_tails_count(n, i + 1);
    }
}

/// A tree has exactly as many branches as it has leaves.
pub proof fn lemma_branch_count(n: GameNode)
    ensures
        branches(n).len() == leaf_count(n),
    decreases n, 1int, 0int,
{
    lemma_tails_count(n, 0);
}

proof fn lemma_concat_to_set(p: Seq<GameNode>, b: Seq<GameNode>)
    ensures
        (p + b).to_set() == p.to_set().union(b.to_set()),
{
    assert forall|x: GameNode| p.to_set().union(b.to_set()).contains(x) implies (p
        + b).to_set().contains(x) by {
        if p.to_set().contains(x) {
            let i = choose|i: int| 0 <= i < p.len() && p[i] == x;
            assert((p + b)[i] == x);
        } else {
            let i = choose|i: int| 0 <= i < b.len() && b[i] == x;
            assert((p + b)[p.len() + i] == x);
        }
    }
    assert forall|x: GameNode| (p + b).to_set().contains(x) implies p.to_set().union(
        b.to_set(),
    ).contains(x) by {
        let i = choose|i: int| 0 <= i < (p + b).len() && (p + b)[i] == x;
        if i < p.len() {
            assert(p[i] == x);
        } else {
            assert(b[i - p.len()] == x);
        }
    }
    assert((p + b).to_set() =~= p.to_set().union(b.to_set()));
}

proof fn lemma_union_of_concat(a: Seq<Seq<GameNode>>, b: Seq<Seq<GameNode>>)
    ensures
        union_of(a + b) == union_of(a).union(union_of(b)),
    decreases a.len(),
{
    if a.len() == 0 {
        assert(a + b =~= b);
        assert(union_of(a).union(union_of(b)) =~= union_of(b));
    } else {
        lemma_union_of_concat(a.drop_first(), b);
        assert((a + b).drop_first() =~= a.drop_first() + b);
        assert((a + b)[0] == a[0]);
        assert(union_of(a + b) =~= union_of(a).union(union_of(b)));
    }
}

proof fn lemma_union_of_prefix(p: Seq<GameNode>, bs: Seq<Seq<GameNode>>)
    requires
        bs.len() >= 1,
    ensures
        union_of(prefix_all(p, bs)) == p.to_set().union(union_of(bs)),
    decreases bs.len(),
{
    lemma_concat_to_set(p, bs[0]);
    assert(prefix_all(p, bs)[0] == p + bs[0]);
    if bs.len() == 1 {
        assert(prefix_all(p, bs).drop_first() =~= Seq::<Seq<GameNode>>::empty());
        assert(bs.drop_first() =~= Seq::<Seq<GameNode>>::empty());
        assert(union_of(prefix_all(p, bs)) =~= p.to_set().union(union_of(bs)));
    } else {
        lemma_union_of_prefix(p, bs.drop_first());
        assert(prefix_all(p, bs).drop_first() =~= prefix_all(p, bs.drop_first()));
        assert(union_of(prefix_all(p, bs)) =~= p.to_set().union(union_of(bs)));
    }
}

proof fn lemma_singleton_to_set(n: GameNode)
    ensures
        seq![n].to_set() == Set::<GameNode>::empty().insert(n),
{
    assert(seq![n][0] == n);
    assert forall|x: GameNode| seq![n].to_set().contains(x) implies Set::<GameNode>::empty().insert(
        n,
    ).contains(x) by {
        let i = choose|i: int| 0 <= i < seq![n].len() && seq![n][i] == x;
        assert(i == 0);
    }
    assert(seq![n].to_set() =~= Set::<GameNode>::empty().insert(n));
}

proof fn lemma_union_of_tails(n: GameNode, i: int)
    requires
        !n.is_leaf(),
    ensures
        union_of(tails_from(n, i)) == tree_nodes_from(n, i),
    decreases n, 0int, n.children@.len() - i,
{
    if 0 <= i < n.children@.len() {
        lemma_union_of_branches(n.children@[i]);
        lemma_union_of_tails(n, i + 1);
        lemma_union_of_concat(branches(n.children@[i]), tails_from(n, i + 1));
    }
}

/// Together the branches of a tree cover it: the union of the node sets of
/// all branches is exactly the node set of the whole tree.
pub proof fn lemma_union_of_branches(n: GameNode)
    ensures
        union_of(branches(n)) == tree_nodes(n),
    decreases n, 1int, 0int,
{
    lemma_singleton_to_set(n);
    if n.is_leaf() {
        let ts = tails_from(n, 0);
        assert(ts =~= seq![Seq::<GameNode>::empty()]);
        lemma_union_of_prefix(seq![n], ts);
        assert(ts[0].to_set() =~= Set::<GameNode>::empty());
        assert(ts.drop_first() =~= Seq::<Seq<GameNode>>::empty());
        assert(union_of(ts.drop_first()) == Set::<GameNode>::empty());
        assert(union_of(ts) =~= Set::<GameNode>::empty());
        assert(union_of(branches(n)) =~= tree_nodes(n));
    } else {
        lemma_tails_count(n, 0);
        lemma_leaf_count_pos(n);
        lemma_union_of_prefix(seq![n], tails_from(n, 0));
        lemma_union_of_tails(n, 0);
        assert(union_of(branches(n)) =~= tree_nodes(n));
    }
}

/// The moves recorded along a sequence of nodes, in order; nodes without a
/// move are skipped.
pub open spec fn moves_of(ns: Seq<GameNode>) -> Seq<Move>
    decreases ns.len(),
{
    if ns.len() == 0 {
        Seq::<Move>::empty()
    } else {
        (match ns[0].mov {
            Some(m) => seq![m],
            None => Seq::<Move>::empty(),
        }) + moves_of(ns.drop_first())
    }
}

/// The nodes a sequence of node references points at.
pub open spec fn nodes_seq(b: Seq<&GameNode>) -> Seq<GameNode> {
    Seq::new(b.len(), |i: int| *b[i])
}

proof fn lemma_moves_of_snoc(ns: Seq<GameNode>, n: GameNode)
    ensures
        moves_of(ns.push(n)) == moves_of(ns) + (match n.mov {
            Some(m) => seq![m],
            None => Seq::<Move>::empty(),
        }),
    decreases ns.len(),
{
    if ns.len() == 0 {
        let s = ns.push(n);
        assert(s[0] == n);
        assert(s.drop_first() =~= Seq::<GameNode>::empty());
        assert(moves_of(s.drop_first()) == Seq::<Move>::empty());
        assert(moves_of(ns) == Seq::<Move>::empty());
        assert(moves_of(s) =~= moves_of(ns) + (match n.mov {
            Some(m) => seq![m],
            None => Seq::<Move>::empty(),
        }));
    } else {
        lemma_moves_of_snoc(ns.drop_first(), n);
        assert(ns.push(n).drop_first() =~= ns.drop_first().push(n));
        assert(ns.push(n)[0] == ns[0]);
        assert(moves_of(ns.push(n)) =~= moves_of(ns) + (match n.mov {
            Some(m) => seq![m],
            None => Seq::<Move>::empty(),
        }));
    }
}

/// The path of nodes an iterator stack holds, bottom first.
pub open spec fn stack_nodes(s: Seq<(&GameNode, usize)>) -> Seq<GameNode> {
    Seq::new(s.len(), |i: int| *s[i].0)
}

/// The branches an iterator stack still has to produce, in the order it will
/// produce them: each entry `(n, i)` contributes the branches that continue
/// below `n` through the children at index `i` or later, prefixed by the path
/// of nodes up to and including `n`; entries nearer the top come first.
pub open spec fn pending(s: Seq<(&GameNode, usize)>) -> Seq<Seq<GameNode>>
    decreases s.len(),
{
    if s.len() == 0 {
        Seq::<Seq<GameNode>>::empty()
    } else {
        prefix_all(stack_nodes(s), tails_from(*s.last().0, s.last().1 as int)) + pending(
            s.drop_last(),
        )
    }
}

/// The number of nodes of the subtree rooted at `n`.
pub open spec fn subtree_size(n: GameNode) -> nat
    decreases n, 1int, 0int,
{
    1 + size_from(n, 0)
}

/// The number of nodes below `n` in the children at index `i` or later.
pub open spec fn size_from(n: GameNode, i: int) -> nat
    decreases n, 0int, n.children@.len() - i,
{
    if i < 0 || i >= n.children@.len() {
        0
    } else {
        subtree_size(n.children@[i]) + size_from(n, i + 1)
    }
}

/// The number of nodes an iterator stack still has to walk.
pub open spec fn stack_weight(s: Seq<(&GameNode, usize)>) -> nat
    decreases s.len(),
{
    if s.len() == 0 {
        0
    } else {
        size_from(*s.last().0, s.last().1 as int) + stack_weight(s.drop_last())
    }
}

/// Every stack entry below the top points with its cursor one past the child
/// that the entry above it holds.
pub open spec fn chain_ok(s: Seq<(&GameNode, usize)>) -> bool {
    forall|j: int|
        0 <= j < s.len() - 1 ==> {
            &&& 1 <= #[trigger] s[j].1
            &&& s[j].1 <= s[j].0.children@.len()
            &&& *s[j + 1].0 == s[j].0.children@[s[j].1 - 1]
        }
}

/// The top entry's cursor still has a child to visit, or sits at the start of
/// a leaf.
pub open spec fn top_tight(s: Seq<(&GameNode, usize)>) -> bool {
    s.len() > 0 ==> {
        let t = s.last();
        if t.0.children@.len() == 0 {
            t.1 == 0
        } else {
            (t.1 as int) < t.0.children@.len()
        }
    }
}

/// The top entry's cursor may also just have run out of children.
pub open spec fn top_loose(s: Seq<(&GameNode, usize)>) -> bool {
    s.len() > 0 ==> {
        let t = s.last();
        1 <= t.1 && t.1 <= t.0.children@.len()
    }
}

proof fn lemma_chain_pop(s: Seq<(&GameNode, usize)>)
    requires
        s.len() > 0,
        chain_ok(s),
    ensures
        chain_ok(s.drop_last()),
        top_loose(s.drop_last()),
{
    let t = s.drop_last();
    assert forall|j: int| 0 <= j < t.len() - 1 implies {
        &&& 1 <= #[trigger] t[j].1
        &&& t[j].1 <= t[j].0.children@.len()
        &&& *t[j + 1].0 == t[j].0.children@[t[j].1 - 1]
    } by {
        assert(t[j] == s[j]);
        assert(t[j + 1] == s[j + 1]);
        assert(1 <= s[j].1 && s[j].1 <= s[j].0.children@.len() && *s[j + 1].0
            == s[j].0.children@[s[j].1 - 1]);
    }
    if t.len() > 0 {
        assert(t.last() == s[s.len() - 2]);
        assert(1 <= s[s.len() - 2].1 && s[s.len() - 2].1 <= s[s.len() - 2].0.children@.len());
    }
}

proof fn lemma_prefix_all_concat(p: Seq<GameNode>, a: Seq<Seq<GameNode>>, b: Seq<Seq<GameNode>>)
    ensures
        prefix_all(p, a + b) == prefix_all(p, a) + prefix_all(p, b),
{
    assert forall|i: int| 0 <= i < a.len() + b.len() implies prefix_all(p, a + b)[i] == (prefix_all(
        p,
        a,
    ) + prefix_all(p, b))[i] by {
        if i < a.len() {
            assert((a + b)[i] == a[i]);
        } else {
            assert((a + b)[i] == b[i - a.len()]);
        }
    }
    assert(prefix_all(p, a + b) =~= prefix_all(p, a) + prefix_all(p, b));
}

proof fn lemma_prefix_all_nest(p: Seq<GameNode>, q: Seq<GameNode>, bs: Seq<Seq<GameNode>>)
    ensures
        prefix_all(p, prefix_all(q, bs)) == prefix_all(p + q, bs),
{
    assert forall|i: int| 0 <= i < bs.len() implies prefix_all(p, prefix_all(q, bs))[i]
        == prefix_all(p + q, bs)[i] by {
        assert(p + (q + bs[i]) =~= (p + q) + bs[i]);
    }
    assert(prefix_all(p, prefix_all(q, bs)) =~= prefix_all(p + q, bs));
}

/// Descending into the next unvisited child rewrites the stack but leaves the
/// pending branches unchanged.
proof fn lemma_pending_descend(
    s: Seq<(&GameNode, usize)>,
    n: &GameNode,
    i: usize,
    i1: usize,
    child: &GameNode,
)
    requires
        n.children@.len() > 0,
        (i as int) < n.children@.len(),
        i1 == i as int + 1,
        *child == n.children@[i as int],
    ensures
        pending(s.push((n, i1)).push((child, 0usize))) == pending(s.push((n, i))),
        stack_weight(s.push((n, i1)).push((child, 0usize))) < stack_weight(s.push((n, i))),
{
    let s1 = s.push((n, i));
    let s2 = s.push((n, i1));
    let s3 = s2.push((child, 0usize));
    let p = stack_nodes(s1);
    assert(s1.drop_last() =~= s);
    assert(s2.drop_last() =~= s);
    assert(s3.drop_last() =~= s2);
    assert(stack_nodes(s2) =~= p);
    assert(stack_nodes(s3) =~= p + seq![*child]);
    assert(pending(s1) == prefix_all(p, tails_from(*n, i as int)) + pending(s));
    assert(pending(s2) == prefix_all(p, tails_from(*n, i1 as int)) + pending(s));
    assert(pending(s3) == prefix_all(p + seq![*child], tails_from(*child, 0)) + pending(s2));
    assert(tails_from(*n, i as int) == branches(n.children@[i as int]) + tails_from(
        *n,
        i as int + 1,
    ));
    assert(branches(*child) == prefix_all(seq![*child], tails_from(*child, 0)));
    lemma_prefix_all_concat(p, branches(*child), tails_from(*n, i1 as int));
    lemma_prefix_all_nest(p, seq![*child], tails_from(*child, 0));
    assert(pending(s3) =~= pending(s1));
    assert(size_from(*n, i as int) == subtree_size(n.children@[i as int]) + size_from(
        *n,
        i as int + 1,
    ));
    assert(subtree_size(*child) == 1 + size_from(*child, 0));
    assert(stack_weight(s1) == size_from(*n, i as int) + stack_weight(s));
    assert(stack_weight(s2) == size_from(*n, i1 as int) + stack_weight(s));
    assert(stack_weight(s3) == size_from(*child, 0) + stack_weight(s2));
}

/// Dropping an exhausted entry leaves the pending branches unchanged.
proof fn lemma_pending_drop(s: Seq<(&GameNode, usize)>, m: &GameNode, k: usize)
    requires
        m.children@.len() > 0,
        k as int >= m.children@.len(),
    ensures
        pending(s.push((m, k))) == pending(s),
{
    let s1 = s.push((m, k));
    assert(s1.drop_last() =~= s);
    assert(tails_from(*m, k as int) == Seq::<Seq<GameNode>>::empty());
    assert(prefix_all(stack_nodes(s1), Seq::<Seq<GameNode>>::empty())
        =~= Seq::<Seq<GameNode>>::empty());
    assert(pending(s1) =~= pending(s));
}

/// A leaf on top of the stack means the next pending branch is exactly the
/// stack's path, and the rest is what the stack below still holds.
proof fn lemma_pending_emit(s: Seq<(&GameNode, usize)>, n: &GameNode)
    requires
        n.children@.len() == 0,
    ensures
        pending(s.push((n, 0usize))).len() == 1 + pending(s).len(),
        pending(s.push((n, 0usize)))[0] == stack_nodes(s).push(*n),
        pending(s.push((n, 0usize))).drop_first() == pending(s),
{
    let s1 = s.push((n, 0usize));
    assert(s1.drop_last() =~= s);
    let p = stack_nodes(s1);
    assert(p =~= stack_nodes(s).push(*n));
    assert(tails_from(*n, 0) == seq![Seq::<GameNode>::empty()]);
    assert(prefix_all(p, seq![Seq::<GameNode>::empty()])[0] == p + Seq::<GameNode>::empty());
    assert(p + Seq::<GameNode>::empty() =~= p);
    assert(prefix_all(p, seq![Seq::<GameNode>::empty()]) =~= seq![p]);
    assert(pending(s1) == seq![p] + pending(s));
    assert(pending(s1)[0] == p);
    assert(pending(s1).drop_first() =~= pending(s));
}

/// A lazy, single-pass enumeration of every root-to-leaf branch of a game
/// tree, main variation first: an explicit-stack depth-first walk whose depth
/// is bounded by the heap, not by the call stack.
pub struct BranchesIterator<'a> {
    /// Stack of `(node, next-child-index)` pairs along the current path.
    stack: Vec<(&'a GameNode, usize)>,
}

impl<'a> BranchesIterator<'a> {
    /// The iterator's bookkeeping is intact.
    pub closed spec fn wf(self) -> bool {
        chain_ok(self.stack@) && top_tight(self.stack@)
    }

    /// The branches the iterator has yet to produce, in order.
    pub closed spec fn pending_branches(self) -> Seq<Seq<GameNode>> {
        pending(self.stack@)
    }

    /// A fresh iterator over every branch of the tree rooted at `root`.
    pub fn new(root: &'a GameNode) -> (it: Self)
        ensures
            it.wf(),
            it.pending_branches() == branches(*root),
    {
        let mut stack: Vec<(&'a GameNode, usize)> = Vec::new();
        stack.push((root, 0));
        let it = BranchesIterator { stack };
        proof {
            let s = it.stack@;
            assert(s.drop_last() =~= Seq::<(&GameNode, usize)>::empty());
            assert(stack_nodes(s) =~= seq![*root]);
            assert(pending(s.drop_last()) == Seq::<Seq<GameNode>>::empty());
            assert(pending(s) =~= branches(*root));
        }
        it
    }

    /// After a leaf was emitted: drop the entries whose children are all
    /// visited, so that the first ancestor with an unvisited child is on top
    /// again.
    #[verifier::loop_isolation(false)]
    fn backtrack(&mut self)
        requires
            chain_ok(old(self).stack@),
            top_loose(old(self).stack@),
        ensures
            final(self).wf(),
            pending(final(self).stack@) == pending(old(self).stack@),
    {
        loop
            invariant
                chain_ok(self.stack@),
                top_loose(self.stack@),
                pending(self.stack@) == pending(old(self).stack@),
            decreases self.stack@.len(),
        {
            let ghost t_pre = self.stack@;
            match self.stack.pop() {
                None => {
                    proof {
                        assert(self.stack@.len() == 0);
                    }
                    return ;
                },
                Some((node, idx)) => {
                    proof {
                        assert(t_pre.last() == (node, idx));
                        lemma_chain_pop(t_pre);
                    }
                    if idx < node.children.len() {
                        self.stack.push((node, idx));
                        proof {
                            assert(self.stack@ =~= t_pre);
                        }
                        return ;
                    }
                    proof {
                        assert(1 <= idx && idx as int >= node.children@.len());
                        lemma_pending_drop(self.stack@, node, idx);
                        assert(t_pre =~= self.stack@.push((node, idx)));
                    }
                },
            }
        }
    }

    /// The next branch: the first pending one, as references to its nodes
    /// from the root down to a leaf; `None` exactly when every branch has
    /// been produced.
    #[verifier::loop_isolation(false)]
    pub fn next(&mut self) -> (r: Option<Vec<&'a GameNode>>)
        requires
            old(self).wf(),
        ensures
            final(self).wf(),
            match r {
                None => {
                    &&& old(self).pending_branches().len() == 0
                    &&& final(self).pending_branches().len() == 0
                },
                Some(b) => {
                    &&& old(self).pending_branches().len() > 0
                    &&& nodes_seq(b@) == old(self).pending_branches()[0]
                    &&& final(self).pending_branches() == old(self).pending_branches().drop_first()
                },
            },
    {
        let ghost pending0 = pending(old(self).stack@);
        loop
            invariant
                chain_ok(self.stack@),
                top_tight(self.stack@),
                pending(self.stack@) == pending0,
            decreases stack_weight(self.stack@),
        {
            let ghost s_pre = self.stack@;
            let popped = self.stack.pop();
            match popped {
                None => {
                    proof {
                        assert(self.stack@.len() == 0);
                        assert(pending(self.stack@) =~= Seq::<Seq<GameNode>>::empty());
                    }
                    return None;
                },
                Some((current_node, child_idx)) => {
                    proof {
                        assert(s_pre.last() == (current_node, child_idx));
                        lemma_chain_pop(s_pre);
                    }
                    if current_node.children.len() == 0 {
                        proof {
                            assert(child_idx == 0);
                            lemma_pending_emit(self.stack@, current_node);
                            assert(s_pre =~= self.stack@.push((current_node, child_idx)));
                        }
                        let ghost rest_pending = pending(self.stack@);
                        proof {
                            assert(rest_pending == pending0.drop_first());
                        }
                        let mut current_path: Vec<&'a GameNode> = Vec::new();
                        let mut j: usize = 0;
                        while j < self.stack.len()
                            invariant
                                j <= self.stack@.len(),
                                current_path@.len() == j,
                                forall|k: int|
                                    0 <= k < j ==> current_path@[k] == #[trigger] self.stack@[k].0,
                            decreases self.stack@.len() - j,
                        {
                            let entry = self.stack[j];
                            current_path.push(entry.0);
                            j += 1;
                        }
                        current_path.push(current_node);
                        proof {
                            assert(nodes_seq(current_path@) =~= stack_nodes(self.stack@).push(
                                *current_node,
                            ));
                            assert(nodes_seq(current_path@) == pending0[0]);
                        }
                        self.backtrack();
                        return Some(current_path);
                    } else {
                        let next_idx = child_idx + 1;
                        let child_node: &'a GameNode = &current_node.children[child_idx];
                        self.stack.push((current_node, next_idx));
                        self.stack.push((child_node, 0));
                        proof {
                            lemma_pending_descend(
                                s_pre.drop_last(),
                                current_node,
                                child_idx,
                                next_idx,
                                child_node,
                            );
                            assert(s_pre =~= s_pre.drop_last().push((current_node, child_idx)));
                            assert(self.stack@ =~= s_pre.drop_last().push(
                                (current_node, next_idx),
                            ).push((child_node, 0usize)));
                            // the new stack is well formed
                            let t = self.stack@;
                            assert forall|j2: int| 0 <= j2 < t.len() - 1 implies {
                                &&& 1 <= #[trigger] t[j2].1
                                &&& t[j2].1 <= t[j2].0.children@.len()
                                &&& *t[j2 + 1].0 == t[j2].0.children@[t[j2].1 - 1]
                            } by {
                                if j2 < t.len() - 2 {
                                    assert(t[j2] == s_pre[j2]);
                                    if j2 < t.len() - 3 {
                                        assert(t[j2 + 1] == s_pre[j2 + 1]);
                                    }
                                }
                            }
                        }
                    }
                },
            }
        }
    }
}

/// Every branch of the tree rooted at `root`, eagerly collected in the
/// traversal's order: the whole branch sequence of the tree, as node
/// references.
#[verifier::loop_isolation(false)]
pub fn all_branches<'a>(root: &'a GameNode) -> (r: Vec<Vec<&'a GameNode>>)
    ensures
        r@.len() == branches(*root).len(),
        forall|i: int| 0 <= i < r@.len() ==> nodes_seq(#[trigger] r@[i]@) == branches(*root)[i],
{
    let all = Ghost(branches(*root));
    let mut r: Vec<Vec<&'a GameNode>> = Vec::new();
    let mut iter = BranchesIterator::new(root);
    proof {
        assert(iter.pending_branches() =~= all@.subrange(0, all@.len() as int));
    }
    loop
        invariant
            iter.wf(),
            r@.len() <= all@.len(),
            iter.pending_branches() == all@.subrange(r@.len() as int, all@.len() as int),
            forall|i: int| 0 <= i < r@.len() ==> nodes_seq(#[trigger] r@[i]@) == all@[i],
        decreases all@.len() - r@.len(),
    {
        let ghost k = r@.len() as int;
        match iter.next() {
            None => {
                proof {
                    assert(all@.subrange(k, all@.len() as int).len() == 0);
                }
                return r;
            },
            Some(b) => {
                proof {
                    assert(all@.subrange(k, all@.len() as int)[0] == all@[k]);
                    assert(all@.subrange(k, all@.len() as int).drop_first() =~= all@.subrange(
                        k + 1,
                        all@.len() as int,
                    ));
                }
                r.push(b);
            },
        }
    }
}

/// The main line of a tree: the path from the root through first children
/// down to a leaf.
pub open spec fn main_line(n: GameNode) -> Seq<GameNode>
    decreases n,
{
    if n.is_leaf() {
        seq![n]
    } else {
        seq![n] + main_line(n.children@[0])
    }
}

/// The main line is exactly the first branch the traversal produces.
pub proof fn lemma_main_line_is_first_branch(n: GameNode)
    ensures
        branches(n).len() >= 1,
        branches(n)[0] == main_line(n),
    decreases n,
{
    lemma_branch_count(n);
    lemma_leaf_count_pos(n);
    if n.is_leaf() {
        assert(tails_from(n, 0) == seq![Seq::<GameNode>::empty()]);
        assert(branches(n)[0] == seq![n] + Seq::<GameNode>::empty());
        assert(seq![n] + Seq::<GameNode>::empty() =~= seq![n]);
    } else {
        let c = n.children@[0];
        lemma_main_line_is_first_branch(c);
        assert(tails_from(n, 0) == branches(c) + tails_from(n, 1));
        assert((branches(c) + tails_from(n, 1))[0] == branches(c)[0]);
        assert(branches(n)[0] == seq![n] + main_line(c));
    }
}

/// The nodes of the main variation, from the root through first children
/// down to a leaf.
#[verifier::loop_isolation(false)]
pub fn main_variation(root: &GameNode) -> (r: Vec<&GameNode>)
    ensures
        nodes_seq(r@) == main_line(*root),
{
    let mut r: Vec<&GameNode> = Vec::new();
    let mut cur: &GameNode = root;
    proof {
        assert(nodes_seq(r@) + main_line(*cur) =~= main_line(*root));
    }
    loop
        invariant
            nodes_seq(r@) + main_line(*cur) == main_line(*root),
        decreases subtree_size(*cur),
    {
        let ghost r_old = r@;
        r.push(cur);
        proof {
            assert(nodes_seq(r@) =~= nodes_seq(r_old).push(*cur));
        }
        if cur.children.len() == 0 {
            proof {
                assert(main_line(*cur) == seq![*cur]);
                assert(nodes_seq(r@) =~= nodes_seq(r_old) + main_line(*cur));
            }
            return r;
        }
        let next: &GameNode = &cur.children[0];
        proof {
            assert(main_line(*cur) == seq![*cur] + main_line(*next));
            assert(nodes_seq(r@) + main_line(*next) =~= nodes_seq(r_old) + main_line(*cur));
            assert(size_from(*cur, 0) == subtree_size(*next) + size_from(*cur, 1));
        }
        cur = next;
    }
}

/// The ordered `(color, vertex)` moves recorded on a branch's nodes. Nodes
/// without a move property contribute nothing and do not end the extraction.
pub fn into_moves(branch: &Vec<&GameNode>) -> (r: Vec<Move>)
    ensures
        r@ == moves_of(nodes_seq(branch@)),
{
    let ghost all = nodes_seq(branch@);
    let mut r: Vec<Move> = Vec::new();
    let mut i: usize = 0;
    while i < branch.len()
        invariant
            i <= branch.len(),
            all == nodes_seq(branch@),
            r@ == moves_of(all.take(i as int)),
        decreases branch.len() - i,
    {
        proof {
            assert(all.take(i + 1) =~= all.take(i as int).push(all[i as int]));
            lemma_moves_of_snoc(all.take(i as int), all[i as int]);
        }
        match branch[i].mov {
            Some(m) => r.push(m),
            None => (),
        }
        i += 1;
    }
    proof {
        assert(all.take(branch@.len() as int) =~= all);
    }
    r
}

} // verus!
