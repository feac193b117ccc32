use vstd::prelude::*;

verus! {

/// Whether every node's parent is the node itself or a node born after it.
pub open spec fn forest(parents: Seq<usize>) -> bool {
    forall|i: int| 0 <= i < parents.len() ==> i <= (#[trigger] parents[i]) < parents.len()
}

/// The root of the tree that node `i` belongs to: the node reached by
/// following the parents from `i` for as long as they are born later.
pub open spec fn root_of(parents: Seq<usize>, i: int) -> int
    decreases parents.len() - i,
{
    if 0 <= i < parents.len() && i < parents[i] < parents.len() {
        root_of(parents, parents[i] as int)
    } else {
        i
    }
}

/// Whether node `u` lies in the subtree of node `x`: `x` is `u` or one of
/// the nodes met by following the parents from `u`.
pub open spec fn under(parents: Seq<usize>, u: int, x: int) -> bool
    decreases parents.len() - u,
{
    if u == x {
        true
    } else if 0 <= u < parents.len() && u < parents[u] < parents.len() {
        under(parents, parents[u] as int, x)
    } else {
        false
    }
}

/// Following the parents from any node ends at a root, which the node
/// shares with its parent: the tree has no cycle.
pub proof fn lemma_root_of(parents: Seq<usize>, i: int)
    requires
        forest(parents),
        0 <= i < parents.len(),
    ensures
        i <= root_of(parents, i) < parents.len(),
        parents[root_of(parents, i)] == root_of(parents, i),
        root_of(parents, parents[i] as int) == root_of(parents, i),
        parents[i] == i ==> root_of(parents, i) == i,
        under(parents, i, root_of(parents, i)),
    decreases parents.len() - i,
{
    if parents[i] != i {
        lemma_root_of(parents, parents[i] as int);
    }
}

/// A node lies only under itself and under later nodes.
pub proof fn lemma_under_order(parents: Seq<usize>, u: int, x: int)
    requires
        under(parents, u, x),
    ensures
        u <= x,
        u != x ==> 0 <= u < parents.len() && u < parents[u] < parents.len(),
        u != x ==> x < parents.len(),
    decreases parents.len() - u,
{
    if u != x {
        lemma_under_order(parents, parents[u] as int, x);
    }
}

/// A node that lies under another node lies under one of its children.
pub proof fn lemma_under_child(parents: Seq<usize>, u: int, x: int) -> (c: int)
    requires
        under(parents, u, x),
        u != x,
    ensures
        under(parents, u, c),
        0 <= c < parents.len(),
        c < x,
        parents[c] == x,
    decreases parents.len() - u,
{
    if parents[u] == x {
        u
    } else {
        lemma_under_child(parents, parents[u] as int, x)
    }
}

/// A node that lies under a node lies under the parent of that node.
pub proof fn lemma_under_parent(parents: Seq<usize>, u: int, x: int)
    requires
        under(parents, u, x),
        0 <= x < parents.len(),
        x < parents[x] < parents.len(),
    ensures
        under(parents, u, parents[x] as int),
    decreases parents.len() - u,
{
    if u != x {
        lemma_under_order(parents, u, x);
        lemma_under_parent(parents, parents[u] as int, x);
    } else {
        assert(under(parents, parents[x] as int, parents[x] as int));
    }
}

/// Two nodes under one node have the same root.
pub proof fn lemma_under_same_root(parents: Seq<usize>, u: int, x: int)
    requires
        forest(parents),
        under(parents, u, x),
        0 <= u < parents.len(),
    ensures
        0 <= x < parents.len(),
        root_of(parents, u) == root_of(parents, x),
    decreases parents.len() - u,
{
    if u != x {
        lemma_root_of(parents, u);
        lemma_under_same_root(parents, parents[u] as int, x);
    }
}

/// The parents after the roots `a` and `b` have been given a new common
/// parent, which is appended as a root.
pub open spec fn adopt(parents: Seq<usize>, a: int, b: int) -> Seq<usize> {
    parents.update(a, parents.len() as usize).update(b, parents.len() as usize).push(
        parents.len() as usize,
    )
}

/// Whether `a` and `b` are two different roots.
pub open spec fn two_roots(parents: Seq<usize>, a: int, b: int) -> bool {
    &&& 0 <= a < parents.len()
    &&& 0 <= b < parents.len()
    &&& a != b
    &&& parents[a] == a
    &&& parents[b] == b
    &&& parents.len() < usize::MAX
}

/// What lay under a node before two roots got a common parent lies under
/// it afterwards.
pub proof fn lemma_adopt_under(parents: Seq<usize>, a: int, b: int, u: int, x: int)
    requires
        forest(parents),
        two_roots(parents, a, b),
        under(parents, u, x),
    ensures
        under(adopt(parents, a, b), u, x),
    decreases parents.len() - u,
{
    if u != x {
        lemma_adopt_under(parents, a, b, parents[u] as int, x);
    }
}

/// What lay under one of the two roots lies under their new parent.
pub proof fn lemma_adopt_under_new(parents: Seq<usize>, a: int, b: int, u: int)
    requires
        forest(parents),
        two_roots(parents, a, b),
        under(parents, u, a) || under(parents, u, b),
    ensures
        under(adopt(parents, a, b), u, parents.len() as int),
{
    let after = adopt(parents, a, b);
    if under(parents, u, a) {
        lemma_adopt_under(parents, a, b, u, a);
        lemma_under_parent(after, u, a);
    } else {
        lemma_adopt_under(parents, a, b, u, b);
        lemma_under_parent(after, u, b);
    }
}

/// The nodes of the two trees get the new parent as their root; every
/// other node keeps its root.
pub proof fn lemma_adopt_root(parents: Seq<usize>, a: int, b: int, u: int)
    requires
        forest(parents),
        two_roots(parents, a, b),
        0 <= u < parents.len(),
    ensures
        root_of(adopt(parents, a, b), u) == if root_of(parents, u) == a || root_of(parents, u)
            == b {
            parents.len() as int
        } else {
            root_of(parents, u)
        },
    decreases parents.len() - u,
{
    let after = adopt(parents, a, b);
    lemma_root_of(parents, u);
    if parents[u] != u {
        lemma_adopt_root(parents, a, b, parents[u] as int);
        assert(after[u] == parents[u]);
        assert(root_of(after, u) == root_of(after, parents[u] as int));
    } else if u == a || u == b {
        assert(after[u] == parents.len());
        assert(root_of(after, parents.len() as int) == parents.len());
    } else {
        assert(after[u] == u);
    }
}

/// The number of roots among the first `upto` nodes: the nodes that are
/// their own parents.
pub open spec fn roots(parents: Seq<usize>, upto: int) -> int
    decreases upto,
{
    if upto <= 0 {
        0
    } else {
        roots(parents, upto - 1) + if parents[upto - 1] == upto - 1 {
            1int
        } else {
            0int
        }
    }
}

/// Where every node is its own parent, every node is a root.
pub proof fn lemma_roots_all(parents: Seq<usize>, upto: int)
    requires
        0 <= upto <= parents.len(),
        forall|i: int| 0 <= i < upto ==> (#[trigger] parents[i]) == i,
    ensures
        roots(parents, upto) == upto,
    decreases upto,
{
    if upto > 0 {
        lemma_roots_all(parents, upto - 1);
    }
}

/// Among the first `upto` nodes, a common parent for the roots `a` and `b`
/// takes away those of the two that are among them.
proof fn lemma_roots_taken(parents: Seq<usize>, a: int, b: int, upto: int)
    requires
        two_roots(parents, a, b),
        0 <= upto <= parents.len(),
    ensures
        roots(adopt(parents, a, b), upto) == roots(parents, upto) - if a < upto {
            1int
        } else {
            0int
        } - if b < upto {
            1int
        } else {
            0int
        },
    decreases upto,
{
    if upto > 0 {
        lemma_roots_taken(parents, a, b, upto - 1);
    }
}

/// A common parent for two roots leaves one root less: the two are roots
/// no more, and their parent is one.
pub proof fn lemma_adopt_roots(parents: Seq<usize>, a: int, b: int)
    requires
        two_roots(parents, a, b),
    ensures
        roots(adopt(parents, a, b), parents.len() as int + 1) == roots(
            parents,
            parents.len() as int,
        ) - 1,
{
    lemma_roots_taken(parents, a, b, parents.len() as int);
}

/// There are no more roots than nodes.
pub proof fn lemma_roots_bounds(parents: Seq<usize>, upto: int)
    requires
        0 <= upto <= parents.len(),
    ensures
        0 <= roots(parents, upto) <= upto,
    decreases upto,
{
    if upto > 0 {
        lemma_roots_bounds(parents, upto - 1);
    }
}

} // verus!
