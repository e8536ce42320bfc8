//! The document tree that the extractor walks.
//!
//! A tree is held as its nodes in document order (a node before its
//! descendants, siblings left to right), each with its depth. The subtree of
//! a node is the run of deeper nodes that follows it, so every sequence of
//! nodes is a forest and no shape has to be checked.

use vstd::prelude::*;

verus! {

/// What a node holds.
#[derive(Debug, Clone)]
pub enum NodeValue {
    /// Character data.
    Text(String),
    /// An element, with its local name and the value of its link attribute.
    Element { name: String, href: Option<String> },
    /// Anything else: document root, doctype, comment, processing instruction.
    Other,
}

/// One node of a document, with the number of its ancestors.
#[derive(Debug, Clone)]
pub struct Node {
    pub depth: usize,
    pub value: NodeValue,
}

/// The first index from `j` on whose node is no deeper than `depth`, or the
/// number of nodes where there is none.
pub open spec fn scan_end(nodes: Seq<Node>, depth: usize, j: int) -> int
    decreases nodes.len() - j,
{
    if j < 0 || j >= nodes.len() {
        nodes.len() as int
    } else if nodes[j].depth <= depth {
        j
    } else {
        scan_end(nodes, depth, j + 1)
    }
}

/// The index one past the last descendant of node `i`.
pub open spec fn subtree_end(nodes: Seq<Node>, i: int) -> int {
    scan_end(nodes, nodes[i].depth, i + 1)
}

/// The nodes `from`, `subtree_end(from)`, ... below `limit`: the children of
/// a node when `from` is its first child and `limit` the end of its subtree,
/// the roots of the forest when they are 0 and the number of nodes.
pub open spec fn chain(nodes: Seq<Node>, from: int, limit: int) -> Seq<usize>
    decreases nodes.len() - from,
    via chain_decreases
{
    if 0 <= from < limit <= nodes.len() {
        seq![from as usize] + chain(nodes, subtree_end(nodes, from), limit)
    } else {
        Seq::empty()
    }
}

/// A chain goes on after the subtree of its first member, which is not
/// empty.
#[via_fn]
proof fn chain_decreases(nodes: Seq<Node>, from: int, limit: int) {
    if 0 <= from < limit <= nodes.len() {
        lemma_subtree_end(nodes, from);
    }
}

/// The children of node `i`, left to right.
pub open spec fn children(nodes: Seq<Node>, i: int) -> Seq<usize> {
    chain(nodes, i + 1, subtree_end(nodes, i))
}

/// The next sibling of node `i`: the node that follows its subtree, where
/// that node has the same depth.
pub open spec fn next_sibling(nodes: Seq<Node>, i: int) -> Option<usize> {
    let end = subtree_end(nodes, i);
    if end < nodes.len() && nodes[end].depth == nodes[i].depth {
        Some(end as usize)
    } else {
        None
    }
}

/// What a scan finds: the nodes that it passes are deeper than `depth`, and
/// the node at which it stops is not.
pub proof fn lemma_scan_end(nodes: Seq<Node>, depth: usize, j: int)
    requires
        0 <= j <= nodes.len(),
    ensures
        j <= scan_end(nodes, depth, j) <= nodes.len(),
        forall|k: int| j <= k < scan_end(nodes, depth, j) ==> (#[trigger] nodes[k]).depth > depth,
        scan_end(nodes, depth, j) < nodes.len() ==> nodes[scan_end(nodes, depth, j)].depth
            <= depth,
    decreases nodes.len() - j,
{
    if j < nodes.len() && nodes[j].depth > depth {
        lemma_scan_end(nodes, depth, j + 1);
    }
}

/// A subtree starts after its root, ends within the sequence, holds only
/// deeper nodes, and is followed by a node that is no deeper.
pub proof fn lemma_subtree_end(nodes: Seq<Node>, i: int)
    requires
        0 <= i < nodes.len(),
    ensures
        i < subtree_end(nodes, i) <= nodes.len(),
        forall|k: int| i < k < subtree_end(nodes, i) ==> (#[trigger] nodes[k]).depth > nodes[i].depth,
        subtree_end(nodes, i) < nodes.len() ==> nodes[subtree_end(nodes, i)].depth
            <= nodes[i].depth,
{
    lemma_scan_end(nodes, nodes[i].depth, i + 1);
}

/// The end of a subtree is determined by what [`lemma_subtree_end`] states.
pub proof fn lemma_subtree_end_unique(nodes: Seq<Node>, i: int, e: int)
    requires
        0 <= i < e <= nodes.len(),
        forall|k: int| i < k < e ==> (#[trigger] nodes[k]).depth > nodes[i].depth,
        e < nodes.len() ==> nodes[e].depth <= nodes[i].depth,
    ensures
        e == subtree_end(nodes, i),
{
    lemma_subtree_end(nodes, i);
    let end = subtree_end(nodes, i);
    if e < end {
        assert(nodes[e].depth > nodes[i].depth);
    } else if end < e {
        assert(nodes[end].depth > nodes[i].depth);
    }
}

/// Subtrees nest: a node inside a subtree has its own subtree inside it.
pub proof fn lemma_nested(nodes: Seq<Node>, i: int, j: int)
    requires
        0 <= i < j < subtree_end(nodes, i),
        i < nodes.len(),
    ensures
        j < subtree_end(nodes, j) <= subtree_end(nodes, i),
{
    lemma_subtree_end(nodes, i);
    lemma_subtree_end(nodes, j);
    let outer = subtree_end(nodes, i);
    let inner = subtree_end(nodes, j);
    if outer < inner {
        assert(nodes[outer].depth > nodes[j].depth);
        assert(nodes[j].depth > nodes[i].depth);
    }
}

/// Whether every subtree that starts in `[from, limit)` ends by `limit`.
pub open spec fn closed(nodes: Seq<Node>, from: int, limit: int) -> bool {
    forall|j: int| from <= j < limit ==> #[trigger] subtree_end(nodes, j) <= limit
}

/// The subtree of a node is closed.
pub proof fn lemma_subtree_closed(nodes: Seq<Node>, i: int)
    requires
        0 <= i < nodes.len(),
    ensures
        closed(nodes, i + 1, subtree_end(nodes, i)),
        closed(nodes, i, subtree_end(nodes, i)),
{
    assert forall|j: int| i <= j < subtree_end(nodes, i) implies #[trigger] subtree_end(nodes, j)
        <= subtree_end(nodes, i) by {
        if i < j {
            lemma_nested(nodes, i, j);
        }
    }
}

/// The whole sequence is closed.
pub proof fn lemma_all_closed(nodes: Seq<Node>)
    ensures
        closed(nodes, 0, nodes.len() as int),
{
    assert forall|j: int| 0 <= j < nodes.len() implies #[trigger] subtree_end(nodes, j)
        <= nodes.len() by {
        lemma_subtree_end(nodes, j);
    }
}

/// What a chain over a closed range looks like: it starts at `from`, each
/// member follows the subtree of the one before, the last subtree ends at
/// `limit`, and every subtree that starts before a member ends by it.
pub proof fn lemma_chain(nodes: Seq<Node>, from: int, limit: int)
    requires
        0 <= from <= limit <= nodes.len() <= usize::MAX,
        closed(nodes, from, limit),
    ensures
        from < limit ==> chain(nodes, from, limit).len() > 0 && chain(nodes, from, limit)[0]
            == from,
        from == limit ==> chain(nodes, from, limit).len() == 0,
        forall|k: int|
            0 <= k < chain(nodes, from, limit).len() ==> from <= (#[trigger] chain(
                nodes,
                from,
                limit,
            )[k]) < limit,
        forall|k: int|
            0 <= k < chain(nodes, from, limit).len() - 1 ==> (#[trigger] chain(
                nodes,
                from,
                limit,
            )[k + 1]) == subtree_end(nodes, chain(nodes, from, limit)[k] as int),
        from < limit ==> subtree_end(nodes, chain(nodes, from, limit).last() as int) == limit,
        forall|k: int|
            0 <= k < chain(nodes, from, limit).len() ==> closed(
                nodes,
                from,
                (#[trigger] chain(nodes, from, limit)[k]) as int,
            ),
        forall|k: int, m: int|
            0 <= k < m < chain(nodes, from, limit).len() ==> (#[trigger] chain(
                nodes,
                from,
                limit,
            )[k]) < (#[trigger] chain(nodes, from, limit)[m]),
    decreases limit - from,
{
    if from < limit {
        lemma_subtree_end(nodes, from);
        let next = subtree_end(nodes, from);
        assert(next <= limit);
        assert(closed(nodes, next, limit));
        lemma_chain(nodes, next, limit);
        let rest = chain(nodes, next, limit);
        let all = chain(nodes, from, limit);
        assert(all == seq![from as usize] + rest);
        assert(all[0] == from);
        assert forall|k: int| 0 <= k < all.len() implies from <= (#[trigger] all[k]) < limit by {
            if k > 0 {
                assert(all[k] == rest[k - 1]);
            }
        }
        assert forall|k: int| 0 <= k < all.len() - 1 implies (#[trigger] all[k + 1])
            == subtree_end(nodes, all[k] as int) by {
            assert(all[k + 1] == rest[k]);
            if k > 0 {
                assert(all[k] == rest[k - 1]);
                assert(rest[k - 1 + 1] == subtree_end(nodes, rest[k - 1] as int));
            }
        }
        if next < limit {
            assert(all.last() == rest.last());
        }
        assert forall|k: int, m: int| 0 <= k < m < all.len() implies (#[trigger] all[k]) < (
        #[trigger] all[m]) by {
            assert(all[m] == rest[m - 1]);
            if k > 0 {
                assert(all[k] == rest[k - 1]);
            }
        }
        lemma_subtree_closed(nodes, from);
        assert forall|k: int| 0 <= k < all.len() implies closed(
            nodes,
            from,
            (#[trigger] all[k]) as int,
        ) by {
            if k > 0 {
                assert(all[k] == rest[k - 1]);
                assert(closed(nodes, next, rest[k - 1] as int));
                assert forall|j: int| from <= j < all[k] implies #[trigger] subtree_end(nodes, j)
                    <= all[k] by {
                    if j < next {
                        assert(subtree_end(nodes, j) <= next);
                    }
                }
            }
        }
    }
}

/// A document tree: the nodes in document order, and for each node the end
/// of its subtree.
pub struct DocumentTree {
    nodes: Vec<Node>,
    ends: Vec<usize>,
}

impl View for DocumentTree {
    type V = Seq<Node>;

    closed spec fn view(&self) -> Seq<Node> {
        self.nodes@
    }
}

impl DocumentTree {
    /// The subtree ends that the tree holds are the true ones.
    pub closed spec fn wf(&self) -> bool {
        &&& self.ends.len() == self.nodes.len()
        &&& forall|i: int|
            0 <= i < self.nodes.len() ==> (#[trigger] self.ends[i]) == subtree_end(self.nodes@, i)
    }

    /// The tree of `nodes`, given in document order.
    pub fn new(nodes: Vec<Node>) -> (tree: DocumentTree)
        ensures
            tree.wf(),
            tree@ == nodes@,
    {
        let n: usize = nodes.len();
        let mut ends: Vec<usize> = Vec::new();
        let mut k: usize = 0;
        while k < n
            invariant
                k <= n,
                ends.len() == k,
            decreases n - k,
        {
            ends.push(n);
            k += 1;
        }
        let mut i: usize = n;
        while i > 0
            invariant
                i <= n == nodes.len(),
                ends.len() == n,
                forall|k: int| i <= k < n ==> (#[trigger] ends[k]) == subtree_end(nodes@, k),
            decreases i,
        {
            i -= 1;
            let depth: usize = nodes[i].depth;
            let mut j: usize = i + 1;
            while j < n && nodes[j].depth > depth
                invariant
                    i < j <= n == nodes.len(),
                    ends.len() == n,
                    depth == nodes[i as int].depth,
                    forall|k: int| i < k < n ==> (#[trigger] ends[k]) == subtree_end(nodes@, k),
                    forall|k: int| i < k < j ==> (#[trigger] nodes[k]).depth > depth,
                decreases n - j,
            {
                proof {
                    lemma_subtree_end(nodes@, j as int);
                }
                j = ends[j];
            }
            proof {
                lemma_subtree_end_unique(nodes@, i as int, j as int);
            }
            ends.set(i, j);
        }
        DocumentTree { nodes, ends }
    }

    /// The number of nodes.
    pub fn len(&self) -> (n: usize)
        ensures
            n == self@.len(),
    {
        self.nodes.len()
    }

    /// Node `i`.
    pub fn node(&self, i: usize) -> (node: &Node)
        requires
            i < self@.len(),
        ensures
            *node == self@[i as int],
    {
        &self.nodes[i]
    }

    /// The index one past the last descendant of node `i`.
    pub fn subtree_end(&self, i: usize) -> (end: usize)
        requires
            self.wf(),
            i < self@.len(),
        ensures
            end == self::subtree_end(self@, i as int),
            i < end <= self@.len(),
    {
        proof {
            lemma_subtree_end(self@, i as int);
        }
        self.ends[i]
    }

    /// The next sibling of node `i`, if it has one.
    pub fn next_sibling(&self, i: usize) -> (sibling: Option<usize>)
        requires
            self.wf(),
            i < self@.len(),
        ensures
            sibling == self::next_sibling(self@, i as int),
    {
        let end: usize = self.subtree_end(i);
        if end < self.nodes.len() && self.nodes[end].depth == self.nodes[i].depth {
            Some(end)
        } else {
            None
        }
    }

    /// The members of the chain from `from` below `limit`.
    fn chain(&self, from: usize, limit: usize) -> (members: Vec<usize>)
        requires
            self.wf(),
            from <= limit <= self@.len(),
        ensures
            members@ == chain(self@, from as int, limit as int),
    {
        let mut members: Vec<usize> = Vec::new();
        let mut at: usize = from;
        while at < limit
            invariant
                self.wf(),
                from <= at,
                limit <= self@.len(),
                members@ + chain(self@, at as int, limit as int) == chain(
                    self@,
                    from as int,
                    limit as int,
                ),
            decreases self@.len() - at,
        {
            let ghost before = members@;
            members.push(at);
            let next: usize = self.subtree_end(at);
            assert(before + (seq![at] + chain(self@, next as int, limit as int)) =~= members@
                + chain(self@, next as int, limit as int));
            at = next;
        }
        assert(members@ + Seq::<usize>::empty() =~= members@);
        members
    }

    /// The children of node `i`, left to right.
    pub fn children(&self, i: usize) -> (members: Vec<usize>)
        requires
            self.wf(),
            i < self@.len(),
        ensures
            members@ == children(self@, i as int),
    {
        let end: usize = self.subtree_end(i);
        self.chain(i + 1, end)
    }

    /// The roots of the forest, left to right.
    pub fn roots(&self) -> (roots: Vec<usize>)
        requires
            self.wf(),
        ensures
            roots@ == chain(self@, 0, self@.len() as int),
    {
        self.chain(0, self.nodes.len())
    }
}

} // verus!
