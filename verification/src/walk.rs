//! What extraction yields, stated over the nodes of a document, and the
//! invariant of the stack walk that computes it.

use vstd::prelude::*;
use crate::document::{Node, NodeValue, chain, children, closed, lemma_all_closed, lemma_chain,
    lemma_subtree_closed, lemma_subtree_end, next_sibling, subtree_end};
use crate::html::regex_match;

verus! {

/// The pattern of a relative link: `./` and then one or more characters out
/// of letters, digits, `_`, `.`, `~`, `(`, `)` and `-`.
pub open spec fn link_pattern() -> Seq<char> {
    "^\\./[A-Za-z0-9_.\\~()-]+$"@
}

/// Whether a node is an element whose subtree is left out: `sub`, `sup`,
/// `style` or `math`.
pub open spec fn is_skipped(value: NodeValue) -> bool {
    value matches NodeValue::Element { name, .. } && (name@ == "sub"@ || name@ == "sup"@ || name@
        == "style"@ || name@ == "math"@)
}

/// Whether node `i` lies inside the subtree of a skipped element.
pub open spec fn hidden(nodes: Seq<Node>, i: int) -> bool {
    exists|j: int| 0 <= j < i && is_skipped((#[trigger] nodes[j]).value) && i < subtree_end(nodes, j)
}

/// The text that a node contributes: its own, where it is a text node.
pub open spec fn node_text(value: NodeValue) -> Seq<char> {
    match value {
        NodeValue::Text(text) => text@,
        _ => Seq::empty(),
    }
}

/// The link that an attribute value stands for, given what the pattern match
/// said of it: the value without its first two characters.
pub open spec fn link_target(href: Seq<char>, matched: Option<bool>) -> Option<Seq<char>> {
    if matched == Some(true) && href.len() >= 2 {
        Some(href.skip(2))
    } else {
        None
    }
}

/// The link that a node contributes: for an `a` element whose link attribute
/// matches [`link_pattern`], what follows the leading `./`.
pub open spec fn link_of(value: NodeValue) -> Option<Seq<char>> {
    match value {
        NodeValue::Element { name, href: Some(href) } => if name@ == "a"@ {
            link_target(href@, regex_match(link_pattern(), href@))
        } else {
            None
        },
        _ => None,
    }
}

/// `links` with `link` at its end, unless there is none or it is there
/// already.
pub open spec fn push_link(links: Seq<Seq<char>>, link: Option<Seq<char>>) -> Seq<Seq<char>> {
    match link {
        Some(target) => if links.contains(target) {
            links
        } else {
            links.push(target)
        },
        None => links,
    }
}

/// The text of the first `n` nodes: the text nodes that are not hidden, in
/// document order, one after the other.
pub open spec fn text_upto(nodes: Seq<Node>, n: int) -> Seq<char>
    decreases n,
{
    if n <= 0 {
        Seq::empty()
    } else if hidden(nodes, n - 1) {
        text_upto(nodes, n - 1)
    } else {
        text_upto(nodes, n - 1) + node_text(nodes[n - 1].value)
    }
}

/// The links of the first `n` nodes: those of the anchors that are not
/// hidden, in document order, each one once.
pub open spec fn links_upto(nodes: Seq<Node>, n: int) -> Seq<Seq<char>>
    decreases n,
{
    if n <= 0 {
        Seq::empty()
    } else if hidden(nodes, n - 1) || is_skipped(nodes[n - 1].value) {
        links_upto(nodes, n - 1)
    } else {
        push_link(links_upto(nodes, n - 1), link_of(nodes[n - 1].value))
    }
}

/// The text of a document.
pub open spec fn document_text(nodes: Seq<Node>) -> Seq<char> {
    text_upto(nodes, nodes.len() as int)
}

/// The links of a document.
pub open spec fn document_links(nodes: Seq<Node>) -> Seq<Seq<char>> {
    links_upto(nodes, nodes.len() as int)
}

/// Hidden nodes add nothing.
pub proof fn lemma_hidden_range(nodes: Seq<Node>, a: int, b: int)
    requires
        0 <= a <= b,
        forall|i: int| a <= i < b ==> hidden(nodes, i),
    ensures
        text_upto(nodes, b) == text_upto(nodes, a),
        links_upto(nodes, b) == links_upto(nodes, a),
    decreases b - a,
{
    if a < b {
        lemma_hidden_range(nodes, a, b - 1);
    }
}

/// The links of a document are a set: no link stands twice among them.
pub proof fn lemma_links_distinct(nodes: Seq<Node>, n: int)
    ensures
        forall|i: int, j: int|
            0 <= i < j < links_upto(nodes, n).len() ==> #[trigger] links_upto(nodes, n)[i]
                != #[trigger] links_upto(nodes, n)[j],
    decreases n,
{
    if n > 0 {
        lemma_links_distinct(nodes, n - 1);
        let before = links_upto(nodes, n - 1);
        let all = links_upto(nodes, n);
        assert forall|i: int, j: int| 0 <= i < j < all.len() implies #[trigger] all[i]
            != #[trigger] all[j] by {
            if j < before.len() {
                assert(all[i] == before[i] && all[j] == before[j]);
            } else {
                assert(all[i] == before[i]);
                assert(before.contains(before[i]));
            }
        }
    }
}

/// Text inside the subtree of a skipped element is no part of the document's
/// text: the text up to the end of that subtree is the text up to the element.
pub proof fn lemma_skipped_subtree_excluded(nodes: Seq<Node>, i: int)
    requires
        0 <= i < nodes.len(),
        is_skipped(nodes[i].value),
    ensures
        text_upto(nodes, subtree_end(nodes, i)) == text_upto(nodes, i),
        links_upto(nodes, subtree_end(nodes, i)) == links_upto(nodes, i),
{
    lemma_subtree_end(nodes, i);
    assert forall|k: int| i + 1 <= k < subtree_end(nodes, i) implies hidden(nodes, k) by {
        assert(is_skipped(nodes[i].value));
    }
    lemma_hidden_range(nodes, i + 1, subtree_end(nodes, i));
}

/// A node is not hidden where every subtree that starts before it has ended.
pub proof fn lemma_visible_root(nodes: Seq<Node>, y: int)
    requires
        0 <= y < nodes.len(),
        closed(nodes, 0, y),
    ensures
        !hidden(nodes, y),
{
    assert forall|j: int| 0 <= j < y implies !(is_skipped((#[trigger] nodes[j]).value) && y
        < subtree_end(nodes, j)) by {
        assert(subtree_end(nodes, j) <= y);
    }
}

/// A node `y` after a visible node `x` is visible where the subtrees that
/// start between them have ended by `y`, and so has that of `x` if `x` is
/// skipped.
pub proof fn lemma_visible_after(nodes: Seq<Node>, x: int, y: int)
    requires
        0 <= x < y < nodes.len(),
        !hidden(nodes, x),
        closed(nodes, x + 1, y),
        is_skipped(nodes[x].value) ==> subtree_end(nodes, x) <= y,
    ensures
        !hidden(nodes, y),
{
    assert forall|j: int| 0 <= j < y implies !(is_skipped((#[trigger] nodes[j]).value) && y
        < subtree_end(nodes, j)) by {
        if j < x {
            if is_skipped(nodes[j].value) && y < subtree_end(nodes, j) {
                assert(x < subtree_end(nodes, j));
                assert(hidden(nodes, x));
            }
        } else if j > x {
            assert(subtree_end(nodes, j) <= y);
        }
    }
}

/// What the walk pushes for the node it has taken from the stack: the next
/// sibling, then the children from the last to the first, unless the node is
/// a skipped element.
pub open spec fn pushed(nodes: Seq<Node>, x: int) -> Seq<usize> {
    let sibling = match next_sibling(nodes, x) {
        Some(s) => seq![s],
        None => Seq::empty(),
    };
    if is_skipped(nodes[x].value) {
        sibling
    } else {
        sibling + children(nodes, x).reverse()
    }
}

/// Where the walk stands after the node `x`.
pub open spec fn advance(nodes: Seq<Node>, x: int) -> int {
    if is_skipped(nodes[x].value) {
        subtree_end(nodes, x)
    } else {
        x + 1
    }
}

/// Whether the node that follows the subtree of `stack[p]` lies deeper in
/// the stack, unless that subtree is the last.
pub open spec fn covered(nodes: Seq<Node>, stack: Seq<usize>, p: int) -> bool {
    subtree_end(nodes, stack[p] as int) == nodes.len() || exists|q: int|
        0 <= q < p && (#[trigger] stack[q]) == subtree_end(nodes, stack[p] as int)
}

/// Every entry of the stack is a node.
pub open spec fn in_range(nodes: Seq<Node>, stack: Seq<usize>) -> bool {
    forall|p: int| 0 <= p < stack.len() ==> (#[trigger] stack[p]) < nodes.len()
}

/// The visited nodes are the visible ones before the cursor.
pub open spec fn visited_ok(nodes: Seq<Node>, visited: Seq<bool>, cursor: int) -> bool {
    &&& visited.len() == nodes.len()
    &&& forall|i: int|
        0 <= i < nodes.len() ==> ((#[trigger] visited[i]) <==> (i < cursor && !hidden(nodes, i)))
}

/// The entries that are not visited yet are visible.
pub open spec fn visible_ok(nodes: Seq<Node>, stack: Seq<usize>, visited: Seq<bool>) -> bool {
    forall|p: int|
        0 <= p < stack.len() && !visited[(#[trigger] stack[p]) as int] ==> !hidden(
            nodes,
            stack[p] as int,
        )
}

/// The node at the cursor is on the stack.
pub open spec fn cursor_ok(nodes: Seq<Node>, stack: Seq<usize>, cursor: int) -> bool {
    cursor < nodes.len() ==> exists|p: int| 0 <= p < stack.len() && (#[trigger] stack[p]) == cursor
}

/// Every entry that is not visited yet is covered.
pub open spec fn covered_ok(nodes: Seq<Node>, stack: Seq<usize>, visited: Seq<bool>) -> bool {
    forall|p: int|
        0 <= p < stack.len() && !visited[(#[trigger] stack[p]) as int] ==> covered(nodes, stack, p)
}

/// Of two entries that are not visited yet, the deeper one is the same node
/// or lies after the subtree of the other.
pub open spec fn ordered_ok(nodes: Seq<Node>, stack: Seq<usize>, visited: Seq<bool>) -> bool {
    forall|q: int, p: int|
        0 <= q < p < stack.len() && !visited[(#[trigger] stack[q]) as int] && !visited[(
        #[trigger] stack[p]) as int] ==> stack[q] == stack[p] || stack[q] >= subtree_end(
            nodes,
            stack[p] as int,
        )
}

/// The invariant of the walk. `cursor` is the node to be visited next: the
/// nodes before it are visited or hidden, and no other is visited. The
/// entries of the stack that are not visited yet are visible, are ordered
/// from the top down, have disjoint subtrees, and these subtrees cover
/// everything from `cursor` on.
pub open spec fn walk_inv(nodes: Seq<Node>, stack: Seq<usize>, visited: Seq<bool>, cursor: int) -> bool {
    &&& nodes.len() <= usize::MAX
    &&& 0 <= cursor <= nodes.len()
    &&& in_range(nodes, stack)
    &&& visited_ok(nodes, visited, cursor)
    &&& visible_ok(nodes, stack, visited)
    &&& cursor_ok(nodes, stack, cursor)
    &&& covered_ok(nodes, stack, visited)
    &&& ordered_ok(nodes, stack, visited)
}

/// The walk may start from the roots, the first one on top.
pub proof fn lemma_walk_start(nodes: Seq<Node>, stack: Seq<usize>, visited: Seq<bool>)
    requires
        nodes.len() <= usize::MAX,
        stack == chain(nodes, 0, nodes.len() as int).reverse(),
        visited.len() == nodes.len(),
        forall|i: int| 0 <= i < visited.len() ==> !visited[i],
    ensures
        walk_inv(nodes, stack, visited, 0),
{
    let n = nodes.len() as int;
    let roots = chain(nodes, 0, n);
    let count = roots.len() as int;
    lemma_all_closed(nodes);
    lemma_chain(nodes, 0, n);
    assert forall|p: int| 0 <= p < stack.len() implies stack[p] == roots[count - 1 - p] by {}
    assert forall|p: int| 0 <= p < stack.len() implies !hidden(nodes, (#[trigger] stack[p]) as int) by {
        assert(stack[p] == roots[count - 1 - p]);
        lemma_visible_root(nodes, roots[count - 1 - p] as int);
    }
    if 0 < n {
        assert(stack[count - 1] == roots[0]);
    }
    assert forall|p: int| 0 <= p < stack.len() implies covered(nodes, stack, p) by {
        let k = count - 1 - p;
        assert(stack[p] == roots[k]);
        if k < count - 1 {
            assert(roots[k + 1] == subtree_end(nodes, roots[k] as int));
            assert(stack[p - 1] == roots[k + 1]);
        } else {
            assert(roots[k] == roots.last());
        }
    }
    assert forall|q: int, p: int| 0 <= q < p < stack.len() implies stack[q] >= subtree_end(
        nodes,
        (#[trigger] stack[p]) as int,
    ) || (#[trigger] stack[q]) == stack[p] by {
        let k = count - 1 - p;
        let m = count - 1 - q;
        assert(stack[p] == roots[k]);
        assert(stack[q] == roots[m]);
        assert(roots[k] < roots[m]);
        assert(closed(nodes, 0, roots[m] as int));
    }
}

/// An entry that is visited already can be dropped from the top.
pub proof fn lemma_walk_drop(nodes: Seq<Node>, rest: Seq<usize>, x: usize, visited: Seq<bool>, cursor: int)
    requires
        walk_inv(nodes, rest.push(x), visited, cursor),
        visited[x as int],
    ensures
        walk_inv(nodes, rest, visited, cursor),
{
    let old_stack = rest.push(x);
    assert forall|p: int| 0 <= p < rest.len() implies rest[p] == old_stack[p] by {}
    if cursor < nodes.len() {
        let p = choose|p: int| 0 <= p < old_stack.len() && (#[trigger] old_stack[p]) == cursor;
        assert(rest[p] == cursor);
    }
    assert forall|p: int| 0 <= p < rest.len() && !visited[(#[trigger] rest[p]) as int] implies covered(
        nodes,
        rest,
        p,
    ) by {
        assert(old_stack[p] == rest[p]);
        assert(covered(nodes, old_stack, p));
        if subtree_end(nodes, rest[p] as int) != nodes.len() {
            let q = choose|q: int|
                0 <= q < p && (#[trigger] old_stack[q]) == subtree_end(nodes, old_stack[p] as int);
            assert(rest[q] == old_stack[q]);
        }
    }
    assert forall|q: int, p: int|
        0 <= q < p < rest.len() && !visited[(#[trigger] rest[q]) as int] && !visited[(
        #[trigger] rest[p]) as int] implies rest[q] == rest[p] || rest[q] >= subtree_end(
        nodes,
        rest[p] as int,
    ) by {
        assert(old_stack[p] == rest[p]);
        assert(old_stack[q] == rest[q]);
    }
}

/// The entry on top, where it is not visited yet, is the node at the cursor,
/// and nothing from it on is visited.
pub proof fn lemma_walk_top(nodes: Seq<Node>, rest: Seq<usize>, x: usize, visited: Seq<bool>, cursor: int)
    requires
        walk_inv(nodes, rest.push(x), visited, cursor),
        !visited[x as int],
    ensures
        x == cursor,
        x < nodes.len(),
        !hidden(nodes, x as int),
        forall|i: int| x <= i < nodes.len() ==> !visited[i],
{
    let old_stack = rest.push(x);
    let top = rest.len() as int;
    assert(old_stack[top] == x);
    assert(!hidden(nodes, x as int));
    assert(visited[x as int] <==> (x < cursor && !hidden(nodes, x as int)));
    assert(cursor <= x);
    let p = choose|p: int| 0 <= p < old_stack.len() && (#[trigger] old_stack[p]) == cursor;
    assert(!visited[cursor]);
    lemma_subtree_end(nodes, x as int);
    if p < top {
        assert(old_stack[p] == old_stack[top] || old_stack[p] >= subtree_end(
            nodes,
            old_stack[top] as int,
        ));
    }
}

/// How many siblings the walk pushes for node `x`: one or none.
pub open spec fn sibling_count(nodes: Seq<Node>, x: int) -> int {
    if next_sibling(nodes, x) is Some {
        1
    } else {
        0
    }
}

/// How many children the walk pushes for node `x`.
pub open spec fn child_count(nodes: Seq<Node>, x: int) -> int {
    if is_skipped(nodes[x].value) {
        0
    } else {
        children(nodes, x).len() as int
    }
}

/// Where the entries of the stack stand after a step, and how the new ones
/// relate to the node `x` that pushed them.
pub open spec fn laid_out(nodes: Seq<Node>, rest: Seq<usize>, x: int, stack: Seq<usize>) -> bool {
    let r = rest.len() as int;
    let e = subtree_end(nodes, x);
    let first = r + sibling_count(nodes, x);
    &&& stack.len() == first + child_count(nodes, x)
    &&& forall|p: int| 0 <= p < r ==> (#[trigger] stack[p]) == rest[p]
    &&& sibling_count(nodes, x) == 1 ==> stack[r] == e && e < nodes.len()
    &&& forall|p: int|
        first <= p < stack.len() ==> x < (#[trigger] stack[p]) < e && closed(
            nodes,
            x + 1,
            stack[p] as int,
        )
    &&& first < stack.len() ==> subtree_end(nodes, stack[first] as int) == e
    &&& forall|q: int, p: int|
        first <= q && q + 1 == p && p < stack.len() ==> (#[trigger] stack[q]) == subtree_end(
            nodes,
            (#[trigger] stack[p]) as int,
        )
    &&& forall|q: int, p: int|
        first <= q < p < stack.len() ==> (#[trigger] stack[q]) >= subtree_end(
            nodes,
            (#[trigger] stack[p]) as int,
        )
    &&& first < stack.len() ==> stack.last() == x + 1
    &&& first == stack.len() && !is_skipped(nodes[x].value) ==> e == x + 1
}

/// The stack after a step is laid out as [`laid_out`] says.
pub proof fn lemma_laid_out(nodes: Seq<Node>, rest: Seq<usize>, x: int)
    requires
        0 <= x < nodes.len() <= usize::MAX,
    ensures
        laid_out(nodes, rest, x, rest + pushed(nodes, x)),
{
    let n = nodes.len() as int;
    let r = rest.len() as int;
    lemma_subtree_end(nodes, x);
    lemma_subtree_closed(nodes, x);
    let e = subtree_end(nodes, x);
    lemma_chain(nodes, x + 1, e);
    let kids = children(nodes, x);
    let sp = sibling_count(nodes, x);
    let count = child_count(nodes, x);
    let first = r + sp;
    let stack = rest + pushed(nodes, x);
    let total = kids.len() as int;
    assert(stack.len() == first + count);
    assert forall|p: int| first <= p < stack.len() implies (#[trigger] stack[p]) == kids[total - 1
        - (p - first)] by {
        assert(pushed(nodes, x)[p - r] == kids.reverse()[p - first]);
    }
    assert forall|p: int| first <= p < stack.len() implies x < (#[trigger] stack[p]) < e && closed(
        nodes,
        x + 1,
        stack[p] as int,
    ) by {
        assert(stack[p] == kids[total - 1 - (p - first)]);
    }
    if first < stack.len() {
        assert(stack[first] == kids[total - 1 - (first - first)]);
        assert(kids[total - 1] == kids.last());
    }
    assert forall|q: int, p: int| first <= q && q + 1 == p && p < stack.len() implies (
    #[trigger] stack[q]) == subtree_end(nodes, (#[trigger] stack[p]) as int) by {
        let k = total - 1 - (p - first);
        assert(stack[p] == kids[k]);
        assert(stack[q] == kids[total - 1 - (q - first)]);
        assert(kids[k + 1] == subtree_end(nodes, kids[k] as int));
    }
    assert forall|q: int, p: int| first <= q < p < stack.len() implies (#[trigger] stack[q])
        >= subtree_end(nodes, (#[trigger] stack[p]) as int) by {
        let k1 = total - 1 - (q - first);
        let k2 = total - 1 - (p - first);
        assert(stack[q] == kids[k1]);
        assert(stack[p] == kids[k2]);
        assert(kids[k2] < kids[k1]);
        assert(closed(nodes, x + 1, kids[k1] as int));
        assert(subtree_end(nodes, kids[k2] as int) <= kids[k1]);
    }
    if first < stack.len() {
        assert(stack[stack.len() - 1] == kids[0]);
    }
}

/// What a step needs to know of the state before it.
pub open spec fn step_ready(nodes: Seq<Node>, rest: Seq<usize>, x: int, visited: Seq<bool>, stack: Seq<usize>) -> bool {
    &&& 0 <= x < nodes.len() <= usize::MAX
    &&& visited.len() == nodes.len()
    &&& !hidden(nodes, x)
    &&& forall|i: int| x <= i < nodes.len() ==> !visited[i]
    &&& in_range(nodes, rest)
    &&& laid_out(nodes, rest, x, stack)
}

/// After a step every entry of the stack is a node.
proof fn lemma_step_in_range(nodes: Seq<Node>, rest: Seq<usize>, x: int, visited: Seq<bool>, stack: Seq<usize>)
    requires
        step_ready(nodes, rest, x, visited, stack),
    ensures
        in_range(nodes, stack),
{
    lemma_subtree_end(nodes, x);
    let r = rest.len() as int;
    assert forall|p: int| 0 <= p < stack.len() implies (#[trigger] stack[p]) < nodes.len() by {
        if p < r {
            assert(rest[p] < nodes.len());
        }
    }
}

/// After a step the visited nodes are the visible ones before the new
/// cursor: the node itself is visited, and what a skipped element hides is
/// passed over.
proof fn lemma_step_visited(nodes: Seq<Node>, x: int, visited: Seq<bool>)
    requires
        0 <= x < nodes.len(),
        !hidden(nodes, x),
        forall|i: int| x <= i < nodes.len() ==> !visited[i],
        visited_ok(nodes, visited, x),
    ensures
        visited_ok(nodes, visited.update(x, true), advance(nodes, x)),
{
    lemma_subtree_end(nodes, x);
    let seen = visited.update(x, true);
    let next = advance(nodes, x);
    assert forall|i: int| 0 <= i < nodes.len() implies ((#[trigger] seen[i]) <==> (i < next
        && !hidden(nodes, i))) by {
        if i < x {
            assert(visited[i] <==> (i < x && !hidden(nodes, i)));
        } else if i > x {
            assert(!visited[i]);
            if i < next {
                assert(is_skipped(nodes[x].value));
                assert(hidden(nodes, i));
            }
        }
    }
}

/// After a step the entries that are not visited yet are visible: the
/// sibling and the children of a visible node are.
proof fn lemma_step_visible(nodes: Seq<Node>, rest: Seq<usize>, x: int, visited: Seq<bool>, stack: Seq<usize>)
    requires
        step_ready(nodes, rest, x, visited, stack),
        visible_ok(nodes, rest, visited),
    ensures
        visible_ok(nodes, stack, visited.update(x, true)),
{
    lemma_subtree_end(nodes, x);
    lemma_subtree_closed(nodes, x);
    let r = rest.len() as int;
    let first = r + sibling_count(nodes, x);
    let seen = visited.update(x, true);
    assert forall|p: int|
        0 <= p < stack.len() && !seen[(#[trigger] stack[p]) as int] implies !hidden(
        nodes,
        stack[p] as int,
    ) by {
        if p < r {
            assert(!visited[rest[p] as int]);
        } else if p < first {
            lemma_visible_after(nodes, x, subtree_end(nodes, x));
        } else {
            lemma_visible_after(nodes, x, stack[p] as int);
        }
    }
}

/// The node that follows the subtree of `x`, where there is one, lies in the
/// rest of the stack: at the place that this function picks.
pub open spec fn follower(nodes: Seq<Node>, rest: Seq<usize>, x: int) -> int {
    choose|q: int| 0 <= q < rest.len() && (#[trigger] rest[q]) == subtree_end(nodes, x)
}

/// The place that [`follower`] picks holds the node that follows the
/// subtree of the entry on top.
proof fn lemma_follower(nodes: Seq<Node>, rest: Seq<usize>, x: usize, visited: Seq<bool>)
    requires
        covered_ok(nodes, rest.push(x), visited),
        !visited[x as int],
        subtree_end(nodes, x as int) < nodes.len(),
    ensures
        0 <= follower(nodes, rest, x as int) < rest.len(),
        rest[follower(nodes, rest, x as int)] == subtree_end(nodes, x as int),
{
    let old_stack = rest.push(x);
    let r = rest.len() as int;
    assert(old_stack[r] == x);
    assert(covered(nodes, old_stack, r));
    let q = choose|q: int|
        0 <= q < r && (#[trigger] old_stack[q]) == subtree_end(nodes, old_stack[r] as int);
    assert(rest[q] == old_stack[q]);
}

/// After a step the node at the new cursor is on the stack: the first
/// child, or else the node that follows the subtree.
proof fn lemma_step_cursor(nodes: Seq<Node>, rest: Seq<usize>, x: usize, visited: Seq<bool>, stack: Seq<usize>)
    requires
        step_ready(nodes, rest, x as int, visited, stack),
        covered_ok(nodes, rest.push(x), visited),
    ensures
        cursor_ok(nodes, stack, advance(nodes, x as int)),
{
    let xi = x as int;
    lemma_subtree_end(nodes, xi);
    let r = rest.len() as int;
    let e = subtree_end(nodes, xi);
    let first = r + sibling_count(nodes, xi);
    let next = advance(nodes, xi);
    if next < nodes.len() {
        if first < stack.len() {
            assert(stack[stack.len() - 1] == next);
        } else {
            assert(next == e);
            if sibling_count(nodes, xi) == 1 {
                assert(stack[r] == next);
            } else {
                lemma_follower(nodes, rest, x, visited);
                assert(stack[follower(nodes, rest, xi)] == next);
            }
        }
    }
}

/// After a step every entry that is not visited yet is covered.
proof fn lemma_step_covered(nodes: Seq<Node>, rest: Seq<usize>, x: usize, visited: Seq<bool>, stack: Seq<usize>)
    requires
        step_ready(nodes, rest, x as int, visited, stack),
        covered_ok(nodes, rest.push(x), visited),
    ensures
        covered_ok(nodes, stack, visited.update(x as int, true)),
{
    let xi = x as int;
    let n = nodes.len() as int;
    lemma_subtree_end(nodes, xi);
    let old_stack = rest.push(x);
    let r = rest.len() as int;
    let e = subtree_end(nodes, xi);
    let first = r + sibling_count(nodes, xi);
    let seen = visited.update(xi, true);
    if e < n {
        lemma_follower(nodes, rest, x, visited);
    }
    let q0 = follower(nodes, rest, xi);
    assert forall|p: int|
        0 <= p < stack.len() && !seen[(#[trigger] stack[p]) as int] implies covered(
        nodes,
        stack,
        p,
    ) by {
        let y = stack[p] as int;
        if p < r {
            assert(old_stack[p] == stack[p]);
            assert(covered(nodes, old_stack, p));
            if subtree_end(nodes, y) != n {
                let q = choose|q: int|
                    0 <= q < p && (#[trigger] old_stack[q]) == subtree_end(nodes, old_stack[p] as int);
                assert(stack[q] == subtree_end(nodes, y));
            }
        } else if p < first {
            assert(y == e);
            assert(old_stack[q0] == e);
            assert(!visited[e]);
            assert(covered(nodes, old_stack, q0));
            if subtree_end(nodes, e) != n {
                let q = choose|q: int|
                    0 <= q < q0 && (#[trigger] old_stack[q]) == subtree_end(
                        nodes,
                        old_stack[q0] as int,
                    );
                assert(stack[q] == subtree_end(nodes, y));
            }
        } else if p > first {
            let q = p - 1;
            assert(stack[q] == subtree_end(nodes, stack[p] as int));
        } else {
            assert(subtree_end(nodes, y) == e);
            if e < n {
                if sibling_count(nodes, xi) == 1 {
                    assert(stack[r] == e);
                } else {
                    assert(stack[q0] == e);
                }
            }
        }
    }
}

/// After a step the entries that are not visited yet are still ordered.
proof fn lemma_step_ordered(nodes: Seq<Node>, rest: Seq<usize>, x: usize, visited: Seq<bool>, stack: Seq<usize>)
    requires
        step_ready(nodes, rest, x as int, visited, stack),
        !visited[x as int],
        covered_ok(nodes, rest.push(x), visited),
        ordered_ok(nodes, rest.push(x), visited),
    ensures
        ordered_ok(nodes, stack, visited.update(x as int, true)),
{
    let xi = x as int;
    let n = nodes.len() as int;
    lemma_subtree_end(nodes, xi);
    lemma_subtree_closed(nodes, xi);
    let old_stack = rest.push(x);
    let r = rest.len() as int;
    let e = subtree_end(nodes, xi);
    let first = r + sibling_count(nodes, xi);
    let seen = visited.update(xi, true);
    assert(old_stack[r] == x);
    if e < n {
        lemma_follower(nodes, rest, x, visited);
    }
    let q0 = follower(nodes, rest, xi);
    assert forall|q: int, p: int|
        0 <= q < p < stack.len() && !seen[(#[trigger] stack[q]) as int] && !seen[(
        #[trigger] stack[p]) as int] implies stack[q] == stack[p] || stack[q] >= subtree_end(
        nodes,
        stack[p] as int,
    ) by {
        if p < r {
            assert(old_stack[p] == stack[p]);
            assert(old_stack[q] == stack[q]);
        } else if q < r {
            assert(old_stack[q] == stack[q]);
            assert(old_stack[q] == old_stack[r] || old_stack[q] >= subtree_end(
                nodes,
                old_stack[r] as int,
            ));
            assert(stack[q] >= e);
            if p < first {
                assert(stack[p] == e);
                if stack[q] > e {
                    assert(old_stack[q0] == e);
                    assert(!visited[e]);
                    if q < q0 {
                        assert(old_stack[q] == old_stack[q0] || old_stack[q] >= subtree_end(
                            nodes,
                            old_stack[q0] as int,
                        ));
                    } else if q0 < q {
                        lemma_subtree_end(nodes, stack[q] as int);
                        assert(old_stack[q0] == old_stack[q] || old_stack[q0] >= subtree_end(
                            nodes,
                            old_stack[q] as int,
                        ));
                    }
                }
            } else {
                assert(subtree_end(nodes, stack[p] as int) <= e);
            }
        } else if q < first {
            assert(stack[q] == e);
            assert(subtree_end(nodes, stack[p] as int) <= e);
        }
    }
}

/// One step of the walk: the node on top is visited, and what it pushes
/// takes its place.
pub proof fn lemma_walk_step(nodes: Seq<Node>, rest: Seq<usize>, x: usize, visited: Seq<bool>, cursor: int)
    requires
        walk_inv(nodes, rest.push(x), visited, cursor),
        !visited[x as int],
    ensures
        x == cursor,
        walk_inv(
            nodes,
            rest + pushed(nodes, x as int),
            visited.update(x as int, true),
            advance(nodes, x as int),
        ),
{
    let xi = x as int;
    let stack = rest + pushed(nodes, xi);
    let old_stack = rest.push(x);
    lemma_walk_top(nodes, rest, x, visited, cursor);
    lemma_subtree_end(nodes, xi);
    lemma_laid_out(nodes, rest, xi);
    assert(in_range(nodes, rest)) by {
        assert forall|p: int| 0 <= p < rest.len() implies (#[trigger] rest[p]) < nodes.len() by {
            assert(old_stack[p] == rest[p]);
        }
    }
    assert(step_ready(nodes, rest, xi, visited, stack));
    assert(visible_ok(nodes, rest, visited)) by {
        assert forall|p: int|
            0 <= p < rest.len() && !visited[(#[trigger] rest[p]) as int] implies !hidden(
            nodes,
            rest[p] as int,
        ) by {
            assert(old_stack[p] == rest[p]);
        }
    }
    lemma_step_in_range(nodes, rest, xi, visited, stack);
    lemma_step_visited(nodes, xi, visited);
    lemma_step_visible(nodes, rest, xi, visited, stack);
    lemma_step_cursor(nodes, rest, x, visited, stack);
    lemma_step_covered(nodes, rest, x, visited, stack);
    lemma_step_ordered(nodes, rest, x, visited, stack);
}

} // verus!
