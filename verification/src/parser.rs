//! Token and link extraction.

use vstd::prelude::*;
use vstd::hash_set::StringHashSet;
use vstd::string::StringSliceAdditionalSpecFns;
use crate::document::{DocumentTree, Node, NodeValue, lemma_chain, lemma_subtree_closed,
    lemma_subtree_end, subtree_end};
use crate::html::{MAX_HTML_BYTES, html_outline, parse_outline, regex_is_match};
use crate::text::{clean, clean_bounds, char_is_ascii_whitespace, string_from_chars, to_chars,
    tokens_of, views, word_len};
use crate::walk::{advance, document_links, document_text, is_skipped, lemma_skipped_subtree_excluded,
    lemma_walk_drop, lemma_walk_start, lemma_walk_step, lemma_walk_top, link_of, link_pattern,
    link_target, links_upto, node_text, push_link, pushed, text_upto, walk_inv};

verus! {

/// What extraction yields: the tokens of the document's text, in order, and
/// its relative links, each one once, in the order of their first anchors.
#[derive(Debug, Clone, PartialEq, Eq)]
pub struct Content {
    pub tokens: Vec<String>,
    pub links: Vec<String>,
}

/// The extractor. It holds no state.
pub struct Parser {}

/// Whether `seen` holds exactly the links in `links`.
pub open spec fn links_known(links: Seq<String>, seen: Set<Seq<char>>) -> bool {
    forall|target: Seq<char>| seen.contains(target) <==> views(links).contains(target)
}

/// Whether two strings hold the same characters.
fn same_text(a: &str, b: &str) -> (same: bool)
    ensures
        same == (a@ == b@),
{
    let left = String::from_str(a);
    let right = String::from_str(b);
    left == right
}

/// The pattern of a relative link, for the regular expression engine.
fn link_pattern_text() -> (pattern: &'static str)
    ensures
        pattern@ == link_pattern(),
{
    "^\\./[A-Za-z0-9_.\\~()-]+$"
}

/// Executable form of [`is_skipped`].
fn is_skipped_value(value: &NodeValue) -> (skip: bool)
    ensures
        skip == is_skipped(*value),
{
    match value {
        NodeValue::Element { name, .. } => same_text(name.as_str(), "sub") || same_text(
            name.as_str(),
            "sup",
        ) || same_text(name.as_str(), "style") || same_text(name.as_str(), "math"),
        _ => false,
    }
}

impl Parser {
    /// Parses `body` as an HTML document and extracts its tokens and links.
    /// The body may take up to [`MAX_HTML_BYTES`], which is what the HTML
    /// parser can hold.
    pub fn parse(body: &str) -> (content: Content)
        requires
            body.spec_bytes().len() <= MAX_HTML_BYTES,
        ensures
            views(content.tokens@) == tokens_of(document_text(html_outline(body@, "href"@))),
            views(content.links@) == document_links(html_outline(body@, "href"@)),
    {
        let nodes = parse_outline(body, "href");
        let tree = DocumentTree::new(nodes);
        Parser::extract(&tree)
    }

    /// Parses `body` as [`Parser::parse`] does, unless it is over
    /// [`MAX_HTML_BYTES`].
    pub fn try_parse(body: &str) -> (parsed: Option<Content>)
        ensures
            parsed is Some <==> body.spec_bytes().len() <= MAX_HTML_BYTES,
            parsed matches Some(content) ==> views(content.tokens@) == tokens_of(
                document_text(html_outline(body@, "href"@)),
            ) && views(content.links@) == document_links(html_outline(body@, "href"@)),
    {
        if body.as_bytes().len() <= MAX_HTML_BYTES {
            Some(Parser::parse(body))
        } else {
            None
        }
    }

    /// Walks `tree` in document order with an explicit stack, visiting each
    /// node at most once. Text nodes add their text, anchors their link;
    /// the subtrees of `sub`, `sup`, `style` and `math` elements are left out.
    pub fn extract(tree: &DocumentTree) -> (content: Content)
        requires
            tree.wf(),
        ensures
            views(content.tokens@) == tokens_of(document_text(tree@)),
            views(content.links@) == document_links(tree@),
    {
        let n: usize = tree.len();
        let mut text = String::new();
        let mut links: Vec<String> = Vec::new();
        let mut seen = StringHashSet::new();
        let mut visited: Vec<bool> = Vec::new();
        let mut i: usize = 0;
        while i < n
            invariant
                i <= n,
                visited.len() == i,
                forall|k: int| 0 <= k < i ==> !visited[k],
            decreases n - i,
        {
            visited.push(false);
            i += 1;
        }
        let roots = tree.roots();
        let mut stack: Vec<usize> = Vec::new();
        let mut k: usize = roots.len();
        while k > 0
            invariant
                k <= roots.len(),
                stack@ == roots@.reverse().take(roots.len() - k),
            decreases k,
        {
            k -= 1;
            stack.push(roots[k]);
            assert(stack@ =~= roots@.reverse().take(roots.len() - k));
        }
        assert(stack@ =~= roots@.reverse());
        let ghost mut cursor: int = 0;
        proof {
            lemma_walk_start(tree@, stack@, visited@);
            assert(views(links@) =~= Seq::<Seq<char>>::empty());
        }
        while stack.len() > 0
            invariant
                tree.wf(),
                n == tree@.len(),
                walk_inv(tree@, stack@, visited@, cursor),
                text@ == text_upto(tree@, cursor),
                views(links@) == links_upto(tree@, cursor),
                links_known(links@, seen@),
            decreases n - cursor, stack.len(),
        {
            let ghost old_stack = stack@;
            let id: usize = stack.pop().unwrap();
            let ghost rest = stack@;
            assert(old_stack =~= rest.push(id));
            assert(old_stack[old_stack.len() - 1] < n);
            if visited[id] {
                proof {
                    lemma_walk_drop(tree@, rest, id, visited@, cursor);
                }
            } else {
                let ghost before = visited@;
                proof {
                    lemma_walk_top(tree@, rest, id, before, cursor);
                    lemma_walk_step(tree@, rest, id, before, cursor);
                    lemma_subtree_end(tree@, id as int);
                    lemma_subtree_closed(tree@, id as int);
                    lemma_chain(tree@, id + 1, subtree_end(tree@, id as int));
                }
                visited.set(id, true);
                match tree.next_sibling(id) {
                    Some(sibling) => {
                        if !visited[sibling] {
                            stack.push(sibling);
                        }
                    },
                    None => {},
                }
                let ghost base = stack@;
                let skip = Parser::visit(tree.node(id), &mut text, &mut links, &mut seen);
                if !skip {
                    let kids = tree.children(id);
                    let mut k: usize = kids.len();
                    assert(base + kids@.reverse().take(0) =~= base);
                    while k > 0
                        invariant
                            k <= kids.len(),
                            visited.len() == n,
                            forall|j: int|
                                0 <= j < kids.len() ==> (#[trigger] kids[j]) < n && !visited[kids[j] as int],
                            stack@ == base + kids@.reverse().take(kids.len() - k),
                        decreases k,
                    {
                        k -= 1;
                        let kid: usize = kids[k];
                        if !visited[kid] {
                            stack.push(kid);
                        }
                        assert(stack@ =~= base + kids@.reverse().take(kids.len() - k));
                    }
                    assert(kids@.reverse().take(kids.len() as int) =~= kids@.reverse());
                }
                proof {
                    assert(stack@ =~= rest + pushed(tree@, id as int));
                    assert(visited@ =~= before.update(id as int, true));
                    if skip {
                        lemma_skipped_subtree_excluded(tree@, id as int);
                    }
                    cursor = advance(tree@, id as int);
                }
            }
        }
        let tokens = Parser::extract_tokens(text.as_str());
        Content { tokens, links }
    }

    /// What one node adds to the text and the links. Returns whether the
    /// node is a skipped element, whose children are not to be walked.
    fn visit(node: &Node, text: &mut String, links: &mut Vec<String>, seen: &mut StringHashSet) -> (skip: bool)
        requires
            links_known(old(links)@, old(seen)@),
        ensures
            skip == is_skipped(node.value),
            final(text)@ == old(text)@ + node_text(node.value),
            views(final(links)@) == (if skip {
                views(old(links)@)
            } else {
                push_link(views(old(links)@), link_of(node.value))
            }),
            links_known(final(links)@, final(seen)@),
    {
        assert(text@ + Seq::<char>::empty() =~= text@);
        match &node.value {
            NodeValue::Text(own) => {
                text.append(own.as_str());
                false
            },
            NodeValue::Element { name, href } => {
                if is_skipped_value(&node.value) {
                    true
                } else {
                    if same_text(name.as_str(), "a") {
                        match href {
                            Some(value) => {
                                let matched = regex_is_match(link_pattern_text(), value.as_str());
                                match Parser::link_target(value.as_str(), matched) {
                                    Some(target) => {
                                        if !seen.contains(target.as_str()) {
                                            let ghost before = views(links@);
                                            seen.insert(target.clone());
                                            links.push(target);
                                            proof {
                                                assert(views(links@) =~= before.push(target@));
                                                assert forall|other: Seq<char>|
                                                    seen@.contains(other) <==> views(
                                                        links@,
                                                    ).contains(other) by {
                                                    if before.contains(other) {
                                                        let at = choose|at: int|
                                                            0 <= at < before.len() && before[at]
                                                                == other;
                                                        assert(views(links@)[at] == other);
                                                    }
                                                    if other == target@ {
                                                        assert(views(links@)[before.len() as int]
                                                            == other);
                                                    }
                                                }
                                            }
                                        }
                                    },
                                    None => {},
                                }
                            },
                            None => {},
                        }
                    }
                    false
                }
            },
            NodeValue::Other => false,
        }
    }

    /// The link that the attribute value `href` stands for, given what the
    /// match of the link pattern said of it: the value without its first two
    /// characters, where the pattern matched.
    pub fn link_target(href: &str, matched: Option<bool>) -> (target: Option<String>)
        ensures
            match target {
                Some(link) => link_target(href@, matched) == Some(link@),
                None => link_target(href@, matched) is None,
            },
    {
        match matched {
            Some(true) => {
                let len: usize = href.unicode_len();
                if len >= 2 {
                    let tail = href.substring_char(2, len);
                    assert(href@.subrange(2, len as int) =~= href@.skip(2));
                    Some(String::from_str(tail))
                } else {
                    None
                }
            },
            _ => None,
        }
    }

    /// Splits `data` on ASCII whitespace and cleans each word.
    pub fn extract_tokens(data: &str) -> (tokens: Vec<String>)
        ensures
            views(tokens@) == tokens_of(data@),
    {
        let chars = to_chars(data);
        let n: usize = chars.len();
        let mut tokens: Vec<String> = Vec::new();
        let mut i: usize = 0;
        assert(chars@.skip(0) =~= chars@);
        assert(views(tokens@) + tokens_of(chars@) =~= tokens_of(chars@));
        while i < n
            invariant
                i <= n == chars.len(),
                views(tokens@) + tokens_of(chars@.skip(i as int)) == tokens_of(chars@),
            decreases n - i,
        {
            let ghost rest = chars@.skip(i as int);
            if char_is_ascii_whitespace(chars[i]) {
                assert(rest.skip(1) =~= chars@.skip(i + 1));
                i += 1;
            } else {
                let mut j: usize = i + 1;
                assert(rest.skip(1) =~= chars@.skip(i + 1));
                while j < n && !char_is_ascii_whitespace(chars[j])
                    invariant
                        i < j <= n == chars.len(),
                        word_len(chars@.skip(i as int)) == (j - i) + word_len(
                            chars@.skip(j as int),
                        ),
                    decreases n - j,
                {
                    assert(chars@.skip(j as int).skip(1) =~= chars@.skip(j + 1));
                    j += 1;
                }
                assert(word_len(rest) == j - i);
                assert(rest.take(j - i) =~= chars@.subrange(i as int, j as int));
                assert(rest.skip(j - i) =~= chars@.skip(j as int));
                let (a, b) = clean_bounds(&chars, i, j);
                let token = string_from_chars(&chars, a, b);
                let ghost before = views(tokens@);
                tokens.push(token);
                assert(views(tokens@) =~= before + seq![clean(rest.take(j - i))]);
                i = j;
            }
        }
        assert(chars@.skip(n as int) =~= Seq::<char>::empty());
        tokens
    }

    /// Strips the non-alphanumeric characters from both ends of `word`.
    pub fn clean_word(word: &str) -> (cleaned: String)
        ensures
            cleaned@ == clean(word@),
    {
        let chars = to_chars(word);
        assert(chars@.subrange(0, chars.len() as int) =~= chars@);
        let (a, b) = clean_bounds(&chars, 0, chars.len());
        string_from_chars(&chars, a, b)
    }
}

} // verus!
