//! The two outside computations that extraction rests on: parsing HTML into
//! nodes, and matching a regular expression. Their contracts are believed,
//! not proved.

use vstd::prelude::*;
use vstd::string::StringSliceAdditionalSpecFns;
use crate::document::{Node, NodeValue};

verus! {

/// The longest text, in bytes, that is handed to the HTML parser: 512 MiB.
/// The parser keeps text in buffers whose capacity is rounded up to a power
/// of two in 32 bits, so that no buffer can grow past 2 GiB, and it may write
/// three bytes for one that it reads (the replacement character for a NUL).
/// The limit is a third of 2 GiB, rounded down to a power of two.
pub const MAX_HTML_BYTES: usize = 0x2000_0000;

/// The nodes of the document that an HTML parser builds from `body`, in
/// document order, each with the number of its ancestors; an element carries
/// the value of its attribute named `attribute`.
pub uninterp spec fn html_outline(body: Seq<char>, attribute: Seq<char>) -> Seq<Node>;

/// Calls `scraper::Html::parse_document` and lists the nodes of the parsed
/// tree from its root on, as `descendants` of the `ego-tree` crate yields
/// them: a node before its children, children left to right. The depth of a
/// node is the length of its `ancestors`. The parse depends on `body` alone,
/// so the list is named by [`html_outline`]; nothing else is claimed of it.
/// A body over [`MAX_HTML_BYTES`] is left out: the parser panics when one of
/// its text buffers would grow past 2 GiB.
#[verifier::external_body]
pub(crate) fn parse_outline(body: &str, attribute: &str) -> (nodes: Vec<Node>)
    requires
        body.spec_bytes().len() <= MAX_HTML_BYTES,
    ensures
        nodes@ == html_outline(body@, attribute@),
{
    let html = scraper::Html::parse_document(body);
    html.tree.root().descendants().map(|node| Node {
        depth: node.ancestors().count(),
        value: match node.value() {
            scraper::Node::Text(text) => NodeValue::Text(text.to_string()),
            scraper::Node::Element(element) => NodeValue::Element {
                name: element.name().to_string(),
                href: element.attr(attribute).map(|value| value.to_string()),
            },
            _ => NodeValue::Other,
        },
    }).collect()
}

/// Whether the regular expression `pattern` matches somewhere in `text`;
/// `None` where `pattern` is not a regular expression that can be compiled.
pub uninterp spec fn regex_match(pattern: Seq<char>, text: Seq<char>) -> Option<bool>;

/// Compiles `pattern` with `regex::Regex::new` and asks `Regex::is_match`
/// about `text`. Both depend on their arguments alone, so the answer is named
/// by [`regex_match`]; a pattern that does not compile gives `None`.
#[verifier::external_body]
pub(crate) fn regex_is_match(pattern: &str, text: &str) -> (matched: Option<bool>)
    ensures
        matched == regex_match(pattern@, text@),
{
    match regex::Regex::new(pattern) {
        Ok(regex) => Some(regex.is_match(text)),
        Err(_) => None,
    }
}

} // verus!
