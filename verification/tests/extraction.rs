use wikipedia_search_engine::document::{DocumentTree, Node, NodeValue};
use wikipedia_search_engine::parser::Parser;

fn text(depth: usize, text: &str) -> Node {
    Node { depth, value: NodeValue::Text(text.to_string()) }
}

fn element(depth: usize, name: &str, href: Option<&str>) -> Node {
    Node {
        depth,
        value: NodeValue::Element { name: name.to_string(), href: href.map(|h| h.to_string()) },
    }
}

fn strings(items: &[&str]) -> Vec<String> {
    items.iter().map(|s| s.to_string()).collect()
}

#[test]
fn clean_word_strips_punctuation_at_both_ends() {
    assert_eq!(Parser::clean_word("Hello,"), "Hello");
    assert_eq!(Parser::clean_word("(World!)"), "World");
    assert_eq!(Parser::clean_word("don't"), "don't");
    assert_eq!(Parser::clean_word("..."), "");
    assert_eq!(Parser::clean_word(""), "");
    assert_eq!(Parser::clean_word("«été»"), "été");
    assert_eq!(Parser::clean_word("x"), "x");
}

#[test]
fn extract_tokens_splits_on_ascii_whitespace() {
    assert_eq!(
        Parser::extract_tokens("Hello, World!\nsecond\tline\r\nthird  \x0C fourth"),
        strings(&["Hello", "World", "second", "line", "third", "fourth"])
    );
    assert_eq!(Parser::extract_tokens(""), Vec::<String>::new());
    assert_eq!(Parser::extract_tokens(" \n\t "), Vec::<String>::new());
}

#[test]
fn extract_tokens_keeps_empty_tokens() {
    assert_eq!(Parser::extract_tokens("a -- b"), strings(&["a", "", "b"]));
    assert_eq!(Parser::extract_tokens("!!!"), strings(&[""]));
}

#[test]
fn extract_tokens_does_not_split_on_other_whitespace() {
    assert_eq!(Parser::extract_tokens("a\u{a0}b c\u{0b}d"), strings(&["a\u{a0}b", "c\u{0b}d"]));
}

#[test]
fn link_target_drops_the_leading_dot_slash() {
    assert_eq!(Parser::link_target("./Web_crawler", Some(true)), Some("Web_crawler".to_string()));
    assert_eq!(Parser::link_target("./Web_crawler", Some(false)), None);
    assert_eq!(Parser::link_target("./Web_crawler", None), None);
    assert_eq!(Parser::link_target(".", Some(true)), None);
}

#[test]
fn link_filtering_accepts_relative_link() {
    let content = Parser::parse("<a href=\"./Web_crawler\">crawler</a>");
    assert_eq!(content.links, strings(&["Web_crawler"]));
}

#[test]
fn link_filtering_rejects_absolute_link() {
    let content = Parser::parse("<a href=\"https://example.com\">example</a>");
    assert_eq!(content.links, Vec::<String>::new());
}

#[test]
fn link_filtering_rejects_pattern_mismatch() {
    let content = Parser::parse("<a href=\"./bad path!\">bad</a>");
    assert_eq!(content.links, Vec::<String>::new());
}

#[test]
fn link_filtering_accepts_every_character_of_the_pattern() {
    let content = Parser::parse("<a href=\"./Az09_.~()-\">x</a><a href=\"./\">y</a><a href=\"./a/b\">z</a>");
    assert_eq!(content.links, strings(&["Az09_.~()-"]));
}

#[test]
fn duplicate_links_contribute_once() {
    let content = Parser::parse(
        "<a href=\"./B\">1</a> <a href=\"./A\">2</a> <a href=\"./B\">3</a> <a href=\"./A\">4</a>",
    );
    assert_eq!(content.links, strings(&["B", "A"]));
}

#[test]
fn skip_subtree_excludes_nested_text() {
    let content = Parser::parse("<p>before <sup>hidden <b>deep</b></sup> after</p>");
    assert_eq!(content.tokens, strings(&["before", "after"]));
}

#[test]
fn skip_subtree_covers_sub_style_and_math() {
    let content = Parser::parse(
        "<p>one <sub>x</sub> two <style>p { color: red }</style> three <math><mi>y</mi></math> four</p>",
    );
    assert_eq!(content.tokens, strings(&["one", "two", "three", "four"]));
}

#[test]
fn skip_subtree_hides_links() {
    let content = Parser::parse("<sup><a href=\"./Hidden\">1</a></sup><a href=\"./Shown\">2</a>");
    assert_eq!(content.links, strings(&["Shown"]));
}

#[test]
fn end_to_end_scenario() {
    let content = Parser::parse("<p>Hello, World!</p><a href=\"./Foo\">x</a><sup>skip</sup>");
    assert_eq!(content.tokens, strings(&["Hello", "World!x"]));
    assert_eq!(content.links, strings(&["Foo"]));
}

#[test]
fn end_to_end_scenario_with_separated_anchor() {
    let content = Parser::parse("<p>Hello, World!</p> <a href=\"./Foo\"></a><sup>skip</sup>");
    assert_eq!(content.tokens, strings(&["Hello", "World"]));
    assert_eq!(content.links, strings(&["Foo"]));
}

#[test]
fn try_parse_takes_an_ordinary_body() {
    let content = Parser::try_parse("<p>one <a href=\"./Two\">two</a></p>").unwrap();
    assert_eq!(content.tokens, strings(&["one", "two"]));
    assert_eq!(content.links, strings(&["Two"]));
}

#[test]
fn text_keeps_line_breaks() {
    let content = Parser::parse("<pre>first\nsecond</pre>");
    assert_eq!(content.tokens, strings(&["first", "second"]));
}

#[test]
fn extract_walks_a_tree_in_document_order() {
    let tree = DocumentTree::new(vec![
        element(0, "html", None),
        element(1, "body", None),
        element(2, "p", None),
        text(3, "one "),
        element(3, "sup", None),
        text(4, "hidden"),
        element(4, "a", Some("./Hidden")),
        text(3, " two"),
        element(2, "a", Some("./Next")),
        text(3, " three"),
    ]);
    let content = Parser::extract(&tree);
    assert_eq!(content.tokens, strings(&["one", "two", "three"]));
    assert_eq!(content.links, strings(&["Next"]));
}

#[test]
fn extract_walks_a_forest() {
    let tree = DocumentTree::new(vec![text(5, "a "), text(3, "b "), text(7, "c "), text(3, "d")]);
    let content = Parser::extract(&tree);
    assert_eq!(content.tokens, strings(&["a", "b", "c", "d"]));
    let empty = Parser::extract(&DocumentTree::new(Vec::new()));
    assert_eq!(empty.tokens, Vec::<String>::new());
    assert_eq!(empty.links, Vec::<String>::new());
}

#[test]
fn tree_navigation() {
    let tree = DocumentTree::new(vec![
        element(0, "a", None),
        element(1, "b", None),
        text(2, "c"),
        element(1, "d", None),
        element(0, "e", None),
    ]);
    assert_eq!(tree.len(), 5);
    assert_eq!(tree.subtree_end(0), 4);
    assert_eq!(tree.subtree_end(1), 3);
    assert_eq!(tree.subtree_end(4), 5);
    assert_eq!(tree.children(0), vec![1, 3]);
    assert_eq!(tree.children(2), Vec::<usize>::new());
    assert_eq!(tree.next_sibling(1), Some(3));
    assert_eq!(tree.next_sibling(3), None);
    assert_eq!(tree.next_sibling(0), Some(4));
    assert_eq!(tree.roots(), vec![0, 4]);
}
