use silly_browser::dom::{check_tree, Attribute, Node};
use silly_browser::layout::{count_tags, walk, HeadingSizes};
use silly_browser::text::{is_visible, trim};

fn text(s: &str) -> Node {
    Node::Text { contents: s.to_string() }
}

fn element(name: &str, children: Vec<Node>) -> Node {
    Node::Element { name: name.to_string(), in_html_namespace: true, attrs: vec![], children }
}

fn anchor(href: &str, children: Vec<Node>) -> Node {
    Node::Element {
        name: "a".to_string(),
        in_html_namespace: true,
        attrs: vec![Attribute { name: "href".to_string(), value: href.to_string() }],
        children,
    }
}

fn document(children: Vec<Node>) -> Node {
    Node::Document { children }
}

#[test]
fn heading_level_and_size_come_from_ancestor() {
    let tree = document(vec![element("h2", vec![element("em", vec![text("text")])])]);
    let out = walk(&tree, &HeadingSizes::standard());
    assert_eq!(out.len(), 1);
    let f = &out[0];
    assert_eq!(f.content, "text");
    assert!(f.is_heading);
    assert_eq!(f.heading_level, 2);
    assert_eq!(f.font_size, 60);
    assert_eq!(f.width, 120);
    assert_eq!(f.height, 60);
    assert!(!f.is_link);
    assert!(f.href.is_none());
}

#[test]
fn link_target_comes_from_anchor_ancestor() {
    let tree = document(vec![anchor("x", vec![element("b", vec![text("text")])])]);
    let out = walk(&tree, &HeadingSizes::standard());
    assert_eq!(out.len(), 1);
    let f = &out[0];
    assert!(f.is_link);
    assert_eq!(f.href.as_deref(), Some("x"));
    assert!(!f.is_heading);
    assert_eq!(f.heading_level, 0);
    assert_eq!(f.font_size, 30);
    assert_eq!(f.width, 40);
    assert_eq!(f.height, 30);
}

#[test]
fn innermost_anchor_gives_target() {
    let tree = document(vec![anchor("outer", vec![anchor("inner", vec![text("t")]), text("u")])]);
    let out = walk(&tree, &HeadingSizes::standard());
    assert_eq!(out.len(), 2);
    assert_eq!(out[0].href.as_deref(), Some("inner"));
    assert_eq!(out[1].href.as_deref(), Some("outer"));
}

#[test]
fn outermost_heading_wins() {
    let tree = document(vec![element("h1", vec![element("h3", vec![text("x")])])]);
    let out = walk(&tree, &HeadingSizes::standard());
    assert_eq!(out[0].heading_level, 1);
    assert_eq!(out[0].font_size, 68);
}

#[test]
fn h6_is_not_a_heading() {
    let tree = document(vec![element("h6", vec![text("x")]), element("h", vec![text("y")])]);
    let out = walk(&tree, &HeadingSizes::standard());
    assert_eq!(out.len(), 2);
    assert!(!out[0].is_heading);
    assert_eq!(out[0].font_size, 30);
    assert!(!out[1].is_heading);
}

#[test]
fn whitespace_only_text_emits_nothing() {
    let tree = document(vec![element("p", vec![text("   \n\t")])]);
    assert_eq!(walk(&tree, &HeadingSizes::standard()).len(), 0);
    assert_eq!(count_tags(&tree), 0);
    assert!(!is_visible("   \n\t"));
}

#[test]
fn content_is_trimmed() {
    let tree = document(vec![text("  hi there \n")]);
    let out = walk(&tree, &HeadingSizes::standard());
    assert_eq!(out[0].content, "hi there");
    assert_eq!(out[0].width, 8 * 15);
}

#[test]
fn trim_strips_unicode_whitespace() {
    assert_eq!(trim("\u{a0}\u{2003} x y\u{3000}"), "x y");
    assert_eq!(trim(" \t\n"), "");
    assert!(is_visible("\u{a0}z"));
}

#[test]
fn count_matches_walk_on_mixed_tree() {
    let tree = document(vec![
        element("html", vec![
            element("body", vec![
                text("\n  "),
                element("h1", vec![text("Title")]),
                text("  "),
                element("p", vec![text("one "), anchor("/l", vec![text(" two")]), text("\t")]),
                Node::Other,
                element("div", vec![element("span", vec![text(" ")]), text("three")]),
            ]),
        ]),
    ]);
    let out = walk(&tree, &HeadingSizes::standard());
    assert_eq!(count_tags(&tree), 4);
    assert_eq!(out.len(), count_tags(&tree));
    let contents: Vec<&str> = out.iter().map(|f| f.content.as_str()).collect();
    assert_eq!(contents, vec!["Title", "one", "two", "three"]);
    for (i, f) in out.iter().enumerate() {
        assert_eq!(f.sequence_index, i);
    }
}

#[test]
fn custom_size_table_is_used() {
    let sizes = HeadingSizes { levels: [10, 20, 30, 40, 50], default_size: 8 };
    let tree = document(vec![element("h4", vec![text("ab")]), text("cd")]);
    let out = walk(&tree, &sizes);
    assert_eq!(out[0].font_size, 40);
    assert_eq!(out[0].width, 40);
    assert_eq!(out[1].font_size, 8);
    assert_eq!(out[1].width, 8);
    assert_eq!(out[1].height, 8);
}

#[test]
fn tree_checks() {
    let good = document(vec![anchor("x", vec![text("t")])]);
    assert!(check_tree(&good));
    let bare_anchor = document(vec![element("a", vec![text("t")])]);
    assert!(!check_tree(&bare_anchor));
    let foreign = document(vec![Node::Element {
        name: "svg".to_string(),
        in_html_namespace: false,
        attrs: vec![],
        children: vec![],
    }]);
    assert!(!check_tree(&foreign));
}
