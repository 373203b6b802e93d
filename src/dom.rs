//! The markup tree that the walker consumes.
use vstd::prelude::*;

verus! {

/// A name/value pair on an element.
pub struct Attribute {
    pub name: String,
    pub value: String,
}

/// A node of a markup tree, as built by an outside tree builder.
pub enum Node {
    Document { children: Vec<Node> },
    Element {
        name: String,
        /// The element belongs to the markup namespace the walker expects.
        in_html_namespace: bool,
        attrs: Vec<Attribute>,
        children: Vec<Node>,
    },
    Text { contents: String },
    /// Comments, doctypes and the like: they show nothing.
    Other,
}

/// The tag of a hyperlink element.
pub open spec fn anchor_tag() -> Seq<char> {
    seq!['a']
}

/// The tree is one the walker accepts: every element is in the expected
/// namespace, and every anchor carries an attribute to take its target from.
pub open spec fn tree_ok(n: Node) -> bool
    decreases n,
{
    match n {
        Node::Document { children } => forall|i: int|
            0 <= i < children@.len() ==> tree_ok(#[trigger] children@[i]),
        Node::Element { name, in_html_namespace, attrs, children } => {
            &&& in_html_namespace
            &&& name@ == anchor_tag() ==> attrs@.len() > 0
            &&& forall|i: int| 0 <= i < children@.len() ==> tree_ok(#[trigger] children@[i])
        },
        _ => true,
    }
}

/// The children of a node, none for a leaf.
pub open spec fn children_of(n: Node) -> Seq<Node> {
    match n {
        Node::Document { children } => children@,
        Node::Element { children, .. } => children@,
        _ => seq![],
    }
}

/// A child is smaller than its parent.
pub proof fn lemma_child_decreases(n: Node, i: int)
    requires
        0 <= i < children_of(n).len(),
    ensures
        decreases_to!(n => children_of(n)[i]),
{
    match n {
        Node::Document { children } => {
            assert(decreases_to!(n => children));
            assert(decreases_to!(children => children@));
            assert(decreases_to!(children@ => children@[i]));
        },
        Node::Element { children, .. } => {
            assert(decreases_to!(n => children));
            assert(decreases_to!(children => children@));
            assert(decreases_to!(children@ => children@[i]));
        },
        _ => {},
    }
}

/// Whether `name` is the anchor tag.
pub fn is_anchor(name: &String) -> (r: bool)
    ensures
        r == (name@ == anchor_tag()),
{
    let s = name.as_str();
    if s.unicode_len() == 1 && s.get_char(0) == 'a' {
        assert(s@ =~= anchor_tag());
        true
    } else {
        false
    }
}

/// Whether the walker accepts the tree under `node`.
pub fn check_tree(node: &Node) -> (r: bool)
    ensures
        r == tree_ok(*node),
    decreases node,
{
    let children = match node {
        Node::Document { children } => children,
        Node::Element { name, in_html_namespace, attrs, children } => {
            if !*in_html_namespace || (is_anchor(name) && attrs.len() == 0) {
                return false;
            }
            children
        },
        _ => {
            return true;
        },
    };
    let mut i: usize = 0;
    while i < children.len()
        invariant
            i <= children@.len(),
            children@ == children_of(*node),
            tree_ok(*node) == (forall|j: int|
                0 <= j < children@.len() ==> tree_ok(#[trigger] children@[j])),
            forall|j: int| 0 <= j < i ==> tree_ok(#[trigger] children@[j]),
        decreases children@.len() - i,
    {
        proof {
            lemma_child_decreases(*node, i as int);
        }
        if !check_tree(&children[i]) {
            assert(!tree_ok(*node)) by {
                assert(!tree_ok(children@[i as int]));
            }
            return false;
        }
        i = i + 1;
    }
    true
}

} // verus!
