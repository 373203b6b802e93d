//! From a markup tree to an ordered list of styled text fragments.
use vstd::prelude::*;

use crate::dom::{anchor_tag, children_of, is_anchor, lemma_child_decreases, tree_ok, Node};
use crate::text::{blank, is_visible, lemma_visible_iff_not_blank, trim, trimmed, visible};

verus! {

/// Font sizes: one for each heading level from 1 to 5, and one for other text.
pub struct HeadingSizes {
    pub levels: [u32; 5],
    pub default_size: u32,
}

impl HeadingSizes {
    /// The sizes the browser uses unless told otherwise.
    pub fn standard() -> (r: HeadingSizes)
        ensures
            r.levels@ == seq![68u32, 60, 52, 36, 28],
            r.default_size == 30,
    {
        let r = HeadingSizes { levels: [68, 60, 52, 36, 28], default_size: 30 };
        assert(r.levels@ =~= seq![68u32, 60, 52, 36, 28]);
        r
    }
}

/// The font size for a heading level (0 for text outside any heading).
pub open spec fn font_size_for(sizes: HeadingSizes, level: int) -> u32 {
    if 1 <= level <= 5 {
        sizes.levels@[level - 1]
    } else {
        sizes.default_size
    }
}

/// One emitted, styled piece of visible text.
pub struct Fragment {
    /// Position in emission order, from zero.
    pub sequence_index: usize,
    /// The text, trimmed.
    pub content: String,
    pub is_link: bool,
    /// The link target that applies, for a link.
    pub href: Option<String>,
    pub is_heading: bool,
    /// From 1 to 5 for a heading, else 0.
    pub heading_level: u8,
    pub font_size: u32,
    /// Size hint for the renderer.
    pub width: usize,
    pub height: u32,
}

/// What a fragment holds, but for its position.
pub struct FragmentView {
    pub content: Seq<char>,
    pub is_link: bool,
    pub href: Option<Seq<char>>,
    pub is_heading: bool,
    pub heading_level: int,
    pub font_size: u32,
    pub width: usize,
    pub height: u32,
}

impl View for Fragment {
    type V = FragmentView;

    open spec fn view(&self) -> FragmentView {
        FragmentView {
            content: self.content@,
            is_link: self.is_link,
            href: match self.href {
                Some(h) => Some(h@),
                None => None,
            },
            is_heading: self.is_heading,
            heading_level: self.heading_level as int,
            font_size: self.font_size,
            width: self.width,
            height: self.height,
        }
    }
}

/// The character views of a list of strings.
pub open spec fn texts(v: Seq<String>) -> Seq<Seq<char>> {
    v.map_values(|s: String| s@)
}

/// The heading level a tag names: 1 to 5 for `h1` to `h5`, else 0.
pub open spec fn heading_level_of(tag: Seq<char>) -> int {
    if tag.len() == 2 && tag[0] == 'h' && '1' <= tag[1] && tag[1] <= '5' {
        tag[1] as int - '0' as int
    } else {
        0
    }
}

/// The level of the outermost heading among the tags, or 0 if none is one.
pub open spec fn outer_heading(sel: Seq<Seq<char>>) -> int
    decreases sel.len(),
{
    if sel.len() == 0 {
        0
    } else if heading_level_of(sel[0]) > 0 {
        heading_level_of(sel[0])
    } else {
        outer_heading(sel.subrange(1, sel.len() as int))
    }
}

/// Some tag of the stack is the anchor tag.
pub open spec fn inside_link(sel: Seq<Seq<char>>) -> bool {
    exists|i: int| 0 <= i < sel.len() && sel[i] == anchor_tag()
}

/// `n * k`, or the largest `usize` where that does not fit.
pub open spec fn scaled(n: nat, k: nat) -> usize {
    if n * k > usize::MAX {
        usize::MAX
    } else {
        (n * k) as usize
    }
}

/// The fragment for visible text under the tag stack `sel` and the link stack
/// `links`.
pub open spec fn fragment_for(
    text: Seq<char>,
    sel: Seq<Seq<char>>,
    links: Seq<Seq<char>>,
    sizes: HeadingSizes,
) -> FragmentView {
    let content = trimmed(text);
    let level = outer_heading(sel);
    let font = font_size_for(sizes, level);
    let link = inside_link(sel);
    FragmentView {
        content,
        is_link: link,
        href: if link && links.len() > 0 {
            Some(links.last())
        } else {
            None
        },
        is_heading: level > 0,
        heading_level: level,
        font_size: font,
        width: if link {
            scaled(content.len(), 10)
        } else {
            scaled(content.len(), (font / 2) as nat)
        },
        height: if link {
            30
        } else {
            font
        },
    }
}

/// The fragments emitted for a node under the given stacks, in order.
pub open spec fn walk_node(
    n: Node,
    sel: Seq<Seq<char>>,
    links: Seq<Seq<char>>,
    sizes: HeadingSizes,
) -> Seq<FragmentView>
    decreases n,
{
    match n {
        Node::Text { contents } => if visible(contents@) {
            seq![fragment_for(contents@, sel, links, sizes)]
        } else {
            seq![]
        },
        Node::Document { children } => walk_children(children@, sel, links, sizes),
        Node::Element { name, attrs, children, .. } => walk_children(
            children@,
            sel.push(name@),
            if name@ == anchor_tag() && attrs@.len() > 0 {
                links.push(attrs@[0].value@)
            } else {
                links
            },
            sizes,
        ),
        Node::Other => seq![],
    }
}

/// The fragments emitted for a list of sibling nodes, in order.
pub open spec fn walk_children(
    cs: Seq<Node>,
    sel: Seq<Seq<char>>,
    links: Seq<Seq<char>>,
    sizes: HeadingSizes,
) -> Seq<FragmentView>
    decreases cs,
{
    if cs.len() == 0 {
        seq![]
    } else {
        walk_children(cs.drop_last(), sel, links, sizes) + walk_node(cs.last(), sel, links, sizes)
    }
}

/// The number of text nodes under `n` that show something.
pub open spec fn visible_count(n: Node) -> nat
    decreases n,
{
    match n {
        Node::Text { contents } => if visible(contents@) {
            1
        } else {
            0
        },
        Node::Document { children } => visible_count_children(children@),
        Node::Element { children, .. } => visible_count_children(children@),
        Node::Other => 0,
    }
}

/// The number of visible text nodes under a list of siblings.
pub open spec fn visible_count_children(cs: Seq<Node>) -> nat
    decreases cs,
{
    if cs.len() == 0 {
        0
    } else {
        visible_count_children(cs.drop_last()) + visible_count(cs.last())
    }
}

/// `out` is `prev` followed by fragments that hold `w`, each at its position.
pub open spec fn emitted(out: Seq<Fragment>, prev: Seq<Fragment>, w: Seq<FragmentView>) -> bool {
    &&& out.len() == prev.len() + w.len()
    &&& forall|k: int| 0 <= k < prev.len() ==> out[k] == prev[k]
    &&& forall|k: int|
        0 <= k < w.len() ==> (#[trigger] out[prev.len() + k])@ == w[k] && out[prev.len()
            + k].sequence_index == prev.len() + k
}

/// The number of text nodes under `node` that show something, or the
/// largest `usize` where that does not fit.
pub fn count_tags(node: &Node) -> (r: usize)
    ensures
        r as nat == if visible_count(*node) > usize::MAX {
            usize::MAX as nat
        } else {
            visible_count(*node)
        },
    decreases node,
{
    let children = match node {
        Node::Text { contents } => {
            return if is_visible(contents.as_str()) {
                1
            } else {
                0
            };
        },
        Node::Document { children } => children,
        Node::Element { children, .. } => children,
        Node::Other => {
            return 0;
        },
    };
    let mut total: usize = 0;
    let mut i: usize = 0;
    while i < children.len()
        invariant
            i <= children@.len(),
            children@ == children_of(*node),
            visible_count(*node) == visible_count_children(children@),
            total as nat == if visible_count_children(children@.subrange(0, i as int))
                > usize::MAX {
                usize::MAX as nat
            } else {
                visible_count_children(children@.subrange(0, i as int))
            },
        decreases children@.len() - i,
    {
        proof {
            lemma_child_decreases(*node, i as int);
            let sub = children@.subrange(0, i + 1);
            assert(sub.drop_last() =~= children@.subrange(0, i as int));
            assert(sub.last() == children@[i as int]);
        }
        let c = count_tags(&children[i]);
        total = total.saturating_add(c);
        i = i + 1;
    }
    assert(children@.subrange(0, i as int) =~= children@);
    total
}

/// The level of the outermost heading tag on the stack, or 0.
fn heading_level(selector: &Vec<String>) -> (r: u8)
    ensures
        r as int == outer_heading(texts(selector@)),
        r <= 5,
{
    let ghost sel = texts(selector@);
    let mut i: usize = 0;
    assert(sel.subrange(0, sel.len() as int) =~= sel);
    while i < selector.len()
        invariant
            i <= selector@.len(),
            sel == texts(selector@),
            outer_heading(sel) == outer_heading(sel.subrange(i as int, sel.len() as int)),
        decreases selector@.len() - i,
    {
        let tag = selector[i].as_str();
        let ghost rest = sel.subrange(i as int, sel.len() as int);
        assert(rest[0] == tag@);
        assert(rest.subrange(1, rest.len() as int) =~= sel.subrange(i + 1, sel.len() as int));
        if tag.unicode_len() == 2 && tag.get_char(0) == 'h' {
            let d = tag.get_char(1);
            if '1' <= d && d <= '5' {
                return (d as u32 - '0' as u32) as u8;
            }
        }
        i = i + 1;
    }
    0
}

/// Whether some tag on the stack is the anchor tag.
fn in_link(selector: &Vec<String>) -> (r: bool)
    ensures
        r == inside_link(texts(selector@)),
{
    let ghost sel = texts(selector@);
    let mut i: usize = 0;
    while i < selector.len()
        invariant
            i <= selector@.len(),
            sel == texts(selector@),
            forall|j: int| 0 <= j < i ==> sel[j] != anchor_tag(),
        decreases selector@.len() - i,
    {
        if is_anchor(&selector[i]) {
            assert(sel[i as int] == anchor_tag());
            return true;
        }
        i = i + 1;
    }
    false
}

/// `n * k`, or the largest `usize` where that does not fit.
fn scale(n: usize, k: usize) -> (r: usize)
    ensures
        r == scaled(n as nat, k as nat),
{
    if k == 0 {
        0
    } else if n > usize::MAX / k {
        proof {
            assert(n * k > usize::MAX) by (nonlinear_arith)
                requires
                    n > usize::MAX / k,
                    k > 0,
            ;
        }
        usize::MAX
    } else {
        proof {
            assert(n * k <= usize::MAX) by (nonlinear_arith)
                requires
                    n <= usize::MAX / k,
                    k > 0,
            ;
        }
        n * k
    }
}

/// The fragment for visible text at position `index`.
fn make_fragment(
    contents: &String,
    sizes: &HeadingSizes,
    selector: &Vec<String>,
    links: &Vec<String>,
    index: usize,
) -> (r: Fragment)
    ensures
        r@ == fragment_for(contents@, texts(selector@), texts(links@), *sizes),
        r.sequence_index == index,
{
    let text = trim(contents.as_str());
    let count = text.unicode_len();
    let level = heading_level(selector);
    let font_size = if level > 0 {
        sizes.levels[(level - 1) as usize]
    } else {
        sizes.default_size
    };
    let is_link = in_link(selector);
    let href = if is_link && links.len() > 0 {
        Some(links[links.len() - 1].clone())
    } else {
        None
    };
    let (width, height) = if is_link {
        (scale(count, 10), 30)
    } else {
        (scale(count, (font_size / 2) as usize), font_size)
    };
    let r = Fragment {
        sequence_index: index,
        content: text.to_owned(),
        is_link,
        href,
        is_heading: level > 0,
        heading_level: level,
        font_size,
        width,
        height,
    };
    proof {
        let ls = texts(links@);
        if is_link && links.len() > 0 {
            assert(ls.last() == links@[links@.len() - 1]@);
        }
    }
    r
}

/// Emits the fragments for `node` onto `out`, with `selector` holding the
/// tags of its ancestors and `links` the targets of its anchor ancestors; both
/// stacks are as before when it returns.
pub fn render_tag(
    node: &Node,
    sizes: &HeadingSizes,
    selector: &mut Vec<String>,
    links: &mut Vec<String>,
    out: &mut Vec<Fragment>,
)
    requires
        tree_ok(*node),
    ensures
        final(selector)@ == old(selector)@,
        final(links)@ == old(links)@,
        emitted(
            final(out)@,
            old(out)@,
            walk_node(*node, texts(old(selector)@), texts(old(links)@), *sizes),
        ),
    decreases node,
{
    let ghost sel0 = texts(selector@);
    let ghost links0 = texts(links@);
    let (children, anchor) = match node {
        Node::Text { contents } => {
            if is_visible(contents.as_str()) {
                let f = make_fragment(contents, sizes, selector, links, out.len());
                out.push(f);
            }
            return;
        },
        Node::Other => {
            return;
        },
        Node::Element { name, attrs, children, .. } => {
            let anchor = is_anchor(name);
            if anchor {
                links.push(attrs[0].value.clone());
            }
            selector.push(name.clone());
            (children, anchor)
        },
        Node::Document { children } => (children, false),
    };
    let ghost sel1 = texts(selector@);
    let ghost links1 = texts(links@);
    let ghost prev = out@;
    proof {
        match node {
            Node::Element { name, attrs, .. } => {
                assert(sel1 =~= sel0.push(name@));
                if anchor {
                    assert(links1 =~= links0.push(attrs@[0].value@));
                } else {
                    assert(links1 =~= links0);
                }
                assert(walk_node(*node, sel0, links0, *sizes) == walk_children(
                    children@,
                    sel1,
                    links1,
                    *sizes,
                ));
            },
            _ => {
                assert(sel1 =~= sel0);
                assert(links1 =~= links0);
            },
        }
        assert(out@ =~= prev + seq![]);
    }
    let ghost sel_vec = selector@;
    let ghost links_vec = links@;
    let mut i: usize = 0;
    while i < children.len()
        invariant
            i <= children@.len(),
            children@ == children_of(*node),
            forall|j: int| 0 <= j < children@.len() ==> tree_ok(#[trigger] children@[j]),
            selector@ == sel_vec,
            links@ == links_vec,
            sel1 == texts(sel_vec),
            links1 == texts(links_vec),
            emitted(out@, prev, walk_children(children@.subrange(0, i as int), sel1, links1, *sizes)),
        decreases children@.len() - i,
    {
        proof {
            lemma_child_decreases(*node, i as int);
        }
        let ghost mid = out@;
        let ghost before = walk_children(children@.subrange(0, i as int), sel1, links1, *sizes);
        render_tag(&children[i], sizes, selector, links, out);
        proof {
            let sub = children@.subrange(0, i + 1);
            assert(sub.drop_last() =~= children@.subrange(0, i as int));
            assert(sub.last() == children@[i as int]);
            let w = walk_node(children@[i as int], sel1, links1, *sizes);
            let all = walk_children(sub, sel1, links1, *sizes);
            assert(all == before + w);
            assert forall|k: int| 0 <= k < all.len() implies (#[trigger] out@[prev.len() + k])@
                == all[k] && out@[prev.len() + k].sequence_index == prev.len() + k by {
                if k < before.len() {
                    assert(out@[prev.len() + k] == mid[prev.len() + k]);
                } else {
                    let m = k - before.len();
                    assert(out@[mid.len() + m]@ == w[m]);
                }
            }
        }
        i = i + 1;
    }
    assert(children@.subrange(0, i as int) =~= children@);
    if let Node::Element { .. } = node {
        selector.pop();
        if anchor {
            links.pop();
        }
    }
}

/// The fragments of the whole tree under `root`, in reading order.
pub fn walk(root: &Node, sizes: &HeadingSizes) -> (r: Vec<Fragment>)
    requires
        tree_ok(*root),
    ensures
        emitted(r@, seq![], walk_node(*root, seq![], seq![], *sizes)),
{
    let mut selector: Vec<String> = Vec::new();
    let mut links: Vec<String> = Vec::new();
    let mut out: Vec<Fragment> = Vec::new();
    assert(texts(selector@) =~= seq![]);
    assert(texts(links@) =~= seq![]);
    render_tag(root, sizes, &mut selector, &mut links, &mut out);
    out
}

/// The counter and the walker agree: the number of visible text nodes under
/// a node is the number of fragments the walker emits for it, whatever the
/// stacks it starts from.
pub proof fn lemma_count_matches_walk(
    n: Node,
    sel: Seq<Seq<char>>,
    links: Seq<Seq<char>>,
    sizes: HeadingSizes,
)
    ensures
        walk_node(n, sel, links, sizes).len() == visible_count(n),
    decreases n,
{
    match n {
        Node::Document { children } => {
            assert(decreases_to!(n => children));
            assert(decreases_to!(children => children@));
            lemma_count_matches_walk_children(children@, sel, links, sizes);
        },
        Node::Element { name, attrs, children, .. } => {
            assert(decreases_to!(n => children));
            assert(decreases_to!(children => children@));
            let l = if name@ == anchor_tag() && attrs@.len() > 0 {
                links.push(attrs@[0].value@)
            } else {
                links
            };
            lemma_count_matches_walk_children(children@, sel.push(name@), l, sizes);
        },
        _ => {},
    }
}

/// The counter and the walker agree on a list of siblings.
pub proof fn lemma_count_matches_walk_children(
    cs: Seq<Node>,
    sel: Seq<Seq<char>>,
    links: Seq<Seq<char>>,
    sizes: HeadingSizes,
)
    ensures
        walk_children(cs, sel, links, sizes).len() == visible_count_children(cs),
    decreases cs,
{
    if cs.len() > 0 {
        lemma_count_matches_walk_children(cs.drop_last(), sel, links, sizes);
        lemma_count_matches_walk(cs.last(), sel, links, sizes);
    }
}

/// A text node whose characters are all whitespace emits no fragment.
pub proof fn lemma_blank_text_emits_nothing(
    contents: String,
    sel: Seq<Seq<char>>,
    links: Seq<Seq<char>>,
    sizes: HeadingSizes,
)
    requires
        blank(contents@),
    ensures
        walk_node(Node::Text { contents }, sel, links, sizes).len() == 0,
        visible_count(Node::Text { contents }) == 0,
{
    lemma_visible_iff_not_blank(contents@);
}

} // verus!
