use vstd::prelude::*;
use crate::lexer::{TokenView, token_ok, gaps_fit, spaced, lemma_lex_of_spaced};
use crate::model::NodeView;
use crate::parser::{
    parse_body, parse_element, parse_nodes, parse_document, merge, with_attribute, with_child,
    is_bare_attribute, is_paren_attribute,
};

verus! {

/// The tokens that stand for a list of attributes: for each, its key as a bare
/// identifier and its value as a quoted literal.
pub open spec fn attribute_tokens(attributes: Seq<(Seq<char>, Seq<char>)>) -> Seq<TokenView>
    decreases attributes.len(),
{
    if attributes.len() == 0 {
        Seq::empty()
    } else {
        seq![TokenView::Ident(attributes[0].0), TokenView::Quoted(attributes[0].1)]
            + attribute_tokens(attributes.skip(1))
    }
}

/// The tokens that stand for a node: a quoted literal for a text; for an element
/// a form with the tag name, the attributes as bare pairs, and the children.
pub open spec fn node_tokens(node: NodeView) -> Seq<TokenView>
    decreases node,
{
    match node {
        NodeView::Element { tag_name, attributes, children } => seq![
            TokenView::Open,
            TokenView::Ident(tag_name),
        ] + attribute_tokens(attributes) + nodes_tokens(children) + seq![TokenView::Close],
        NodeView::Text(text) => seq![TokenView::Quoted(text)],
    }
}

/// The tokens that stand for a list of nodes, one node after the other.
pub open spec fn nodes_tokens(nodes: Seq<NodeView>) -> Seq<TokenView>
    decreases nodes,
{
    if nodes.len() == 0 {
        Seq::empty()
    } else {
        node_tokens(nodes[0]) + nodes_tokens(nodes.skip(1))
    }
}

/// An element that reads as a parenthesised attribute when it is the first child
/// of a form: it has no attribute and one child, a text.
pub open spec fn is_pair_shaped(node: NodeView) -> bool {
    match node {
        NodeView::Element { tag_name, attributes, children } => attributes.len() == 0
            && children.len() == 1 && children[0] is Text,
        NodeView::Text(_) => false,
    }
}

/// A tree that tokens can stand for: in no element of it is the first child an
/// element that would read as an attribute.
pub open spec fn is_writable(node: NodeView) -> bool
    decreases node,
{
    match node {
        NodeView::Element { tag_name, attributes, children } => {
            &&& children.len() > 0 ==> !is_pair_shaped(children[0])
            &&& forall|i: int| 0 <= i < children.len() ==> is_writable(#[trigger] children[i])
        },
        NodeView::Text(_) => true,
    }
}

/// `part` stands in `all` from position `at` on.
pub open spec fn tokens_at(all: Seq<TokenView>, at: int, part: Seq<TokenView>) -> bool {
    &&& 0 <= at
    &&& at + part.len() <= all.len()
    &&& forall|k: int| 0 <= k < part.len() ==> all[at + k] == #[trigger] part[k]
}

proof fn lemma_tokens_at_split(
    all: Seq<TokenView>,
    at: int,
    front: Seq<TokenView>,
    back: Seq<TokenView>,
)
    requires
        tokens_at(all, at, front + back),
    ensures
        tokens_at(all, at, front),
        tokens_at(all, at + front.len(), back),
{
    let whole = front + back;
    assert forall|k: int| 0 <= k < front.len() implies all[at + k] == #[trigger] front[k] by {
        assert(whole[k] == front[k]);
    }
    assert forall|k: int| 0 <= k < back.len() implies all[at + front.len() + k]
        == #[trigger] back[k] by {
        assert(whole[front.len() + k] == back[k]);
    }
}

/// The tokens of a node start with a quoted literal or an opening parenthesis.
proof fn lemma_node_tokens_head(node: NodeView)
    ensures
        node_tokens(node).len() > 0,
        node is Text ==> node_tokens(node)[0] is Quoted,
        node is Element ==> node_tokens(node)[0] is Open && node_tokens(node).len() >= 3,
        node is Element ==> node_tokens(node)[1] is Ident,
{
}

/// The attributes in front of a body are read back in order, and the rest of the
/// body is read from behind them.
proof fn lemma_parse_attributes(
    all: Seq<TokenView>,
    at: int,
    attributes: Seq<(Seq<char>, Seq<char>)>,
    seen_child: bool,
)
    requires
        tokens_at(all, at, attribute_tokens(attributes)),
        at + attribute_tokens(attributes).len() < all.len(),
    ensures
        attribute_tokens(attributes).len() == 2 * attributes.len(),
        parse_body(all, at, seen_child) == merge(
            attributes,
            Seq::empty(),
            parse_body(all, at + 2 * attributes.len(), seen_child),
        ),
    decreases attributes.len(),
{
    let rest = parse_body(all, at + 2 * attributes.len(), seen_child);
    if attributes.len() == 0 {
        if let Some(body) = rest {
            assert(attributes + body.0 =~= body.0);
            assert(Seq::<NodeView>::empty() + body.1 =~= body.1);
        }
    } else {
        let head = seq![TokenView::Ident(attributes[0].0), TokenView::Quoted(attributes[0].1)];
        let later = attributes.skip(1);
        lemma_tokens_at_split(all, at, head, attribute_tokens(later));
        assert(all[at + 0] == head[0]);
        assert(all[at + 1] == head[1]);
        lemma_parse_attributes(all, at + 2, later, seen_child);
        assert(is_bare_attribute(all, at));
        let mid = parse_body(all, at + 2, seen_child);
        assert(mid == merge(later, Seq::empty(), rest));
        assert(parse_body(all, at, seen_child) == with_attribute(
            (attributes[0].0, attributes[0].1),
            mid,
        ));
        if let Some(body) = rest {
            assert(seq![(attributes[0].0, attributes[0].1)] + (later + body.0) =~= attributes
                + body.0);
        }
    }
}

/// The first child of a writable element does not read as a parenthesised
/// attribute.
proof fn lemma_not_paren_attribute(all: Seq<TokenView>, at: int, node: NodeView)
    requires
        node is Element,
        !is_pair_shaped(node),
        tokens_at(all, at, node_tokens(node)),
    ensures
        !is_paren_attribute(all, at),
{
    let tokens = node_tokens(node);
    match node {
        NodeView::Element { tag_name, attributes, children } => {
            let head = seq![TokenView::Open, TokenView::Ident(tag_name)];
            let attrs = attribute_tokens(attributes);
            let kids = nodes_tokens(children);
            let close = seq![TokenView::Close];
            assert(tokens == head + attrs + kids + close);
            assert(all[at + 2] == tokens[2]);
            if attributes.len() > 0 {
                assert(attrs[0] is Ident);
                assert(tokens[2] == attrs[0]);
            } else if children.len() == 0 {
                assert(tokens[2] is Close);
            } else {
                lemma_node_tokens_head(children[0]);
                let first = node_tokens(children[0]);
                let others = nodes_tokens(children.skip(1));
                assert(kids == first + others);
                assert(tokens[2] == first[0]);
                if children[0] is Text {
                    assert(first.len() == 1);
                    assert(children.len() >= 2);
                    assert(children.skip(1).len() > 0);
                    lemma_node_tokens_head(children.skip(1)[0]);
                    let second = node_tokens(children.skip(1)[0]);
                    assert(others == second + nodes_tokens(children.skip(1).skip(1)));
                    assert(tokens.len() >= 5);
                    assert(all[at + 3] == tokens[3]);
                    assert(tokens[3] == second[0]);
                }
            }
        },
        NodeView::Text(_) => {},
    }
}

/// The children of a form and its closing parenthesis are read back as they
/// were written.
proof fn lemma_parse_children(
    all: Seq<TokenView>,
    at: int,
    children: Seq<NodeView>,
    seen_child: bool,
)
    requires
        tokens_at(all, at, nodes_tokens(children) + seq![TokenView::Close]),
        forall|i: int| 0 <= i < children.len() ==> is_writable(#[trigger] children[i]),
        seen_child || children.len() == 0 || !is_pair_shaped(children[0]),
    ensures
        parse_body(all, at, seen_child) == Some(
            (
                Seq::<(Seq<char>, Seq<char>)>::empty(),
                children,
                at + nodes_tokens(children).len() + 1,
            ),
        ),
    decreases children, 0int,
{
    let close = seq![TokenView::Close];
    let written = nodes_tokens(children) + close;
    if children.len() == 0 {
        assert(all[at + 0] == written[0]);
        assert(children =~= Seq::<NodeView>::empty());
    } else {
        let first = node_tokens(children[0]);
        let later = children.skip(1);
        lemma_node_tokens_head(children[0]);
        assert(written =~= first + (nodes_tokens(later) + close));
        lemma_tokens_at_split(all, at, first, nodes_tokens(later) + close);
        assert(all[at + 0] == first[0]);
        assert forall|i: int| 0 <= i < later.len() implies is_writable(#[trigger] later[i]) by {
            assert(later[i] == children[i + 1]);
        }
        lemma_parse_children(all, at + first.len(), later, true);
        let rest = parse_body(all, at + first.len(), true);
        assert(seq![children[0]] + later =~= children);
        match children[0] {
            NodeView::Text(text) => {
                assert(parse_body(all, at, seen_child) == with_child(children[0], rest));
            },
            NodeView::Element { .. } => {
                if !seen_child {
                    lemma_not_paren_attribute(all, at, children[0]);
                }
                lemma_parse_element(all, at, children[0]);
                assert(parse_body(all, at, seen_child) == with_child(children[0], rest));
            },
        }
    }
}

/// An element is read back from its tokens as it was written.
proof fn lemma_parse_element(all: Seq<TokenView>, at: int, node: NodeView)
    requires
        node is Element,
        is_writable(node),
        tokens_at(all, at, node_tokens(node)),
    ensures
        parse_element(all, at) == Some((node, at + node_tokens(node).len())),
    decreases node, 1int,
{
    match node {
        NodeView::Element { tag_name, attributes, children } => {
            let head = seq![TokenView::Open, TokenView::Ident(tag_name)];
            let attrs = attribute_tokens(attributes);
            let tail = nodes_tokens(children) + seq![TokenView::Close];
            assert(node_tokens(node) =~= head + (attrs + tail));
            lemma_tokens_at_split(all, at, head, attrs + tail);
            lemma_tokens_at_split(all, at + 2, attrs, tail);
            assert(all[at + 0] == head[0]);
            assert(all[at + 1] == head[1]);
            lemma_parse_attributes(all, at + 2, attributes, false);
            lemma_parse_children(all, at + 2 + attrs.len(), children, false);
            let body = parse_body(all, at + 2, false).unwrap();
            assert(body.0 =~= attributes);
            assert(body.1 =~= children);
        },
        NodeView::Text(_) => {},
    }
}

proof fn lemma_parse_written_nodes(all: Seq<TokenView>, at: int, nodes: Seq<NodeView>)
    requires
        tokens_at(all, at, nodes_tokens(nodes)),
        at + nodes_tokens(nodes).len() == all.len(),
        forall|i: int| 0 <= i < nodes.len() ==> is_writable(#[trigger] nodes[i]),
    ensures
        parse_nodes(all, at) == Some(nodes),
    decreases nodes.len(),
{
    if nodes.len() == 0 {
        assert(nodes =~= Seq::<NodeView>::empty());
    } else {
        let first = node_tokens(nodes[0]);
        let later = nodes.skip(1);
        lemma_node_tokens_head(nodes[0]);
        lemma_tokens_at_split(all, at, first, nodes_tokens(later));
        assert(all[at + 0] == first[0]);
        assert forall|i: int| 0 <= i < later.len() implies is_writable(#[trigger] later[i]) by {
            assert(later[i] == nodes[i + 1]);
        }
        lemma_parse_written_nodes(all, at + first.len(), later);
        assert(seq![nodes[0]] + later =~= nodes);
        if nodes[0] is Element {
            lemma_parse_element(all, at, nodes[0]);
        }
    }
}

/// Reading inverts writing: the tokens that stand for a list of writable trees
/// are read back as exactly those trees, with every attribute and every child in
/// its place.
pub proof fn lemma_parse_of_written(nodes: Seq<NodeView>)
    requires
        forall|i: int| 0 <= i < nodes.len() ==> is_writable(#[trigger] nodes[i]),
    ensures
        parse_nodes(nodes_tokens(nodes), 0) == Some(nodes),
{
    lemma_parse_written_nodes(nodes_tokens(nodes), 0, nodes);
}

/// The same for source text: where the tokens of the trees are well formed, any
/// text made of them with fitting white space stands for exactly those trees.
pub proof fn lemma_parse_of_written_source(nodes: Seq<NodeView>, gaps: Seq<Seq<char>>)
    requires
        forall|i: int| 0 <= i < nodes.len() ==> is_writable(#[trigger] nodes[i]),
        forall|i: int|
            0 <= i < nodes_tokens(nodes).len() ==> token_ok(#[trigger] nodes_tokens(nodes)[i]),
        gaps_fit(nodes_tokens(nodes), gaps),
    ensures
        parse_document(spaced(nodes_tokens(nodes), gaps)) == Some(nodes),
{
    lemma_lex_of_spaced(nodes_tokens(nodes), gaps);
    lemma_parse_of_written(nodes);
}

} // verus!
