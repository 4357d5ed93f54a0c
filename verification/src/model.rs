use vstd::prelude::*;

verus! {

/// One unit of a document: an element with its attributes and children, or a
/// piece of text.
#[derive(Debug)]
pub enum Node {
    Element { tag_name: String, attributes: Vec<(String, String)>, children: Vec<Node> },
    Text(String),
}

/// A whole document: its top-level nodes in document order.
#[derive(Debug)]
pub struct Document {
    pub nodes: Vec<Node>,
}

/// The mathematical value of a `Node`.
pub ghost enum NodeView {
    Element {
        tag_name: Seq<char>,
        attributes: Seq<(Seq<char>, Seq<char>)>,
        children: Seq<NodeView>,
    },
    Text(Seq<char>),
}

/// The value of a list of attributes: the pairs of key and value, in order.
pub open spec fn attributes_view(attributes: Seq<(String, String)>) -> Seq<(Seq<char>, Seq<char>)> {
    Seq::new(attributes.len(), |i: int| (attributes[i].0@, attributes[i].1@))
}

/// The value of a list of nodes: the value of each, in order.
pub open spec fn nodes_view(nodes: Seq<Node>) -> Seq<NodeView>
    decreases nodes,
{
    Seq::new(
        nodes.len(),
        |i: int|
            if 0 <= i < nodes.len() {
                nodes[i].view()
            } else {
                NodeView::Text(Seq::empty())
            },
    )
}

impl View for Node {
    type V = NodeView;

    open spec fn view(&self) -> NodeView
        decreases self,
    {
        match self {
            Node::Element { tag_name, attributes, children } => NodeView::Element {
                tag_name: tag_name@,
                attributes: attributes_view(attributes@),
                children: nodes_view(children@),
            },
            Node::Text(text) => NodeView::Text(text@),
        }
    }
}

impl View for Document {
    type V = Seq<NodeView>;

    open spec fn view(&self) -> Seq<NodeView> {
        nodes_view(self.nodes@)
    }
}

/// A tag name or attribute key as the grammar gives it: not empty, and free of
/// white space and parentheses.
pub open spec fn is_name(name: Seq<char>) -> bool {
    &&& name.len() > 0
    &&& forall|i: int|
        0 <= i < name.len() ==> !crate::lexer::is_delimiter(#[trigger] name[i])
}

/// Every key of the list is a proper name.
pub open spec fn attributes_wf(attributes: Seq<(Seq<char>, Seq<char>)>) -> bool {
    forall|i: int| 0 <= i < attributes.len() ==> is_name((#[trigger] attributes[i]).0)
}

/// Every element of the tree has a proper tag name and proper attribute keys.
pub open spec fn node_wf(node: NodeView) -> bool
    decreases node,
{
    match node {
        NodeView::Element { tag_name, attributes, children } => {
            &&& is_name(tag_name)
            &&& attributes_wf(attributes)
            &&& forall|i: int| 0 <= i < children.len() ==> node_wf(#[trigger] children[i])
        },
        NodeView::Text(_) => true,
    }
}

/// Every node of the list is well formed.
pub open spec fn nodes_wf(nodes: Seq<NodeView>) -> bool {
    forall|i: int| 0 <= i < nodes.len() ==> node_wf(#[trigger] nodes[i])
}

} // verus!
