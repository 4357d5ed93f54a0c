use vstd::prelude::*;
use vstd::string::*;
use crate::text::chars_of;
use crate::model::{Document, Node, NodeView, nodes_view, attributes_view};

verus! {

/// What stands in the output for one character of text. `&`, `<` and `>` become
/// entities; inside an attribute value (`in_attribute`) the double quote does too.
pub open spec fn escape_char(c: char, in_attribute: bool) -> Seq<char> {
    if c == '&' {
        seq!['&', 'a', 'm', 'p', ';']
    } else if c == '<' {
        seq!['&', 'l', 't', ';']
    } else if c == '>' {
        seq!['&', 'g', 't', ';']
    } else if c == '"' && in_attribute {
        seq!['&', 'q', 'u', 'o', 't', ';']
    } else {
        seq![c]
    }
}

/// A text with each of its characters escaped, in order.
pub open spec fn escape(s: Seq<char>, in_attribute: bool) -> Seq<char>
    decreases s.len(),
{
    if s.len() == 0 {
        Seq::empty()
    } else {
        escape(s.drop_last(), in_attribute) + escape_char(s.last(), in_attribute)
    }
}

/// One attribute as it stands in an opening tag: a space, the key, `="`, the
/// escaped value and `"`.
pub open spec fn attribute_text(key: Seq<char>, value: Seq<char>) -> Seq<char> {
    seq![' '] + key + seq!['=', '"'] + escape(value, true) + seq!['"']
}

/// The attributes of an opening tag, in stored order.
pub open spec fn attributes_text(attributes: Seq<(Seq<char>, Seq<char>)>) -> Seq<char>
    decreases attributes.len(),
{
    if attributes.len() == 0 {
        Seq::empty()
    } else {
        attributes_text(attributes.drop_last()) + attribute_text(
            attributes.last().0,
            attributes.last().1,
        )
    }
}

/// The opening tag of an element: `<`, the tag name, the attributes and `>`.
pub open spec fn open_tag(tag_name: Seq<char>, attributes: Seq<(Seq<char>, Seq<char>)>) -> Seq<
    char,
> {
    seq!['<'] + tag_name + attributes_text(attributes) + seq!['>']
}

/// The closing tag of an element: `</`, the tag name and `>`.
pub open spec fn close_tag(tag_name: Seq<char>) -> Seq<char> {
    seq!['<', '/'] + tag_name + seq!['>']
}

/// The compact form of a node: an element is its opening tag, its children and
/// its closing tag with nothing between them; a text is its escaped characters.
pub open spec fn compact_node(node: NodeView) -> Seq<char>
    decreases node,
{
    match node {
        NodeView::Element { tag_name, attributes, children } => open_tag(tag_name, attributes)
            + compact_nodes(children) + close_tag(tag_name),
        NodeView::Text(text) => escape(text, false),
    }
}

/// The compact forms of a list of nodes, one after the other.
pub open spec fn compact_nodes(nodes: Seq<NodeView>) -> Seq<char>
    decreases nodes,
{
    if nodes.len() == 0 {
        Seq::empty()
    } else {
        compact_nodes(nodes.drop_last()) + compact_node(nodes.last())
    }
}

/// The white space that one level of nesting adds in front of a line.
pub open spec fn indent_unit() -> Seq<char> {
    seq![' ', ' ', ' ', ' ']
}

/// The white space in front of a line at nesting depth `depth`.
pub open spec fn indent(depth: nat) -> Seq<char>
    decreases depth,
{
    if depth == 0 {
        Seq::empty()
    } else {
        indent((depth - 1) as nat) + indent_unit()
    }
}

/// The indented form of a node whose lines start with `prefix`. A text is one
/// line. An element is a line with its opening tag, its children with one more
/// unit of white space in front, and a line with its closing tag.
pub open spec fn pretty_node(node: NodeView, prefix: Seq<char>) -> Seq<char>
    decreases node,
{
    match node {
        NodeView::Element { tag_name, attributes, children } => prefix + open_tag(
            tag_name,
            attributes,
        ) + seq!['\n'] + pretty_nodes(children, prefix + indent_unit()) + prefix + close_tag(
            tag_name,
        ) + seq!['\n'],
        NodeView::Text(text) => prefix + escape(text, false) + seq!['\n'],
    }
}

/// The indented forms of a list of nodes, one after the other, all with the same
/// `prefix`.
pub open spec fn pretty_nodes(nodes: Seq<NodeView>, prefix: Seq<char>) -> Seq<char>
    decreases nodes,
{
    if nodes.len() == 0 {
        Seq::empty()
    } else {
        pretty_nodes(nodes.drop_last(), prefix) + pretty_node(nodes.last(), prefix)
    }
}

/// Appends the escaped form of `text` to `out`.
fn escape_into(text: &str, in_attribute: bool, out: &mut String)
    ensures
        final(out)@ == old(out)@ + escape(text@, in_attribute),
{
    let chars = chars_of(text);
    let len = chars.len();
    let mut i: usize = 0;
    assert(text@.take(0) =~= Seq::<char>::empty());
    assert(out@ + Seq::<char>::empty() =~= out@);
    while i < len
        invariant
            chars@ == text@,
            len == text@.len(),
            i <= len,
            out@ == old(out)@ + escape(text@.take(i as int), in_attribute),
        decreases len - i,
    {
        let c = chars[i];
        proof {
            reveal_strlit("&amp;");
            reveal_strlit("&lt;");
            reveal_strlit("&gt;");
            reveal_strlit("&quot;");
            assert(text@.take(i + 1).drop_last() =~= text@.take(i as int));
        }
        if c == '&' {
            out.append("&amp;");
            assert("&amp;"@ =~= escape_char(c, in_attribute));
        } else if c == '<' {
            out.append("&lt;");
            assert("&lt;"@ =~= escape_char(c, in_attribute));
        } else if c == '>' {
            out.append("&gt;");
            assert("&gt;"@ =~= escape_char(c, in_attribute));
        } else if c == '"' && in_attribute {
            out.append("&quot;");
            assert("&quot;"@ =~= escape_char(c, in_attribute));
        } else {
            out.push(c);
        }
        assert(out@ =~= old(out)@ + escape(text@.take(i + 1), in_attribute));
        i += 1;
    }
    assert(text@.take(len as int) =~= text@);
}

/// Appends the attributes of an opening tag to `out`.
fn attributes_into(attributes: &Vec<(String, String)>, out: &mut String)
    ensures
        final(out)@ == old(out)@ + attributes_text(attributes_view(attributes@)),
{
    let ghost all = attributes_view(attributes@);
    let mut i: usize = 0;
    assert(all.take(0) =~= Seq::empty());
    assert(out@ + Seq::<char>::empty() =~= out@);
    while i < attributes.len()
        invariant
            all == attributes_view(attributes@),
            i <= attributes.len(),
            out@ == old(out)@ + attributes_text(all.take(i as int)),
        decreases attributes.len() - i,
    {
        let ghost before = out@;
        proof {
            reveal_strlit(" ");
            reveal_strlit("=\"");
            reveal_strlit("\"");
            assert(all.take(i + 1).drop_last() =~= all.take(i as int));
            assert(all.take(i + 1).last() == all[i as int]);
        }
        let pair = &attributes[i];
        out.append(" ");
        out.append(pair.0.as_str());
        out.append("=\"");
        escape_into(pair.1.as_str(), true, out);
        out.append("\"");
        assert(out@ =~= before + attribute_text(all[i as int].0, all[i as int].1));
        assert(out@ =~= old(out)@ + attributes_text(all.take(i + 1)));
        i += 1;
    }
    assert(all.take(attributes.len() as int) =~= all);
}

/// Appends the opening tag of an element to `out`.
fn open_tag_into(tag_name: &String, attributes: &Vec<(String, String)>, out: &mut String)
    ensures
        final(out)@ == old(out)@ + open_tag(tag_name@, attributes_view(attributes@)),
{
    proof {
        reveal_strlit("<");
        reveal_strlit(">");
    }
    out.append("<");
    out.append(tag_name.as_str());
    attributes_into(attributes, out);
    out.append(">");
    assert(out@ =~= old(out)@ + open_tag(tag_name@, attributes_view(attributes@)));
}

/// Appends the closing tag of an element to `out`.
fn close_tag_into(tag_name: &String, out: &mut String)
    ensures
        final(out)@ == old(out)@ + close_tag(tag_name@),
{
    proof {
        reveal_strlit("</");
        reveal_strlit(">");
    }
    out.append("</");
    out.append(tag_name.as_str());
    out.append(">");
    assert(out@ =~= old(out)@ + close_tag(tag_name@));
}

/// Appends the compact form of `node` to `out`.
pub fn compact_node_into(node: &Node, out: &mut String)
    ensures
        final(out)@ == old(out)@ + compact_node(node@),
    decreases node,
{
    match node {
        Node::Element { tag_name, attributes, children } => {
            open_tag_into(tag_name, attributes, out);
            let ghost all = nodes_view(children@);
            let ghost start = out@;
            let mut i: usize = 0;
            assert(all.take(0) =~= Seq::empty());
            assert(out@ + Seq::<char>::empty() =~= out@);
            while i < children.len()
                invariant
                    all == nodes_view(children@),
                    i <= children.len(),
                    out@ == start + compact_nodes(all.take(i as int)),
                    decreases_to!(node => children),
                decreases children.len() - i,
            {
                proof {
                    assert(all.take(i + 1).drop_last() =~= all.take(i as int));
                    assert(all.take(i + 1).last() == children@[i as int]@);
                    vstd::std_specs::vec::axiom_vec_index_decreases(*children, i as int);
                }
                compact_node_into(&children[i], out);
                assert(out@ =~= start + compact_nodes(all.take(i + 1)));
                i += 1;
            }
            assert(all.take(children.len() as int) =~= all);
            close_tag_into(tag_name, out);
            assert(out@ =~= old(out)@ + compact_node(node@));
        },
        Node::Text(text) => {
            escape_into(text.as_str(), false, out);
        },
    }
}

/// Appends the indented form of `node`, with `prefix` in front of its lines, to
/// `out`.
pub fn pretty_node_into(node: &Node, prefix: &String, out: &mut String)
    ensures
        final(out)@ == old(out)@ + pretty_node(node@, prefix@),
    decreases node,
{
    proof {
        reveal_strlit("\n");
        reveal_strlit("    ");
    }
    out.append(prefix.as_str());
    match node {
        Node::Element { tag_name, attributes, children } => {
            open_tag_into(tag_name, attributes, out);
            out.append("\n");
            let mut deeper = prefix.clone();
            deeper.append("    ");
            assert(deeper@ =~= prefix@ + indent_unit());
            let ghost all = nodes_view(children@);
            let ghost start = out@;
            let mut i: usize = 0;
            assert(all.take(0) =~= Seq::empty());
            assert(out@ + Seq::<char>::empty() =~= out@);
            while i < children.len()
                invariant
                    all == nodes_view(children@),
                    i <= children.len(),
                    out@ == start + pretty_nodes(all.take(i as int), deeper@),
                    decreases_to!(node => children),
                decreases children.len() - i,
            {
                proof {
                    assert(all.take(i + 1).drop_last() =~= all.take(i as int));
                    assert(all.take(i + 1).last() == children@[i as int]@);
                    vstd::std_specs::vec::axiom_vec_index_decreases(*children, i as int);
                }
                pretty_node_into(&children[i], &deeper, out);
                assert(out@ =~= start + pretty_nodes(all.take(i + 1), deeper@));
                i += 1;
            }
            assert(all.take(children.len() as int) =~= all);
            out.append(prefix.as_str());
            close_tag_into(tag_name, out);
            out.append("\n");
            assert(out@ =~= old(out)@ + pretty_node(node@, prefix@));
        },
        Node::Text(text) => {
            escape_into(text.as_str(), false, out);
            out.append("\n");
            assert(out@ =~= old(out)@ + pretty_node(node@, prefix@));
        },
    }
}

/// The white space in front of a line at nesting depth `depth`, as a string.
pub fn indentation(depth: usize) -> (r: String)
    ensures
        r@ == indent(depth as nat),
{
    let mut r = String::new();
    let mut d: usize = 0;
    while d < depth
        invariant
            d <= depth,
            r@ == indent(d as nat),
        decreases depth - d,
    {
        proof {
            reveal_strlit("    ");
        }
        r.append("    ");
        d += 1;
        assert(r@ =~= indent((d - 1) as nat) + indent_unit());
    }
    r
}

/// Writes a document as HTML with no white space added: the compact forms of its
/// top-level nodes, one after the other.
pub fn render_compact(document: &Document) -> (r: String)
    ensures
        r@ == compact_nodes(document@),
{
    let mut out = String::new();
    let ghost all = document@;
    let mut i: usize = 0;
    assert(all.take(0) =~= Seq::empty());
    while i < document.nodes.len()
        invariant
            all == document@,
            i <= document.nodes.len(),
            out@ == compact_nodes(all.take(i as int)),
        decreases document.nodes.len() - i,
    {
        proof {
            assert(all.take(i + 1).drop_last() =~= all.take(i as int));
            assert(all.take(i + 1).last() == document.nodes@[i as int]@);
        }
        compact_node_into(&document.nodes[i], &mut out);
        i += 1;
    }
    assert(all.take(document.nodes.len() as int) =~= all);
    out
}

/// Writes a document as indented HTML. Every tag and every text stands on a line
/// of its own; the top-level nodes are at depth `start_depth`, the children of a
/// node one level deeper than the node, and a closing tag as deep as its opening
/// tag.
pub fn render_pretty(document: &Document, start_depth: usize) -> (r: String)
    ensures
        r@ == pretty_nodes(document@, indent(start_depth as nat)),
{
    let prefix = indentation(start_depth);
    let mut out = String::new();
    let ghost all = document@;
    let mut i: usize = 0;
    assert(all.take(0) =~= Seq::empty());
    while i < document.nodes.len()
        invariant
            all == document@,
            i <= document.nodes.len(),
            out@ == pretty_nodes(all.take(i as int), prefix@),
        decreases document.nodes.len() - i,
    {
        proof {
            assert(all.take(i + 1).drop_last() =~= all.take(i as int));
            assert(all.take(i + 1).last() == document.nodes@[i as int]@);
        }
        pretty_node_into(&document.nodes[i], &prefix, &mut out);
        i += 1;
    }
    assert(all.take(document.nodes.len() as int) =~= all);
    out
}

/// `entity` stands in `s` at position `at`.
pub open spec fn holds_at(s: Seq<char>, at: int, entity: Seq<char>) -> bool {
    &&& 0 <= at
    &&& at + entity.len() <= s.len()
    &&& s.subrange(at, at + entity.len()) == entity
}

/// One of the four entities that escaping writes stands in `s` at position `at`.
pub open spec fn entity_at(s: Seq<char>, at: int) -> bool {
    ||| holds_at(s, at, seq!['&', 'a', 'm', 'p', ';'])
    ||| holds_at(s, at, seq!['&', 'l', 't', ';'])
    ||| holds_at(s, at, seq!['&', 'g', 't', ';'])
    ||| holds_at(s, at, seq!['&', 'q', 'u', 'o', 't', ';'])
}

/// The character at `at` is none that escaping was to remove: it is no `<` and
/// no `>`, in an attribute value no `"`, and where it is `&` it starts an entity.
pub open spec fn is_escaped_at(s: Seq<char>, at: int, in_attribute: bool) -> bool {
    &&& s[at] != '<'
    &&& s[at] != '>'
    &&& in_attribute ==> s[at] != '"'
    &&& s[at] == '&' ==> entity_at(s, at)
}

proof fn lemma_holds_at_extends(s: Seq<char>, more: Seq<char>, at: int, entity: Seq<char>)
    requires
        holds_at(s, at, entity),
    ensures
        holds_at(s + more, at, entity),
{
    assert((s + more).subrange(at, at + entity.len()) =~= s.subrange(at, at + entity.len()));
}

proof fn lemma_holds_at_shifts(front: Seq<char>, entity: Seq<char>)
    ensures
        holds_at(front + entity, front.len() as int, entity),
{
    assert((front + entity).subrange(front.len() as int, (front.len() + entity.len()) as int) =~= entity);
}

/// Escaping leaves no raw special character: an escaped text holds no `<` and no
/// `>`, each `&` in it starts one of the entities, and an escaped attribute value
/// holds no `"` either.
pub proof fn lemma_escape_leaves_no_raw_character(s: Seq<char>, in_attribute: bool)
    ensures
        forall|at: int|
            0 <= at < escape(s, in_attribute).len() ==> #[trigger] is_escaped_at(
                escape(s, in_attribute),
                at,
                in_attribute,
            ),
    decreases s.len(),
{
    if s.len() > 0 {
        let front = escape(s.drop_last(), in_attribute);
        let piece = escape_char(s.last(), in_attribute);
        let all = escape(s, in_attribute);
        lemma_escape_leaves_no_raw_character(s.drop_last(), in_attribute);
        assert(all == front + piece);
        lemma_holds_at_shifts(front, piece);
        assert forall|at: int| 0 <= at < all.len() implies #[trigger] is_escaped_at(
            all,
            at,
            in_attribute,
        ) by {
            if at < front.len() {
                assert(is_escaped_at(front, at, in_attribute));
                assert(all[at] == front[at]);
                if front[at] == '&' {
                    if holds_at(front, at, seq!['&', 'a', 'm', 'p', ';']) {
                        lemma_holds_at_extends(front, piece, at, seq!['&', 'a', 'm', 'p', ';']);
                    } else if holds_at(front, at, seq!['&', 'l', 't', ';']) {
                        lemma_holds_at_extends(front, piece, at, seq!['&', 'l', 't', ';']);
                    } else if holds_at(front, at, seq!['&', 'g', 't', ';']) {
                        lemma_holds_at_extends(front, piece, at, seq!['&', 'g', 't', ';']);
                    } else {
                        lemma_holds_at_extends(
                            front,
                            piece,
                            at,
                            seq!['&', 'q', 'u', 'o', 't', ';'],
                        );
                    }
                }
            } else {
                assert(all[at] == piece[at - front.len()]);
            }
        }
    }
}

/// Rendering keeps the order of attributes: the text of two lists of attributes,
/// one after the other, is the text of the first followed by that of the second.
pub proof fn lemma_attributes_text_concat(
    a: Seq<(Seq<char>, Seq<char>)>,
    b: Seq<(Seq<char>, Seq<char>)>,
)
    ensures
        attributes_text(a + b) == attributes_text(a) + attributes_text(b),
    decreases b.len(),
{
    if b.len() == 0 {
        assert(a + b =~= a);
        assert(attributes_text(a) + attributes_text(b) =~= attributes_text(a));
    } else {
        lemma_attributes_text_concat(a, b.drop_last());
        assert((a + b).drop_last() =~= a + b.drop_last());
        assert((a + b).last() == b.last());
        assert(attributes_text(a + b) =~= attributes_text(a) + attributes_text(b));
    }
}

/// Compact rendering keeps the order of nodes: two lists of nodes, one after the
/// other, render as the first list's text followed by the second's.
pub proof fn lemma_compact_nodes_concat(a: Seq<NodeView>, b: Seq<NodeView>)
    ensures
        compact_nodes(a + b) == compact_nodes(a) + compact_nodes(b),
    decreases b.len(),
{
    if b.len() == 0 {
        assert(a + b =~= a);
        assert(compact_nodes(a) + compact_nodes(b) =~= compact_nodes(a));
    } else {
        lemma_compact_nodes_concat(a, b.drop_last());
        assert((a + b).drop_last() =~= a + b.drop_last());
        assert((a + b).last() == b.last());
        assert(compact_nodes(a + b) =~= compact_nodes(a) + compact_nodes(b));
    }
}

/// Indented rendering keeps the order of nodes, as compact rendering does.
pub proof fn lemma_pretty_nodes_concat(a: Seq<NodeView>, b: Seq<NodeView>, prefix: Seq<char>)
    ensures
        pretty_nodes(a + b, prefix) == pretty_nodes(a, prefix) + pretty_nodes(b, prefix),
    decreases b.len(),
{
    if b.len() == 0 {
        assert(a + b =~= a);
        assert(pretty_nodes(a, prefix) + pretty_nodes(b, prefix) =~= pretty_nodes(a, prefix));
    } else {
        lemma_pretty_nodes_concat(a, b.drop_last(), prefix);
        assert((a + b).drop_last() =~= a + b.drop_last());
        assert((a + b).last() == b.last());
        assert(pretty_nodes(a + b, prefix) =~= pretty_nodes(a, prefix) + pretty_nodes(b, prefix));
    }
}

/// The white space at depth `depth` is four spaces for each level, and nothing
/// else.
pub proof fn lemma_indent_is_spaces(depth: nat)
    ensures
        indent(depth).len() == 4 * depth,
        forall|i: int| 0 <= i < indent(depth).len() ==> indent(depth)[i] == ' ',
    decreases depth,
{
    if depth > 0 {
        lemma_indent_is_spaces((depth - 1) as nat);
    }
}

/// The lines of a node start with the white space it was given: that white space
/// leads its text, and what follows it is no space for an element.
pub proof fn lemma_pretty_node_starts_with_prefix(node: NodeView, prefix: Seq<char>)
    ensures
        pretty_node(node, prefix).len() > prefix.len(),
        pretty_node(node, prefix).take(prefix.len() as int) == prefix,
        node is Element ==> pretty_node(node, prefix)[prefix.len() as int] == '<',
{
    assert(pretty_node(node, prefix).take(prefix.len() as int) =~= prefix);
}

/// Nesting in the indented form. An element at depth `depth` is written as its
/// opening tag behind the white space of that depth, its children with the
/// white space of the next depth, which is strictly longer, and its closing tag
/// behind the same white space as the opening tag.
pub proof fn lemma_pretty_nesting(
    tag_name: Seq<char>,
    attributes: Seq<(Seq<char>, Seq<char>)>,
    children: Seq<NodeView>,
    depth: nat,
)
    ensures
        pretty_node(NodeView::Element { tag_name, attributes, children }, indent(depth)) == indent(
            depth,
        ) + open_tag(tag_name, attributes) + seq!['\n'] + pretty_nodes(children, indent(depth + 1))
            + indent(depth) + close_tag(tag_name) + seq!['\n'],
        indent(depth + 1).len() > indent(depth).len(),
        indent(depth + 1).take(indent(depth).len() as int) == indent(depth),
{
    lemma_indent_is_spaces(depth);
    lemma_indent_is_spaces(depth + 1);
    assert(indent(depth + 1) == indent(depth) + indent_unit());
    assert(indent(depth + 1).take(indent(depth).len() as int) =~= indent(depth));
}

/// A child is written one level deeper than its parent. In the indented form of
/// an element at depth `depth`, child `i` stands between its elder and its
/// younger siblings with the white space of depth `depth + 1` in front of its
/// lines, while both tags of the element have that of depth `depth`.
pub proof fn lemma_pretty_child_is_deeper(
    tag_name: Seq<char>,
    attributes: Seq<(Seq<char>, Seq<char>)>,
    children: Seq<NodeView>,
    depth: nat,
    i: int,
)
    requires
        0 <= i < children.len(),
    ensures
        pretty_node(NodeView::Element { tag_name, attributes, children }, indent(depth)) == indent(
            depth,
        ) + open_tag(tag_name, attributes) + seq!['\n'] + pretty_nodes(
            children.take(i),
            indent(depth + 1),
        ) + pretty_node(children[i], indent(depth + 1)) + pretty_nodes(
            children.skip(i + 1),
            indent(depth + 1),
        ) + indent(depth) + close_tag(tag_name) + seq!['\n'],
        pretty_node(children[i], indent(depth + 1)).take(indent(depth + 1).len() as int) == indent(
            depth + 1,
        ),
        indent(depth + 1).len() == indent(depth).len() + 4,
{
    let deeper = indent(depth + 1);
    lemma_pretty_nesting(tag_name, attributes, children, depth);
    lemma_indent_is_spaces(depth);
    lemma_indent_is_spaces(depth + 1);
    lemma_pretty_node_starts_with_prefix(children[i], deeper);
    let elder = children.take(i);
    let one = seq![children[i]];
    let younger = children.skip(i + 1);
    assert(children =~= elder + one + younger);
    lemma_pretty_nodes_concat(elder + one, younger, deeper);
    lemma_pretty_nodes_concat(elder, one, deeper);
    assert(one.drop_last() =~= Seq::<NodeView>::empty());
    assert(pretty_nodes(Seq::<NodeView>::empty(), deeper) =~= Seq::<char>::empty());
    assert(one.last() == children[i]);
    assert(pretty_nodes(one, deeper) =~= pretty_node(children[i], deeper));
}

} // verus!
