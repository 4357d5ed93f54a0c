use vstd::prelude::*;
use vstd::string::*;
use crate::lexer::{
    Token, TokenView, tokens_view, lex, tokenize, prepend, extend, lemma_extend_step, token_ok,
    gaps_fit, spaced, lemma_lex_of_spaced, lemma_lex_gives_ok_tokens,
};
use crate::model::{
    Document, Node, NodeView, nodes_view, attributes_view, node_wf, nodes_wf, attributes_wf,
    is_name,
};

verus! {

/// What the inside of a form yields: its attributes, its children, and the
/// position behind its closing parenthesis.
pub type Body = (Seq<(Seq<char>, Seq<char>)>, Seq<NodeView>, int);

/// The tokens at `at` are a bare identifier and a quoted literal: an attribute.
pub open spec fn is_bare_attribute(tokens: Seq<TokenView>, at: int) -> bool {
    &&& 0 <= at
    &&& at + 1 < tokens.len()
    &&& tokens[at] is Ident
    &&& tokens[at + 1] is Quoted
}

/// The tokens at `at` are `(`, a bare identifier, a quoted literal and `)`: an
/// attribute, as long as the form has no child yet.
pub open spec fn is_paren_attribute(tokens: Seq<TokenView>, at: int) -> bool {
    &&& 0 <= at
    &&& at + 3 < tokens.len()
    &&& tokens[at] is Open
    &&& tokens[at + 1] is Ident
    &&& tokens[at + 2] is Quoted
    &&& tokens[at + 3] is Close
}

/// The text that a token carries; empty for a parenthesis.
pub open spec fn token_text(token: TokenView) -> Seq<char> {
    match token {
        TokenView::Quoted(text) => text,
        TokenView::Ident(name) => name,
        _ => Seq::empty(),
    }
}

/// `attribute` put in front of the attributes of a body that may have failed.
pub open spec fn with_attribute(attribute: (Seq<char>, Seq<char>), rest: Option<Body>) -> Option<
    Body,
> {
    match rest {
        Some(body) => Some((seq![attribute] + body.0, body.1, body.2)),
        None => None,
    }
}

/// `child` put in front of the children of a body that may have failed.
pub open spec fn with_child(child: NodeView, rest: Option<Body>) -> Option<Body> {
    match rest {
        Some(body) => Some((body.0, seq![child] + body.1, body.2)),
        None => None,
    }
}

/// Attributes and children already read, put in front of a body that may have
/// failed.
pub open spec fn merge(
    attributes: Seq<(Seq<char>, Seq<char>)>,
    children: Seq<NodeView>,
    rest: Option<Body>,
) -> Option<Body> {
    match rest {
        Some(body) => Some((attributes + body.0, children + body.1, body.2)),
        None => None,
    }
}

/// The element whose opening parenthesis stands at `at`, and the position behind
/// its closing parenthesis. The token after the parenthesis must be a bare
/// identifier, the tag name; the body follows.
pub open spec fn parse_element(tokens: Seq<TokenView>, at: int) -> Option<(NodeView, int)>
    decreases tokens.len() - at, 0int,
{
    if 0 <= at && at + 1 < tokens.len() && tokens[at] is Open && tokens[at + 1] is Ident {
        match parse_body(tokens, at + 2, false) {
            Some(body) => Some(
                (
                    NodeView::Element {
                        tag_name: token_text(tokens[at + 1]),
                        attributes: body.0,
                        children: body.1,
                    },
                    body.2,
                ),
            ),
            None => None,
        }
    } else {
        None
    }
}

/// The rest of a form from position `at` up to its closing parenthesis.
///
/// A bare identifier followed by a quoted literal is always an attribute. A
/// parenthesised pair of the two is an attribute as long as the form has no child
/// yet (`seen_child` is false); after the first child it is a child element. A
/// quoted literal is a text child, any other parenthesis opens a child element.
/// A bare identifier that no quoted literal follows, and the end of the tokens,
/// are failures.
pub open spec fn parse_body(tokens: Seq<TokenView>, at: int, seen_child: bool) -> Option<Body>
    decreases tokens.len() - at, 1int,
{
    if at < 0 || at >= tokens.len() {
        None
    } else {
        match tokens[at] {
            TokenView::Close => Some((Seq::empty(), Seq::empty(), at + 1)),
            TokenView::Ident(key) => if is_bare_attribute(tokens, at) {
                with_attribute(
                    (key, token_text(tokens[at + 1])),
                    parse_body(tokens, at + 2, seen_child),
                )
            } else {
                None
            },
            TokenView::Quoted(text) => with_child(
                NodeView::Text(text),
                parse_body(tokens, at + 1, true),
            ),
            TokenView::Open => if !seen_child && is_paren_attribute(tokens, at) {
                with_attribute(
                    (token_text(tokens[at + 1]), token_text(tokens[at + 2])),
                    parse_body(tokens, at + 4, false),
                )
            } else {
                match parse_element(tokens, at) {
                    Some((child, next)) => if at < next <= tokens.len() {
                        with_child(child, parse_body(tokens, next, true))
                    } else {
                        None
                    },
                    None => None,
                }
            },
        }
    }
}

/// The top-level nodes from position `at` to the end of the tokens: quoted
/// literals and forms. A closing parenthesis or a bare identifier at this level
/// is a failure.
pub open spec fn parse_nodes(tokens: Seq<TokenView>, at: int) -> Option<Seq<NodeView>>
    decreases tokens.len() - at,
{
    if at < 0 || at >= tokens.len() {
        Some(Seq::empty())
    } else {
        match tokens[at] {
            TokenView::Quoted(text) => prepend(NodeView::Text(text), parse_nodes(tokens, at + 1)),
            TokenView::Open => match parse_element(tokens, at) {
                Some((node, next)) => if at < next <= tokens.len() {
                    prepend(node, parse_nodes(tokens, next))
                } else {
                    None
                },
                None => None,
            },
            _ => None,
        }
    }
}

/// The document that a source text stands for, or `None` where the text is not
/// well formed: its tokens, read as top-level nodes.
pub open spec fn parse_document(source: Seq<char>) -> Option<Seq<NodeView>> {
    match lex(source) {
        Some(tokens) => parse_nodes(tokens, 0),
        None => None,
    }
}

/// A body ends behind the position it starts at, and inside the tokens.
pub proof fn lemma_parse_body_advances(tokens: Seq<TokenView>, at: int, seen_child: bool)
    ensures
        parse_body(tokens, at, seen_child) is Some ==> at < parse_body(
            tokens,
            at,
            seen_child,
        ).unwrap().2 <= tokens.len(),
    decreases tokens.len() - at, 1int,
{
    if 0 <= at < tokens.len() {
        match tokens[at] {
            TokenView::Close => {},
            TokenView::Ident(_) => {
                if is_bare_attribute(tokens, at) {
                    lemma_parse_body_advances(tokens, at + 2, seen_child);
                }
            },
            TokenView::Quoted(_) => {
                lemma_parse_body_advances(tokens, at + 1, true);
            },
            TokenView::Open => {
                if !seen_child && is_paren_attribute(tokens, at) {
                    lemma_parse_body_advances(tokens, at + 4, false);
                } else {
                    lemma_parse_element_advances(tokens, at);
                    match parse_element(tokens, at) {
                        Some((_, next)) => {
                            if at < next {
                                lemma_parse_body_advances(tokens, next, true);
                            }
                        },
                        None => {},
                    }
                }
            },
        }
    }
}

/// An element ends behind the position it starts at, and inside the tokens.
pub proof fn lemma_parse_element_advances(tokens: Seq<TokenView>, at: int)
    ensures
        parse_element(tokens, at) is Some ==> at + 2 < parse_element(tokens, at).unwrap().1
            <= tokens.len(),
    decreases tokens.len() - at, 0int,
{
    if 0 <= at && at + 1 < tokens.len() && tokens[at] is Open && tokens[at + 1] is Ident {
        lemma_parse_body_advances(tokens, at + 2, false);
    }
}

proof fn lemma_merge_attribute(
    attributes: Seq<(Seq<char>, Seq<char>)>,
    children: Seq<NodeView>,
    attribute: (Seq<char>, Seq<char>),
    rest: Option<Body>,
)
    ensures
        merge(attributes, children, with_attribute(attribute, rest)) == merge(
            attributes.push(attribute),
            children,
            rest,
        ),
{
    if let Some(body) = rest {
        assert(attributes + (seq![attribute] + body.0) =~= attributes.push(attribute) + body.0);
    }
}

proof fn lemma_merge_child(
    attributes: Seq<(Seq<char>, Seq<char>)>,
    children: Seq<NodeView>,
    child: NodeView,
    rest: Option<Body>,
)
    ensures
        merge(attributes, children, with_child(child, rest)) == merge(
            attributes,
            children.push(child),
            rest,
        ),
{
    if let Some(body) = rest {
        assert(children + (seq![child] + body.1) =~= children.push(child) + body.1);
    }
}

/// Tests whether the four tokens at `at` are a parenthesised attribute.
fn paren_attribute_at(tokens: &Vec<Token>, at: usize) -> (r: bool)
    requires
        at < tokens.len(),
    ensures
        r == is_paren_attribute(tokens_view(tokens@), at as int),
{
    if tokens.len() - at < 4 {
        return false;
    }
    let open = match &tokens[at] {
        Token::Open => true,
        _ => false,
    };
    let ident = match &tokens[at + 1] {
        Token::Ident(_) => true,
        _ => false,
    };
    let quoted = match &tokens[at + 2] {
        Token::Quoted(_) => true,
        _ => false,
    };
    let close = match &tokens[at + 3] {
        Token::Close => true,
        _ => false,
    };
    open && ident && quoted && close
}

/// A copy of the text that the token at `at` carries.
fn text_at(tokens: &Vec<Token>, at: usize) -> (r: String)
    requires
        at < tokens.len(),
    ensures
        r@ == token_text(tokens_view(tokens@)[at as int]),
{
    match &tokens[at] {
        Token::Quoted(text) => text.clone(),
        Token::Ident(name) => name.clone(),
        _ => String::new(),
    }
}

/// Reads the element whose opening parenthesis stands at `at`.
pub fn parse_element_at(tokens: &Vec<Token>, at: usize) -> (r: Option<(Node, usize)>)
    requires
        at < tokens.len(),
    ensures
        match parse_element(tokens_view(tokens@), at as int) {
            Some((node, next)) => r is Some && r.unwrap().0@ == node && r.unwrap().1 == next,
            None => r is None,
        },
    decreases tokens.len() - at,
{
    let ghost t = tokens_view(tokens@);
    let len = tokens.len();
    if len - at < 2 {
        return None;
    }
    match &tokens[at] {
        Token::Open => {},
        _ => {
            return None;
        },
    }
    match &tokens[at + 1] {
        Token::Ident(_) => {},
        _ => {
            return None;
        },
    }
    let tag_name = text_at(tokens, at + 1);
    let mut attributes: Vec<(String, String)> = Vec::new();
    let mut children: Vec<Node> = Vec::new();
    let mut seen_child = false;
    let mut i: usize = at + 2;
    proof {
        let rest = parse_body(t, at + 2, false);
        if let Some(body) = rest {
            assert(attributes_view(attributes@) + body.0 =~= body.0);
            assert(nodes_view(children@) + body.1 =~= body.1);
        }
    }
    loop
        invariant
            t == tokens_view(tokens@),
            len == tokens.len(),
            at + 2 <= i <= len,
            parse_body(t, at + 2, false) == merge(
                attributes_view(attributes@),
                nodes_view(children@),
                parse_body(t, i as int, seen_child),
            ),
            t[at as int] is Open,
            t[at + 1] is Ident,
            tag_name@ == token_text(t[at + 1]),
        decreases len - i,
    {
        if i >= len {
            return None;
        }
        let ghost attrs_before = attributes_view(attributes@);
        let ghost nodes_before = nodes_view(children@);
        match &tokens[i] {
            Token::Close => {
                proof {
                    assert(attrs_before + Seq::empty() =~= attrs_before);
                    assert(nodes_before + Seq::empty() =~= nodes_before);
                }
                return Some((Node::Element { tag_name, attributes, children }, i + 1));
            },
            Token::Ident(_) => {
                if len - i < 2 {
                    return None;
                }
                match &tokens[i + 1] {
                    Token::Quoted(_) => {},
                    _ => {
                        return None;
                    },
                }
                let key = text_at(tokens, i);
                let value = text_at(tokens, i + 1);
                proof {
                    lemma_merge_attribute(
                        attrs_before,
                        nodes_before,
                        (key@, value@),
                        parse_body(t, i + 2, seen_child),
                    );
                }
                attributes.push((key, value));
                assert(attributes_view(attributes@) =~= attrs_before.push((key@, value@)));
                i += 2;
            },
            Token::Quoted(_) => {
                let text = text_at(tokens, i);
                proof {
                    lemma_merge_child(
                        attrs_before,
                        nodes_before,
                        NodeView::Text(text@),
                        parse_body(t, i + 1, true),
                    );
                }
                children.push(Node::Text(text));
                assert(nodes_view(children@) =~= nodes_before.push(NodeView::Text(text@)));
                seen_child = true;
                i += 1;
            },
            Token::Open => {
                if !seen_child && paren_attribute_at(tokens, i) {
                    let key = text_at(tokens, i + 1);
                    let value = text_at(tokens, i + 2);
                    proof {
                        lemma_merge_attribute(
                            attrs_before,
                            nodes_before,
                            (key@, value@),
                            parse_body(t, i + 4, false),
                        );
                    }
                    attributes.push((key, value));
                    assert(attributes_view(attributes@) =~= attrs_before.push((key@, value@)));
                    i += 4;
                } else {
                    proof {
                        lemma_parse_element_advances(t, i as int);
                    }
                    match parse_element_at(tokens, i) {
                        Some((child, next)) => {
                            proof {
                                lemma_merge_child(
                                    attrs_before,
                                    nodes_before,
                                    child@,
                                    parse_body(t, next as int, true),
                                );
                            }
                            children.push(child);
                            assert(nodes_view(children@) =~= nodes_before.push(child@));
                            seen_child = true;
                            i = next;
                        },
                        None => {
                            return None;
                        },
                    }
                }
            },
        }
    }
}

/// Reads a list of tokens as a document.
pub fn parse_tokens(tokens: &Vec<Token>) -> (r: Option<Document>)
    ensures
        match parse_nodes(tokens_view(tokens@), 0) {
            Some(nodes) => r is Some && r.unwrap()@ == nodes,
            None => r is None,
        },
{
    let ghost t = tokens_view(tokens@);
    let len = tokens.len();
    let mut nodes: Vec<Node> = Vec::new();
    let mut i: usize = 0;
    proof {
        if let Some(rest) = parse_nodes(t, 0) {
            assert(nodes_view(nodes@) + rest =~= rest);
        }
    }
    while i < len
        invariant
            t == tokens_view(tokens@),
            len == tokens.len(),
            i <= len,
            parse_nodes(t, 0) == extend(nodes_view(nodes@), parse_nodes(t, i as int)),
        decreases len - i,
    {
        let ghost before = nodes_view(nodes@);
        match &tokens[i] {
            Token::Quoted(_) => {
                let text = text_at(tokens, i);
                proof {
                    lemma_extend_step(before, NodeView::Text(text@), parse_nodes(t, i + 1));
                }
                nodes.push(Node::Text(text));
                assert(nodes_view(nodes@) =~= before.push(NodeView::Text(text@)));
                i += 1;
            },
            Token::Open => {
                proof {
                    lemma_parse_element_advances(t, i as int);
                }
                match parse_element_at(tokens, i) {
                    Some((node, next)) => {
                        proof {
                            lemma_extend_step(before, node@, parse_nodes(t, next as int));
                        }
                        nodes.push(node);
                        assert(nodes_view(nodes@) =~= before.push(node@));
                        i = next;
                    },
                    None => {
                        return None;
                    },
                }
            },
            _ => {
                return None;
            },
        }
    }
    assert(nodes_view(nodes@) + Seq::empty() =~= nodes_view(nodes@));
    Some(Document { nodes })
}

/// Reads a source text as a document. The result is `None` exactly where the
/// text is not well formed; no part of a tree is returned then. A document that is
/// returned is well formed: its tag names and attribute keys are not empty and
/// hold no white space and no parenthesis.
///
/// Forms are read by recursion, so the depth of nesting that can be read is
/// limited by the stack.
pub fn parse(source: &str) -> (r: Option<Document>)
    ensures
        match parse_document(source@) {
            Some(nodes) => r is Some && r.unwrap()@ == nodes,
            None => r is None,
        },
        r is Some ==> nodes_wf(r.unwrap()@),
{
    proof {
        lemma_parse_document_wf(source@);
    }
    match tokenize(source) {
        Some(tokens) => parse_tokens(&tokens),
        None => None,
    }
}

/// White space between tokens is insignificant: two source texts made of the
/// same well-formed tokens, each with its own fitting white space between them,
/// stand for the same document, the one that the tokens stand for.
pub proof fn lemma_white_space_is_insignificant(
    tokens: Seq<TokenView>,
    gaps_a: Seq<Seq<char>>,
    gaps_b: Seq<Seq<char>>,
)
    requires
        forall|i: int| 0 <= i < tokens.len() ==> token_ok(#[trigger] tokens[i]),
        gaps_fit(tokens, gaps_a),
        gaps_fit(tokens, gaps_b),
    ensures
        parse_document(spaced(tokens, gaps_a)) == parse_document(spaced(tokens, gaps_b)),
        parse_document(spaced(tokens, gaps_a)) == parse_nodes(tokens, 0),
{
    lemma_lex_of_spaced(tokens, gaps_a);
    lemma_lex_of_spaced(tokens, gaps_b);
}

/// The attributes and the children that a body of well-formed tokens yields are
/// well formed.
pub proof fn lemma_parse_body_wf(tokens: Seq<TokenView>, at: int, seen_child: bool)
    requires
        forall|i: int| 0 <= i < tokens.len() ==> token_ok(#[trigger] tokens[i]),
    ensures
        parse_body(tokens, at, seen_child) is Some ==> {
            &&& attributes_wf(parse_body(tokens, at, seen_child).unwrap().0)
            &&& nodes_wf(parse_body(tokens, at, seen_child).unwrap().1)
        },
    decreases tokens.len() - at, 1int,
{
    if 0 <= at < tokens.len() && parse_body(tokens, at, seen_child) is Some {
        match tokens[at] {
            TokenView::Close => {},
            TokenView::Ident(key) => {
                lemma_parse_body_wf(tokens, at + 2, seen_child);
                assert(token_ok(tokens[at]));
                lemma_attributes_wf_prepend(
                    (key, token_text(tokens[at + 1])),
                    parse_body(tokens, at + 2, seen_child).unwrap().0,
                );
            },
            TokenView::Quoted(text) => {
                lemma_parse_body_wf(tokens, at + 1, true);
                lemma_wf_prepend(
                    NodeView::Text(text),
                    parse_body(tokens, at + 1, true).unwrap().1,
                );
            },
            TokenView::Open => {
                if !seen_child && is_paren_attribute(tokens, at) {
                    lemma_parse_body_wf(tokens, at + 4, false);
                    assert(token_ok(tokens[at + 1]));
                    lemma_attributes_wf_prepend(
                        (token_text(tokens[at + 1]), token_text(tokens[at + 2])),
                        parse_body(tokens, at + 4, false).unwrap().0,
                    );
                } else {
                    lemma_parse_element_wf(tokens, at);
                    let (child, next) = parse_element(tokens, at).unwrap();
                    lemma_parse_body_wf(tokens, next, true);
                    lemma_wf_prepend(child, parse_body(tokens, next, true).unwrap().1);
                }
            },
        }
    }
}

proof fn lemma_attributes_wf_prepend(
    head: (Seq<char>, Seq<char>),
    rest: Seq<(Seq<char>, Seq<char>)>,
)
    requires
        is_name(head.0),
        attributes_wf(rest),
    ensures
        attributes_wf(seq![head] + rest),
{
    let all = seq![head] + rest;
    assert forall|i: int| 0 <= i < all.len() implies is_name((#[trigger] all[i]).0) by {
        if i > 0 {
            assert(all[i] == rest[i - 1]);
        }
    }
}

/// The element that well-formed tokens yield is well formed: its tag name, and
/// that of every element below it, is not empty and holds no delimiter.
pub proof fn lemma_parse_element_wf(tokens: Seq<TokenView>, at: int)
    requires
        forall|i: int| 0 <= i < tokens.len() ==> token_ok(#[trigger] tokens[i]),
    ensures
        parse_element(tokens, at) is Some ==> node_wf(parse_element(tokens, at).unwrap().0),
    decreases tokens.len() - at, 0int,
{
    if parse_element(tokens, at) is Some {
        lemma_parse_body_wf(tokens, at + 2, false);
        assert(token_ok(tokens[at + 1]));
        let body = parse_body(tokens, at + 2, false).unwrap();
        assert(nodes_wf(body.1));
    }
}

proof fn lemma_wf_prepend(head: NodeView, rest: Seq<NodeView>)
    requires
        node_wf(head),
        nodes_wf(rest),
    ensures
        nodes_wf(seq![head] + rest),
{
    let all = seq![head] + rest;
    assert forall|i: int| 0 <= i < all.len() implies node_wf(#[trigger] all[i]) by {
        if i > 0 {
            assert(all[i] == rest[i - 1]);
        }
    }
}

/// The top-level nodes that well-formed tokens yield are well formed.
pub proof fn lemma_parse_nodes_wf(tokens: Seq<TokenView>, at: int)
    requires
        forall|i: int| 0 <= i < tokens.len() ==> token_ok(#[trigger] tokens[i]),
    ensures
        parse_nodes(tokens, at) is Some ==> nodes_wf(parse_nodes(tokens, at).unwrap()),
    decreases tokens.len() - at,
{
    if 0 <= at < tokens.len() && parse_nodes(tokens, at) is Some {
        match tokens[at] {
            TokenView::Quoted(text) => {
                lemma_parse_nodes_wf(tokens, at + 1);
                lemma_wf_prepend(NodeView::Text(text), parse_nodes(tokens, at + 1).unwrap());
            },
            TokenView::Open => {
                lemma_parse_element_wf(tokens, at);
                let (node, next) = parse_element(tokens, at).unwrap();
                lemma_parse_nodes_wf(tokens, next);
                lemma_wf_prepend(node, parse_nodes(tokens, next).unwrap());
            },
            _ => {},
        }
    }
}

/// Every document that a source text stands for is well formed.
pub proof fn lemma_parse_document_wf(source: Seq<char>)
    ensures
        parse_document(source) is Some ==> nodes_wf(parse_document(source).unwrap()),
{
    if let Some(tokens) = lex(source) {
        lemma_lex_gives_ok_tokens(source);
        lemma_parse_nodes_wf(tokens, 0);
    }
}

} // verus!
