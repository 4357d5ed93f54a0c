use htmlisp::compile::{compile, is_source_extension, watch_action, WatchAction, WatchEvent};
use htmlisp::lexer::{is_delimiter_char, is_space_char, tokenize, Token};
use htmlisp::model::{Document, Node};
use htmlisp::parser::{parse, parse_element_at, parse_tokens};
use htmlisp::render::{
    compact_node_into, indentation, pretty_node_into, render_compact, render_pretty,
};
use htmlisp::text::{chars_of, string_of};

fn text(s: &str) -> Node {
    Node::Text(s.to_string())
}

fn element(tag: &str, attributes: &[(&str, &str)], children: Vec<Node>) -> Node {
    Node::Element {
        tag_name: tag.to_string(),
        attributes: attributes.iter().map(|(k, v)| (k.to_string(), v.to_string())).collect(),
        children,
    }
}

fn compact(source: &str) -> Option<String> {
    parse(source).map(|d| render_compact(&d))
}

fn pretty(source: &str) -> Option<String> {
    parse(source).map(|d| render_pretty(&d, 0))
}

fn leading_spaces(line: &str) -> usize {
    line.chars().take_while(|c| *c == ' ').count()
}

#[test]
fn greeting_renders_compact() {
    let source = "(div (class \"greeting\") \"Hello, \" (b \"world\") \"!\")";
    assert_eq!(
        compact(source),
        Some("<div class=\"greeting\">Hello, <b>world</b>!</div>".to_string())
    );
}

#[test]
fn greeting_renders_pretty() {
    let source = "(div (class \"greeting\") \"Hello, \" (b \"world\") \"!\")";
    let out = pretty(source).unwrap();
    assert_eq!(
        out,
        "<div class=\"greeting\">\n    Hello, \n    <b>\n        world\n    </b>\n    !\n</div>\n"
    );
    let lines: Vec<&str> = out.lines().collect();
    let div = lines.iter().find(|l| l.trim_start().starts_with("<div")).unwrap();
    let b = lines.iter().find(|l| l.trim_start().starts_with("<b>")).unwrap();
    let b_close = lines.iter().find(|l| l.trim_start().starts_with("</b>")).unwrap();
    assert_eq!(leading_spaces(b), leading_spaces(div) + 4);
    assert_eq!(leading_spaces(b_close), leading_spaces(b));
}

#[test]
fn unterminated_form_fails() {
    assert!(parse("(div").is_none());
}

#[test]
fn unmatched_close_fails() {
    assert!(parse(")").is_none());
}

#[test]
fn quoted_tag_name_fails() {
    assert!(parse("(\"text\" \"bare\")").is_none());
}

#[test]
fn unterminated_literal_fails() {
    assert!(parse("(p \"open").is_none());
    assert!(tokenize("\"").is_none());
}

#[test]
fn missing_tag_name_fails() {
    assert!(parse("()").is_none());
    assert!(parse("(").is_none());
    assert!(parse("((p))").is_none());
}

#[test]
fn bare_identifier_alone_fails() {
    assert!(parse("div").is_none());
    assert!(parse("(p word)").is_none());
    assert!(parse("(p word (b))").is_none());
}

#[test]
fn extra_close_after_form_fails() {
    assert!(parse("(p))").is_none());
}

#[test]
fn empty_source_is_empty_document() {
    let doc = parse("").unwrap();
    assert!(doc.nodes.is_empty());
    assert_eq!(render_compact(&doc), "");
    assert_eq!(render_pretty(&doc, 3), "");
    assert_eq!(compact(" \n\t\r "), Some(String::new()));
}

#[test]
fn tokens_of_a_form() {
    let tokens = tokenize("(a href \"x y\")").unwrap();
    assert_eq!(tokens.len(), 5);
    assert!(matches!(&tokens[4], Token::Close));
    assert!(matches!(&tokens[0], Token::Open));
    assert!(matches!(&tokens[1], Token::Ident(s) if s == "a"));
    assert!(matches!(&tokens[2], Token::Ident(s) if s == "href"));
    assert!(matches!(&tokens[3], Token::Quoted(s) if s == "x y"));
    let tokens = tokenize("a(b)\"c\"d").unwrap();
    assert_eq!(tokens.len(), 6);
    assert!(matches!(&tokens[0], Token::Ident(s) if s == "a"));
    assert!(matches!(&tokens[1], Token::Open));
    assert!(matches!(&tokens[2], Token::Ident(s) if s == "b"));
    assert!(matches!(&tokens[3], Token::Close));
    assert!(matches!(&tokens[4], Token::Quoted(s) if s == "c"));
    assert!(matches!(&tokens[5], Token::Ident(s) if s == "d"));
}

#[test]
fn identifier_runs_to_the_next_delimiter() {
    let tokens = tokenize("ab\"cd\" e").unwrap();
    assert_eq!(tokens.len(), 2);
    assert!(matches!(&tokens[0], Token::Ident(s) if s == "ab\"cd\""));
    assert!(matches!(&tokens[1], Token::Ident(s) if s == "e"));
}

#[test]
fn literal_keeps_its_white_space_and_parentheses() {
    let doc = parse("\" (a)\n b \"").unwrap();
    assert_eq!(doc.nodes.len(), 1);
    assert!(matches!(&doc.nodes[0], Node::Text(s) if s == " (a)\n b "));
}

#[test]
fn non_ascii_text_is_kept() {
    assert_eq!(compact("(p \"héllo ✓\")"), Some("<p>héllo ✓</p>".to_string()));
}

#[test]
fn bare_attribute_pairs() {
    assert_eq!(
        compact("(a href \"/x\" title \"t\" \"go\")"),
        Some("<a href=\"/x\" title=\"t\">go</a>".to_string())
    );
}

#[test]
fn bare_pair_is_an_attribute_after_a_child_too() {
    assert_eq!(
        compact("(a \"go\" href \"/x\")"),
        Some("<a href=\"/x\">go</a>".to_string())
    );
}

#[test]
fn parenthesised_pair_after_a_child_is_an_element() {
    assert_eq!(
        compact("(p (id \"x\") \"t\" (b \"y\") (i \"z\"))"),
        Some("<p id=\"x\">t<b>y</b><i>z</i></p>".to_string())
    );
    assert_eq!(
        compact("(p (em) (b \"y\"))"),
        Some("<p><em></em><b>y</b></p>".to_string())
    );
}

#[test]
fn duplicate_attributes_are_kept_in_order() {
    let doc = parse("(p (class \"a\") (id \"i\") (class \"b\"))").unwrap();
    match &doc.nodes[0] {
        Node::Element { tag_name, attributes, children } => {
            assert_eq!(tag_name, "p");
            assert_eq!(
                attributes,
                &vec![
                    ("class".to_string(), "a".to_string()),
                    ("id".to_string(), "i".to_string()),
                    ("class".to_string(), "b".to_string()),
                ]
            );
            assert!(children.is_empty());
        }
        Node::Text(_) => panic!("element expected"),
    }
    assert_eq!(render_compact(&doc), "<p class=\"a\" id=\"i\" class=\"b\"></p>");
}

#[test]
fn several_top_level_nodes() {
    assert_eq!(
        compact("\"a\" (br) (p \"b\") \"c\""),
        Some("a<br></br><p>b</p>c".to_string())
    );
}

#[test]
fn leading_pairs_are_attributes_at_every_level() {
    assert_eq!(
        compact("(ul (li \"1\") (li (b \"2\") \"!\"))"),
        Some("<ul li=\"1\"><li b=\"2\">!</li></ul>".to_string())
    );
    assert_eq!(
        compact("(ul \"\" (li \"1\") (li \"x\" (b \"2\") \"!\"))"),
        Some("<ul><li>1</li><li>x<b>2</b>!</li></ul>".to_string())
    );
}

#[test]
fn text_is_escaped() {
    let doc = Document { nodes: vec![element("p", &[], vec![text("a < b && c > d \"q\"")])] };
    assert_eq!(render_compact(&doc), "<p>a &lt; b &amp;&amp; c &gt; d \"q\"</p>");
    assert_eq!(render_pretty(&doc, 0), "<p>\n    a &lt; b &amp;&amp; c &gt; d \"q\"\n</p>\n");
}

#[test]
fn attribute_value_is_escaped() {
    let doc = Document { nodes: vec![element("a", &[("title", "x\"y<z>&")], vec![])] };
    assert_eq!(render_compact(&doc), "<a title=\"x&quot;y&lt;z&gt;&amp;\"></a>");
    assert_eq!(render_pretty(&doc, 0), "<a title=\"x&quot;y&lt;z&gt;&amp;\">\n</a>\n");
}

#[test]
fn escaped_text_holds_no_raw_special_character() {
    let doc = Document { nodes: vec![text("<<>>&&<&>")] };
    let out = render_compact(&doc);
    assert!(!out.contains('<'));
    assert!(!out.contains('>'));
    assert_eq!(out, "&lt;&lt;&gt;&gt;&amp;&amp;&lt;&amp;&gt;");
}

#[test]
fn white_space_between_tokens_is_insignificant() {
    let a = "(div (class \"greeting\") \"Hello, \" (b \"world\") \"!\")";
    let b = " ( div\n\t(  class\r\n\"greeting\" )\"Hello, \"(b\n\"world\")\"!\"  )\n";
    assert_eq!(compact(a), compact(b));
    assert_eq!(pretty(a), pretty(b));
    assert!(compact(b).is_some());
}

#[test]
fn hand_built_tree_renders_like_the_parsed_one() {
    let built = Document {
        nodes: vec![element(
            "div",
            &[("class", "greeting"), ("id", "g")],
            vec![text("Hello, "), element("b", &[], vec![text("world")]), text("!")],
        )],
    };
    let parsed =
        parse("(div (class \"greeting\") (id \"g\") \"Hello, \" (b \"\" \"world\") \"!\")");
    let parsed = parsed.unwrap();
    match (&built.nodes[0], &parsed.nodes[0]) {
        (
            Node::Element { attributes: a1, children: c1, .. },
            Node::Element { attributes: a2, children: c2, .. },
        ) => {
            assert_eq!(a1, a2);
            assert_eq!(c1.len(), 3);
            assert_eq!(c2.len(), 3);
        }
        _ => panic!("elements expected"),
    }
    assert_eq!(
        render_compact(&built),
        "<div class=\"greeting\" id=\"g\">Hello, <b>world</b>!</div>"
    );
    assert_eq!(render_compact(&parsed), render_compact(&built));
    assert_eq!(render_compact(&built), render_compact(&built));
}

#[test]
fn pretty_indents_by_depth() {
    let doc = Document {
        nodes: vec![element("a", &[], vec![element("b", &[], vec![element("c", &[], vec![])])])],
    };
    assert_eq!(
        render_pretty(&doc, 0),
        "<a>\n    <b>\n        <c>\n        </c>\n    </b>\n</a>\n"
    );
    assert_eq!(
        render_pretty(&doc, 1),
        "    <a>\n        <b>\n            <c>\n            </c>\n        </b>\n    </a>\n"
    );
}

#[test]
fn indentation_is_four_spaces_a_level() {
    assert_eq!(indentation(0), "");
    assert_eq!(indentation(1), "    ");
    assert_eq!(indentation(3), "            ");
}

#[test]
fn parse_tokens_reads_what_tokenize_gives() {
    let tokens = tokenize("(p \"x\")").unwrap();
    let doc = parse_tokens(&tokens).unwrap();
    assert_eq!(render_compact(&doc), "<p>x</p>");
    let tokens = vec![Token::Open, Token::Ident("p".to_string())];
    assert!(parse_tokens(&tokens).is_none());
}

#[test]
fn compile_gives_both_layouts() {
    assert_eq!(compile("(p \"a<b\")", false), Some("<p>a&lt;b</p>".to_string()));
    assert_eq!(compile("(p \"a<b\")", true), Some("<p>\n    a&lt;b\n</p>\n".to_string()));
    assert_eq!(compile("(p", false), None);
    assert_eq!(compile("(p", true), None);
}

#[test]
fn source_extension_is_htmlisp() {
    assert!(is_source_extension("htmlisp"));
    assert!(!is_source_extension("html"));
    assert!(!is_source_extension("htmlispx"));
    assert!(!is_source_extension("HTMLISP"));
    assert!(!is_source_extension("htmlisq"));
    assert!(!is_source_extension(""));
}

#[test]
fn watch_compiles_written_source_files_only() {
    let write = |e: Option<&str>| WatchEvent::Write { extension: e.map(|s| s.to_string()) };
    assert_eq!(watch_action(&write(Some("htmlisp"))), WatchAction::Compile);
    assert_eq!(watch_action(&write(Some("html"))), WatchAction::Ignore);
    assert_eq!(watch_action(&write(None)), WatchAction::Ignore);
    assert_eq!(watch_action(&WatchEvent::Other), WatchAction::Ignore);
    assert_eq!(watch_action(&WatchEvent::Failed), WatchAction::Stop);
}

#[test]
fn parentheses_need_no_white_space_around_them() {
    let doc = parse("(a(b \"x\")(c d \"e\"(f)))").unwrap();
    assert_eq!(render_compact(&doc), "<a b=\"x\"><c d=\"e\"><f></f></c></a>");
}

fn names_are_clean(node: &Node) -> bool {
    match node {
        Node::Text(_) => true,
        Node::Element { tag_name, children, .. } => {
            !tag_name.is_empty()
                && !tag_name.chars().any(|c| " \t\n\r()".contains(c))
                && children.iter().all(names_are_clean)
        }
    }
}

#[test]
fn tag_names_of_a_parsed_tree_hold_no_delimiter() {
    let doc = parse("(a\t(b)\n(c(d \"x\" \"y\")\r(e)))").unwrap();
    assert!(doc.nodes.iter().all(names_are_clean));
    assert_eq!(render_compact(&doc), "<a><b></b><c><d>xy</d><e></e></c></a>");
}

#[test]
fn tokens_read_back_as_the_tree_they_stand_for() {
    let tokens = vec![
        Token::Open,
        Token::Ident("a".to_string()),
        Token::Ident("k".to_string()),
        Token::Quoted("v".to_string()),
        Token::Quoted("t".to_string()),
        Token::Open,
        Token::Ident("b".to_string()),
        Token::Quoted("u".to_string()),
        Token::Close,
        Token::Close,
        Token::Quoted("end".to_string()),
    ];
    let doc = parse_tokens(&tokens).unwrap();
    assert_eq!(doc.nodes.len(), 2);
    match &doc.nodes[0] {
        Node::Element { tag_name, attributes, children } => {
            assert_eq!(tag_name, "a");
            assert_eq!(attributes, &vec![("k".to_string(), "v".to_string())]);
            assert_eq!(children.len(), 2);
            assert!(matches!(&children[0], Node::Text(s) if s == "t"));
            match &children[1] {
                Node::Element { tag_name, attributes, children } => {
                    assert_eq!(tag_name, "b");
                    assert!(attributes.is_empty());
                    assert_eq!(children.len(), 1);
                    assert!(matches!(&children[0], Node::Text(s) if s == "u"));
                }
                Node::Text(_) => panic!("element expected"),
            }
        }
        Node::Text(_) => panic!("element expected"),
    }
    assert!(matches!(&doc.nodes[1], Node::Text(s) if s == "end"));
}

#[test]
fn element_at_a_position_is_read_with_its_end() {
    let tokens = tokenize("\"x\" (p (q))").unwrap();
    let (node, next) = parse_element_at(&tokens, 1).unwrap();
    assert_eq!(next, 7);
    assert!(matches!(&node, Node::Element { tag_name, .. } if tag_name == "p"));
    assert!(parse_element_at(&tokens, 0).is_none());
    assert!(parse_element_at(&tokens, 6).is_none());
}

#[test]
fn a_long_source_compiles() {
    let mut source = String::from("(div \"\"");
    for _ in 0..20000 {
        source.push_str(" (p \"a&b\")");
    }
    source.push(')');
    let html = compile(&source, false).unwrap();
    assert_eq!(html.len(), "<div></div>".len() + 20000 * "<p>a&amp;b</p>".len());
    let pretty = compile(&source, true).unwrap();
    assert_eq!(pretty.lines().count(), 3 + 20000 * 3);
}

#[test]
fn characters_of_a_text_in_order() {
    assert_eq!(chars_of("a✓b"), vec!['a', '✓', 'b']);
    assert_eq!(chars_of(""), Vec::<char>::new());
    assert_eq!(string_of(&vec!['a', 'b', 'c', 'd'], 1, 3), "bc");
    assert_eq!(string_of(&vec!['a', 'b'], 1, 1), "");
}

#[test]
fn nodes_are_appended_to_what_is_there() {
    let node = element("i", &[("a", "1")], vec![text("<")]);
    let mut out = String::from("x");
    compact_node_into(&node, &mut out);
    assert_eq!(out, "x<i a=\"1\">&lt;</i>");
    let mut out = String::from("x\n");
    pretty_node_into(&node, &"  ".to_string(), &mut out);
    assert_eq!(out, "x\n  <i a=\"1\">\n      &lt;\n  </i>\n");
}

#[test]
fn delimiters_are_space_tab_newline_and_parentheses() {
    for c in [' ', '\t', '\n', '\r'] {
        assert!(is_space_char(c));
        assert!(is_delimiter_char(c));
    }
    assert!(is_delimiter_char('('));
    assert!(is_delimiter_char(')'));
    assert!(!is_space_char('('));
    assert!(!is_delimiter_char('"'));
    assert!(!is_delimiter_char('a'));
}
