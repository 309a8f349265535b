use exercises::dom::{Document, Node, NodeRef, TextContent};

fn setup(doc: &mut Document) -> NodeRef {
    let html = Node::new(doc, "html");
    let body = Node::new(doc, "body");
    let div = Node::new(doc, "div");
    let div1 = Node::new(doc, "div");
    let p = Node::new(doc, "p");
    doc.node_mut(body).set_text("Hello world!");
    doc.node_mut(div).set_attribute("id", "description");
    doc.node_mut(p)
        .set_text("This page generated for test. Cool! Right?");
    Node::add_child(doc, html, body);
    Node::add_child(doc, body, div);
    Node::add_child(doc, div, p);
    Node::add_child(doc, div, div1);
    html
}

#[test]
fn test_new() {
    let mut doc = Document::new();
    let html = Node::new(&mut doc, "html");
    assert_eq!(*doc.node(html).tag(), "html".to_string());
    assert!(doc.node(html).text().is_none());
    assert!(doc.node(html).attributes().is_empty());
    assert!(doc.node(html).children().is_empty());
    assert!(doc.node(html).parent().is_none());
}

#[test]
fn test_add_child() {
    let mut doc = Document::new();
    let html = Node::new(&mut doc, "html");
    let head = Node::new(&mut doc, "head");
    Node::add_child(&mut doc, html, head);
    assert_eq!(doc.node(html).children()[0], head);
    assert_eq!(doc.node(head).parent(), Some(html));
    assert_eq!(
        *doc.node(doc.node(html).children()[0]).tag(),
        "head".to_string()
    );
}

#[test]
fn test_set_attribute() {
    let mut doc = Document::new();
    let html = setup(&mut doc);
    doc.node_mut(html).set_attribute("lang", "en");
    assert_eq!(
        doc.node(html).get_attribute("lang"),
        Some(&"en".to_string())
    );
}

#[test]
fn test_set_text() {
    let mut doc = Document::new();
    let html = Node::new(&mut doc, "html");
    doc.node_mut(html).set_text("Some text to test");
    let text = doc.node(html);
    assert_eq!(
        *text.text().as_ref().unwrap(),
        TextContent::new("Some text to test")
    );
}

#[test]
fn test_find_by_tag() {
    let mut doc = Document::new();
    let html = setup(&mut doc);
    assert_eq!(doc.node(Node::find_by_tag(&doc, html, "div")[0]).tag(), "div");
    assert_eq!(Node::find_by_tag(&doc, html, "div").len(), 2);
}

#[test]
fn test_depth() {
    let mut doc = Document::new();
    let html = setup(&mut doc);
    assert_eq!(Node::depth(&doc, html), 0);
    let children = doc.node(html).children();
    assert_eq!(Node::depth(&doc, children[0]), 1);
}

#[test]
fn test_remove_child() {
    let mut doc = Document::new();
    let html = setup(&mut doc);
    let body = *Node::find_by_tag(&doc, html, "body").first().unwrap();
    Node::remove_child(&mut doc, html, body);
    assert_eq!(doc.node(html).children().len(), 0);
    assert!(doc.node(body).parent().is_none());
}

#[test]
fn test_render() {
    let mut doc = Document::new();
    let html = setup(&mut doc);

    let indent = "  ".to_string();
    let mut output = String::new();
    output.push_str("<html>\n");
    output.push_str(&format!("{indent}<body>\n"));
    output.push_str(&format!("{indent}{indent}Hello world!\n"));
    output.push_str(&format!("{indent}{indent}<div id=\"description\">\n"));
    output.push_str(&format!(
        "{indent}{indent}{indent}<p>This page generated for test. Cool! Right?</p>\n"
    ));
    output.push_str(&format!("{indent}{indent}{indent}<div></div>\n"));
    output.push_str(&format!("{indent}{indent}</div>\n"));
    output.push_str(&format!("{indent}</body>\n"));
    output.push_str("</html>\n");

    assert_eq!(Node::render(&doc, html), output);
}

#[test]
fn test_textcontent_deref() {
    let text = TextContent::new("some bla text");
    assert!(text.cmp("some bla text").is_eq());
}

#[test]
fn find_by_tag_lists_in_preorder() {
    let mut doc = Document::new();
    let html = setup(&mut doc);
    let all_divs = Node::find_by_tag(&doc, html, "div");
    assert_eq!(all_divs, vec![NodeRef { index: 2 }, NodeRef { index: 3 }]);
    assert_eq!(Node::find_by_tag(&doc, html, "html"), vec![html]);
    assert!(Node::find_by_tag(&doc, html, "span").is_empty());
}

#[test]
fn depth_counts_every_ancestor() {
    let mut doc = Document::new();
    let html = setup(&mut doc);
    let p = Node::find_by_tag(&doc, html, "p")[0];
    assert_eq!(Node::depth(&doc, p), 3);
}

#[test]
fn remove_child_undoes_add_child() {
    let mut doc = Document::new();
    let a = Node::new(&mut doc, "ul");
    let b = Node::new(&mut doc, "li");
    let before = Node::render(&doc, a);
    Node::add_child(&mut doc, a, b);
    assert_eq!(Node::render(&doc, a), "<ul>\n  <li></li>\n</ul>\n");
    Node::remove_child(&mut doc, a, b);
    assert_eq!(Node::render(&doc, a), before);
    assert!(doc.node(a).children().is_empty());
    assert!(doc.node(b).parent().is_none());
}

#[test]
fn remove_child_of_a_stranger_changes_nothing() {
    let mut doc = Document::new();
    let a = Node::new(&mut doc, "ul");
    let b = Node::new(&mut doc, "li");
    let c = Node::new(&mut doc, "li");
    Node::add_child(&mut doc, a, b);
    Node::remove_child(&mut doc, a, c);
    assert_eq!(doc.node(a).children(), &vec![b]);
    assert_eq!(doc.node(b).parent(), Some(a));
}

#[test]
fn set_attribute_replaces_and_keeps_others() {
    let mut doc = Document::new();
    let a = Node::new(&mut doc, "a");
    doc.node_mut(a).set_attribute("href", "x");
    doc.node_mut(a).set_attribute("class", "link");
    doc.node_mut(a).set_attribute("href", "y");
    assert_eq!(doc.node(a).get_attribute("href"), Some(&"y".to_string()));
    assert_eq!(doc.node(a).get_attribute("class"), Some(&"link".to_string()));
    assert_eq!(doc.node(a).get_attribute("id"), None);
    assert_eq!(doc.node(a).attributes().len(), 2);
    assert_eq!(
        Node::render(&doc, a),
        "<a href=\"y\" class=\"link\"></a>\n"
    );
}

#[test]
fn render_of_inner_node_uses_its_depth() {
    let mut doc = Document::new();
    let html = setup(&mut doc);
    let div = Node::find_by_tag(&doc, html, "div")[1];
    assert_eq!(Node::render(&doc, div), "      <div></div>\n");
}

#[test]
fn text_of_node_with_children_stands_on_its_own_line() {
    let mut doc = Document::new();
    let a = Node::new(&mut doc, "a");
    let b = Node::new(&mut doc, "b");
    doc.node_mut(a).set_text("t");
    Node::add_child(&mut doc, a, b);
    assert_eq!(Node::render(&doc, a), "<a>\n  t\n  <b></b>\n</a>\n");
}

#[test]
fn guards_detect_cycles() {
    let mut doc = Document::new();
    let html = setup(&mut doc);
    assert!(Node::parent_chain_ends(&doc, html));
    assert!(Node::subtree_is_renderable(&doc, html));
    let a = Node::new(&mut doc, "a");
    let b = Node::new(&mut doc, "b");
    Node::add_child(&mut doc, a, b);
    Node::add_child(&mut doc, b, a);
    assert!(!Node::parent_chain_ends(&doc, a));
    assert!(!Node::subtree_is_renderable(&doc, a));
    assert!(Node::subtree_is_renderable(&doc, html));
}

#[test]
fn attached_child_sits_one_level_below() {
    let mut doc = Document::new();
    let html = setup(&mut doc);
    let p = Node::find_by_tag(&doc, html, "p")[0];
    let span = Node::new(&mut doc, "span");
    Node::add_child(&mut doc, p, span);
    assert_eq!(Node::depth(&doc, span), Node::depth(&doc, p) + 1);
    assert_eq!(doc.node(span).parent(), Some(p));
    assert_eq!(*doc.node(p).children().last().unwrap(), span);
}

#[test]
fn editing_a_node_keeps_the_tree() {
    let mut doc = Document::new();
    let a = Node::new(&mut doc, "a");
    let b = Node::new(&mut doc, "b");
    Node::add_child(&mut doc, a, b);
    doc.node_mut(b).set_tag("i");
    doc.node_mut(b).set_text("x");
    assert_eq!(doc.len(), 2);
    assert_eq!(Node::render(&doc, a), "<a>\n  <i>x</i>\n</a>\n");
}

#[test]
fn parent_follows_the_history_of_calls() {
    let mut doc = Document::new();
    let a = Node::new(&mut doc, "a");
    let b = Node::new(&mut doc, "b");
    let c = Node::new(&mut doc, "c");
    Node::add_child(&mut doc, a, c);
    assert_eq!(doc.node(c).parent(), Some(a));
    Node::add_child(&mut doc, b, c);
    assert_eq!(doc.node(c).parent(), Some(b));
    Node::remove_child(&mut doc, b, a);
    assert_eq!(doc.node(c).parent(), Some(b));
    Node::remove_child(&mut doc, a, c);
    assert_eq!(doc.node(c).parent(), None);
    Node::add_child(&mut doc, a, c);
    assert_eq!(doc.node(c).parent(), Some(a));
}

#[test]
fn render_is_head_children_tail() {
    let mut doc = Document::new();
    let html = setup(&mut doc);
    let body = doc.node(html).children()[0];
    let expected = format!("<html>\n{}</html>\n", Node::render(&doc, body));
    assert_eq!(Node::render(&doc, html), expected);
}

#[test]
fn find_by_tag_is_self_then_children() {
    let mut doc = Document::new();
    let html = setup(&mut doc);
    let div = Node::find_by_tag(&doc, html, "div")[0];
    let mut expected = vec![div];
    for c in doc.node(div).children() {
        expected.extend(Node::find_by_tag(&doc, *c, "div"));
    }
    assert_eq!(Node::find_by_tag(&doc, div, "div"), expected);
    assert_eq!(expected.len(), 2);
}
