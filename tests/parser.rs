use html_dom::dom::{elem, text, AttrMap, ElementData, Node, NodeType};
use html_dom::html::{parse, ParseError};

fn element(n: &Node) -> &ElementData {
    match &n.node_type {
        NodeType::Element(e) => e,
        NodeType::Text(_) => panic!("expected an element"),
    }
}

fn text_of(n: &Node) -> &str {
    match &n.node_type {
        NodeType::Text(t) => t.as_str(),
        NodeType::Element(_) => panic!("expected a text node"),
    }
}

fn attr(e: &ElementData, name: &str) -> Option<String> {
    e.attributes.get(&name.to_string()).cloned()
}

#[test]
fn paragraph_with_id_and_text() {
    let root = parse("<p id=\"x\">hi</p>".to_string()).unwrap();
    let r = element(&root);
    assert_eq!(r.tag_name, "html");
    assert_eq!(r.attributes.len(), 0);
    assert_eq!(root.children.len(), 1);
    let p = &root.children[0];
    let pe = element(p);
    assert_eq!(pe.tag_name, "p");
    assert_eq!(pe.attributes.len(), 1);
    assert_eq!(attr(pe, "id"), Some("x".to_string()));
    assert_eq!(p.children.len(), 1);
    assert_eq!(text_of(&p.children[0]), "hi");
}

#[test]
fn void_tag_has_no_children_and_no_closing_tag() {
    let root = parse("<img src=\"a.png\">next".to_string()).unwrap();
    assert_eq!(root.children.len(), 2);
    let img = &root.children[0];
    assert_eq!(element(img).tag_name, "img");
    assert_eq!(attr(element(img), "src"), Some("a.png".to_string()));
    assert_eq!(img.children.len(), 0);
    assert_eq!(text_of(&root.children[1]), "next");
}

#[test]
fn every_void_tag_closes_itself() {
    for tag in ["link", "meta", "img", "hr", "input"] {
        let root = parse(format!("<{}><p></p>", tag)).unwrap();
        assert_eq!(root.children.len(), 2);
        assert_eq!(element(&root.children[0]).tag_name, tag);
        assert_eq!(root.children[0].children.len(), 0);
        assert_eq!(element(&root.children[1]).tag_name, "p");
    }
}

#[test]
fn comment_at_text_start_is_elided() {
    let root = parse("<p>/*hidden*/b</p>".to_string()).unwrap();
    let p = &root.children[0];
    assert_eq!(p.children.len(), 1);
    assert_eq!(text_of(&p.children[0]), "b");
}

#[test]
fn comment_inside_text_run_is_elided() {
    let root = parse("<p>a/*hidden*/b</p>".to_string()).unwrap();
    assert_eq!(root.children.len(), 1);
    let p = &root.children[0];
    assert_eq!(element(p).tag_name, "p");
    assert_eq!(p.children.len(), 1);
    assert_eq!(text_of(&p.children[0]), "ab");
    assert!(p.children[0].children.is_empty());
    assert!(!root.tojson().contains("hidden"));
}

#[test]
fn one_comment_is_elided_per_text_run() {
    let root = parse("<p>a/*x*/b/*y*/c</p>".to_string()).unwrap();
    assert_eq!(text_of(&root.children[0].children[0]), "ab/*y*/c");
    assert!(parse("<p>a/*open</p>".to_string()).is_err());
}

#[test]
fn markup_comment_is_elided() {
    let root = parse("<div><!-- note -->after</div>".to_string()).unwrap();
    let d = &root.children[0];
    assert_eq!(d.children.len(), 1);
    assert_eq!(text_of(&d.children[0]), "after");
}

#[test]
fn unterminated_comments_fail() {
    assert_eq!(parse("/* open".to_string()).err(), Some(ParseError::MalformedMarkup));
    assert_eq!(parse("<!-- open".to_string()).err(), Some(ParseError::MalformedMarkup));
}

#[test]
fn mismatched_closing_tag_fails() {
    assert!(parse("<p>x</div>".to_string()).is_err());
    assert_eq!(parse("<p>x</div>".to_string()).err(), Some(ParseError::MalformedMarkup));
}

#[test]
fn missing_closing_tag_fails() {
    assert!(parse("<p>x".to_string()).is_err());
    assert!(parse("<p>x</p".to_string()).is_err());
}

#[test]
fn single_and_double_quotes_both_work() {
    let a = parse("<p id=\"a\"></p>".to_string()).unwrap();
    let b = parse("<p id='a'></p>".to_string()).unwrap();
    assert_eq!(attr(element(&a.children[0]), "id"), Some("a".to_string()));
    assert_eq!(attr(element(&b.children[0]), "id"), Some("a".to_string()));
    assert_eq!(element(&a.children[0]).id(), Some(&"a".to_string()));
}

#[test]
fn attribute_errors() {
    assert!(parse("<p id></p>".to_string()).is_err());
    assert!(parse("<p id=x></p>".to_string()).is_err());
    assert!(parse("<p id=\"x></p>".to_string()).is_err());
    assert!(parse("<p id=\"x\"".to_string()).is_err());
}

#[test]
fn duplicate_attribute_keeps_last_value() {
    let root = parse("<p a=\"1\" a=\"2\"></p>".to_string()).unwrap();
    let p = element(&root.children[0]);
    assert_eq!(p.attributes.len(), 1);
    assert_eq!(attr(p, "a"), Some("2".to_string()));
}

#[test]
fn whitespace_between_siblings_is_dropped() {
    let root = parse("<a></a>  <b></b>".to_string()).unwrap();
    assert_eq!(root.children.len(), 2);
    assert_eq!(element(&root.children[0]).tag_name, "a");
    assert_eq!(element(&root.children[1]).tag_name, "b");
}

#[test]
fn empty_document_gives_bare_root() {
    let root = parse(String::new()).unwrap();
    assert_eq!(element(&root).tag_name, "html");
    assert_eq!(root.children.len(), 0);
}

#[test]
fn nested_elements() {
    let root = parse("<div class=\"c\"><p>one</p><p>two</p></div>".to_string()).unwrap();
    let d = &root.children[0];
    assert_eq!(d.children.len(), 2);
    assert_eq!(text_of(&d.children[0].children[0]), "one");
    assert_eq!(text_of(&d.children[1].children[0]), "two");
}

#[test]
fn scanned_text_is_escaped() {
    let root = parse("<p>say \"hi\"\tnow\nok</p>".to_string()).unwrap();
    assert_eq!(text_of(&root.children[0].children[0]), "say \\\"hi\\\"\\tnow\\nok");
}

#[test]
fn bang_without_comment_fails() {
    assert_eq!(parse("<!DOCTYPE html>".to_string()).err(), Some(ParseError::MalformedMarkup));
}

#[test]
fn empty_tag_name_fails() {
    assert!(parse("<></>".to_string()).is_err());
    assert!(parse("<".to_string()).is_err());
}

#[test]
fn top_level_stops_at_closing_tag() {
    let root = parse("<p></p></div>rest".to_string()).unwrap();
    assert_eq!(root.children.len(), 1);
}

#[test]
fn classes_absent_and_present() {
    let root = parse("<p></p><p class=\"a b\"></p>".to_string()).unwrap();
    assert!(element(&root.children[0]).classes().is_empty());
    let mut cs = element(&root.children[1]).classes();
    cs.sort();
    assert_eq!(cs, vec!["a".to_string(), "b".to_string()]);
}

#[test]
fn classes_keep_each_token_once() {
    let root = parse("<p class=\"a  b a\"></p>".to_string()).unwrap();
    let mut cs = element(&root.children[0]).classes();
    cs.sort();
    assert_eq!(cs, vec!["".to_string(), "a".to_string(), "b".to_string()]);
}

#[test]
fn id_absent() {
    let root = parse("<p class=\"a\"></p>".to_string()).unwrap();
    assert_eq!(element(&root.children[0]).id(), None);
}

#[test]
fn tojson_of_parsed_document() {
    let root = parse("<p id=\"x\">hi</p>".to_string()).unwrap();
    assert_eq!(
        root.tojson(),
        "{\"node_type\": \"element\", \"tag_name\": \"html\", \"attributes\": {}, \"children\": [{\"node_type\": \"element\", \"tag_name\": \"p\", \"attributes\": {\"id\": \"x\"}, \"children\": [{\"node_type\": \"text\", \"data\": \"hi\"}]}]}"
    );
}

#[test]
fn tojson_trims_text_and_separates_with_commas() {
    let mut attrs = AttrMap::new();
    attrs.insert("a".to_string(), "1".to_string());
    attrs.insert("b".to_string(), "2".to_string());
    let n = elem(
        "div".to_string(),
        attrs,
        vec![text("  x y \n".to_string()), text("z".to_string())],
    );
    assert_eq!(
        n.tojson(),
        "{\"node_type\": \"element\", \"tag_name\": \"div\", \"attributes\": {\"a\": \"1\",\"b\": \"2\"}, \"children\": [{\"node_type\": \"text\", \"data\": \"x y\"},{\"node_type\": \"text\", \"data\": \"z\"}]}"
    );
}

#[test]
fn text_constructor_keeps_data() {
    let n = text("  raw ".to_string());
    assert_eq!(text_of(&n), "  raw ");
    assert!(n.children.is_empty());
}

#[test]
fn attr_map_insert_replaces() {
    let mut m = AttrMap::new();
    m.insert("k".to_string(), "v1".to_string());
    m.insert("k".to_string(), "v2".to_string());
    assert_eq!(m.len(), 1);
    assert_eq!(m.get(&"k".to_string()), Some(&"v2".to_string()));
    assert_eq!(m.get(&"q".to_string()), None);
}

#[test]
fn tojson_of_empty_element() {
    let n = elem("div".to_string(), AttrMap::new(), vec![]);
    assert_eq!(
        n.tojson(),
        "{\"node_type\": \"element\", \"tag_name\": \"div\", \"attributes\": {}, \"children\": []}"
    );
}
