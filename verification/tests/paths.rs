use xmliter::element::Element;
use xmliter::element_path::{ElementPath, ElementPathBuf, Node};
use xmliter::iteritem::Item;

fn sample() -> ElementPathBuf {
    let mut path = ElementPathBuf::new();
    path.append_element("html", vec![])
        .append_element("body", vec![("class", "wide")])
        .append_element("p", vec![("id", "first")]);
    path
}

fn names(path: &xmliter::element_path::RawElementPath) -> Vec<String> {
    let mut names = Vec::new();
    let mut i = 0;
    while let Some(element) = path.get(i) {
        names.push(element.name().to_string());
        i += 1;
    }
    names
}

#[test]
fn new_path_is_empty() {
    let path = ElementPathBuf::new();
    assert_eq!(path.as_path().len(), 0);
    assert!(path.as_path().split_last().is_none());
    assert!(path.as_path().get(0).is_none());
    assert!(path.as_path().as_item().is_none());
}

#[test]
fn len_and_get() {
    let buf = sample();
    let path = buf.as_path();
    assert_eq!(path.len(), 3);
    assert_eq!(path.get(0).unwrap().name(), "html");
    assert_eq!(path.get(2).unwrap().attr("id"), Some("first"));
    assert!(path.get(3).is_none());
}

#[test]
fn split_last_gives_innermost_and_prefix() {
    let buf = sample();
    let (last, rest) = buf.as_path().split_last().unwrap();
    assert_eq!(last.name(), "p");
    assert_eq!(names(&rest), vec!["html", "body"]);
    let (last, rest) = rest.split_last().unwrap();
    assert_eq!(last.name(), "body");
    assert_eq!(names(&rest), vec!["html"]);
}

#[test]
fn slice_takes_a_range() {
    let buf = sample();
    let path = buf.as_path();
    assert_eq!(names(&path.slice(1, 3)), vec!["body", "p"]);
    assert_eq!(names(&path.slice(0, 1)), vec!["html"]);
    assert_eq!(path.slice(2, 2).len(), 0);
    assert_eq!(names(&path.slice(0, 3)), vec!["html", "body", "p"]);
}

#[test]
fn iteration_from_both_ends() {
    let buf = sample();
    let mut iter = buf.as_path().into_iter();
    assert_eq!(iter.next().unwrap().name(), "html");
    assert_eq!(iter.next_back().unwrap().name(), "p");
    assert_eq!(iter.next().unwrap().name(), "body");
    assert!(iter.next().is_none());
    assert!(iter.next_back().is_none());
}

#[test]
fn as_item_opens_the_innermost_element() {
    let buf = sample();
    let item = buf.as_path().as_item().unwrap();
    assert!(matches!(item.node(), Node::Start));
    assert_eq!(item.as_element().unwrap().name(), "p");
    assert_eq!(item.as_path().len(), 3);
    assert_eq!(names(&item.context_path()), vec!["html", "body"]);
}

#[test]
fn pop_takes_the_innermost_element() {
    let mut buf = sample();
    let popped = buf.pop();
    assert_eq!(popped.name, "p");
    assert_eq!(names(&buf.as_path()), vec!["html", "body"]);
}

#[test]
fn clone_is_independent() {
    let mut buf = sample();
    let copy = buf.clone();
    buf.append_element("b", vec![]);
    assert_eq!(copy.as_path().len(), 3);
    assert_eq!(buf.as_path().len(), 4);
}

#[test]
fn nodes_are_built_by_the_path() {
    let buf = sample();
    assert!(matches!(buf.text("t".to_string()), Node::Text(text) if text == "t"));
    assert!(matches!(buf.doctype("html".to_string()), Node::DocType(text) if text == "html"));
    assert!(matches!(buf.end(), Node::End));
    assert!(buf.end().is_element());
    assert!(!buf.text(String::new()).is_element());
}

#[test]
fn element_as_text() {
    let buf = sample();
    assert_eq!(buf.path[0].describe(), "html");
    assert_eq!(buf.path[1].describe(), r#"body class="wide""#);
    let mut more = ElementPathBuf::new();
    more.append_element("a", vec![("x", "1"), ("y", ""), ("x", "2")]);
    assert_eq!(more.path[0].describe(), r#"a x="1" y="" x="2""#);
}

#[test]
fn path_as_text() {
    let buf = sample();
    assert_eq!(
        buf.as_path().describe(),
        r#"/html/body class="wide"/p id="first""#
    );
    assert_eq!(ElementPathBuf::new().as_path().describe(), "");
}

#[test]
fn node_as_text() {
    assert_eq!(Node::Start.describe(), "Start");
    assert_eq!(Node::End.describe(), "End");
    assert_eq!(Node::DocType("html".to_string()).describe(), "DOCTYPE html");
    assert_eq!(Node::Text("plain".to_string()).describe(), "\"plain\"");
    assert_eq!(
        Node::Text("a \"b\"\n".to_string()).describe(),
        "\"a \\\"b\\\"\\n\""
    );
}

#[test]
fn item_as_text() {
    let buf = sample();
    let item = buf.as_path().as_item().unwrap();
    assert_eq!(
        item.describe(),
        r#"/html/body class="wide"/p id="first"/Start"#
    );
}
