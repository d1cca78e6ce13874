use xmliter::element::{NormalisedAttribute, NormalisedElement};
use xmliter::traverser::{Appended, Child, ParseTraverser, DOCUMENT};

fn element(name: &str) -> NormalisedElement {
    NormalisedElement {
        name: name.to_string(),
        attrs: vec![NormalisedAttribute {
            name: "id".to_string(),
            value: name.to_string(),
        }],
    }
}

fn names(tracker: &ParseTraverser) -> Vec<String> {
    tracker
        .path()
        .iter()
        .map(|node| node.element.name.clone())
        .collect()
}

#[test]
fn document_starts_empty() {
    let tracker = ParseTraverser::new_document();
    assert!(tracker.path().is_empty());
    assert!(tracker.node(1).is_none());
    assert!(tracker.node(DOCUMENT).is_none());
}

#[test]
fn fragment_starts_under_body() {
    let tracker = ParseTraverser::new_fragment();
    assert_eq!(names(&tracker), vec!["body"]);
    let body = tracker.node(1).unwrap();
    assert_eq!(body.handle, 1);
    assert!(body.element.attrs.is_empty());
    let shown = body.as_html_path_element();
    assert_eq!(shown.handle, 1);
    assert_eq!(shown.name, "body");
    assert!(shown.attrs.is_empty());
}

#[test]
fn handles_count_up() {
    let mut tracker = ParseTraverser::new_document();
    assert_eq!(tracker.create_element(element("a")), Some(1));
    assert_eq!(tracker.create_element(element("b")), Some(2));
    let mut fragment = ParseTraverser::new_fragment();
    assert_eq!(fragment.create_element(element("a")), Some(2));
    // created elements are found before they are appended
    assert_eq!(tracker.node(2).unwrap().element.name, "b");
    assert!(tracker.path().is_empty());
}

#[test]
fn append_follows_the_tree() {
    let mut tracker = ParseTraverser::new_document();
    let html = tracker.create_element(element("html")).unwrap();
    let body = tracker.create_element(element("body")).unwrap();
    let p = tracker.create_element(element("p")).unwrap();
    let q = tracker.create_element(element("q")).unwrap();
    assert_eq!(tracker.append(DOCUMENT, Child::Node(html)), Appended::Element);
    assert_eq!(tracker.append(html, Child::Node(body)), Appended::Element);
    assert_eq!(tracker.append(body, Child::Node(p)), Appended::Element);
    assert_eq!(names(&tracker), vec!["html", "body", "p"]);
    assert_eq!(
        tracker.append(p, Child::Text("x".to_string())),
        Appended::Text("x".to_string())
    );
    assert_eq!(names(&tracker), vec!["html", "body", "p"]);
    // appending to an ancestor closes what lies below it
    assert_eq!(tracker.append(body, Child::Node(q)), Appended::Element);
    assert_eq!(names(&tracker), vec!["html", "body", "q"]);
    assert_eq!(tracker.node(q).unwrap().element.attrs[0].value, "q");
    // `p` has been closed and is gone
    assert!(tracker.node(p).is_none());
    assert_eq!(
        tracker.append(html, Child::Text("t".to_string())),
        Appended::Text("t".to_string())
    );
    assert_eq!(names(&tracker), vec!["html"]);
}

#[test]
fn append_to_a_closed_parent_is_ignored() {
    let mut tracker = ParseTraverser::new_document();
    let a = tracker.create_element(element("a")).unwrap();
    let b = tracker.create_element(element("b")).unwrap();
    let c = tracker.create_element(element("c")).unwrap();
    tracker.append(DOCUMENT, Child::Node(a));
    tracker.append(a, Child::Node(b));
    tracker.append(a, Child::Text(String::new()));
    assert_eq!(names(&tracker), vec!["a"]);
    assert_eq!(tracker.append(b, Child::Node(c)), Appended::Ignored);
    assert_eq!(
        tracker.append(b, Child::Text("t".to_string())),
        Appended::Ignored
    );
    assert_eq!(names(&tracker), vec!["a"]);
    // the element that was not appended is still there to be appended
    assert_eq!(tracker.append(a, Child::Node(c)), Appended::Element);
    assert_eq!(names(&tracker), vec!["a", "c"]);
}

#[test]
fn append_of_an_unknown_element() {
    let mut tracker = ParseTraverser::new_document();
    let a = tracker.create_element(element("a")).unwrap();
    let b = tracker.create_element(element("b")).unwrap();
    tracker.append(DOCUMENT, Child::Node(a));
    tracker.append(a, Child::Node(b));
    assert_eq!(tracker.append(a, Child::Node(77)), Appended::Missing);
    // the path has been closed down to the parent all the same
    assert_eq!(names(&tracker), vec!["a"]);
    // an element cannot be appended twice
    assert_eq!(tracker.append(a, Child::Node(b)), Appended::Missing);
}

#[test]
fn append_to_the_document_closes_everything() {
    let mut tracker = ParseTraverser::new_fragment();
    let a = tracker.create_element(element("a")).unwrap();
    assert_eq!(names(&tracker), vec!["body"]);
    assert_eq!(tracker.append(DOCUMENT, Child::Node(a)), Appended::Element);
    assert_eq!(names(&tracker), vec!["a"]);
}
