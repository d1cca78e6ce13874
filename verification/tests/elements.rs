use xmliter::element::{
    is_separator, str_eq, to_owned_element, Classes, Element, NormalisedElement,
};
use xmliter::element_path::{ElementPath, ElementPathBuf};

fn path_of(name: &str, attrs: Vec<(&str, &str)>) -> ElementPathBuf {
    let mut path = ElementPathBuf::new();
    path.append_element(name, attrs);
    path
}

fn tokens(classes: &mut Classes) -> Vec<String> {
    let mut found = Vec::new();
    while let Some(class) = classes.next() {
        found.push(class.to_string());
    }
    found
}

#[test]
fn str_eq_compares_characters() {
    assert!(str_eq("", ""));
    assert!(str_eq("héllo", "héllo"));
    assert!(!str_eq("hello", "hellp"));
    assert!(!str_eq("hello", "hell"));
    assert!(!str_eq("", "a"));
}

#[test]
fn separators_are_ascii_whitespace() {
    for c in [' ', '\t', '\n', '\x0c', '\r'] {
        assert!(is_separator(c));
    }
    for c in ['a', '-', '\u{a0}', '\u{2003}', '\x0b'] {
        assert!(!is_separator(c));
    }
}

#[test]
fn attr_returns_the_first_match() {
    let path = path_of("p", vec![("k", "1"), ("other", "x"), ("k", "2")]);
    let element = path.as_path().get(0).unwrap();
    assert_eq!(element.name(), "p");
    assert_eq!(element.attr("k"), Some("1"));
    assert_eq!(element.attr("other"), Some("x"));
    assert_eq!(element.attr("missing"), None);
    assert_eq!(element.slots(), 3);
    assert_eq!(element.attributes().len(), 3);
}

#[test]
fn classes_split_on_whitespace() {
    let path = path_of("p", vec![("class", "  fixed\tquote \n wide  ")]);
    let element = path.as_path().get(0).unwrap();
    assert_eq!(tokens(&mut element.classes()), vec!["fixed", "quote", "wide"]);
}

#[test]
fn classes_of_an_element_without_class() {
    let path = path_of("p", vec![("id", "x")]);
    let element = path.as_path().get(0).unwrap();
    assert!(tokens(&mut element.classes()).is_empty());
}

#[test]
fn classes_of_blank_text() {
    let path = path_of("p", vec![("class", " \t ")]);
    let element = path.as_path().get(0).unwrap();
    let mut classes = element.classes();
    assert_eq!(classes.next(), None);
    assert_eq!(classes.next(), None);
}

#[test]
fn classes_come_from_the_first_class_attribute() {
    let path = path_of("p", vec![("class", "one"), ("class", "two")]);
    let element = path.as_path().get(0).unwrap();
    assert_eq!(tokens(&mut element.classes()), vec!["one"]);
}

#[test]
fn classes_keep_characters_outside_ascii() {
    let path = path_of("p", vec![("class", "é\u{a0}x grün")]);
    let element = path.as_path().get(0).unwrap();
    assert_eq!(tokens(&mut element.classes()), vec!["é\u{a0}x", "grün"]);
}

#[test]
fn filter_hides_rejected_attributes() {
    let path = path_of("p", vec![("id", "a"), ("class", "c"), ("id", "b")]);
    let element = path
        .as_path()
        .get(0)
        .unwrap()
        .filter_attributes(|name, _value| name != "id");
    assert_eq!(element.name(), "p");
    assert_eq!(element.attr("id"), None);
    assert_eq!(element.attr("class"), Some("c"));
    // the attributes under the view are not copied: the slots stay, hidden ones answer nothing
    assert_eq!(element.slots(), 3);
    assert!(element.slot(0).is_none());
    assert_eq!(element.slot(1).unwrap().name, "class");
    assert!(element.slot(2).is_none());
}

#[test]
fn lookup_in_a_filtered_view_sees_the_first_exposed_match() {
    let path = path_of("p", vec![("id", "a"), ("id", "b")]);
    let element = path
        .as_path()
        .get(0)
        .unwrap()
        .filter_attributes(|_name, value| value != "a");
    assert_eq!(element.attr("id"), Some("b"));
}

#[test]
fn filters_stack() {
    let path = path_of("p", vec![("a", "1"), ("b", "2"), ("c", "3")]);
    let element = path
        .as_path()
        .get(0)
        .unwrap()
        .filter_attributes(|name, _| name != "a")
        .filter_attributes(|name, _| name != "c");
    let mut names = Vec::new();
    let mut attributes = element.attributes();
    while let Some(attribute) = attributes.next() {
        names.push(attribute.name.clone());
    }
    assert_eq!(names, vec!["b"]);
}

#[test]
fn filtered_attributes_come_in_source_order() {
    let path = path_of("p", vec![("x", "1"), ("id", "i"), ("y", "2"), ("x", "3")]);
    let element = path
        .as_path()
        .get(0)
        .unwrap()
        .filter_attributes(|name, _| name != "id");
    let mut seen = Vec::new();
    let mut attributes = element.attributes();
    while let Some(attribute) = attributes.next() {
        seen.push((attribute.name.clone(), attribute.value.clone()));
    }
    assert_eq!(
        seen,
        vec![
            ("x".to_string(), "1".to_string()),
            ("y".to_string(), "2".to_string()),
            ("x".to_string(), "3".to_string())
        ]
    );
    assert!(attributes.next().is_none());
}

#[test]
fn owned_copy_holds_what_the_view_shows() {
    let path = path_of("p", vec![("id", "i"), ("class", "c")]);
    let element = path
        .as_path()
        .get(0)
        .unwrap()
        .filter_attributes(|name, _| name != "id");
    let owned: NormalisedElement = to_owned_element(&element);
    assert_eq!(owned.name, "p");
    assert_eq!(owned.attrs.len(), 1);
    assert_eq!(owned.attrs[0].name, "class");
    assert_eq!(owned.attrs[0].value, "c");
}

#[test]
fn classes_of_a_filtered_view() {
    let path = path_of("p", vec![("class", "a b")]);
    let hidden = path
        .as_path()
        .get(0)
        .unwrap()
        .filter_attributes(|name, _| name != "class");
    assert!(tokens(&mut hidden.classes()).is_empty());
}
