use xmliter::selector::{
    ClassSelector, ContextSelectCons, ContextualSelectCons, ContextualSelectorExt, IdSelector,
    MatchAll, NameSelector,
};
use xmliter::{HtmlIter, HtmlIteratorExt, HtmlWriter, Item, ItemExt, MapAll};

#[test]
fn doc_identity() {
    let test = r#"<!DOCTYPE html><html><head></head><body><p class="hello"><b>hello</b></p><p>world!</p></body></html>"#;
    let mut out = HtmlIter::from_reader(test.as_bytes());
    assert_eq!(&out.to_string().unwrap(), test);
}

#[test]
fn fragment_identity() {
    let test = "<p><b>hello</b></p><p>world!</p>";
    let mut out = HtmlIter::from_reader(test.as_bytes());
    assert_eq!(&out.to_string().unwrap(), test);
}

#[test]
fn remove_elements() {
    let test = r#"<!DOCTYPE html><html><head></head><body><p class="hello"><b>hello</b></p><p>world!</p></body></html>"#;
    let mut out = HtmlIter::from_reader(test.as_bytes()).exclude(ClassSelector("hello"));
    assert_eq!(
        &out.to_string().unwrap(),
        r#"<!DOCTYPE html><html><head></head><body><p>world!</p></body></html>"#
    );
}

#[test]
fn select_element() {
    let test = r#"<!DOCTYPE html><html><head></head><body><div id="main"><p><b>hello</b></p><p>world!</p></div><p>side</p></body></html>"#;
    let mut out = HtmlIter::from_reader(test.as_bytes()).included(ContextualSelectCons(
        ContextSelectCons(MatchAll, IdSelector("main")),
        NameSelector("p"),
    ));
    assert_eq!(&out.to_string().unwrap(), "<p><b>hello</b></p><p>world!</p>");
}

#[test]
fn include_chain() {
    let read = "<!DOCTYPE html><html><body><main>content</main></body></html>".as_bytes();
    let out = HtmlIter::from_reader(read)
        .included(NameSelector("main"))
        .to_string()
        .unwrap();
    assert_eq!(out, "<main>content</main>");
}

#[test]
fn include_for() {
    let read = "<!DOCTYPE html><html><body><main>content</main></body></html>".as_bytes();
    let mut iter = HtmlIter::from_reader(read);
    let mut writer = HtmlWriter::from_writer(Vec::new());
    while let Some(item) = iter.next().unwrap() {
        if let Some(under_main) = item.included(&NameSelector("main")) {
            // anything without main in the path is ignored, and any context with main is stripped before the main
            writer.write_item(&under_main).unwrap();
        }
    }
    assert_eq!(
        String::from_utf8(writer.into_inner()).unwrap(),
        "<main>content</main>"
    );
}

#[test]
fn exclude_chain() {
    let read = r#"<!DOCTYPE html><html><body><main><p>content</p><p class="bloat">bloat</p></main></body></html>"#.as_bytes();
    let out = HtmlIter::from_reader(read)
        .exclude(ContextualSelectCons(
            ContextSelectCons(MatchAll, NameSelector("main")),
            ClassSelector("bloat"),
        ))
        .to_string()
        .unwrap();
    assert_eq!(
        out,
        "<!DOCTYPE html><html><body><main><p>content</p></main></body></html>"
    );
}

#[test]
fn exclude_for() {
    let read = r#"<!DOCTYPE html><html><body><main><p>content</p><p class="bloat">bloat</p></main></body></html>"#.as_bytes();
    let mut iter = HtmlIter::from_reader(read);
    let mut writer = HtmlWriter::from_writer(Vec::new());
    while let Some(item) = iter.next().unwrap() {
        if !ContextualSelectCons(
            ContextSelectCons(MatchAll, NameSelector("main")),
            ClassSelector("bloat"),
        )
        .match_any(item.as_path())
        {
            // if nothing in the item's path matches
            writer.write_item(&item).unwrap();
        }
    }
    assert_eq!(
        String::from_utf8(writer.into_inner()).unwrap(),
        "<!DOCTYPE html><html><body><main><p>content</p></main></body></html>"
    );
}

#[test]
fn mutate_chain() {
    let read = r#"<!DOCTYPE html><html><body><main id="id"><p id="first">content</p><p class="bloat" id="second">bloat</p></main></body></html>"#.as_bytes();
    let out = HtmlIter::from_reader(read)
        .map_all(
            |element| // on the iterator, `map_all` means that this mapping applies to every element in the document
                element.filter_attributes(|name, _value| name != "id"),
        )
        .to_string()
        .unwrap();
    assert_eq!(
        out,
        r#"<!DOCTYPE html><html><body><main><p>content</p><p class="bloat">bloat</p></main></body></html>"#
    );
}

#[test]
fn mutate_for() {
    let read = r#"<!DOCTYPE html><html><body><main id="id"><p id="first">content</p><p class="bloat" id="second">bloat</p></main></body></html>"#.as_bytes();
    let mut iter = HtmlIter::from_reader(read);
    let mut writer = HtmlWriter::from_writer(Vec::new());
    while let Some(item) = iter.next().unwrap() {
        let item = item.map_all(
            |element| // on the item, `map_all` means this mapping applies to every element in the path
            element.filter_attributes(|name, _value| name != "id"),
        );
        writer.write_item(&item).unwrap();
    }
    assert_eq!(
        String::from_utf8(writer.into_inner()).unwrap(),
        r#"<!DOCTYPE html><html><body><main><p>content</p><p class="bloat">bloat</p></main></body></html>"#
    );
}
