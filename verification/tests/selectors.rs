use xmliter::element_path::ElementPathBuf;
use xmliter::element_path::ElementPath;
use xmliter::matcher::ElementMatcher;
use xmliter::selector::{
    has_class, ClassSelector, ContextSelectCons, ContextualSelectCons, ContextualSelector,
    ContextualSelectorExt, IdSelector, MatchAll, NameSelector, OnlyContextualSelector, Selector,
    SelectorExt,
};

#[test]
fn test_matchers() {
    let mut path_body = ElementPathBuf::new();
    path_body
        .append_element("html", vec![])
        .append_element("body", vec![]);
    let mut path_main = path_body.clone();
    path_main.append_element("div", vec![("id", "main")]);
    let mut main_p = path_main.clone();
    main_p.append_element("p", vec![]);
    let mut main_quote = path_main.clone();
    main_quote.append_element("p", vec![("class", "fixed quote")]);
    let mut body_quote = path_body.clone();
    body_quote.append_element("p", vec![("class", "fixed quote")]);

    assert!(NameSelector("p").context_match(&main_p.as_path()));
    assert!(NameSelector("p").context_match(&main_quote.as_path()));
    assert!(!NameSelector("p").context_match(&path_main.as_path()));

    assert!(!NameSelector("p").and(ClassSelector("quote")).context_match(&main_p.as_path()));
    assert!(NameSelector("p").and(ClassSelector("quote")).context_match(&main_quote.as_path()));
    assert!(!NameSelector("p").and(ClassSelector("quote")).context_match(&path_main.as_path()));

    assert!(!ClassSelector("quote").context_match(&main_p.as_path()));
    assert!(ClassSelector("quote").context_match(&main_quote.as_path()));
    assert!(!ClassSelector("quote").context_match(&path_main.as_path()));

    assert!(!NameSelector("p").and(IdSelector("quote")).context_match(&main_quote.as_path()));
    assert!(NameSelector("div").and(IdSelector("main")).context_match(&path_main.as_path()));

    assert!(!IdSelector("main").context_match(&main_p.as_path()));
    assert!(!IdSelector("main").context_match(&main_quote.as_path()));
    assert!(IdSelector("main").context_match(&path_main.as_path()));

    assert!(!ContextualSelectCons(
        ContextSelectCons(MatchAll, IdSelector("main")),
        NameSelector("p").and(ClassSelector("quote"))
    )
    .context_match(&main_p.as_path()));
    assert!(ContextualSelectCons(
        ContextSelectCons(MatchAll, IdSelector("main")),
        NameSelector("p").and(ClassSelector("quote"))
    )
    .context_match(&main_quote.as_path()));
    assert!(!ContextualSelectCons(
        ContextSelectCons(MatchAll, IdSelector("main")),
        NameSelector("p").and(ClassSelector("quote"))
    )
    .context_match(&path_main.as_path()));
    assert!(!ContextualSelectCons(
        ContextSelectCons(MatchAll, IdSelector("main")),
        NameSelector("p").and(ClassSelector("quote"))
    )
    .context_match(&body_quote.as_path()));
}

fn deep() -> ElementPathBuf {
    let mut path = ElementPathBuf::new();
    path.append_element("html", vec![])
        .append_element("body", vec![("class", "page wide")])
        .append_element("div", vec![("id", "main"), ("class", "box")])
        .append_element("ul", vec![])
        .append_element("li", vec![("class", "item first")]);
    path
}

#[test]
fn match_any_sees_the_element_and_its_ancestors() {
    let path = deep();
    assert!(NameSelector("li").match_any(path.as_path()));
    assert!(NameSelector("html").match_any(path.as_path()));
    assert!(IdSelector("main").match_any(path.as_path()));
    assert!(ClassSelector("wide").match_any(path.as_path()));
    assert!(!NameSelector("p").match_any(path.as_path()));
    assert!(!ClassSelector("second").match_any(path.as_path()));
}

#[test]
fn match_any_on_a_prefix_does_not_see_what_lies_below() {
    let path = deep();
    let above = path.as_path().slice(0, 2);
    assert!(!IdSelector("main").match_any(above));
    assert!(ClassSelector("page").match_any(above));
}

#[test]
fn match_any_on_the_empty_path() {
    let path = ElementPathBuf::new();
    assert!(!NameSelector("p").match_any(path.as_path()));
    assert!(!MatchAll.context_match(&path.as_path()));
}

#[test]
fn match_any_stays_true_below_a_match() {
    let mut path = ElementPathBuf::new();
    path.append_element("a", vec![("class", "gone")]);
    assert!(ClassSelector("gone").match_any(path.as_path()));
    path.append_element("b", vec![]);
    assert!(ClassSelector("gone").match_any(path.as_path()));
    path.append_element("c", vec![]);
    assert!(ClassSelector("gone").match_any(path.as_path()));
}

#[test]
fn class_selector_needs_a_whole_token() {
    let path = deep();
    assert!(ClassSelector("item").context_match(&path.as_path()));
    assert!(ClassSelector("first").context_match(&path.as_path()));
    assert!(!ClassSelector("ite").context_match(&path.as_path()));
    assert!(!ClassSelector("item first").context_match(&path.as_path()));
    assert!(!ClassSelector("").context_match(&path.as_path()));
}

#[test]
fn and_of_classes_needs_all() {
    let path = deep();
    assert!(ClassSelector("item")
        .and(ClassSelector("first"))
        .context_match(&path.as_path()));
    assert!(!ClassSelector("item")
        .and(ClassSelector("second"))
        .context_match(&path.as_path()));
}

#[test]
fn or_matches_either() {
    let path = deep();
    assert!(NameSelector("p").or(NameSelector("li")).context_match(&path.as_path()));
    assert!(NameSelector("li").or(NameSelector("p")).context_match(&path.as_path()));
    assert!(!NameSelector("p").or(NameSelector("ul")).context_match(&path.as_path()));
    assert!(NameSelector("p")
        .or(ContextualSelectCons(
            ContextSelectCons(MatchAll, IdSelector("main")),
            NameSelector("li")
        ))
        .context_match(&path.as_path()));
}

#[test]
fn chain_of_three_is_searched_outward() {
    let path = deep();
    let chain = |a: &'static str, b: &'static str, c: &'static str| {
        ContextualSelectCons(
            ContextSelectCons(ContextSelectCons(MatchAll, NameSelector(a)), NameSelector(b)),
            NameSelector(c),
        )
    };
    assert!(chain("body", "div", "li").context_match(&path.as_path()));
    assert!(chain("html", "ul", "li").context_match(&path.as_path()));
    // the order of the ancestors counts
    assert!(!chain("div", "body", "li").context_match(&path.as_path()));
    // an element is not its own ancestor
    assert!(!chain("body", "li", "li").context_match(&path.as_path()));
    // the last selector is held against the element itself only
    assert!(!chain("html", "body", "ul").context_match(&path.as_path()));
}

#[test]
fn chain_of_one_is_the_selector_itself() {
    let path = deep();
    assert!(ContextualSelectCons(MatchAll, NameSelector("li")).context_match(&path.as_path()));
    assert!(!ContextualSelectCons(MatchAll, NameSelector("ul")).context_match(&path.as_path()));
}

#[test]
fn chain_as_a_list_of_selectors() {
    let path = deep();
    let chain = [NameSelector("body"), NameSelector("div"), NameSelector("li")];
    assert!(chain[..].context_match(&path.as_path()));
    let chain = [NameSelector("div"), NameSelector("body"), NameSelector("li")];
    assert!(!chain[..].context_match(&path.as_path()));
    let chain = [NameSelector("li")];
    assert!(chain[..].context_match(&path.as_path()));
    let chain = [NameSelector("li"), NameSelector("li")];
    assert!(!chain[..].context_match(&path.as_path()));
    let none: [NameSelector; 0] = [];
    assert!(none[..].context_match(&path.as_path()));
    assert!(none[..].context_match(&ElementPathBuf::new().as_path()));
    let chain = [NameSelector("li")];
    assert!(!chain[..].context_match(&ElementPathBuf::new().as_path()));
}

#[test]
fn chain_does_not_match_without_the_ancestor_on_the_line() {
    // an element with id `main` exists in the document, but not above this `p`
    let mut aside = ElementPathBuf::new();
    aside
        .append_element("html", vec![])
        .append_element("body", vec![])
        .append_element("aside", vec![])
        .append_element("p", vec![("class", "quote")]);
    let selector = ContextualSelectCons(
        ContextSelectCons(MatchAll, IdSelector("main")),
        NameSelector("p").and(ClassSelector("quote")),
    );
    assert!(!selector.context_match(&aside.as_path()));
    assert!(!selector.match_any(aside.as_path()));
}

#[test]
fn context_selectors_look_at_ancestors_only() {
    let path = deep();
    let (_, above) = path.as_path().split_last().unwrap();
    let outward = ContextSelectCons(ContextSelectCons(MatchAll, NameSelector("body")), NameSelector("div"));
    assert!(OnlyContextualSelector::match_any(&outward, above));
    let inward = ContextSelectCons(ContextSelectCons(MatchAll, NameSelector("div")), NameSelector("body"));
    assert!(!OnlyContextualSelector::match_any(&inward, above));
    assert!(OnlyContextualSelector::match_any(&MatchAll, above));
    assert!(OnlyContextualSelector::match_any(&MatchAll, ElementPathBuf::new().as_path()));
    assert!(!OnlyContextualSelector::match_any(
        &ContextSelectCons(MatchAll, NameSelector("div")),
        ElementPathBuf::new().as_path()
    ));
}

#[test]
fn selectors_on_single_elements() {
    let path = deep();
    let element = path.as_path().get(2).unwrap();
    assert!(NameSelector("div").is_match(&element));
    assert!(IdSelector("main").is_match(&element));
    assert!(ClassSelector("box").is_match(&element));
    assert!(MatchAll.is_match(&element));
    assert!(!IdSelector("box").is_match(&element));
    assert!(has_class(&element, "box"));
    assert!(!has_class(&element, "main"));
}

#[test]
fn selectors_see_what_a_filtered_view_shows() {
    let path = deep();
    let element = path
        .as_path()
        .get(2)
        .unwrap()
        .filter_attributes(|name, _| name != "id");
    assert!(NameSelector("div").is_match(&element));
    assert!(!IdSelector("main").is_match(&element));
    assert!(ClassSelector("box").is_match(&element));
}

#[test]
fn element_matcher_requires_everything_listed() {
    let path = deep();
    let li = path.as_path().get(4).unwrap();
    assert!(ElementMatcher::default().element_match(&li));
    assert!(ElementMatcher::default().name("li".to_string()).element_match(&li));
    assert!(!ElementMatcher::default().name("ul".to_string()).element_match(&li));
    assert!(ElementMatcher::default()
        .class("item".to_string())
        .class("first".to_string())
        .element_match(&li));
    assert!(!ElementMatcher::default()
        .class("item".to_string())
        .class("second".to_string())
        .element_match(&li));
    assert!(!ElementMatcher::default().id("main".to_string()).element_match(&li));
    let div = path.as_path().get(2).unwrap();
    assert!(ElementMatcher::default()
        .name("div".to_string())
        .id("main".to_string())
        .class("box".to_string())
        .element_match(&div));
    assert!(!ElementMatcher::default()
        .name("div".to_string())
        .id("other".to_string())
        .element_match(&div));
    // a later name replaces an earlier one
    assert!(ElementMatcher::default()
        .name("p".to_string())
        .name("div".to_string())
        .element_match(&div));
}

#[test]
fn element_matchers_form_chains() {
    let path = deep();
    let chain = [
        ElementMatcher::default().id("main".to_string()),
        ElementMatcher::default().name("li".to_string()).class("first".to_string()),
    ];
    assert!(chain[..].context_match(&path.as_path()));
    let chain = [
        ElementMatcher::default().id("other".to_string()),
        ElementMatcher::default().name("li".to_string()),
    ];
    assert!(!chain[..].context_match(&path.as_path()));
    assert!(ElementMatcher::default()
        .name("ul".to_string())
        .or(ElementMatcher::default().name("li".to_string()))
        .context_match(&path.as_path()));
}
