use xmliter::element::{NormalisedAttribute, NormalisedElement};
use xmliter::element_path::Node;
use xmliter::iteritem::{Item, Token, Traverser};
use xmliter::xml::{token_of, EventKind};
use xmliter::{ErrorKind, Feature, HtmlIter, HtmlIterator, HtmlIteratorExt, TraversalError};

fn element(name: &str, attrs: &[(&str, &str)]) -> NormalisedElement {
    NormalisedElement {
        name: name.to_string(),
        attrs: attrs
            .iter()
            .map(|(name, value)| NormalisedAttribute {
                name: name.to_string(),
                value: value.to_string(),
            })
            .collect(),
    }
}

#[test]
fn nothing_to_get_before_the_first_event() {
    let tracker = Traverser::new();
    assert!(tracker.get().is_none());
    assert_eq!(tracker.depth(), 0);
}

#[test]
fn start_pushes_and_end_pops_one_step_late() {
    let mut tracker = Traverser::new();
    tracker.step(Token::Start(element("a", &[]))).unwrap();
    assert_eq!(tracker.depth(), 1);
    tracker.step(Token::Start(element("b", &[("k", "v")]))).unwrap();
    assert_eq!(tracker.depth(), 2);
    {
        let item = tracker.get().unwrap();
        assert!(matches!(item.node(), Node::Start));
        assert_eq!(item.as_path().path.len(), 2);
        assert_eq!(item.as_path().path[1].name, "b");
    }
    tracker.step(Token::End("b".to_string())).unwrap();
    // the closed element is still on the path of the item that closes it
    assert_eq!(tracker.depth(), 2);
    assert_eq!(tracker.settled_depth(), 1);
    {
        let item = tracker.get().unwrap();
        assert!(matches!(item.node(), Node::End));
        assert_eq!(item.as_path().path.len(), 2);
    }
    tracker.step(Token::Text("t".to_string())).unwrap();
    assert_eq!(tracker.depth(), 1);
    {
        let item = tracker.get().unwrap();
        assert!(matches!(item.node(), Node::Text(text) if text == "t"));
        assert_eq!(item.as_path().path.len(), 1);
        assert_eq!(item.context_path().path.len(), 1);
    }
    tracker.step(Token::End("a".to_string())).unwrap();
    assert_eq!(tracker.depth(), 1);
    tracker.step(Token::Eof).unwrap();
    assert_eq!(tracker.depth(), 0);
    assert!(tracker.get().is_none());
}

#[test]
fn context_path_leaves_the_element_out() {
    let mut tracker = Traverser::new();
    tracker.step(Token::Start(element("a", &[]))).unwrap();
    tracker.step(Token::Start(element("b", &[]))).unwrap();
    let item = tracker.get().unwrap();
    assert_eq!(item.as_path().path.len(), 2);
    assert_eq!(item.context_path().path.len(), 1);
    assert_eq!(item.context_path().path[0].name, "a");
}

#[test]
fn doctype_leaves_the_stack_alone() {
    let mut tracker = Traverser::new();
    tracker.step(Token::DocType("html".to_string())).unwrap();
    assert_eq!(tracker.depth(), 0);
    let item = tracker.get().unwrap();
    assert!(matches!(item.node(), Node::DocType(text) if text == "html"));
    assert!(item.as_element().is_none());
}

#[test]
fn mismatched_end_tag_is_malformed() {
    let mut tracker = Traverser::new();
    tracker.step(Token::Start(element("a", &[]))).unwrap();
    tracker.step(Token::Start(element("b", &[]))).unwrap();
    let error = tracker.step(Token::End("a".to_string())).unwrap_err();
    assert_eq!(error.kind(), ErrorKind::MalformedDocument);
    match error {
        TraversalError::MalformedDocument { depth, expected, found } => {
            assert_eq!(depth, 2);
            assert_eq!(expected.as_deref(), Some("b"));
            assert_eq!(found, "a");
        }
        other => panic!("unexpected error {:?}", other),
    }
    // the failure ends the traversal
    assert!(tracker.get().is_none());
    assert_eq!(tracker.depth(), 0);
}

#[test]
fn end_tag_is_held_against_the_element_left_after_the_pop() {
    let mut tracker = Traverser::new();
    tracker.step(Token::Start(element("a", &[]))).unwrap();
    tracker.step(Token::Start(element("b", &[]))).unwrap();
    tracker.step(Token::End("b".to_string())).unwrap();
    // `b` is still on the stack, but it is `a` that is open
    let error = tracker.step(Token::End("b".to_string())).unwrap_err();
    match error {
        TraversalError::MalformedDocument { depth, expected, found } => {
            assert_eq!(depth, 1);
            assert_eq!(expected.as_deref(), Some("a"));
            assert_eq!(found, "b");
        }
        other => panic!("unexpected error {:?}", other),
    }
}

#[test]
fn end_tag_with_nothing_open_is_malformed() {
    let mut tracker = Traverser::new();
    let error = tracker.step(Token::End("a".to_string())).unwrap_err();
    match error {
        TraversalError::MalformedDocument { depth, expected, found } => {
            assert_eq!(depth, 0);
            assert_eq!(expected, None);
            assert_eq!(found, "a");
        }
        other => panic!("unexpected error {:?}", other),
    }
}

#[test]
fn unsupported_token_fails() {
    let mut tracker = Traverser::new();
    tracker.step(Token::Start(element("a", &[]))).unwrap();
    let error = tracker
        .step(Token::Unsupported(Feature::Comment))
        .unwrap_err();
    assert_eq!(error.kind(), ErrorKind::UnsupportedFeature);
    match error {
        TraversalError::UnsupportedFeature { depth, feature } => {
            assert_eq!(depth, 1);
            assert_eq!(feature, Feature::Comment);
        }
        other => panic!("unexpected error {:?}", other),
    }
    assert!(tracker.get().is_none());
}

fn first_failure(document: &str) -> TraversalError {
    let mut iter = HtmlIter::from_reader(document.as_bytes());
    loop {
        match iter.advance() {
            Ok(()) => {
                if iter.get().is_none() {
                    panic!("the document was read to its end");
                }
            }
            Err(error) => return error,
        }
    }
}

#[test]
fn mismatched_closing_tag_in_a_document() {
    let error = first_failure("<a><b></a></b>");
    assert_eq!(error.kind(), ErrorKind::MalformedDocument);
    match error {
        TraversalError::MalformedDocument { depth, expected, found } => {
            assert_eq!(depth, 2);
            assert_eq!(expected.as_deref(), Some("b"));
            assert_eq!(found, "a");
        }
        other => panic!("unexpected error {:?}", other),
    }
}

#[test]
fn stray_closing_tag_in_a_document() {
    let error = first_failure("<a></a></b>");
    match error {
        TraversalError::MalformedDocument { depth, expected, found } => {
            assert_eq!(depth, 0);
            assert_eq!(expected, None);
            assert_eq!(found, "b");
        }
        other => panic!("unexpected error {:?}", other),
    }
}

#[test]
fn comment_is_unsupported() {
    let error = first_failure("<a><!-- note --></a>");
    assert!(matches!(
        error,
        TraversalError::UnsupportedFeature { depth: 1, feature: Feature::Comment }
    ));
}

#[test]
fn cdata_is_unsupported() {
    let error = first_failure("<a><![CDATA[x]]></a>");
    assert!(matches!(
        error,
        TraversalError::UnsupportedFeature { depth: 1, feature: Feature::CData }
    ));
}

#[test]
fn processing_instruction_is_unsupported() {
    let error = first_failure("<a><?target data?></a>");
    assert!(matches!(
        error,
        TraversalError::UnsupportedFeature {
            depth: 1,
            feature: Feature::ProcessingInstruction
        }
    ));
}

#[test]
fn declaration_is_unsupported() {
    let error = first_failure("<?xml version=\"1.0\"?><a></a>");
    assert!(matches!(
        error,
        TraversalError::UnsupportedFeature { depth: 0, feature: Feature::Declaration }
    ));
}

#[test]
fn self_closing_tag_is_unsupported() {
    let error = first_failure("<a><br/></a>");
    assert!(matches!(
        error,
        TraversalError::UnsupportedFeature { depth: 1, feature: Feature::SelfClosingTag }
    ));
}

#[test]
fn tokenizer_error_is_reported() {
    // an attribute without a value is not well-formed
    let error = first_failure("<a><b k></b></a>");
    assert_eq!(error.kind(), ErrorKind::TokenizerError);
    match error {
        TraversalError::TokenizerError { depth, message } => {
            assert_eq!(depth, 1);
            assert!(!message.is_empty());
        }
        other => panic!("unexpected error {:?}", other),
    }
}

#[test]
fn failure_ends_the_stream() {
    let mut iter = HtmlIter::from_reader("<a><!-- note --></a>".as_bytes());
    iter.advance().unwrap();
    assert!(iter.get().is_some());
    assert!(iter.advance().is_err());
    assert!(iter.get().is_none());
}

#[test]
fn to_string_reports_the_failure() {
    let mut iter = HtmlIter::from_reader("<a><b></a>".as_bytes());
    let error = iter.to_string().unwrap_err();
    assert_eq!(error.kind(), ErrorKind::MalformedDocument);
}

#[test]
fn depth_follows_nesting_in_a_document() {
    let document = "<a><b><c>x</c><c></c></b>y</a>";
    // depth of the path at each item: an element counts on its own start and end
    let expected = [1, 2, 3, 3, 3, 3, 3, 2, 1, 1];
    let mut iter = HtmlIter::from_reader(document.as_bytes());
    let mut depths = Vec::new();
    while let Some(item) = iter.next().unwrap() {
        depths.push(item.as_path().path.len());
    }
    assert_eq!(depths, expected);
}

#[test]
fn text_is_unescaped_on_the_way_in() {
    let mut iter = HtmlIter::from_reader("<a>1 &lt; 2 &amp; 3</a>".as_bytes());
    iter.advance().unwrap();
    iter.advance().unwrap();
    let item = iter.get().unwrap();
    assert!(matches!(item.node(), Node::Text(text) if text == "1 < 2 & 3"));
}

#[test]
fn attributes_come_in_source_order_with_raw_values() {
    let mut iter = HtmlIter::from_reader(r#"<a z="1" a="x &amp; y" z="2"></a>"#.as_bytes());
    iter.advance().unwrap();
    let item = iter.get().unwrap();
    let attrs: Vec<(&str, &str)> = item.as_path().path[0]
        .attrs
        .iter()
        .map(|a| (a.name.as_str(), a.value.as_str()))
        .collect();
    assert_eq!(attrs, vec![("z", "1"), ("a", "x &amp; y"), ("z", "2")]);
}

#[test]
fn failures_say_what_went_wrong() {
    assert_eq!(
        first_failure("<a><b></a></b>").message(),
        "end tag `a` where `b` is open"
    );
    assert_eq!(
        first_failure("<a></a></b>").message(),
        "end tag `b` where no element is open"
    );
    assert_eq!(
        first_failure("<a><!-- note --></a>").message(),
        "comments are not supported"
    );
    assert_eq!(
        first_failure("<a><br/></a>").message(),
        "self-closing tags are not supported"
    );
    assert_eq!(
        first_failure("<a><![CDATA[x]]></a>").message(),
        "CDATA sections are not supported"
    );
    assert_eq!(
        first_failure("<a><?target data?></a>").message(),
        "processing instructions are not supported"
    );
    assert_eq!(
        first_failure("<?xml version=\"1.0\"?><a></a>").message(),
        "XML declarations are not supported"
    );
    let tokenizer = first_failure("<a><b k></b></a>");
    match &tokenizer {
        TraversalError::TokenizerError { message, .. } => assert_eq!(&tokenizer.message(), message),
        other => panic!("unexpected error {:?}", other),
    }
    assert_eq!(Feature::Comment.name(), "comments");
}

#[test]
fn tokens_are_made_of_what_the_tokenizer_reports() {
    let attrs = || {
        vec![NormalisedAttribute {
            name: "k".to_string(),
            value: "v".to_string(),
        }]
    };
    match token_of(EventKind::Start, "a".to_string(), attrs(), "t".to_string()) {
        Token::Start(element) => {
            assert_eq!(element.name, "a");
            assert_eq!(element.attrs.len(), 1);
            assert_eq!(element.attrs[0].name, "k");
            assert_eq!(element.attrs[0].value, "v");
        }
        other => panic!("unexpected token {:?}", other),
    }
    assert!(matches!(
        token_of(EventKind::End, "a".to_string(), attrs(), "t".to_string()),
        Token::End(name) if name == "a"
    ));
    assert!(matches!(
        token_of(EventKind::Text, "a".to_string(), attrs(), "t".to_string()),
        Token::Text(text) if text == "t"
    ));
    assert!(matches!(
        token_of(EventKind::DocType, "a".to_string(), attrs(), "t".to_string()),
        Token::DocType(text) if text == "t"
    ));
    assert!(matches!(
        token_of(EventKind::Eof, String::new(), Vec::new(), String::new()),
        Token::Eof
    ));
    let unsupported = [
        (EventKind::Empty, Feature::SelfClosingTag),
        (EventKind::CData, Feature::CData),
        (EventKind::Comment, Feature::Comment),
        (EventKind::Decl, Feature::Declaration),
        (EventKind::PI, Feature::ProcessingInstruction),
    ];
    for (kind, feature) in unsupported {
        assert!(matches!(
            token_of(kind, String::new(), Vec::new(), String::new()),
            Token::Unsupported(found) if found == feature
        ));
    }
}
