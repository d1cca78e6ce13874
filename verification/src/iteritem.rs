//! The tracker that turns a sequence of parse events into items.

use vstd::prelude::*;
use crate::element::{
    element_view, lemma_filtered_view, str_eq, to_owned_element, AttributeView, Element,
    ElementView, FilterAttributes, NormalisedElement, RawElement,
};
use crate::element_path::{
    ElementPath, ElementPathBuf, ItemView, Node, NodeView, PathView, RawElementPath, RawItem,
};
use crate::error::{ErrorKind, Feature, TraversalError, TraversalErrorView};
use crate::xml::{error_message, read_token};
use quick_xml::Reader;

verus! {

/// One parse event, as the tokenizer reports it.
#[derive(Debug)]
pub enum Token {
    /// A start tag, with the element it opens.
    Start(NormalisedElement),
    /// An end tag, with the name it closes.
    End(String),
    /// A run of text, unescaped.
    Text(String),
    /// A document type declaration.
    DocType(String),
    /// The end of the input.
    Eof,
    /// A construct that is not handled.
    Unsupported(Feature),
}

/// Mathematical value of a parse event.
pub ghost enum TokenView {
    Start(ElementView),
    End(Seq<char>),
    Text(Seq<char>),
    DocType(Seq<char>),
    Eof,
    Unsupported(Feature),
}

impl View for Token {
    type V = TokenView;

    open spec fn view(&self) -> TokenView {
        match self {
            Token::Start(e) => TokenView::Start(e@),
            Token::End(name) => TokenView::End(name@),
            Token::Text(text) => TokenView::Text(text@),
            Token::DocType(text) => TokenView::DocType(text@),
            Token::Eof => TokenView::Eof,
            Token::Unsupported(f) => TokenView::Unsupported(*f),
        }
    }
}

/// Mathematical value of a tracker.
pub ghost struct TraverserView {
    /// The elements that are open, root first. After an end tag its element
    /// is still the last entry.
    pub stack: PathView,
    /// Whether the last entry of `stack` has been closed and leaves the
    /// stack at the next step.
    pub pending_close: bool,
    /// The node of the current item; `None` before the first event and
    /// after the last.
    pub current: Option<NodeView>,
}

impl TraverserView {
    /// The current item, where there is one.
    pub open spec fn item(self) -> Option<ItemView> {
        match self.current {
            Some(node) => Some(ItemView { path: self.stack, node }),
            None => None,
        }
    }

    /// The state before the first event, and after the last.
    pub open spec fn idle() -> TraverserView {
        TraverserView { stack: PathView::empty(), pending_close: false, current: None }
    }

    /// What holds of every state that a tracker reaches.
    pub open spec fn wf(self) -> bool {
        &&& self.pending_close <==> self.current == Some(NodeView::End)
        &&& self.current == Some(NodeView::End) || self.current == Some(NodeView::Start)
            ==> self.stack.len() > 0
    }

    /// The elements that stay open once a closed element has left.
    pub open spec fn settled(self) -> PathView {
        if self.pending_close {
            self.stack.drop_last()
        } else {
            self.stack
        }
    }

    /// The state after one more event, or the kind of failure that the
    /// event raises.
    pub open spec fn step(self, token: TokenView) -> Result<TraverserView, ErrorKind> {
        let stack = self.settled();
        match token {
            TokenView::Start(e) => Ok(
                TraverserView {
                    stack: stack.push(e),
                    pending_close: false,
                    current: Some(NodeView::Start),
                },
            ),
            TokenView::End(name) => if stack.len() > 0 && stack.last().name == name {
                Ok(TraverserView { stack, pending_close: true, current: Some(NodeView::End) })
            } else {
                Err(ErrorKind::MalformedDocument)
            },
            TokenView::Text(text) => Ok(
                TraverserView { stack, pending_close: false, current: Some(NodeView::Text(text)) },
            ),
            TokenView::DocType(text) => Ok(
                TraverserView {
                    stack,
                    pending_close: false,
                    current: Some(NodeView::DocType(text)),
                },
            ),
            TokenView::Eof => Ok(TraverserView::idle()),
            TokenView::Unsupported(_) => Err(ErrorKind::UnsupportedFeature),
        }
    }
}

/// The failure that an event raises where the tracker refuses it: an end
/// tag that does not name the innermost open element, told with the depth
/// and both names, or an unsupported construct, told with the depth and
/// the construct.
pub open spec fn failure_of(state: TraverserView, token: TokenView) -> TraversalErrorView {
    let open = state.settled();
    match token {
        TokenView::Unsupported(feature) => TraversalErrorView::UnsupportedFeature {
            depth: open.len() as usize,
            feature,
        },
        TokenView::End(found) => TraversalErrorView::MalformedDocument {
            depth: open.len() as usize,
            expected: if open.len() > 0 {
                Some(open.last().name)
            } else {
                None
            },
            found,
        },
        _ => arbitrary(),
    }
}

/// The failure of a tokenizer, told with the depth at which it struck and
/// the tokenizer's message.
pub open spec fn tokenizer_failure(state: TraverserView, message: Seq<char>) -> TraversalErrorView {
    TraversalErrorView::TokenizerError { depth: state.settled().len() as usize, message }
}

/// What a tokenizer has answered, as a value.
pub open spec fn read_view(read: Result<Token, String>) -> Result<TokenView, Seq<char>> {
    match read {
        Ok(token) => Ok(token@),
        Err(message) => Err(message@),
    }
}

/// The state after a run of events taken in from `state`, or the kind of
/// the first failure.
pub open spec fn run_from(state: TraverserView, tokens: Seq<TokenView>) -> Result<
    TraverserView,
    ErrorKind,
>
    decreases tokens.len(),
{
    if tokens.len() == 0 {
        Ok(state)
    } else {
        match run_from(state, tokens.drop_last()) {
            Ok(before) => before.step(tokens.last()),
            Err(kind) => Err(kind),
        }
    }
}

/// The state after a run of events taken in from the start, or the kind of
/// the first failure.
pub open spec fn run(tokens: Seq<TokenView>) -> Result<TraverserView, ErrorKind> {
    run_from(TraverserView::idle(), tokens)
}

/// Number of start tags in a run of events.
pub open spec fn opened(tokens: Seq<TokenView>) -> int
    decreases tokens.len(),
{
    if tokens.len() == 0 {
        0
    } else {
        opened(tokens.drop_last()) + if tokens.last() is Start {
            1int
        } else {
            0int
        }
    }
}

/// Number of end tags in a run of events.
pub open spec fn closed(tokens: Seq<TokenView>) -> int
    decreases tokens.len(),
{
    if tokens.len() == 0 {
        0
    } else {
        closed(tokens.drop_last()) + if tokens.last() is End {
            1int
        } else {
            0int
        }
    }
}

/// A step that succeeds leads from a valid state to a valid state.
pub proof fn lemma_step_wf(state: TraverserView, token: TokenView)
    requires
        state.wf(),
        state.step(token) is Ok,
    ensures
        state.step(token)->Ok_0.wf(),
{
}

/// The stack is as deep as the document is nested. After a run of events
/// that raises no failure and has not reached the end of the input, the
/// number of elements that are open is the number of start tags less the
/// number of end tags; the stack holds one entry more exactly when the last
/// event was an end tag, whose element it still shows.
pub proof fn lemma_depth(tokens: Seq<TokenView>)
    requires
        run(tokens) is Ok,
        forall|i: int| 0 <= i < tokens.len() ==> !(tokens[i] is Eof),
    ensures
        run(tokens)->Ok_0.wf(),
        run(tokens)->Ok_0.settled().len() == opened(tokens) - closed(tokens),
        run(tokens)->Ok_0.stack.len() == opened(tokens) - closed(tokens) + if tokens.len() > 0
            && tokens.last() is End {
            1int
        } else {
            0int
        },
    decreases tokens.len(),
{
    if tokens.len() > 0 {
        let before = tokens.drop_last();
        assert forall|i: int| 0 <= i < before.len() implies !(before[i] is Eof) by {
            assert(before[i] == tokens[i]);
        }
        lemma_depth(before);
    }
}

/// Whether a run of events taken in from `state` raises no failure and
/// never closes any of the `n` outermost elements that are open at `state`.
pub open spec fn keeps_open(state: TraverserView, tokens: Seq<TokenView>, n: nat) -> bool {
    forall|k: int|
        0 <= k <= tokens.len() ==> {
            let after = #[trigger] run_from(state, tokens.take(k));
            after is Ok && after->Ok_0.settled().len() >= n
        }
}

/// Elements stay on the path for as long as they are open. Where a run of
/// events never closes any of the `n` outermost open elements, the path of
/// the item after it still begins with those `n` elements: everything that
/// is read inside an element has that element, and its ancestors, on its
/// path.
pub proof fn lemma_open_elements_stay(state: TraverserView, tokens: Seq<TokenView>, n: nat)
    requires
        state.wf(),
        keeps_open(state, tokens, n),
    ensures
        run_from(state, tokens)->Ok_0.wf(),
        run_from(state, tokens)->Ok_0.stack.take(n as int) == state.settled().take(n as int),
        run_from(state, tokens)->Ok_0.settled().take(n as int) == state.settled().take(n as int),
    decreases tokens.len(),
{
    assert(tokens.take(tokens.len() as int) =~= tokens);
    assert(run_from(state, tokens) is Ok);
    assert(run_from(state, tokens.take(0)) == Ok::<TraverserView, ErrorKind>(state));
    if tokens.len() == 0 {
        assert(tokens.take(0) =~= tokens);
        let s = run_from(state, tokens)->Ok_0;
        assert(s == state);
        assert(state.stack.take(n as int) =~= state.settled().take(n as int));
    } else {
        let before = tokens.drop_last();
        assert forall|k: int| 0 <= k <= before.len() implies {
            let after = #[trigger] run_from(state, before.take(k));
            after is Ok && after->Ok_0.settled().len() >= n
        } by {
            assert(before.take(k) =~= tokens.take(k));
        }
        assert(before =~= tokens.take(tokens.len() - 1));
        lemma_open_elements_stay(state, before, n);
        let prev = run_from(state, before)->Ok_0;
        let next = run_from(state, tokens)->Ok_0;
        assert(next.stack.take(n as int) =~= prev.settled().take(n as int));
        assert(next.settled().take(n as int) =~= prev.settled().take(n as int));
    }
}

/// An item is written as the event that it was read from: where a start
/// tag, an end tag, text or a document type is taken in, the event of the
/// current item is that very event.
pub proof fn lemma_event_round_trip(state: TraverserView, token: TokenView)
    requires
        state.step(token) is Ok,
        !(token is Eof),
    ensures
        state.step(token)->Ok_0.item() matches Some(item) && event_of(item) == token,
{
}

/// Tracks the elements that are open while a document is read event by
/// event, and exposes the current item.
pub struct Traverser {
    path: ElementPathBuf,
    drop_last: bool,
    current: Option<Node>,
}

impl View for Traverser {
    type V = TraverserView;

    closed spec fn view(&self) -> TraverserView {
        TraverserView {
            stack: self.path@,
            pending_close: self.drop_last,
            current: match self.current {
                Some(node) => Some(node@),
                None => None,
            },
        }
    }
}

impl Traverser {
    /// Validity of the tracker.
    pub open spec fn wf(&self) -> bool {
        self@.wf()
    }

    /// A tracker that has seen no event yet.
    pub fn new() -> (r: Traverser)
        ensures
            r@ == TraverserView::idle(),
            r.wf(),
    {
        Traverser { path: ElementPathBuf::new(), drop_last: false, current: None }
    }

    /// Number of entries on the stack.
    pub fn depth(&self) -> (r: usize)
        ensures
            r == self@.stack.len(),
    {
        self.path.path.len()
    }

    /// Number of elements that stay open once a closed element has left.
    pub fn settled_depth(&self) -> (r: usize)
        requires
            self.wf(),
        ensures
            r == self@.settled().len(),
    {
        if self.drop_last {
            self.path.path.len() - 1
        } else {
            self.path.path.len()
        }
    }

    /// Ends the traversal: the stack is cleared and there is no current
    /// item.
    pub fn finish(&mut self)
        ensures
            final(self)@ == TraverserView::idle(),
            final(self).wf(),
    {
        self.path = ElementPathBuf::new();
        self.drop_last = false;
        self.current = None;
    }

    /// Takes one event in. First an element closed by the previous event
    /// leaves the stack. A start tag then pushes its element; an end tag
    /// must name the innermost open element, which stays on the stack until
    /// the next step; text and document type leave the stack alone; the end
    /// of the input clears it. A failure ends the traversal.
    pub fn step(&mut self, token: Token) -> (r: Result<(), TraversalError>)
        requires
            old(self).wf(),
        ensures
            final(self).wf(),
            match old(self)@.step(token@) {
                Ok(next) => r is Ok && final(self)@ == next,
                Err(kind) => r is Err && r->Err_0.kind() == kind && final(self)@
                    == TraverserView::idle(),
            },
            r matches Err(e) ==> e@ == failure_of(old(self)@, token@),
            r matches Err(TraversalError::MalformedDocument { depth, expected, found }) ==> {
                &&& depth == old(self)@.settled().len()
                &&& TokenView::End(found@) == token@
                &&& match expected {
                    Some(name) => depth > 0 && name@ == old(self)@.settled().last().name,
                    None => depth == 0,
                }
            },
            r matches Err(TraversalError::UnsupportedFeature { depth, feature }) ==> {
                &&& depth == old(self)@.settled().len()
                &&& TokenView::Unsupported(feature) == token@
            },
    {
        if self.drop_last {
            self.path.pop();
            self.drop_last = false;
        }
        let depth = self.path.path.len();
        match token {
            Token::Start(element) => {
                self.current = Some(self.path.start(element));
                Ok(())
            },
            Token::End(name) => {
                if depth == 0 {
                    self.finish();
                    return Err(TraversalError::MalformedDocument { depth, expected: None, found: name });
                }
                let top = &self.path.path[depth - 1];
                if str_eq(top.name.as_str(), name.as_str()) {
                    self.drop_last = true;
                    self.current = Some(self.path.end());
                    Ok(())
                } else {
                    let expected = Some(top.name.clone());
                    self.finish();
                    Err(TraversalError::MalformedDocument { depth, expected, found: name })
                }
            },
            Token::Text(text) => {
                self.current = Some(self.path.text(text));
                Ok(())
            },
            Token::DocType(text) => {
                self.current = Some(self.path.doctype(text));
                Ok(())
            },
            Token::Eof => {
                self.finish();
                Ok(())
            },
            Token::Unsupported(feature) => {
                self.finish();
                Err(TraversalError::UnsupportedFeature { depth, feature })
            },
        }
    }

    /// Takes in what a tokenizer has answered: an event, which is taken in
    /// as `step` does, or the message of its error, which ends the
    /// traversal as a failure of the tokenizer.
    pub fn take(&mut self, read: Result<Token, String>) -> (r: Result<(), TraversalError>)
        requires
            old(self).wf(),
        ensures
            final(self).wf(),
            match read {
                Ok(token) => match old(self)@.step(token@) {
                    Ok(next) => r is Ok && final(self)@ == next,
                    Err(kind) => r is Err && r->Err_0.kind() == kind && final(self)@
                        == TraverserView::idle(),
                },
                Err(message) => r matches Err(e) && e@ == tokenizer_failure(old(self)@, message@)
                    && final(self)@ == TraverserView::idle(),
            },
            r matches Err(e) ==> read matches Ok(token) ==> e@ == failure_of(old(self)@, token@),
            r matches Err(TraversalError::TokenizerError { depth, .. }) ==> depth == old(
                self,
            )@.settled().len() && read is Err,
            r matches Err(TraversalError::MalformedDocument { depth, expected, found }) ==> {
                &&& depth == old(self)@.settled().len()
                &&& read matches Ok(token)
                &&& TokenView::End(found@) == token@
                &&& match expected {
                    Some(name) => depth > 0 && name@ == old(self)@.settled().last().name,
                    None => depth == 0,
                }
            },
            r matches Err(TraversalError::UnsupportedFeature { depth, feature }) ==> {
                &&& depth == old(self)@.settled().len()
                &&& read matches Ok(token)
                &&& TokenView::Unsupported(feature) == token@
            },
    {
        match read {
            Ok(token) => self.step(token),
            Err(message) => {
                let depth = self.settled_depth();
                self.finish();
                Err(TraversalError::TokenizerError { depth, message })
            },
        }
    }

    /// Reads the next event off `reader` and takes it in, as `take` does.
    pub fn read_from(&mut self, reader: &mut Reader<&[u8]>) -> (r: Result<(), TraversalError>)
        requires
            old(self).wf(),
        ensures
            final(self).wf(),
            match r {
                Ok(()) => exists|token: TokenView| old(self)@.step(token) == Ok::<TraverserView, ErrorKind>(final(self)@),
                Err(e) => final(self)@ == TraverserView::idle() && (e.kind()
                    == ErrorKind::TokenizerError || exists|token: TokenView| old(self)@.step(token)
                    == Err::<TraverserView, ErrorKind>(e.kind())),
            },
            r matches Err(TraversalError::TokenizerError { depth, .. }) ==> depth == old(
                self,
            )@.settled().len(),
    {
        let read = match read_token(reader) {
            Ok(token) => Ok(token),
            Err(error) => Err(error_message(&error)),
        };
        let ghost seen = read;
        let r = self.take(read);
        proof {
            if seen is Ok {
                if r is Ok {
                    assert(old(self)@.step(seen->Ok_0@) == Ok::<TraverserView, ErrorKind>(self@));
                } else {
                    assert(old(self)@.step(seen->Ok_0@) == Err::<TraverserView, ErrorKind>(
                        r->Err_0.kind(),
                    ));
                }
            }
        }
        r
    }

    /// The current item: the node of the last event and the stack as its
    /// path. `None` before the first event and once the traversal has
    /// ended.
    pub fn get(&self) -> (r: Option<RawItem<'_>>)
        requires
            self.wf(),
        ensures
            match r {
                Some(item) => self@.item() == Some(item@) && item@.wf(),
                None => self@.item() is None,
            },
    {
        match &self.current {
            Some(node) => Some(RawItem { context: self.path.as_path(), node: node.clone() }),
            None => None,
        }
    }
}

/// The event that an item is written as: a start tag with the element's
/// name and exposed attributes, an end tag with its name alone, text and
/// document type as they are.
pub open spec fn event_of(item: ItemView) -> TokenView {
    match item.node {
        NodeView::Start => TokenView::Start(item.path.last()),
        NodeView::End => TokenView::End(item.path.last().name),
        NodeView::Text(text) => TokenView::Text(text),
        NodeView::DocType(text) => TokenView::DocType(text),
    }
}

/// One step of a traversal, as consumers see it.
pub trait Item: Sized {
    /// The views of the path that the item hands out.
    type Path: ElementPath;

    /// Validity of the item; every constructor of this library establishes it.
    spec fn wf(&self) -> bool;

    /// The node and the path, with each element as this item shows it.
    spec fn item_view(&self) -> ItemView;

    /// A valid item has a valid value.
    proof fn lemma_wf(&self)
        requires
            self.wf(),
        ensures
            self.item_view().wf(),
    ;

    fn node(&self) -> (r: &Node)
        requires
            self.wf(),
        ensures
            r@ == self.item_view().node,
    ;

    /// The element that the node opens or closes; `None` for other nodes.
    fn as_element(&self) -> (r: Option<<Self::Path as ElementPath>::E>)
        requires
            self.wf(),
        ensures
            match r {
                Some(e) => self.item_view().node.is_element() && e.wf() && element_view(&e)
                    == self.item_view().path.last(),
                None => !self.item_view().node.is_element(),
            },
    ;

    /// The path, with the element itself at its end where the node opens or
    /// closes one.
    fn as_path(&self) -> (r: Self::Path)
        requires
            self.wf(),
        ensures
            r.wf(),
            r.path_view() == self.item_view().path,
    ;

    /// The event that the item is written as.
    fn as_event(&self) -> (r: Token)
        requires
            self.wf(),
        ensures
            r@ == event_of(self.item_view()),
    {
        match self.node() {
            Node::Text(text) => Token::Text(text.clone()),
            Node::DocType(text) => Token::DocType(text.clone()),
            Node::Start => match self.as_element() {
                Some(element) => Token::Start(to_owned_element(&element)),
                None => unreached(),
            },
            Node::End => match self.as_element() {
                Some(element) => Token::End(element.name().to_owned()),
                None => unreached(),
            },
        }
    }

    /// The path of the ancestors, without the element that the node opens
    /// or closes.
    fn context_path(&self) -> (r: Self::Path)
        requires
            self.wf(),
        ensures
            r.wf(),
            r.path_view() == self.item_view().context(),
    {
        proof {
            self.lemma_wf();
        }
        let path = self.as_path();
        let n = path.len();
        if self.node().is_element() {
            let r = path.slice(0, n - 1);
            assert(path.path_view().subrange(0, n - 1) =~= path.path_view().drop_last());
            r
        } else {
            path
        }
    }
}

impl<'a> Item for RawItem<'a> {
    type Path = RawElementPath<'a>;

    open spec fn wf(&self) -> bool {
        self@.wf()
    }

    open spec fn item_view(&self) -> ItemView {
        self@
    }

    proof fn lemma_wf(&self) {
    }

    fn node(&self) -> (r: &Node) {
        &self.node
    }

    fn as_element(&self) -> (r: Option<crate::element::RawElement<'a>>) {
        if self.node.is_element() {
            match self.context.split_last() {
                Some((last, _)) => Some(last),
                None => None,
            }
        } else {
            None
        }
    }

    fn as_path(&self) -> (r: RawElementPath<'a>) {
        self.context
    }
}

/// Whether a map of elements can make an element of value `w` of one of
/// value `v`.
pub open spec fn maps_to<E1: Element, E2: Element, F: Fn(E1) -> E2>(
    f: F,
    v: ElementView,
    w: ElementView,
) -> bool {
    exists|x: E1, r: E2|
        x.wf() && element_view(&x) == v && #[trigger] call_ensures(f, (x,), r) && element_view(&r)
            == w
}

/// What a map of elements makes of an element of value `v`.
pub open spec fn mapped<E1: Element, E2: Element, F: Fn(E1) -> E2>(f: F, v: ElementView) -> ElementView {
    choose|w: ElementView| maps_to::<E1, E2, F>(f, v, w)
}

/// A map of elements: it can be called on every valid element view, what it
/// hands back is a valid element view, and the value of that depends on the
/// value of its argument alone.
pub open spec fn is_element_map<E1: Element, E2: Element, F: Fn(E1) -> E2>(f: F) -> bool {
    &&& forall|x: E1| x.wf() ==> call_requires(f, (x,))
    &&& forall|x: E1, r: E2|
        x.wf() && #[trigger] call_ensures(f, (x,), r) ==> r.wf() && element_view(&r) == mapped::<
            E1,
            E2,
            F,
        >(f, element_view(&x))
}

/// An element without the attributes whose name and value fail `test`.
pub open spec fn filtered(test: spec_fn(Seq<char>, Seq<char>) -> bool, v: ElementView) -> ElementView {
    ElementView { name: v.name, attrs: v.attrs.filter(|a: AttributeView| test(a.name, a.value)) }
}

/// A function that lays a filter of attributes over each element is a map
/// of elements, and what it makes of an element is that element without
/// the attributes that fail the test of the filter. Laid over an item or a
/// stream, it therefore takes those attributes off every element at every
/// depth and leaves the other attributes, and their order, alone.
pub proof fn lemma_filtering_map<
    'a,
    P: Fn(&str, &str) -> bool,
    F: Fn(RawElement<'a>) -> FilterAttributes<RawElement<'a>, P>,
>(f: F, test: spec_fn(Seq<char>, Seq<char>) -> bool)
    requires
        forall|x: RawElement<'a>| call_requires(f, (x,)),
        forall|x: RawElement<'a>, r: FilterAttributes<RawElement<'a>, P>| #[trigger]
            call_ensures(f, (x,), r) ==> r.inner == x && r.wf() && r.test@ == test,
    ensures
        is_element_map::<RawElement<'a>, FilterAttributes<RawElement<'a>, P>, F>(f),
        forall|x: RawElement<'a>, r: FilterAttributes<RawElement<'a>, P>| #[trigger]
            call_ensures(f, (x,), r) ==> element_view(&r) == filtered(test, element_view(&x)),
        forall|x: RawElement<'a>, r: FilterAttributes<RawElement<'a>, P>| #[trigger]
            call_ensures(f, (x,), r) ==> mapped::<RawElement<'a>, FilterAttributes<RawElement<'a>, P>, F>(
                f,
                element_view(&x),
            ) == filtered(test, element_view(&x)),
{
    assert forall|x: RawElement<'a>, r: FilterAttributes<RawElement<'a>, P>| #[trigger]
        call_ensures(f, (x,), r) implies r.wf() && element_view(&r) == filtered(
        test,
        element_view(&x),
    ) && mapped::<RawElement<'a>, FilterAttributes<RawElement<'a>, P>, F>(f, element_view(&x))
        == filtered(test, element_view(&x)) by {
        let v = element_view(&x);
        lemma_filtered_view(&r);
        assert(maps_to::<RawElement<'a>, FilterAttributes<RawElement<'a>, P>, F>(
            f,
            v,
            filtered(test, v),
        ));
        let w = mapped::<RawElement<'a>, FilterAttributes<RawElement<'a>, P>, F>(f, v);
        assert(maps_to::<RawElement<'a>, FilterAttributes<RawElement<'a>, P>, F>(f, v, w));
        let (x2, r2) = choose|x2: RawElement<'a>, r2: FilterAttributes<RawElement<'a>, P>|
            x2.wf() && element_view(&x2) == v && #[trigger] call_ensures(f, (x2,), r2)
                && element_view(&r2) == w;
        lemma_filtered_view(&r2);
    }
}

/// The value of a path with a map applied to each of its elements.
pub open spec fn mapped_path<E1: Element, E2: Element, F: Fn(E1) -> E2>(f: F, path: PathView) -> PathView {
    Seq::new(path.len(), |i: int| mapped::<E1, E2, F>(f, path[i]))
}

/// A path that hands out each of its elements through a map.
#[derive(Clone, Copy)]
pub struct MappedPath<P, F> {
    pub map: F,
    pub inner: P,
}

impl<P: ElementPath, E2: Element, F: Fn(P::E) -> E2 + Copy> ElementPath for MappedPath<P, F> {
    type E = E2;

    open spec fn wf(&self) -> bool {
        self.inner.wf() && is_element_map::<P::E, E2, F>(self.map)
    }

    open spec fn path_view(&self) -> PathView {
        mapped_path::<P::E, E2, F>(self.map, self.inner.path_view())
    }

    fn len(&self) -> (r: usize) {
        self.inner.len()
    }

    fn get(&self, idx: usize) -> (r: Option<E2>) {
        match self.inner.get(idx) {
            Some(x) => Some((self.map)(x)),
            None => None,
        }
    }

    fn split_last(&self) -> (r: Option<(E2, Self)>) {
        match self.inner.split_last() {
            Some((last, rest)) => {
                let r = MappedPath { map: self.map, inner: rest };
                assert(r.path_view() =~= self.path_view().drop_last());
                Some(((self.map)(last), r))
            },
            None => None,
        }
    }

    fn slice(&self, start: usize, end: usize) -> (r: Self) {
        let r = MappedPath { map: self.map, inner: self.inner.slice(start, end) };
        assert(r.path_view() =~= self.path_view().subrange(start as int, end as int));
        r
    }
}

/// An item that shows every element, the one at the node and those of the
/// path, through a map. The node is that of the item under it.
pub struct MappedItem<I, F> {
    pub map: F,
    pub inner: I,
}

impl<I: Item, E2: Element, F: Fn(<I::Path as ElementPath>::E) -> E2 + Copy> Item for MappedItem<
    I,
    F,
> {
    type Path = MappedPath<I::Path, F>;

    open spec fn wf(&self) -> bool {
        self.inner.wf() && is_element_map::<<I::Path as ElementPath>::E, E2, F>(self.map)
    }

    open spec fn item_view(&self) -> ItemView {
        ItemView {
            path: mapped_path::<<I::Path as ElementPath>::E, E2, F>(
                self.map,
                self.inner.item_view().path,
            ),
            node: self.inner.item_view().node,
        }
    }

    proof fn lemma_wf(&self) {
        self.inner.lemma_wf();
    }

    fn node(&self) -> (r: &Node) {
        self.inner.node()
    }

    fn as_element(&self) -> (r: Option<E2>) {
        proof {
            self.inner.lemma_wf();
        }
        match self.inner.as_element() {
            Some(x) => Some((self.map)(x)),
            None => None,
        }
    }

    fn as_path(&self) -> (r: MappedPath<I::Path, F>) {
        let r = MappedPath { map: self.map, inner: self.inner.as_path() };
        assert(r.inner.wf());
        assert(is_element_map::<<I::Path as ElementPath>::E, E2, F>(r.map));
        assert(r.wf());
        assert(r.path_view() == self.item_view().path);
        r
    }
}

/// The operation that puts a map of elements over an item.
pub trait MapAll: Item {
    /// The item with `map` applied to every element that can be observed
    /// through it.
    fn map_all<E2: Element, F: Fn(<Self::Path as ElementPath>::E) -> E2 + Copy>(self, map: F) -> (r:
        MappedItem<Self, F>)
        requires
            self.wf(),
            is_element_map::<<Self::Path as ElementPath>::E, E2, F>(map),
        ensures
            r.inner == self,
            r.map == map,
            r.wf(),
    ;
}

impl<T: Item> MapAll for T {
    fn map_all<E2: Element, F: Fn(<Self::Path as ElementPath>::E) -> E2 + Copy>(self, map: F) -> (r:
        MappedItem<Self, F>) {
        MappedItem { map, inner: self }
    }
}

} // verus!
