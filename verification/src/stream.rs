//! Traversals: the stream of items read off a document, and the streams
//! that select from it.

use vstd::prelude::*;
use vstd::utf8::encode_utf8;
use quick_xml::Reader;
use crate::element::{FilterAttributes, RawElement};
use crate::element_path::{ElementPath, ItemView, RawItem};
use crate::error::{outcome, ErrorKind, TraversalError, TraversalErrorView};
use crate::itemext::{rerooted, ItemExt};
use crate::iteritem::{
    event_of, failure_of, is_element_map, keeps_open, lemma_open_elements_stay, mapped_path,
    read_view, run, run_from, tokenizer_failure, Item, MappedItem, Token, TokenView, Traverser,
    TraverserView,
};
use crate::selector::{
    lemma_match_any_extends, matches_any, ContextualSelector, ContextualSelectorExt,
};
use crate::xml::{
    error_message, lemma_encode_add, markup, open_reader, read_token, write_token,
};

verus! {

/// The items that an optional item stands for: itself, or none.
pub open spec fn items_of(item: Option<ItemView>) -> Seq<ItemView> {
    match item {
        Some(v) => seq![v],
        None => Seq::empty(),
    }
}

/// The markup that a run of items is written as: that of each item, in
/// order.
pub open spec fn document_markup(items: Seq<ItemView>) -> Seq<char>
    decreases items.len(),
{
    if items.len() == 0 {
        Seq::empty()
    } else {
        document_markup(items.drop_last()) + markup(event_of(items.last()))
    }
}

/// The markup that a run of events is written as: that of each event, in
/// order.
pub open spec fn events_markup(tokens: Seq<TokenView>) -> Seq<char>
    decreases tokens.len(),
{
    if tokens.len() == 0 {
        Seq::empty()
    } else {
        events_markup(tokens.drop_last()) + markup(tokens.last())
    }
}

/// Items that stand for the events of a run, one for one, are written as
/// that run of events.
pub proof fn lemma_markup_of_events(items: Seq<ItemView>, tokens: Seq<TokenView>)
    requires
        items.len() == tokens.len(),
        forall|i: int| 0 <= i < items.len() ==> event_of(#[trigger] items[i]) == tokens[i],
    ensures
        document_markup(items) == events_markup(tokens),
    decreases items.len(),
{
    if items.len() > 0 {
        assert forall|i: int| 0 <= i < items.len() - 1 implies event_of(
            #[trigger] items.drop_last()[i],
        ) == tokens.drop_last()[i] by {
            assert(items.drop_last()[i] == items[i]);
        }
        lemma_markup_of_events(items.drop_last(), tokens.drop_last());
        assert(event_of(items.last()) == tokens.last());
    }
}

/// Collects the markup of the items written to it, as UTF-8.
pub struct HtmlWriter {
    inner: Vec<u8>,
}

impl View for HtmlWriter {
    type V = Seq<u8>;

    closed spec fn view(&self) -> Seq<u8> {
        self.inner@
    }
}

impl HtmlWriter {
    /// A writer that appends to `writer`.
    pub fn from_writer(writer: Vec<u8>) -> (r: Self)
        ensures
            r@ == writer@,
    {
        HtmlWriter { inner: writer }
    }

    /// Writes one item: a start tag with the element's name and exposed
    /// attributes, an end tag with its name, or text or document type
    /// escaped. Writing into memory does not fail.
    pub fn write_item<I: Item>(&mut self, item: &I) -> (r: Result<(), TraversalError>)
        requires
            item.wf(),
        ensures
            r is Ok,
            final(self)@ == old(self)@ + encode_utf8(markup(event_of(item.item_view()))),
    {
        let event = item.as_event();
        match write_token(&mut self.inner, &event) {
            Ok(()) => Ok(()),
            Err(_) => unreached(),
        }
    }

    /// The bytes written so far.
    pub fn into_inner(self) -> (r: Vec<u8>)
        ensures
            r@ == self@,
    {
        self.inner
    }
}

/// A stream of items that is pulled one step at a time. `advance` moves to
/// the next item and `get` borrows the current one.
pub trait HtmlIterator: Sized {
    /// Validity of the stream; every constructor of this library
    /// establishes it.
    spec fn wf(&self) -> bool;

    /// Every item that the stream has moved to so far, in order.
    spec fn trace(&self) -> Seq<ItemView>;

    /// The current item; `None` before the first step and once the stream
    /// has ended.
    spec fn current(&self) -> Option<ItemView>;

    /// A bound on the number of items still to come.
    spec fn remaining(&self) -> nat;

    /// Whether the stream has ended, at the end of its input or by a
    /// failure. The end is final.
    spec fn finished(&self) -> bool;

    /// Whether a failure has ended the stream.
    spec fn failed(&self) -> bool;

    /// The failure that has ended the stream, if one has.
    spec fn failure(&self) -> Option<TraversalErrorView>;

    /// The current item is valid, and it is the last entry of the trace. A
    /// stream that has ended has no current item, and a stream has failed
    /// exactly where a failure has ended it.
    proof fn lemma_current(&self)
        requires
            self.wf(),
        ensures
            self.current() matches Some(v) ==> v.wf() && self.trace().len() > 0
                && self.trace().last() == v,
            self.finished() ==> self.current() is None,
            self.failed() ==> self.finished(),
            self.failed() == self.failure() is Some,
    ;

    /// Moves to the next item. A failure ends the stream, and so does the
    /// end of the input, which is reported as success without a current
    /// item. On a stream that has ended the step succeeds and changes
    /// nothing.
    fn advance(&mut self) -> (r: Result<(), TraversalError>)
        requires
            old(self).wf(),
        ensures
            final(self).wf(),
            r is Err ==> final(self).current() is None,
            final(self).trace() == old(self).trace() + items_of(final(self).current()),
            final(self).remaining() <= old(self).remaining(),
            final(self).current() is Some ==> final(self).remaining() < old(self).remaining(),
            final(self).finished() == (r is Err || final(self).current() is None),
            final(self).failed() == (r is Err || old(self).failed()),
            final(self).failure() == match r {
                Ok(()) => old(self).failure(),
                Err(e) => Some(e@),
            },
            old(self).finished() ==> r is Ok && final(self).finished(),
    ;

    /// The current item.
    fn get(&self) -> (r: Option<RawItem<'_>>)
        requires
            self.wf(),
        ensures
            match r {
                Some(item) => self.current() == Some(item@),
                None => self.current() is None,
            },
    ;
}

/// Where the events of a document come from: a tokenizer over some input.
/// Nothing is asked of what it answers; the stream holds every answer
/// against the tracker.
pub trait TokenSource {
    /// The next event, or the message of the tokenizer's error.
    fn read(&mut self) -> Result<Token, String>;
}

/// The tokenizer over a document held in memory.
pub struct SliceSource<'a> {
    reader: Reader<&'a [u8]>,
}

impl<'a> TokenSource for SliceSource<'a> {
    fn read(&mut self) -> Result<Token, String> {
        match read_token(&mut self.reader) {
            Ok(token) => Ok(token),
            Err(error) => Err(error_message(&error)),
        }
    }
}

/// The message of the failure of a source that hands out more events than
/// it was said to hold.
pub open spec fn overrun() -> Seq<char> {
    "more events than the input can hold"@
}

/// The stream of items of a document, read event by event off a source.
pub struct HtmlIter<S> {
    source: S,
    buf: Traverser,
    budget: usize,
    done: bool,
    seen: Ghost<Seq<ItemView>>,
    tokens: Ghost<Seq<TokenView>>,
    history: Ghost<Seq<TokenView>>,
    live: Ghost<bool>,
    failure: Ghost<Option<TraversalErrorView>>,
}

impl<'a> HtmlIter<SliceSource<'a>> {
    /// A stream over the document in `reader`. Nothing has been read yet.
    /// A document holds at most one event for each of its bytes.
    pub fn from_reader(reader: &'a [u8]) -> (r: Self)
        ensures
            r.wf(),
            r.trace() == Seq::<ItemView>::empty(),
            r.tokens() == Seq::<TokenView>::empty(),
            r.history() == Seq::<TokenView>::empty(),
            r.tracker() == TraverserView::idle(),
            r.live(),
            r.current() is None,
            !r.finished(),
            r.remaining() == reader@.len(),
    {
        HtmlIter {
            source: SliceSource { reader: open_reader(reader) },
            buf: Traverser::new(),
            budget: reader.len(),
            done: false,
            seen: Ghost(Seq::empty()),
            tokens: Ghost(Seq::empty()),
            history: Ghost(Seq::empty()),
            live: Ghost(true),
            failure: Ghost(None),
        }
    }
}

impl<S: TokenSource> HtmlIter<S> {
    /// A stream over the events of `source`. Nothing has been read yet.
    pub fn from_source(source: S) -> (r: Self)
        ensures
            r.wf(),
            r.trace() == Seq::<ItemView>::empty(),
            r.tokens() == Seq::<TokenView>::empty(),
            r.history() == Seq::<TokenView>::empty(),
            r.tracker() == TraverserView::idle(),
            r.live(),
            r.current() is None,
            !r.finished(),
            r.remaining() == usize::MAX,
    {
        HtmlIter {
            source,
            buf: Traverser::new(),
            budget: usize::MAX,
            done: false,
            seen: Ghost(Seq::empty()),
            tokens: Ghost(Seq::empty()),
            history: Ghost(Seq::empty()),
            live: Ghost(true),
            failure: Ghost(None),
        }
    }

    /// The events that have been read and have become items, in order.
    pub closed spec fn tokens(&self) -> Seq<TokenView> {
        self.tokens@
    }

    /// Every event that the tracker has taken in, the end of the input
    /// included.
    pub closed spec fn history(&self) -> Seq<TokenView> {
        self.history@
    }

    /// Whether no failure has ended the stream.
    pub closed spec fn live(&self) -> bool {
        self.live@
    }

    /// The state of the tracker under the stream.
    pub closed spec fn tracker(&self) -> TraverserView {
        self.buf@
    }

    /// The tracker has taken in the events that were read, one by one, and
    /// the current item is the one that it shows.
    pub proof fn lemma_tracker(&self)
        requires
            self.wf(),
        ensures
            self.current() == self.tracker().item(),
            self.tracker().wf(),
            self.live() ==> run(self.history()) == Ok::<TraverserView, ErrorKind>(self.tracker()),
            self.failed() == !self.live(),
    {
    }

    /// A traversal with nothing laid over it gives back what was read:
    /// each item of the trace is written as the event it was read from, and
    /// so the trace as a whole is written as the events that were read.
    pub proof fn lemma_round_trip(&self)
        requires
            self.wf(),
        ensures
            self.tokens().len() == self.trace().len(),
            forall|i: int| 0 <= i < self.trace().len() ==> event_of(#[trigger] self.trace()[i])
                == self.tokens()[i],
            document_markup(self.trace()) == events_markup(self.tokens()),
    {
        lemma_markup_of_events(self.trace(), self.tokens());
    }

    /// Whether this stream has ended by a failure out of the state `before`:
    /// the tracker is cleared and nothing else has changed.
    pub open spec fn ended_from(&self, before: &Self) -> bool {
        &&& self.tracker() == TraverserView::idle()
        &&& self.history() == before.history()
        &&& self.tokens() == before.tokens()
        &&& self.trace() == before.trace()
        &&& self.remaining() == before.remaining()
        &&& !self.live()
        &&& self.finished()
    }

    /// Whether `after` and `r` are what becomes of this stream, which has
    /// not ended, when it takes in `read`.
    ///
    /// The message of a tokenizer's error ends the stream as a failure of
    /// the tokenizer. So does an event other than the end of the input once
    /// the source has handed out as many events as it can hold. Every other
    /// event goes to the tracker: where the tracker refuses it, the stream
    /// ends with the tracker's failure; where it takes it, the stream goes
    /// on with the new item, or ends in good order at the end of the input.
    pub open spec fn takes(
        &self,
        read: Result<TokenView, Seq<char>>,
        after: &Self,
        r: Result<(), TraversalErrorView>,
    ) -> bool {
        &&& after.failure() == match r {
            Ok(()) => self.failure(),
            Err(e) => Some(e),
        }
        &&& match read {
            Err(message) => r == Err::<(), TraversalErrorView>(
                tokenizer_failure(self.tracker(), message),
            ) && after.ended_from(self),
            Ok(token) => if !(token is Eof) && self.remaining() == 0 {
                r == Err::<(), TraversalErrorView>(tokenizer_failure(self.tracker(), overrun()))
                    && after.ended_from(self)
            } else {
                match self.tracker().step(token) {
                    Err(_) => r == Err::<(), TraversalErrorView>(failure_of(self.tracker(), token))
                        && after.ended_from(self),
                    Ok(next) => {
                        &&& r is Ok
                        &&& after.tracker() == next
                        &&& after.history() == self.history().push(token)
                        &&& after.live() == self.live()
                        &&& after.finished() == (token is Eof)
                        &&& if token is Eof {
                            &&& after.remaining() == self.remaining()
                            &&& after.tokens() == self.tokens()
                            &&& after.trace() == self.trace()
                        } else {
                            &&& after.remaining() == self.remaining() - 1
                            &&& after.tokens() == self.tokens().push(token)
                            &&& after.trace() == self.trace().push(next.item()->Some_0)
                        }
                    },
                }
            },
        }
    }

    /// Takes in what the source has answered, on a stream that has not
    /// ended.
    pub fn take(&mut self, read: Result<Token, String>) -> (r: Result<(), TraversalError>)
        requires
            old(self).wf(),
            !old(self).finished(),
        ensures
            final(self).wf(),
            old(self).takes(read_view(read), final(self), outcome(r)),
            final(self).current() == final(self).tracker().item(),
            final(self).failed() == (r is Err),
    {
        let refused = match &read {
            Ok(Token::Eof) => false,
            Ok(_) => self.budget == 0,
            Err(_) => false,
        };
        let offered = match &read {
            Ok(Token::Eof) => false,
            Ok(_) => true,
            Err(_) => false,
        };
        let ghost told = read_view(read);
        let r = if refused {
            proof {
                reveal_strlit("more events than the input can hold");
            }
            self.buf.take(Err("more events than the input can hold".to_owned()))
        } else {
            self.buf.take(read)
        };
        if r.is_ok() {
            if offered {
                self.budget = self.budget - 1;
            } else {
                self.done = true;
            }
            proof {
                let token = told->Ok_0;
                self.history@ = self.history@.push(token);
                assert(self.history@.drop_last() =~= old(self).history@);
                match self.buf@.item() {
                    Some(v) => {
                        self.seen@ = self.seen@.push(v);
                        self.tokens@ = self.tokens@.push(token);
                    },
                    None => {},
                }
            }
        } else {
            self.done = true;
            proof {
                self.live@ = false;
                self.failure@ = Some(r->Err_0@);
            }
        }
        r
    }
}

impl<S: TokenSource> HtmlIterator for HtmlIter<S> {
    closed spec fn wf(&self) -> bool {
        &&& self.buf.wf()
        &&& self.tokens@.len() == self.seen@.len()
        &&& forall|i: int| 0 <= i < self.seen@.len() ==> event_of(#[trigger] self.seen@[i]) == self.tokens@[i]
        &&& forall|i: int| 0 <= i < self.seen@.len() ==> (#[trigger] self.seen@[i]).wf()
        &&& self.buf@.item() matches Some(v) ==> self.seen@.len() > 0 && self.seen@.last() == v
        &&& self.live@ ==> run(self.history@) == Ok::<TraverserView, ErrorKind>(self.buf@)
        &&& self.done ==> self.buf@.item() is None
        &&& !self.live@ ==> self.done
        &&& self.live@ == self.failure@ is None
    }

    closed spec fn trace(&self) -> Seq<ItemView> {
        self.seen@
    }

    closed spec fn current(&self) -> Option<ItemView> {
        self.buf@.item()
    }

    closed spec fn remaining(&self) -> nat {
        self.budget as nat
    }

    closed spec fn finished(&self) -> bool {
        self.done
    }

    closed spec fn failed(&self) -> bool {
        !self.live@
    }

    closed spec fn failure(&self) -> Option<TraversalErrorView> {
        self.failure@
    }

    proof fn lemma_current(&self) {
    }

    /// Asks the source for the next event and takes in what it answers. Once
    /// the stream has ended the source is not asked again.
    fn advance(&mut self) -> (r: Result<(), TraversalError>)
        ensures
            old(self).finished() ==> final(self).live() == old(self).live() && final(self).history()
                == old(self).history() && final(self).tracker() == old(self).tracker()
                && final(self).tokens() == old(self).tokens(),
            !old(self).finished() ==> exists|read: Result<TokenView, Seq<char>>|
                old(self).takes(read, final(self), outcome(r)),
    {
        if self.done {
            assert(self.seen@ + Seq::<ItemView>::empty() =~= self.seen@);
            return Ok(());
        }
        let read = self.source.read();
        let ghost told = read_view(read);
        let r = self.take(read);
        proof {
            assert(old(self).takes(told, self, outcome(r)));
            match self.current() {
                Some(v) => {
                    assert(self.trace() =~= old(self).trace() + seq![v]);
                },
                None => {
                    assert(self.trace() + Seq::<ItemView>::empty() =~= self.trace());
                },
            }
        }
        r
    }

    fn get(&self) -> (r: Option<RawItem<'_>>) {
        self.buf.get()
    }
}

/// The test that keeps the items in whose path a selector matches nothing:
/// neither the element at the end nor any ancestor.
pub open spec fn kept<S: ContextualSelector>(selector: &S) -> spec_fn(ItemView) -> bool {
    |v: ItemView| !matches_any(selector, v.path)
}

/// Whole subtrees go. Where a selector matches one of the elements that are
/// open, it rejects every item that is read for as long as that element
/// stays open: the element's own end tag, and everything inside it.
pub proof fn lemma_subtree_rejected<S: ContextualSelector>(
    selector: &S,
    state: TraverserView,
    tokens: Seq<TokenView>,
    n: nat,
)
    requires
        state.wf(),
        n <= state.settled().len(),
        matches_any(selector, state.settled().take(n as int)),
        keeps_open(state, tokens, n),
    ensures
        run_from(state, tokens)->Ok_0.item() matches Some(item) ==> !kept(selector)(item),
{
    lemma_open_elements_stay(state, tokens, n);
    let after = run_from(state, tokens)->Ok_0;
    assert(tokens.take(tokens.len() as int) =~= tokens);
    assert(run_from(state, tokens.take(tokens.len() as int)) is Ok);
    assert(after.settled().len() >= n);
    if after.item() is Some {
        lemma_match_any_extends(selector, state.settled().take(n as int), after.stack);
    }
}

/// A stream without the items that a selector matches or that lie under an
/// element that it matches.
pub struct Exclude<I, S> {
    pub inner: I,
    pub selector: S,
}

impl<I: HtmlIterator, S: ContextualSelector> HtmlIterator for Exclude<I, S> {
    open spec fn wf(&self) -> bool {
        self.inner.wf()
    }

    /// The items of the stream under this one that the selector keeps, in
    /// their order.
    open spec fn trace(&self) -> Seq<ItemView> {
        self.inner.trace().filter(kept(&self.selector))
    }

    /// The current item of the stream under this one, where the selector
    /// keeps it.
    open spec fn current(&self) -> Option<ItemView> {
        match self.inner.current() {
            Some(v) => if kept(&self.selector)(v) {
                Some(v)
            } else {
                None
            },
            None => None,
        }
    }

    open spec fn remaining(&self) -> nat {
        self.inner.remaining()
    }

    open spec fn finished(&self) -> bool {
        self.inner.finished()
    }

    open spec fn failed(&self) -> bool {
        self.inner.failed()
    }

    open spec fn failure(&self) -> Option<TraversalErrorView> {
        self.inner.failure()
    }

    proof fn lemma_current(&self) {
        self.inner.lemma_current();
        if self.inner.current() is Some {
            let trace = self.inner.trace();
            assert(trace.drop_last().push(trace.last()) =~= trace);
            trace.drop_last().lemma_filter_push(trace.last(), kept(&self.selector));
        }
    }

    /// Moves the stream under this one forward until it stands at an item
    /// that the selector keeps, or has ended.
    fn advance(&mut self) -> (r: Result<(), TraversalError>)
        ensures
            final(self).selector == old(self).selector,
            old(self).inner.trace().len() <= final(self).inner.trace().len(),
            final(self).inner.trace().take(old(self).inner.trace().len() as int) == old(
                self,
            ).inner.trace(),
    {
        let ghost keep = kept(&self.selector);
        assert(self.inner.trace().take(self.inner.trace().len() as int) =~= self.inner.trace());
        assert(self.inner.trace().filter(keep) + Seq::<ItemView>::empty() =~= self.inner.trace().filter(
            keep,
        ));
        loop
            invariant
                self.inner.wf(),
                self.selector == old(self).selector,
                keep == kept(&self.selector),
                self.inner.trace().filter(keep) == old(self).inner.trace().filter(keep),
                self.inner.remaining() <= old(self).inner.remaining(),
                old(self).inner.finished() ==> self.inner.finished(),
                self.inner.failed() == old(self).inner.failed(),
                self.inner.failure() == old(self).inner.failure(),
                old(self).inner.trace().len() <= self.inner.trace().len(),
                self.inner.trace().take(old(self).inner.trace().len() as int) == old(
                    self,
                ).inner.trace(),
            decreases self.inner.remaining(),
        {
            let ghost before = self.inner.trace();
            let r = self.inner.advance();
            proof {
                assert(self.inner.trace().take(old(self).inner.trace().len() as int) =~= before.take(
                    old(self).inner.trace().len() as int,
                ));
                self.inner.lemma_current();
                Seq::filter_distributes_over_add(before, items_of(self.inner.current()), keep);
                reveal_with_fuel(Seq::filter, 2);
                match self.inner.current() {
                    Some(v) => {
                        assert(seq![v].drop_last() =~= Seq::<ItemView>::empty());
                        assert(seq![v].filter(keep) =~= if keep(v) {
                            seq![v]
                        } else {
                            Seq::<ItemView>::empty()
                        });
                    },
                    None => {},
                }
                assert(before.filter(keep) + Seq::<ItemView>::empty() =~= before.filter(keep));
            }
            if r.is_err() {
                return r;
            }
            match self.inner.get() {
                Some(item) => {
                    if !self.selector.match_any(item.context) {
                        return Ok(());
                    }
                },
                None => {
                    return Ok(());
                },
            }
        }
    }

    fn get(&self) -> (r: Option<RawItem<'_>>) {
        match self.inner.get() {
            Some(item) => if self.selector.match_any(item.context) {
                None
            } else {
                Some(item)
            },
            None => None,
        }
    }
}

/// The map that re-roots the items in whose path a selector matches
/// something, and drops the others.
pub open spec fn selected<S: ContextualSelector>(selector: &S) -> spec_fn(ItemView) -> Option<
    ItemView,
> {
    |v: ItemView| rerooted(selector, v)
}

/// A stream of the items in whose path a selector matches something, each
/// re-rooted at the outermost element that it matches.
pub struct Include<I, S> {
    pub inner: I,
    pub selector: S,
}

impl<I: HtmlIterator, S: ContextualSelector> HtmlIterator for Include<I, S> {
    open spec fn wf(&self) -> bool {
        self.inner.wf()
    }

    /// The items of the stream under this one that the selector selects,
    /// re-rooted, in their order.
    open spec fn trace(&self) -> Seq<ItemView> {
        self.inner.trace().filter_map(selected(&self.selector))
    }

    open spec fn current(&self) -> Option<ItemView> {
        match self.inner.current() {
            Some(v) => rerooted(&self.selector, v),
            None => None,
        }
    }

    open spec fn remaining(&self) -> nat {
        self.inner.remaining()
    }

    open spec fn finished(&self) -> bool {
        self.inner.finished()
    }

    open spec fn failed(&self) -> bool {
        self.inner.failed()
    }

    open spec fn failure(&self) -> Option<TraversalErrorView> {
        self.inner.failure()
    }

    proof fn lemma_current(&self) {
        self.inner.lemma_current();
        if self.inner.current() is Some {
            let trace = self.inner.trace();
            assert(trace.drop_last().push(trace.last()) =~= trace);
        }
    }

    /// Moves the stream under this one forward until it stands at an item
    /// that the selector selects, or has ended.
    fn advance(&mut self) -> (r: Result<(), TraversalError>)
        ensures
            final(self).selector == old(self).selector,
            old(self).inner.trace().len() <= final(self).inner.trace().len(),
            final(self).inner.trace().take(old(self).inner.trace().len() as int) == old(
                self,
            ).inner.trace(),
    {
        let ghost select = selected(&self.selector);
        assert(self.inner.trace().take(self.inner.trace().len() as int) =~= self.inner.trace());
        assert(self.inner.trace().filter_map(select) + Seq::<ItemView>::empty()
            =~= self.inner.trace().filter_map(select));
        loop
            invariant
                self.inner.wf(),
                self.selector == old(self).selector,
                select == selected(&self.selector),
                self.inner.trace().filter_map(select) == old(self).inner.trace().filter_map(select),
                self.inner.remaining() <= old(self).inner.remaining(),
                old(self).inner.finished() ==> self.inner.finished(),
                self.inner.failed() == old(self).inner.failed(),
                self.inner.failure() == old(self).inner.failure(),
                old(self).inner.trace().len() <= self.inner.trace().len(),
                self.inner.trace().take(old(self).inner.trace().len() as int) == old(
                    self,
                ).inner.trace(),
            decreases self.inner.remaining(),
        {
            let ghost before = self.inner.trace();
            let r = self.inner.advance();
            proof {
                assert(self.inner.trace().take(old(self).inner.trace().len() as int) =~= before.take(
                    old(self).inner.trace().len() as int,
                ));
                self.inner.lemma_current();
                match self.inner.current() {
                    Some(v) => {
                        assert(self.inner.trace() =~= before.push(v));
                        assert(before.push(v).drop_last() =~= before);
                    },
                    None => {
                        assert(self.inner.trace() =~= before);
                    },
                }
                assert(before.filter_map(select) + Seq::<ItemView>::empty() =~= before.filter_map(
                    select,
                ));
            }
            if r.is_err() {
                return r;
            }
            match self.inner.get() {
                Some(item) => {
                    if item.included(&self.selector).is_some() {
                        return Ok(());
                    }
                },
                None => {
                    return Ok(());
                },
            }
        }
    }

    fn get(&self) -> (r: Option<RawItem<'_>>) {
        match self.inner.get() {
            Some(item) => {
                proof {
                    self.inner.lemma_current();
                }
                match item.included(&self.selector) {
                    Some(found) => {
                        let n = found.inner.context.len();
                        let context = found.inner.context.slice(found.start, n);
                        assert(found.inner.context@.subrange(found.start as int, n as int)
                            =~= found.inner.context@.skip(found.start as int));
                        Some(RawItem { context, node: found.inner.node })
                    },
                    None => None,
                }
            },
            None => None,
        }
    }
}

/// A stream as the writing loop sees it: it can be moved forward, and its
/// current item can be written.
trait Drain {
    spec fn sound(&self) -> bool;

    spec fn shown_trace(&self) -> Seq<ItemView>;

    spec fn shown_current(&self) -> Option<ItemView>;

    spec fn steps_left(&self) -> nat;

    spec fn ended(&self) -> bool;

    spec fn broken(&self) -> Option<TraversalErrorView>;

    /// A stream that a failure has ended has ended.
    proof fn lemma_broken(&self)
        requires
            self.sound(),
        ensures
            self.broken() is Some ==> self.ended(),
    ;

    /// Moves to the next item.
    fn forward(&mut self) -> (r: Result<(), TraversalError>)
        requires
            old(self).sound(),
        ensures
            final(self).sound(),
            r is Err ==> final(self).shown_current() is None,
            final(self).shown_trace() == old(self).shown_trace() + items_of(
                final(self).shown_current(),
            ),
            final(self).steps_left() <= old(self).steps_left(),
            final(self).shown_current() is Some ==> final(self).steps_left() < old(self).steps_left(),
            final(self).ended() == (r is Err || final(self).shown_current() is None),
            final(self).broken() == match r {
                Ok(()) => old(self).broken(),
                Err(e) => Some(e@),
            },
            old(self).ended() ==> r is Ok && final(self).ended(),
    ;

    /// Writes the current item, where there is one, and says whether there
    /// was.
    fn put(&self, writer: &mut HtmlWriter) -> (r: bool)
        requires
            self.sound(),
        ensures
            r == self.shown_current() is Some,
            final(writer)@ == old(writer)@ + encode_utf8(
                document_markup(items_of(self.shown_current())),
            ),
    ;
}

/// What one item is written as is the markup of the run that holds it
/// alone, and nothing is written for no item.
proof fn lemma_markup_of_one(item: Option<ItemView>)
    ensures
        document_markup(items_of(item)) == match item {
            Some(v) => markup(event_of(v)),
            None => Seq::<char>::empty(),
        },
{
    reveal_with_fuel(document_markup, 2);
    match item {
        Some(v) => {
            assert(seq![v].drop_last() =~= Seq::<ItemView>::empty());
            assert(Seq::<char>::empty() + markup(event_of(v)) =~= markup(event_of(v)));
        },
        None => {},
    }
}

/// Writing a run of items and then one more is writing the longer run.
proof fn lemma_markup_add(items: Seq<ItemView>, item: Option<ItemView>)
    ensures
        document_markup(items + items_of(item)) == document_markup(items) + document_markup(
            items_of(item),
        ),
{
    lemma_markup_of_one(item);
    match item {
        Some(v) => {
            assert(items + seq![v] =~= items.push(v));
            assert(items.push(v).drop_last() =~= items);
        },
        None => {
            assert(items + Seq::<ItemView>::empty() =~= items);
            assert(document_markup(items) + Seq::<char>::empty() =~= document_markup(items));
        },
    }
}

impl<T: HtmlIterator> Drain for T {
    spec fn sound(&self) -> bool {
        HtmlIterator::wf(self)
    }

    spec fn shown_trace(&self) -> Seq<ItemView> {
        HtmlIterator::trace(self)
    }

    spec fn shown_current(&self) -> Option<ItemView> {
        HtmlIterator::current(self)
    }

    spec fn steps_left(&self) -> nat {
        HtmlIterator::remaining(self)
    }

    spec fn ended(&self) -> bool {
        HtmlIterator::finished(self)
    }

    spec fn broken(&self) -> Option<TraversalErrorView> {
        HtmlIterator::failure(self)
    }

    proof fn lemma_broken(&self) {
        self.lemma_current();
    }

    fn forward(&mut self) -> (r: Result<(), TraversalError>) {
        self.advance()
    }

    fn put(&self, writer: &mut HtmlWriter) -> (r: bool) {
        proof {
            self.lemma_current();
            lemma_markup_of_one(self.current());
        }
        match self.get() {
            Some(item) => {
                let written = writer.write_item(&item);
                true
            },
            None => {
                assert(encode_utf8(Seq::<char>::empty()) =~= Seq::<u8>::empty());
                assert(writer@ + Seq::<u8>::empty() =~= writer@);
                false
            },
        }
    }
}

/// Writes every item still to come to `writer`.
fn drain<D: Drain>(stream: &mut D, writer: &mut HtmlWriter) -> (r: Result<(), TraversalError>)
    requires
        old(stream).sound(),
    ensures
        final(stream).sound(),
        old(stream).shown_trace().len() <= final(stream).shown_trace().len(),
        final(stream).shown_trace().take(old(stream).shown_trace().len() as int) == old(stream).shown_trace(),
        final(stream).ended(),
        final(stream).shown_current() is None,
        final(writer)@ == old(writer)@ + encode_utf8(
            document_markup(
                final(stream).shown_trace().skip(old(stream).shown_trace().len() as int),
            ),
        ),
        final(stream).broken() == match r {
            Ok(_) => old(stream).broken(),
            Err(e) => Some(e@),
        },
        r is Err ==> old(stream).broken() is None,
        old(stream).ended() ==> r is Ok && final(stream).shown_trace() == old(stream).shown_trace()
            && final(writer)@ == old(writer)@,
{
    let ghost base = stream.shown_trace().len() as int;
    proof {
        assert(stream.shown_trace().skip(base) =~= Seq::<ItemView>::empty());
        assert(encode_utf8(Seq::<char>::empty()) =~= Seq::<u8>::empty());
        assert(writer@ + Seq::<u8>::empty() =~= writer@);
        assert(stream.shown_trace().take(base) =~= stream.shown_trace());
    }
    loop
        invariant
            stream.sound(),
            base == old(stream).shown_trace().len(),
            base <= stream.shown_trace().len(),
            stream.shown_trace().take(base) == old(stream).shown_trace(),
            writer@ == old(writer)@ + encode_utf8(document_markup(stream.shown_trace().skip(base))),
            stream.broken() == old(stream).broken(),
            old(stream).ended() ==> stream.ended() && stream.shown_trace() == old(stream).shown_trace() && writer@ == old(writer)@,
        decreases stream.steps_left(),
    {
        let ghost before = stream.shown_trace();
        let ghost written = writer@;
        proof {
            stream.lemma_broken();
        }
        let r = stream.forward();
        proof {
            let added = items_of(stream.shown_current());
            assert(stream.shown_trace().take(base) =~= before.take(base));
            assert(stream.shown_trace().skip(base) =~= before.skip(base) + added);
            lemma_markup_add(before.skip(base), stream.shown_current());
            lemma_encode_add(document_markup(before.skip(base)), document_markup(added));
            lemma_markup_of_one(stream.shown_current());
            if stream.shown_current() is None {
                assert(stream.shown_trace() =~= before);
                assert(encode_utf8(Seq::<char>::empty()) =~= Seq::<u8>::empty());
                assert(written + Seq::<u8>::empty() =~= written);
            }
        }
        if r.is_err() {
            return r;
        }
        let more = stream.put(writer);
        proof {
            assert(writer@ =~= old(writer)@ + encode_utf8(
                document_markup(stream.shown_trace().skip(base)),
            ));
        }
        if !more {
            return Ok(());
        }
    }
}

/// The markup of every item still to come, as a string.
fn collect<D: Drain>(stream: &mut D) -> (r: Result<String, TraversalError>)
    requires
        old(stream).sound(),
    ensures
        final(stream).sound(),
        old(stream).shown_trace().len() <= final(stream).shown_trace().len(),
        final(stream).shown_trace().take(old(stream).shown_trace().len() as int) == old(stream).shown_trace(),
        final(stream).ended(),
        final(stream).shown_current() is None,
        final(stream).broken() == match r {
            Ok(_) => old(stream).broken(),
            Err(e) => Some(e@),
        },
        r is Err ==> old(stream).broken() is None,
        r matches Ok(text) ==> text@ == document_markup(
            final(stream).shown_trace().skip(old(stream).shown_trace().len() as int),
        ),
        old(stream).ended() ==> r is Ok && final(stream).shown_trace() == old(stream).shown_trace(),
{
    let mut writer = HtmlWriter::from_writer(Vec::new());
    match drain(stream, &mut writer) {
        Ok(()) => {},
        Err(e) => {
            return Err(e);
        },
    }
    let bytes = writer.into_inner();
    let ghost text = document_markup(
        stream.shown_trace().skip(old(stream).shown_trace().len() as int),
    );
    proof {
        assert(Seq::<u8>::empty() + encode_utf8(text) =~= encode_utf8(text));
        vstd::utf8::encode_utf8_valid_utf8(text);
        vstd::utf8::encode_utf8_decode_utf8(text);
    }
    match String::from_utf8(bytes) {
        Ok(s) => Ok(s),
        Err(_) => unreached(),
    }
}

/// What can be done with every stream: writing it out, and wrapping it in
/// a stream that selects from it.
pub trait HtmlIteratorExt: HtmlIterator {
    /// Writes every item still to come to `writer`, up to the end of the
    /// stream. Afterwards the stream has ended and every item that it has
    /// moved to has been written. The call fails exactly where the stream
    /// fails on the way; the items before the failure have been written
    /// all the same. On a stream that has ended there is nothing to write.
    fn write_into(&mut self, writer: &mut HtmlWriter) -> (r: Result<(), TraversalError>)
        requires
            old(self).wf(),
        ensures
            final(self).wf(),
            old(self).trace().len() <= final(self).trace().len(),
            final(self).trace().take(old(self).trace().len() as int) == old(self).trace(),
            final(self).finished(),
            final(self).current() is None,
            final(writer)@ == old(writer)@ + encode_utf8(
                document_markup(final(self).trace().skip(old(self).trace().len() as int)),
            ),
            r is Err == (final(self).failed() && !old(self).failed()),
            final(self).failure() == match r {
                Ok(_) => old(self).failure(),
                Err(e) => Some(e@),
            },
            old(self).finished() ==> r is Ok && final(self).trace() == old(self).trace() && final(writer)@ == old(writer)@,
    ;

    /// The markup of every item still to come, as a string. Afterwards the
    /// stream has ended. The call fails exactly where the stream fails on
    /// the way. On a stream that has ended the result is the empty string.
    fn to_string(&mut self) -> (r: Result<String, TraversalError>)
        requires
            old(self).wf(),
        ensures
            final(self).wf(),
            old(self).trace().len() <= final(self).trace().len(),
            final(self).trace().take(old(self).trace().len() as int) == old(self).trace(),
            final(self).finished(),
            final(self).current() is None,
            r is Err == (final(self).failed() && !old(self).failed()),
            final(self).failure() == match r {
                Ok(_) => old(self).failure(),
                Err(e) => Some(e@),
            },
            r matches Ok(text) ==> text@ == document_markup(
                final(self).trace().skip(old(self).trace().len() as int),
            ),
            old(self).finished() ==> r is Ok && final(self).trace() == old(self).trace(),
    ;

    /// Moves to the next item, as `advance` does, and hands it out.
    fn next(&mut self) -> (r: Result<Option<RawItem<'_>>, TraversalError>)
        requires
            old(self).wf(),
        ensures
            final(self).wf(),
            final(self).trace() == old(self).trace() + items_of(final(self).current()),
            final(self).remaining() <= old(self).remaining(),
            final(self).current() is Some ==> final(self).remaining() < old(self).remaining(),
            final(self).finished() == (r is Err || final(self).current() is None),
            final(self).failed() == (r is Err || old(self).failed()),
            final(self).failure() == match r {
                Ok(_) => old(self).failure(),
                Err(e) => Some(e@),
            },
            old(self).finished() ==> r is Ok && final(self).finished(),
            match r {
                Ok(Some(item)) => final(self).current() == Some(item@),
                Ok(None) => final(self).current() is None,
                Err(_) => final(self).current() is None,
            },
    ;

    /// The stream without the items in whose path `selector` matches the
    /// element at the end or one of its ancestors: whole subtrees go.
    fn exclude<S: ContextualSelector>(self, selector: S) -> (r: Exclude<Self, S>)
        requires
            self.wf(),
        ensures
            r.inner == self,
            r.selector == selector,
            r.wf(),
    ;

    /// The stream of the items in whose path `selector` matches something,
    /// each re-rooted at the outermost element that it matches.
    fn included<S: ContextualSelector>(self, selector: S) -> (r: Include<Self, S>)
        requires
            self.wf(),
        ensures
            r.inner == self,
            r.selector == selector,
            r.wf(),
    ;

    /// The stream that shows every element of every item through `map`.
    fn map_all<
        P: Fn(&str, &str) -> bool,
        F: for <'x>Fn(RawElement<'x>) -> FilterAttributes<RawElement<'x>, P> + Copy,
    >(self, map: F) -> (r: MappedItems<Self, F>)
        requires
            self.wf(),
            is_element_map::<RawElement<'static>, FilterAttributes<RawElement<'static>, P>, F>(map),
        ensures
            r.inner == self,
            r.map == map,
            r.wf(),
    ;
}

impl<T: HtmlIterator> HtmlIteratorExt for T {
    fn write_into(&mut self, writer: &mut HtmlWriter) -> (r: Result<(), TraversalError>) {
        proof {
            self.lemma_current();
        }
        let r = drain(self, writer);
        proof {
            self.lemma_current();
        }
        r
    }

    fn to_string(&mut self) -> (r: Result<String, TraversalError>) {
        proof {
            self.lemma_current();
        }
        let r = collect(self);
        proof {
            self.lemma_current();
        }
        r
    }

    fn next(&mut self) -> (r: Result<Option<RawItem<'_>>, TraversalError>) {
        match self.advance() {
            Ok(()) => Ok(self.get()),
            Err(e) => Err(e),
        }
    }

    fn exclude<S: ContextualSelector>(self, selector: S) -> (r: Exclude<Self, S>) {
        Exclude { inner: self, selector }
    }

    fn included<S: ContextualSelector>(self, selector: S) -> (r: Include<Self, S>) {
        Include { inner: self, selector }
    }

    fn map_all<
        P: Fn(&str, &str) -> bool,
        F: for <'x>Fn(RawElement<'x>) -> FilterAttributes<RawElement<'x>, P> + Copy,
    >(self, map: F) -> (r: MappedItems<Self, F>) {
        MappedItems { inner: self, map }
    }
}

/// A stream that shows every element of every item through a map. The map
/// makes of each element a view that filters its attributes.
pub struct MappedItems<I, F> {
    pub inner: I,
    pub map: F,
}

impl<
    I: HtmlIterator,
    P: Fn(&str, &str) -> bool,
    F: for <'x>Fn(RawElement<'x>) -> FilterAttributes<RawElement<'x>, P> + Copy,
> Drain for MappedItems<I, F> {
    spec fn sound(&self) -> bool {
        self.wf()
    }

    spec fn shown_trace(&self) -> Seq<ItemView> {
        self.trace()
    }

    spec fn shown_current(&self) -> Option<ItemView> {
        self.current()
    }

    spec fn steps_left(&self) -> nat {
        self.inner.remaining()
    }

    spec fn ended(&self) -> bool {
        self.finished()
    }

    spec fn broken(&self) -> Option<TraversalErrorView> {
        self.failure()
    }

    proof fn lemma_broken(&self) {
        self.inner.lemma_current();
    }

    fn forward(&mut self) -> (r: Result<(), TraversalError>) {
        self.advance()
    }

    fn put(&self, writer: &mut HtmlWriter) -> (r: bool) {
        proof {
            lemma_markup_of_one(self.current());
        }
        match self.get() {
            Some(item) => {
                let written = writer.write_item(&item);
                true
            },
            None => {
                assert(encode_utf8(Seq::<char>::empty()) =~= Seq::<u8>::empty());
                assert(writer@ + Seq::<u8>::empty() =~= writer@);
                false
            },
        }
    }
}

impl<
    I: HtmlIterator,
    P: Fn(&str, &str) -> bool,
    F: for <'x>Fn(RawElement<'x>) -> FilterAttributes<RawElement<'x>, P> + Copy,
> MappedItems<I, F> {
    /// Validity of the stream.
    pub open spec fn wf(&self) -> bool {
        self.inner.wf() && is_element_map::<
            RawElement<'static>,
            FilterAttributes<RawElement<'static>, P>,
            F,
        >(self.map)
    }

    /// An item with the map over every element of its path.
    pub open spec fn shown(&self, item: ItemView) -> ItemView {
        ItemView {
            path: mapped_path::<RawElement<'static>, FilterAttributes<RawElement<'static>, P>, F>(
                self.map,
                item.path,
            ),
            node: item.node,
        }
    }

    /// Every item that the stream has moved to so far, as it shows them.
    pub open spec fn trace(&self) -> Seq<ItemView> {
        Seq::new(self.inner.trace().len(), |i: int| self.shown(self.inner.trace()[i]))
    }

    /// The current item, as the stream shows it.
    pub open spec fn current(&self) -> Option<ItemView> {
        match self.inner.current() {
            Some(v) => Some(self.shown(v)),
            None => None,
        }
    }

    /// Whether the stream has ended, at the end of its input or by a
    /// failure.
    pub open spec fn finished(&self) -> bool {
        self.inner.finished()
    }

    /// Whether a failure has ended the stream.
    pub open spec fn failed(&self) -> bool {
        self.inner.failed()
    }

    /// The failure that has ended the stream, if one has.
    pub open spec fn failure(&self) -> Option<TraversalErrorView> {
        self.inner.failure()
    }

    /// Moves to the next item of the stream under this one. On a stream
    /// that has ended the step succeeds and changes nothing.
    pub fn advance(&mut self) -> (r: Result<(), TraversalError>)
        requires
            old(self).wf(),
        ensures
            final(self).wf(),
            final(self).map == old(self).map,
            r is Err ==> final(self).current() is None,
            final(self).trace() == old(self).trace() + items_of(final(self).current()),
            final(self).inner.remaining() <= old(self).inner.remaining(),
            final(self).current() is Some ==> final(self).inner.remaining() < old(self).inner.remaining(),
            final(self).finished() == (r is Err || final(self).current() is None),
            final(self).failed() == (r is Err || old(self).failed()),
            final(self).failure() == match r {
                Ok(()) => old(self).failure(),
                Err(e) => Some(e@),
            },
            old(self).finished() ==> r is Ok && final(self).finished(),
    {
        let r = self.inner.advance();
        assert(self.trace() =~= old(self).trace() + items_of(self.current()));
        r
    }

    /// Writes every item still to come to `writer`, up to the end of the
    /// stream. Afterwards the stream has ended and every item that it has
    /// moved to has been written. The call fails exactly where the stream
    /// fails on the way; the items before the failure have been written
    /// all the same. On a stream that has ended there is nothing to write.
    pub fn write_into(&mut self, writer: &mut HtmlWriter) -> (r: Result<(), TraversalError>)
        requires
            old(self).wf(),
        ensures
            final(self).wf(),
            old(self).trace().len() <= final(self).trace().len(),
            final(self).trace().take(old(self).trace().len() as int) == old(self).trace(),
            final(self).finished(),
            final(self).current() is None,
            final(writer)@ == old(writer)@ + encode_utf8(
                document_markup(final(self).trace().skip(old(self).trace().len() as int)),
            ),
            r is Err == (final(self).failed() && !old(self).failed()),
            final(self).failure() == match r {
                Ok(_) => old(self).failure(),
                Err(e) => Some(e@),
            },
            old(self).finished() ==> r is Ok && final(self).trace() == old(self).trace() && final(writer)@ == old(writer)@,
    {
        proof {
            self.inner.lemma_current();
        }
        let r = drain(self, writer);
        proof {
            self.inner.lemma_current();
        }
        r
    }

    /// The markup of every item still to come, as a string. Afterwards the
    /// stream has ended. The call fails exactly where the stream fails on
    /// the way. On a stream that has ended the result is the empty string.
    pub fn to_string(&mut self) -> (r: Result<String, TraversalError>)
        requires
            old(self).wf(),
        ensures
            final(self).wf(),
            old(self).trace().len() <= final(self).trace().len(),
            final(self).trace().take(old(self).trace().len() as int) == old(self).trace(),
            final(self).finished(),
            final(self).current() is None,
            r is Err == (final(self).failed() && !old(self).failed()),
            final(self).failure() == match r {
                Ok(_) => old(self).failure(),
                Err(e) => Some(e@),
            },
            r matches Ok(text) ==> text@ == document_markup(
                final(self).trace().skip(old(self).trace().len() as int),
            ),
            old(self).finished() ==> r is Ok && final(self).trace() == old(self).trace(),
    {
        proof {
            self.inner.lemma_current();
        }
        let r = collect(self);
        proof {
            self.inner.lemma_current();
        }
        r
    }

    /// Moves to the next item, as `advance` does, and hands it out with
    /// the map over it.
    pub fn next(&mut self) -> (r: Result<Option<MappedItem<RawItem<'_>, F>>, TraversalError>)
        requires
            old(self).wf(),
        ensures
            final(self).wf(),
            final(self).map == old(self).map,
            final(self).trace() == old(self).trace() + items_of(final(self).current()),
            final(self).inner.remaining() <= old(self).inner.remaining(),
            final(self).current() is Some ==> final(self).inner.remaining() < old(self).inner.remaining(),
            final(self).finished() == (r is Err || final(self).current() is None),
            final(self).failed() == (r is Err || old(self).failed()),
            final(self).failure() == match r {
                Ok(_) => old(self).failure(),
                Err(e) => Some(e@),
            },
            old(self).finished() ==> r is Ok && final(self).finished(),
            match r {
                Ok(Some(item)) => item.wf() && item.map == final(self).map && final(self).current()
                    == Some(item.item_view()),
                Ok(None) => final(self).current() is None,
                Err(_) => final(self).current() is None,
            },
    {
        match self.advance() {
            Ok(()) => Ok(self.get()),
            Err(e) => Err(e),
        }
    }

    /// The current item, with the map over it.
    pub fn get(&self) -> (r: Option<MappedItem<RawItem<'_>, F>>)
        requires
            self.wf(),
        ensures
            match r {
                Some(item) => item.wf() && item.map == self.map && self.inner.current() == Some(
                    item.inner@,
                ) && self.current() == Some(item.item_view()),
                None => self.current() is None,
            },
    {
        match self.inner.get() {
            Some(item) => {
                proof {
                    self.inner.lemma_current();
                }
                Some(MappedItem { map: self.map, inner: item })
            },
            None => None,
        }
    }
}

} // verus!
