//! Selectors: tests on one element, and tests on an element together with
//! the path of its ancestors.

use vstd::prelude::*;
use crate::element::{element_view, str_eq, Element, ElementView};
use crate::element_path::{ElementPath, ItemView, PathView, RawItem};

verus! {

/// A test on one element in isolation.
pub trait Selector {
    /// Whether the selector matches an element of this value.
    spec fn matches(&self, e: ElementView) -> bool;

    fn is_match<E: Element>(&self, element: &E) -> (r: bool)
        requires
            element.wf(),
        ensures
            r == self.matches(element_view(element)),
    ;
}

/// A test on the element at the end of a path, in the context of the
/// elements above it.
pub trait ContextualSelector {
    /// Whether the selector matches the last element of `path`.
    spec fn context_matches(&self, path: PathView) -> bool;

    fn context_match<P: ElementPath>(&self, path: &P) -> (r: bool)
        requires
            path.wf(),
        ensures
            r == self.context_matches(path.path_view()),
    ;
}

/// Whether a contextual selector matches some prefix of `path`, that is
/// the element at its end or one of that element's ancestors.
pub open spec fn matches_any<S: ContextualSelector + ?Sized>(selector: &S, path: PathView) -> bool {
    exists|k: int| 0 <= k <= path.len() && selector.context_matches(#[trigger] path.take(k))
}

/// What a selector matches somewhere on a path, it matches somewhere on
/// every path that goes on from it: an element that is matched stays
/// matched for everything below it.
pub proof fn lemma_match_any_extends<S: ContextualSelector + ?Sized>(
    selector: &S,
    path: PathView,
    longer: PathView,
)
    requires
        matches_any(selector, path),
        path.len() <= longer.len(),
        longer.take(path.len() as int) == path,
    ensures
        matches_any(selector, longer),
{
    let k = choose|k: int| 0 <= k <= path.len() && selector.context_matches(#[trigger] path.take(k));
    assert(longer.take(k) =~= path.take(k));
}

/// A test on the ancestors of an element alone.
pub trait OnlyContextualSelector {
    /// Whether the ancestors `context`, outermost first, satisfy the test.
    spec fn context_holds(&self, context: PathView) -> bool;

    fn match_any<P: ElementPath>(&self, context: P) -> (r: bool)
        requires
            context.wf(),
        ensures
            r == self.context_holds(context.path_view()),
    ;
}

impl<S: Selector> ContextualSelector for S {
    /// A test on one element, lifted: it is applied to the last element of
    /// the path and ignores the others.
    open spec fn context_matches(&self, path: PathView) -> bool {
        path.len() > 0 && self.matches(path.last())
    }

    fn context_match<P: ElementPath>(&self, path: &P) -> (r: bool) {
        match path.split_last() {
            Some((element, _)) => {
                self.is_match(&element)
            },
            None => false,
        }
    }
}

/// Matches the elements with a given name.
pub struct NameSelector(pub &'static str);

impl Selector for NameSelector {
    open spec fn matches(&self, e: ElementView) -> bool {
        e.name == self.0@
    }

    fn is_match<E: Element>(&self, element: &E) -> (r: bool) {
        str_eq(element.name(), self.0)
    }
}

/// Matches the elements that have a given class among their class tokens.
pub struct ClassSelector(pub &'static str);

impl Selector for ClassSelector {
    open spec fn matches(&self, e: ElementView) -> bool {
        e.classes().contains(self.0@)
    }

    fn is_match<E: Element>(&self, element: &E) -> (r: bool) {
        has_class(element, self.0)
    }
}

/// Whether `class` is one of the element's class tokens.
pub fn has_class<E: Element>(element: &E, class: &str) -> (r: bool)
    requires
        element.wf(),
    ensures
        r == element_view(element).classes().contains(class@),
{
    let mut classes = element.classes();
    let ghost all = classes@;
    loop
        invariant
            all == element_view(element).classes(),
            all.contains(class@) == classes@.contains(class@),
        decreases classes@.len(),
    {
        let ghost before = classes@;
        match classes.next() {
            Some(token) => {
                assert(before =~= seq![token@] + classes@);
                if str_eq(token, class) {
                    assert(before[0] == class@);
                    return true;
                }
                assert(before.contains(class@) == classes@.contains(class@)) by {
                    if before.contains(class@) {
                        let i = choose|i: int| 0 <= i < before.len() && before[i] == class@;
                        assert(classes@[i - 1] == class@);
                    }
                    if classes@.contains(class@) {
                        let i = choose|i: int| 0 <= i < classes@.len() && classes@[i] == class@;
                        assert(before[i + 1] == class@);
                    }
                }
            },
            None => {
                return false;
            },
        }
    }
}

/// Matches the elements whose `id` attribute has a given value.
pub struct IdSelector(pub &'static str);

impl Selector for IdSelector {
    open spec fn matches(&self, e: ElementView) -> bool {
        e.attr("id"@) == Some(self.0@)
    }

    fn is_match<E: Element>(&self, element: &E) -> (r: bool) {
        match element.attr("id") {
            Some(id) => str_eq(id, self.0),
            None => false,
        }
    }
}

/// Matches every element, and holds of every context.
pub struct MatchAll;

impl Selector for MatchAll {
    open spec fn matches(&self, e: ElementView) -> bool {
        true
    }

    fn is_match<E: Element>(&self, element: &E) -> (r: bool) {
        true
    }
}

impl OnlyContextualSelector for MatchAll {
    open spec fn context_holds(&self, context: PathView) -> bool {
        true
    }

    fn match_any<P: ElementPath>(&self, context: P) -> (r: bool) {
        true
    }
}

/// Matches the elements that both operands match.
pub struct AndSelector<A: Selector, B: Selector>(pub A, pub B);

impl<A: Selector, B: Selector> Selector for AndSelector<A, B> {
    open spec fn matches(&self, e: ElementView) -> bool {
        self.0.matches(e) && self.1.matches(e)
    }

    fn is_match<E: Element>(&self, element: &E) -> (r: bool) {
        self.0.is_match(element) && self.1.is_match(element)
    }
}

/// Matches where either operand matches.
pub struct GroupSelector<A: ContextualSelector, B: ContextualSelector>(pub A, pub B);

impl<A: ContextualSelector, B: ContextualSelector> ContextualSelector for GroupSelector<A, B> {
    open spec fn context_matches(&self, path: PathView) -> bool {
        self.0.context_matches(path) || self.1.context_matches(path)
    }

    fn context_match<P: ElementPath>(&self, path: &P) -> (r: bool) {
        self.0.context_match(path) || self.1.context_match(path)
    }
}

/// The methods that combine selectors of single elements.
pub trait SelectorExt: Selector + Sized {
    /// The selector that matches what both `self` and `other` match.
    fn and<O: Selector>(self, other: O) -> (r: AndSelector<Self, O>)
        ensures
            r.0 == self,
            r.1 == other,
    ;
}

impl<S: Selector> SelectorExt for S {
    fn and<O: Selector>(self, other: O) -> (r: AndSelector<Self, O>) {
        AndSelector(self, other)
    }
}

/// Whether a contextual selector matches an item: the item must open or
/// close an element, and the selector must match that element in the
/// context of its ancestors.
pub open spec fn matches_item<S: ContextualSelector + ?Sized>(selector: &S, item: ItemView) -> bool {
    item.node.is_element() && selector.context_matches(item.path)
}

/// The methods that every contextual selector has besides its own.
pub trait ContextualSelectorExt: ContextualSelector + Sized {
    /// The selector that matches where `self` or `other` matches.
    fn or<O: ContextualSelector>(self, other: O) -> (r: GroupSelector<Self, O>)
        ensures
            r.0 == self,
            r.1 == other,
    ;

    /// Whether the selector matches the element that `item` opens or
    /// closes. An item of text or of a document type is never matched.
    fn item_match(&self, item: &RawItem<'_>) -> (r: bool)
        ensures
            r == matches_item(self, item@),
    ;

    /// Whether the selector matches the last element of `path` or the last
    /// element of any shorter prefix of it, the empty one included.
    fn match_any<P: ElementPath>(&self, path: P) -> (r: bool)
        requires
            path.wf(),
        ensures
            r == matches_any(self, path.path_view()),
    ;
}

impl<S: ContextualSelector> ContextualSelectorExt for S {
    fn or<O: ContextualSelector>(self, other: O) -> (r: GroupSelector<Self, O>) {
        GroupSelector(self, other)
    }

    fn item_match(&self, item: &RawItem<'_>) -> (r: bool) {
        item.node.is_element() && self.context_match(&item.context)
    }

    fn match_any<P: ElementPath>(&self, path: P) -> (r: bool) {
        let ghost whole = path.path_view();
        let mut current = path;
        assert(whole.take(whole.len() as int) =~= whole);
        loop
            invariant
                whole == path.path_view(),
                current.wf(),
                current.path_view().len() <= whole.len(),
                current.path_view() == whole.take(current.path_view().len() as int),
                forall|k: int|
                    current.path_view().len() < k <= whole.len() ==> !self.context_matches(
                        #[trigger] whole.take(k),
                    ),
            decreases current.path_view().len(),
        {
            if self.context_match(&current) {
                return true;
            }
            match current.split_last() {
                Some((_, parent)) => {
                    assert(parent.path_view() =~= whole.take(parent.path_view().len() as int));
                    current = parent;
                },
                None => {
                    return false;
                },
            }
        }
    }
}

/// Index of the innermost element of `context` that passes `test`.
pub open spec fn innermost(context: PathView, test: spec_fn(ElementView) -> bool) -> Option<int>
    decreases context.len(),
{
    if context.len() == 0 {
        None
    } else if test(context.last()) {
        Some(context.len() - 1)
    } else {
        innermost(context.drop_last(), test)
    }
}

/// The innermost passing element is the last one that passes: it passes,
/// nothing inside it does, and there is none exactly where nothing passes.
pub proof fn lemma_innermost(context: PathView, test: spec_fn(ElementView) -> bool)
    ensures
        match innermost(context, test) {
            Some(i) => 0 <= i < context.len() && test(context[i]) && forall|j: int|
                i < j < context.len() ==> !test(#[trigger] context[j]),
            None => forall|j: int| 0 <= j < context.len() ==> !test(#[trigger] context[j]),
        },
    decreases context.len(),
{
    if context.len() > 0 && !test(context.last()) {
        let above = context.drop_last();
        lemma_innermost(above, test);
        assert forall|j: int| 0 <= j < above.len() implies above[j] == context[j] by {}
        match innermost(above, test) {
            Some(i) => {
                assert forall|j: int| i < j < context.len() implies !test(#[trigger] context[j]) by {
                    if j < above.len() {
                        assert(above[j] == context[j]);
                    }
                }
            },
            None => {
                assert forall|j: int| 0 <= j < context.len() implies !test(#[trigger] context[j]) by {
                    if j < above.len() {
                        assert(above[j] == context[j]);
                    }
                }
            },
        }
    }
}

/// The test that a selector applies to single elements.
pub open spec fn element_test<S: Selector>(selector: &S) -> spec_fn(ElementView) -> bool {
    |e: ElementView| selector.matches(e)
}

/// One more step of a descendant chain, read outward: `1` must match some
/// ancestor, and `0` must hold of what lies above the innermost such
/// ancestor. The search does not come back to an ancestor further out when
/// `0` fails there.
pub struct ContextSelectCons<C, A>(pub C, pub A);

impl<C: OnlyContextualSelector, A: Selector> OnlyContextualSelector for ContextSelectCons<C, A> {
    open spec fn context_holds(&self, context: PathView) -> bool {
        match innermost(context, element_test(&self.1)) {
            Some(i) => self.0.context_holds(context.take(i)),
            None => false,
        }
    }

    fn match_any<P: ElementPath>(&self, context: P) -> (r: bool) {
        let ghost whole = context.path_view();
        let mut current = context;
        assert(whole.take(whole.len() as int) =~= whole);
        loop
            invariant
                whole == context.path_view(),
                current.wf(),
                innermost(current.path_view(), element_test(&self.1)) == innermost(
                    whole,
                    element_test(&self.1),
                ),
                current.path_view() == whole.take(current.path_view().len() as int),
                current.path_view().len() <= whole.len(),
            decreases current.path_view().len(),
        {
            match current.split_last() {
                Some((last, rest)) => {
                    proof {
                        assert(rest.path_view() =~= whole.take(rest.path_view().len() as int));
                    }
                    if self.1.is_match(&last) {
                        return self.0.match_any(rest);
                    }
                    current = rest;
                },
                None => {
                    return false;
                },
            }
        }
    }
}

/// A descendant chain: `1` must match the element itself and `0` must hold
/// of its ancestors.
pub struct ContextualSelectCons<C: OnlyContextualSelector, A: Selector>(pub C, pub A);

impl<C: OnlyContextualSelector, A: Selector> ContextualSelector for ContextualSelectCons<C, A> {
    open spec fn context_matches(&self, path: PathView) -> bool {
        path.len() > 0 && self.1.matches(path.last()) && self.0.context_holds(path.drop_last())
    }

    fn context_match<P: ElementPath>(&self, path: &P) -> (r: bool) {
        match path.split_last() {
            Some((element, rest)) => {
                self.1.is_match(&element) && self.0.match_any(rest)
            },
            None => false,
        }
    }
}

/// A chain of two selectors matches an element exactly when the second
/// matches the element and the first matches one of its ancestors. An
/// element with the same name or class elsewhere in the document, off the
/// line of ancestors, does not count.
pub proof fn lemma_descendant_pair<A: Selector, B: Selector>(
    chain: &ContextualSelectCons<ContextSelectCons<MatchAll, A>, B>,
    path: PathView,
)
    ensures
        chain.context_matches(path) <==> path.len() > 0 && chain.1.matches(path.last()) && exists|
            i: int,
        |
            0 <= i < path.len() - 1 && chain.0.1.matches(#[trigger] path[i]),
{
    if path.len() > 0 {
        let above = path.drop_last();
        let test = element_test(&chain.0.1);
        lemma_innermost(above, test);
        match innermost(above, test) {
            Some(i) => {
                assert(above[i] == path[i]);
            },
            None => {
                assert forall|i: int| 0 <= i < path.len() - 1 implies !chain.0.1.matches(
                    #[trigger] path[i],
                ) by {
                    assert(above[i] == path[i]);
                }
            },
        }
    }
}

/// Whether the selectors of `chain`, innermost last, each find an ancestor
/// in `context`: the last one its innermost match, the one before it its
/// innermost match above that, and so on outward. An ancestor that has been
/// passed over is not looked at again.
pub open spec fn ancestors_hold<S: Selector>(chain: Seq<S>, context: PathView) -> bool
    decreases chain.len(),
{
    if chain.len() == 0 {
        true
    } else {
        match innermost(context, element_test(&chain.last())) {
            Some(i) => ancestors_hold(chain.drop_last(), context.take(i)),
            None => false,
        }
    }
}

/// Whether a descendant chain matches the element at the end of `path`:
/// its last selector must match that element, and the selectors before it
/// must hold of the ancestors. The empty chain matches everything.
pub open spec fn chain_matches<S: Selector>(chain: Seq<S>, path: PathView) -> bool {
    chain.len() == 0 || (path.len() > 0 && chain.last().matches(path.last()) && ancestors_hold(
        chain.drop_last(),
        path.drop_last(),
    ))
}

/// A descendant chain given as a list of selectors, outermost first.
impl<S: Selector> ContextualSelector for [S] {
    open spec fn context_matches(&self, path: PathView) -> bool {
        chain_matches(self@, path)
    }

    fn context_match<P: ElementPath>(&self, path: &P) -> (r: bool) {
        let n = self.len();
        if n == 0 {
            return true;
        }
        let (element, above) = match path.split_last() {
            Some(parts) => parts,
            None => {
                return false;
            },
        };
        if !self[n - 1].is_match(&element) {
            return false;
        }
        let mut context = above;
        let mut left: usize = n - 1;
        assert(self@.drop_last() =~= self@.take(left as int));
        while left > 0
            invariant
                left < n,
                n == self@.len(),
                context.wf(),
                chain_matches(self@, path.path_view()) == ancestors_hold(
                    self@.take(left as int),
                    context.path_view(),
                ),
            decreases left,
        {
            let selector = &self[left - 1];
            let ghost chain = self@.take(left as int);
            let ghost whole = context.path_view();
            assert(chain.last() == *selector);
            assert(chain.drop_last() =~= self@.take(left - 1));
            let mut found = false;
            assert(whole.take(whole.len() as int) =~= whole);
            while !found
                invariant
                    chain.len() > 0,
                    chain.last() == *selector,
                    context.wf(),
                    chain_matches(self@, path.path_view()) == ancestors_hold(chain, whole),
                    context.path_view().len() <= whole.len(),
                    context.path_view() == whole.take(context.path_view().len() as int),
                    !found ==> innermost(context.path_view(), element_test(selector)) == innermost(
                        whole,
                        element_test(selector),
                    ),
                    found ==> innermost(whole, element_test(selector)) == Some(
                        context.path_view().len() as int,
                    ),
                decreases context.path_view().len() + if found { 0nat } else { 1nat },
            {
                match context.split_last() {
                    Some((candidate, rest)) => {
                        proof {
                            assert(rest.path_view() =~= whole.take(
                                rest.path_view().len() as int,
                            ));
                        }
                        found = selector.is_match(&candidate);
                        context = rest;
                    },
                    None => {
                        return false;
                    },
                }
            }
            left -= 1;
        }
        true
    }
}

} // verus!
