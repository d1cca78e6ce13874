//! A selector that holds several requirements on one element at once.

use vstd::prelude::*;
use crate::element::{element_view, str_eq, Element, ElementView};
use crate::selector::{has_class, Selector};

verus! {

/// Mathematical value of an element matcher.
pub ghost struct ElementMatcherView {
    /// The name that the element must have, if any.
    pub name: Option<Seq<char>>,
    /// The value that the element's `id` attribute must have, if any.
    pub id: Option<Seq<char>>,
    /// The classes that must all be among the element's class tokens.
    pub classes: Seq<Seq<char>>,
}

impl ElementMatcherView {
    /// Whether an element of value `e` meets every requirement.
    pub open spec fn matches(self, e: ElementView) -> bool {
        &&& self.name matches Some(name) ==> e.name == name
        &&& self.id matches Some(id) ==> e.attr("id"@) == Some(id)
        &&& forall|i: int| 0 <= i < self.classes.len() ==> e.classes().contains(#[trigger] self.classes[i])
    }
}

/// Matches the elements that have a given name, a given `id` and every one
/// of a list of classes; each requirement may be left out.
#[derive(Debug)]
pub struct ElementMatcher {
    name: Option<String>,
    id: Option<String>,
    classes: Vec<String>,
}

impl View for ElementMatcher {
    type V = ElementMatcherView;

    closed spec fn view(&self) -> ElementMatcherView {
        ElementMatcherView {
            name: match self.name {
                Some(name) => Some(name@),
                None => None,
            },
            id: match self.id {
                Some(id) => Some(id@),
                None => None,
            },
            classes: Seq::new(self.classes@.len(), |i: int| self.classes@[i]@),
        }
    }
}

impl Default for ElementMatcher {
    /// The matcher without requirements: it matches every element.
    fn default() -> (r: Self)
        ensures
            r@ == (ElementMatcherView { name: None, id: None, classes: Seq::empty() }),
    {
        let r = ElementMatcher { name: None, id: None, classes: Vec::new() };
        assert(r@.classes =~= Seq::<Seq<char>>::empty());
        r
    }
}

impl ElementMatcher {
    /// Whether the element meets every requirement.
    pub fn element_match<E: Element>(&self, element: &E) -> (r: bool)
        requires
            element.wf(),
        ensures
            r == self@.matches(element_view(element)),
    {
        match &self.name {
            Some(name) => {
                if !str_eq(element.name(), name.as_str()) {
                    return false;
                }
            },
            None => {},
        }
        match &self.id {
            Some(id) => {
                match element.attr("id") {
                    Some(found) => {
                        if !str_eq(found, id.as_str()) {
                            return false;
                        }
                    },
                    None => {
                        return false;
                    },
                }
            },
            None => {},
        }
        let mut i: usize = 0;
        while i < self.classes.len()
            invariant
                element.wf(),
                i <= self.classes.len(),
                forall|j: int|
                    0 <= j < i ==> element_view(element).classes().contains(#[trigger] self@.classes[j]),
            decreases self.classes.len() - i,
        {
            if !has_class(element, self.classes[i].as_str()) {
                assert(self@.classes[i as int] == self.classes@[i as int]@);
                return false;
            }
            assert(self@.classes[i as int] == self.classes@[i as int]@);
            i += 1;
        }
        true
    }

    /// The matcher that requires `class` as well.
    pub fn class(self, class: String) -> (r: Self)
        ensures
            r@ == (ElementMatcherView { classes: self@.classes.push(class@), ..self@ }),
    {
        let mut classes = self.classes;
        classes.push(class);
        let r = ElementMatcher { name: self.name, id: self.id, classes };
        assert(r@.classes =~= self@.classes.push(class@));
        r
    }

    /// The matcher that requires the name `local_name`, in place of any
    /// name required before.
    pub fn name(self, local_name: String) -> (r: Self)
        ensures
            r@ == (ElementMatcherView { name: Some(local_name@), ..self@ }),
    {
        ElementMatcher { name: Some(local_name), id: self.id, classes: self.classes }
    }

    /// The matcher that requires the `id` attribute to be `id`, in place of
    /// any value required before.
    pub fn id(self, id: String) -> (r: Self)
        ensures
            r@ == (ElementMatcherView { id: Some(id@), ..self@ }),
    {
        ElementMatcher { name: self.name, id: Some(id), classes: self.classes }
    }
}

impl Selector for ElementMatcher {
    open spec fn matches(&self, e: ElementView) -> bool {
        self@.matches(e)
    }

    fn is_match<E: Element>(&self, element: &E) -> (r: bool) {
        self.element_match(element)
    }
}

} // verus!
