//! The chain of open elements and the borrowed views of it.

use vstd::prelude::*;
use vstd::slice::slice_subrange;
use vstd::string::StringExecFns;
use crate::element::{
    element_text, element_view, lemma_raw_view, AttributeView, Element, ElementView,
    NormalisedAttribute, NormalisedElement, RawElement,
};
use crate::xml::{debug_text, quoted};

verus! {

/// Mathematical value of a path: its elements from the root to the
/// innermost one.
pub type PathView = Seq<ElementView>;

/// Views of a run of owned elements, in order.
pub open spec fn elements_view(elements: Seq<NormalisedElement>) -> PathView {
    Seq::new(elements.len(), |i: int| elements[i]@)
}

/// What an item stands for.
#[derive(Debug)]
pub enum Node {
    DocType(String),
    Start,
    End,
    Text(String),
}

/// Mathematical value of a node.
pub ghost enum NodeView {
    DocType(Seq<char>),
    Start,
    End,
    Text(Seq<char>),
}

impl View for Node {
    type V = NodeView;

    open spec fn view(&self) -> NodeView {
        match self {
            Node::DocType(text) => NodeView::DocType(text@),
            Node::Start => NodeView::Start,
            Node::End => NodeView::End,
            Node::Text(text) => NodeView::Text(text@),
        }
    }
}

impl Clone for Node {
    fn clone(&self) -> (r: Self)
        ensures
            r@ == self@,
    {
        match self {
            Node::DocType(text) => Node::DocType(text.clone()),
            Node::Start => Node::Start,
            Node::End => Node::End,
            Node::Text(text) => Node::Text(text.clone()),
        }
    }
}

/// A node as text: `DOCTYPE` and the declaration, `Start`, `End`, or the
/// text in quotes.
pub open spec fn node_text(node: NodeView) -> Seq<char> {
    match node {
        NodeView::DocType(text) => seq!['D', 'O', 'C', 'T', 'Y', 'P', 'E', ' '] + text,
        NodeView::Start => seq!['S', 't', 'a', 'r', 't'],
        NodeView::End => seq!['E', 'n', 'd'],
        NodeView::Text(text) => quoted(text),
    }
}

/// A path as text: each element, root first, behind a `/`.
pub open spec fn path_text(path: PathView) -> Seq<char>
    decreases path.len(),
{
    if path.len() == 0 {
        Seq::empty()
    } else {
        path_text(path.drop_last()) + seq!['/'] + element_text(path.last())
    }
}

impl Node {
    /// The node as text.
    pub fn describe(&self) -> (r: String)
        ensures
            r@ == node_text(self@),
    {
        proof {
            reveal_strlit("DOCTYPE ");
            reveal_strlit("Start");
            reveal_strlit("End");
        }
        match self {
            Node::DocType(text) => {
                let r = "DOCTYPE ".to_owned().concat(text.as_str());
                assert("DOCTYPE "@ =~= seq!['D', 'O', 'C', 'T', 'Y', 'P', 'E', ' ']);
                r
            },
            Node::Start => {
                assert("Start"@ =~= seq!['S', 't', 'a', 'r', 't']);
                "Start".to_owned()
            },
            Node::End => {
                assert("End"@ =~= seq!['E', 'n', 'd']);
                "End".to_owned()
            },
            Node::Text(text) => debug_text(text.as_str()),
        }
    }

    /// Whether the node opens or closes an element.
    pub open spec fn spec_is_element(&self) -> bool {
        self is Start || self is End
    }

    /// Whether the node opens or closes an element.
    #[verifier::when_used_as_spec(spec_is_element)]
    pub fn is_element(&self) -> (r: bool)
        ensures
            r == self.spec_is_element(),
    {
        match self {
            Node::Start | Node::End => true,
            _ => false,
        }
    }
}

/// An owned path of elements, root first.
#[derive(Debug)]
pub struct ElementPathBuf {
    pub path: Vec<NormalisedElement>,
}

impl View for ElementPathBuf {
    type V = PathView;

    open spec fn view(&self) -> PathView {
        elements_view(self.path@)
    }
}

impl Clone for ElementPathBuf {
    fn clone(&self) -> (r: Self)
        ensures
            r@ == self@,
    {
        let mut path: Vec<NormalisedElement> = Vec::new();
        let mut i: usize = 0;
        while i < self.path.len()
            invariant
                i <= self.path.len(),
                path.len() == i,
                forall|j: int| 0 <= j < i ==> path@[j]@ == self.path@[j]@,
            decreases self.path.len() - i,
        {
            path.push(self.path[i].clone());
            i += 1;
        }
        let r = ElementPathBuf { path };
        assert(r@ =~= self@);
        r
    }
}

/// The value of an element built from a name and pairs of attribute name
/// and value.
pub open spec fn element_of(name: Seq<char>, attrs: Seq<(&str, &str)>) -> ElementView {
    ElementView {
        name,
        attrs: Seq::new(attrs.len(), |i: int| AttributeView { name: attrs[i].0@, value: attrs[i].1@ }),
    }
}

impl ElementPathBuf {
    /// The empty path.
    pub fn new() -> (r: Self)
        ensures
            r@ == PathView::empty(),
    {
        let r = ElementPathBuf { path: Vec::new() };
        assert(r@ =~= PathView::empty());
        r
    }

    /// The node for a run of text; the path stays as it is.
    pub fn text(&self, text: String) -> (r: Node)
        ensures
            r == Node::Text(text),
    {
        Node::Text(text)
    }

    /// The node for a document type declaration; the path stays as it is.
    pub fn doctype(&self, text: String) -> (r: Node)
        ensures
            r == Node::DocType(text),
    {
        Node::DocType(text)
    }

    /// Opens `element`: it becomes the innermost entry of the path.
    pub fn start(&mut self, element: NormalisedElement) -> (r: Node)
        ensures
            final(self)@ == old(self)@.push(element@),
            r == Node::Start,
    {
        self.path.push(element);
        assert(self@ =~= old(self)@.push(element@));
        Node::Start
    }

    /// Appends an element given by its name and its attributes as pairs of
    /// name and value.
    pub fn append_element(&mut self, name: &str, attr: Vec<(&str, &str)>) -> (r: &mut Self)
        ensures
            r@ == old(self)@.push(element_of(name@, attr@)),
            *final(self) == *final(r),
    {
        let mut attrs: Vec<NormalisedAttribute> = Vec::new();
        let mut i: usize = 0;
        while i < attr.len()
            invariant
                i <= attr.len(),
                attrs.len() == i,
                forall|j: int|
                    0 <= j < i ==> attrs@[j]@ == (AttributeView {
                        name: attr@[j].0@,
                        value: attr@[j].1@,
                    }),
            decreases attr.len() - i,
        {
            let pair = attr[i];
            attrs.push(NormalisedAttribute { name: pair.0.to_owned(), value: pair.1.to_owned() });
            i += 1;
        }
        let element = NormalisedElement { name: name.to_owned(), attrs };
        assert(element@.attrs =~= element_of(name@, attr@).attrs);
        self.start(element);
        self
    }

    /// The node for the end of an element; the path stays as it is.
    pub fn end(&self) -> (r: Node)
        ensures
            r == Node::End,
    {
        Node::End
    }

    /// Takes the innermost element off the path.
    pub fn pop(&mut self) -> (r: NormalisedElement)
        requires
            old(self)@.len() > 0,
        ensures
            final(self)@ == old(self)@.drop_last(),
            r@ == old(self)@.last(),
    {
        let r = self.path.pop().unwrap();
        assert(self@ =~= old(self)@.drop_last());
        r
    }

    /// The whole path, borrowed.
    pub fn as_path(&self) -> (r: RawElementPath<'_>)
        ensures
            r@ == self@,
    {
        RawElementPath { path: self.path.as_slice() }
    }
}

/// A read-only view of a run of consecutive elements of a path, outermost
/// first.
pub trait ElementPath: Sized {
    /// The views of single elements that the path hands out.
    type E: Element;

    /// Validity of the view; every constructor of this library establishes it.
    spec fn wf(&self) -> bool;

    /// The elements as consumers of the path see them.
    spec fn path_view(&self) -> PathView;

    /// Number of elements.
    fn len(&self) -> (r: usize)
        requires
            self.wf(),
        ensures
            r == self.path_view().len(),
    ;

    /// The element at `idx`, counted from the outermost one.
    fn get(&self, idx: usize) -> (r: Option<Self::E>)
        requires
            self.wf(),
        ensures
            match r {
                Some(e) => idx < self.path_view().len() && e.wf() && element_view(&e)
                    == self.path_view()[idx as int],
                None => idx >= self.path_view().len(),
            },
    ;

    /// The innermost element and the path above it; `None` on the empty
    /// path.
    fn split_last(&self) -> (r: Option<(Self::E, Self)>)
        requires
            self.wf(),
        ensures
            match r {
                Some((last, rest)) => self.path_view().len() > 0 && last.wf() && element_view(&last)
                    == self.path_view().last() && rest.wf() && rest.path_view()
                    == self.path_view().drop_last(),
                None => self.path_view().len() == 0,
            },
    ;

    /// The elements from `start` up to, not including, `end`.
    fn slice(&self, start: usize, end: usize) -> (r: Self)
        requires
            self.wf(),
            start <= end <= self.path_view().len(),
        ensures
            r.wf(),
            r.path_view() == self.path_view().subrange(start as int, end as int),
    ;
}

/// A borrowed run of consecutive elements of a path, outermost first.
#[derive(Clone, Copy)]
pub struct RawElementPath<'a> {
    pub path: &'a [NormalisedElement],
}

impl<'a> View for RawElementPath<'a> {
    type V = PathView;

    open spec fn view(&self) -> PathView {
        elements_view(self.path@)
    }
}

impl<'a> RawElementPath<'a> {
    /// The view of an element of this path.
    pub fn as_element(&self, first: &'a NormalisedElement) -> (r: RawElement<'a>)
        ensures
            r.element == first,
    {
        RawElement { element: first }
    }

    /// The path as text: each element, root first, behind a `/`.
    pub fn describe(&self) -> (r: String)
        ensures
            r@ == path_text(self@),
    {
        let mut text = String::new();
        let mut i: usize = 0;
        assert(self@.take(0) =~= PathView::empty());
        while i < self.path.len()
            invariant
                i <= self.path.len(),
                text@ == path_text(self@.take(i as int)),
            decreases self.path.len() - i,
        {
            let element = self.path[i].describe();
            proof {
                reveal_strlit("/");
                assert("/"@ =~= seq!['/']);
                assert(self@.take(i + 1).drop_last() =~= self@.take(i as int));
                assert(self@.take(i + 1).last() == self.path@[i as int]@);
            }
            text.append("/");
            text.append(element.as_str());
            i += 1;
        }
        assert(self@.take(self@.len() as int) =~= self@);
        text
    }

    /// The item that opens the innermost element; `None` on the empty path.
    pub fn as_item(&self) -> (r: Option<RawItem<'a>>)
        ensures
            match r {
                Some(item) => self@.len() > 0 && item.context == *self && item.node == Node::Start,
                None => self@.len() == 0,
            },
    {
        if self.path.len() > 0 {
            Some(RawItem { context: *self, node: Node::Start })
        } else {
            None
        }
    }
}

impl<'a> ElementPath for RawElementPath<'a> {
    type E = RawElement<'a>;

    open spec fn wf(&self) -> bool {
        true
    }

    open spec fn path_view(&self) -> PathView {
        self@
    }

    fn len(&self) -> (r: usize) {
        self.path.len()
    }

    fn get(&self, idx: usize) -> (r: Option<RawElement<'a>>) {
        if idx < self.path.len() {
            let e = RawElement { element: &self.path[idx] };
            proof {
                lemma_raw_view(&e);
            }
            Some(e)
        } else {
            None
        }
    }

    fn split_last(&self) -> (r: Option<(RawElement<'a>, RawElementPath<'a>)>) {
        let n = self.path.len();
        if n == 0 {
            None
        } else {
            let rest = RawElementPath { path: slice_subrange(self.path, 0, n - 1) };
            let last = RawElement { element: &self.path[n - 1] };
            proof {
                lemma_raw_view(&last);
                assert(rest@ =~= self@.drop_last());
                assert(self@.last() == self.path@[n - 1]@);
                assert(element_view(&last) == self.path_view().last());
                assert(rest.path_view() == self.path_view().drop_last());
                assert(last.wf());
                assert(rest.wf());
            }
            Some((last, rest))
        }
    }

    fn slice(&self, start: usize, end: usize) -> (r: RawElementPath<'a>) {
        let r = RawElementPath { path: slice_subrange(self.path, start, end) };
        assert(r@ =~= self@.subrange(start as int, end as int));
        r
    }
}

/// The elements of a path that are still to be handed out, from either end.
pub struct ElementPathIter<'a>(pub RawElementPath<'a>);

impl<'a> View for ElementPathIter<'a> {
    type V = PathView;

    open spec fn view(&self) -> PathView {
        self.0@
    }
}

impl<'a> RawElementPath<'a> {
    /// The elements of the path, to be handed out one by one.
    pub fn into_iter(self) -> (r: ElementPathIter<'a>)
        ensures
            r@ == self@,
    {
        ElementPathIter(self)
    }
}

impl<'a> ElementPathIter<'a> {
    /// Hands out the outermost element that is left.
    pub fn next(&mut self) -> (r: Option<RawElement<'a>>)
        ensures
            match r {
                Some(e) => old(self)@.len() > 0 && e.element@ == old(self)@.first() && final(self)@
                    == old(self)@.drop_first(),
                None => old(self)@.len() == 0 && final(self)@ == old(self)@,
            },
    {
        let n = self.0.path.len();
        if n == 0 {
            None
        } else {
            let first = self.0.as_element(&self.0.path[0]);
            self.0 = RawElementPath { path: slice_subrange(self.0.path, 1, n) };
            assert(self@ =~= old(self)@.drop_first());
            Some(first)
        }
    }

    /// Hands out the innermost element that is left.
    pub fn next_back(&mut self) -> (r: Option<RawElement<'a>>)
        ensures
            match r {
                Some(e) => old(self)@.len() > 0 && e.element@ == old(self)@.last() && final(self)@
                    == old(self)@.drop_last(),
                None => old(self)@.len() == 0 && final(self)@ == old(self)@,
            },
    {
        let n = self.0.path.len();
        if n == 0 {
            None
        } else {
            let last = self.0.as_element(&self.0.path[n - 1]);
            self.0 = RawElementPath { path: slice_subrange(self.0.path, 0, n - 1) };
            assert(self@ =~= old(self)@.drop_last());
            Some(last)
        }
    }
}

/// One step of a traversal: the node reached and the path of the elements
/// open at it. For a node that opens or closes an element the path ends
/// with that element.
pub struct RawItem<'a> {
    pub context: RawElementPath<'a>,
    pub node: Node,
}

impl NodeView {
    /// Whether the node opens or closes an element.
    pub open spec fn is_element(self) -> bool {
        self is Start || self is End
    }
}

/// Mathematical value of an item.
pub ghost struct ItemView {
    pub path: PathView,
    pub node: NodeView,
}

impl ItemView {
    /// An item that opens or closes an element has that element at the end
    /// of its path.
    pub open spec fn wf(self) -> bool {
        self.node.is_element() ==> self.path.len() > 0
    }

    /// The ancestors alone: the path without the element that the node
    /// opens or closes.
    pub open spec fn context(self) -> PathView {
        if self.node.is_element() {
            self.path.drop_last()
        } else {
            self.path
        }
    }
}

impl<'a> View for RawItem<'a> {
    type V = ItemView;

    open spec fn view(&self) -> ItemView {
        ItemView { path: self.context@, node: self.node@ }
    }
}

impl<'a> RawItem<'a> {
    /// The item as text: the path, a `/`, and the node.
    pub fn describe(&self) -> (r: String)
        ensures
            r@ == path_text(self@.path) + seq!['/'] + node_text(self@.node),
    {
        let node = self.node.describe();
        proof {
            reveal_strlit("/");
            assert("/"@ =~= seq!['/']);
        }
        self.context.describe().concat("/").concat(node.as_str())
    }
}

} // verus!
