//! Path tracking for a tree builder.
//!
//! A tree builder does not report start and end tags. It creates elements,
//! each under a handle, and later appends an element or text to a parent
//! given by its handle. The tracker here follows that protocol: it keeps the
//! elements that have been created and not yet appended, and the path of the
//! elements that have been appended and are still open.

use vstd::prelude::*;
use crate::element::{ElementView, NormalisedAttribute, NormalisedElement};

verus! {

/// The handle that stands for the document itself.
pub const DOCUMENT: u32 = 0;

/// An element under its handle.
#[derive(Debug)]
pub struct TraversalNode {
    pub handle: u32,
    pub element: NormalisedElement,
}

/// Mathematical value of an element under its handle.
pub ghost struct TraversalNodeView {
    pub handle: u32,
    pub element: ElementView,
}

impl View for TraversalNode {
    type V = TraversalNodeView;

    open spec fn view(&self) -> TraversalNodeView {
        TraversalNodeView { handle: self.handle, element: self.element@ }
    }
}

/// An element of the path as a sink of a tree builder is shown it.
pub struct HtmlPathElement<'a> {
    pub handle: u32,
    pub name: &'a str,
    pub attrs: &'a Vec<NormalisedAttribute>,
}

impl TraversalNode {
    /// The node as it is shown to a sink, borrowed.
    pub fn as_html_path_element(&self) -> (r: HtmlPathElement<'_>)
        ensures
            r.handle == self.handle,
            r.name@ == self.element.name@,
            r.attrs@ == self.element.attrs@,
    {
        HtmlPathElement {
            handle: self.handle,
            name: self.element.name.as_str(),
            attrs: &self.element.attrs,
        }
    }
}

/// Views of a run of nodes, in order.
pub open spec fn nodes_view(nodes: Seq<TraversalNode>) -> Seq<TraversalNodeView> {
    Seq::new(nodes.len(), |i: int| nodes[i]@)
}

/// Index of the last node of `nodes` that stands under `handle`.
pub open spec fn last_under(nodes: Seq<TraversalNodeView>, handle: u32) -> Option<int>
    decreases nodes.len(),
{
    if nodes.len() == 0 {
        None
    } else if nodes.last().handle == handle {
        Some(nodes.len() - 1)
    } else {
        last_under(nodes.drop_last(), handle)
    }
}

/// The last match is a match, nothing after it is, and there is none
/// exactly where nothing matches.
pub proof fn lemma_last_under(nodes: Seq<TraversalNodeView>, handle: u32)
    ensures
        match last_under(nodes, handle) {
            Some(i) => 0 <= i < nodes.len() && nodes[i].handle == handle && forall|j: int|
                i < j < nodes.len() ==> (#[trigger] nodes[j]).handle != handle,
            None => forall|j: int| 0 <= j < nodes.len() ==> (#[trigger] nodes[j]).handle != handle,
        },
    decreases nodes.len(),
{
    if nodes.len() > 0 && nodes.last().handle != handle {
        let front = nodes.drop_last();
        lemma_last_under(front, handle);
        match last_under(front, handle) {
            Some(i) => {
                assert forall|j: int| i < j < nodes.len() implies (#[trigger] nodes[j]).handle
                    != handle by {
                    if j < front.len() {
                        assert(front[j] == nodes[j]);
                    }
                }
            },
            None => {
                assert forall|j: int| 0 <= j < nodes.len() implies (#[trigger] nodes[j]).handle
                    != handle by {
                    if j < front.len() {
                        assert(front[j] == nodes[j]);
                    }
                }
            },
        }
    }
}

/// The path once everything below `parent` has been closed: the path up to
/// and with the innermost node under `parent`, or the empty path where
/// `parent` is the document.
pub open spec fn closed_to(path: Seq<TraversalNodeView>, parent: u32) -> Seq<TraversalNodeView> {
    match last_under(path, parent) {
        Some(i) => path.take(i + 1),
        None => Seq::empty(),
    }
}

/// What is appended to a parent.
#[derive(Debug)]
pub enum Child {
    /// The element created under this handle.
    Node(u32),
    /// A run of text.
    Text(String),
}

/// What an append has come to, for the sink to be told.
#[derive(Debug, PartialEq, Eq)]
pub enum Appended {
    /// The element is now the innermost entry of the path.
    Element,
    /// The text lies under the path as it now stands.
    Text(String),
    /// The parent is not on the path: nothing has changed.
    Ignored,
    /// No element has been created under the handle, or it has been
    /// appended before. The path has been closed down to the parent.
    Missing,
}

/// Mathematical value of the tracker.
pub ghost struct ParseTraverserView {
    /// The handle given out last.
    pub handle: u32,
    /// The elements that are open, root first.
    pub traversal: Seq<TraversalNodeView>,
    /// The elements that have been created and not yet appended.
    pub free_nodes: Seq<TraversalNodeView>,
}

impl ParseTraverserView {
    /// Whether `parent` can take a child: it is the document or it is on
    /// the path.
    pub open spec fn accepts(self, parent: u32) -> bool {
        parent == DOCUMENT || last_under(self.traversal, parent) is Some
    }

    /// The state after `child`, an element, has been appended to `parent`.
    pub open spec fn append_node(self, parent: u32, child: u32) -> ParseTraverserView {
        if !self.accepts(parent) {
            self
        } else {
            let path = closed_to(self.traversal, parent);
            match last_under(self.free_nodes, child) {
                Some(i) => ParseTraverserView {
                    traversal: path.push(self.free_nodes[i]),
                    free_nodes: self.free_nodes.remove(i),
                    ..self
                },
                None => ParseTraverserView { traversal: path, ..self },
            }
        }
    }

    /// The state after text has been appended to `parent`.
    pub open spec fn append_text(self, parent: u32) -> ParseTraverserView {
        if !self.accepts(parent) {
            self
        } else {
            ParseTraverserView { traversal: closed_to(self.traversal, parent), ..self }
        }
    }
}

/// Follows the calls of a tree builder and keeps the path of the elements
/// that are open.
pub struct ParseTraverser {
    handle: u32,
    traversal: Vec<TraversalNode>,
    free_nodes: Vec<TraversalNode>,
}

impl View for ParseTraverser {
    type V = ParseTraverserView;

    closed spec fn view(&self) -> ParseTraverserView {
        ParseTraverserView {
            handle: self.handle,
            traversal: nodes_view(self.traversal@),
            free_nodes: nodes_view(self.free_nodes@),
        }
    }
}

impl ParseTraverser {
    /// The tracker for a whole document: nothing is open.
    pub fn new_document() -> (r: Self)
        ensures
            r@ == (ParseTraverserView {
                handle: 0,
                traversal: Seq::empty(),
                free_nodes: Seq::empty(),
            }),
    {
        let r = ParseTraverser { handle: 0, traversal: Vec::new(), free_nodes: Vec::new() };
        assert(r@.traversal =~= Seq::empty());
        assert(r@.free_nodes =~= Seq::empty());
        r
    }

    /// The tracker for a fragment: a `body` element without attributes is
    /// open, under the handle 1.
    pub fn new_fragment() -> (r: Self)
        ensures
            r@ == (ParseTraverserView {
                handle: 1,
                traversal: seq![
                    TraversalNodeView {
                        handle: 1,
                        element: ElementView { name: "body"@, attrs: Seq::empty() },
                    },
                ],
                free_nodes: Seq::empty(),
            }),
    {
        let body = TraversalNode {
            handle: 1,
            element: NormalisedElement { name: "body".to_owned(), attrs: Vec::new() },
        };
        assert(body@.element.attrs =~= Seq::empty());
        let mut traversal = Vec::new();
        traversal.push(body);
        let r = ParseTraverser { handle: 1, traversal, free_nodes: Vec::new() };
        assert(r@.traversal =~= seq![body@]);
        assert(r@.free_nodes =~= Seq::empty());
        r
    }

    /// The last node of `nodes` under `handle`.
    fn find(nodes: &Vec<TraversalNode>, handle: u32) -> (r: Option<usize>)
        ensures
            match r {
                Some(i) => last_under(nodes_view(nodes@), handle) == Some(i as int) && i
                    < nodes@.len() && nodes@[i as int].handle == handle,
                None => last_under(nodes_view(nodes@), handle) is None,
            },
    {
        let ghost all = nodes_view(nodes@);
        let mut i = nodes.len();
        assert(all.take(i as int) =~= all);
        while i > 0
            invariant
                i <= nodes@.len(),
                all == nodes_view(nodes@),
                last_under(all, handle) == last_under(all.take(i as int), handle),
            decreases i,
        {
            if nodes[i - 1].handle == handle {
                return Some(i - 1);
            }
            assert(all.take(i as int).drop_last() =~= all.take(i - 1));
            i -= 1;
        }
        None
    }

    /// The element under `target`: the innermost one on the path, or else
    /// the one created last and not yet appended.
    pub fn node(&self, target: u32) -> (r: Option<&TraversalNode>)
        ensures
            match r {
                Some(node) => node.handle == target && match last_under(self@.traversal, target) {
                    Some(i) => node@ == self@.traversal[i],
                    None => last_under(self@.free_nodes, target) matches Some(i) && node@
                        == self@.free_nodes[i],
                },
                None => last_under(self@.traversal, target) is None && last_under(
                    self@.free_nodes,
                    target,
                ) is None,
            },
    {
        match Self::find(&self.traversal, target) {
            Some(i) => Some(&self.traversal[i]),
            None => match Self::find(&self.free_nodes, target) {
                Some(i) => Some(&self.free_nodes[i]),
                None => None,
            },
        }
    }

    /// Takes in a new element and hands back the handle it now stands
    /// under, the successor of the handle given out last. `None`, with
    /// nothing changed, once the handles are used up.
    pub fn create_element(&mut self, element: NormalisedElement) -> (r: Option<u32>)
        ensures
            match r {
                Some(handle) => handle == old(self)@.handle + 1 && final(self)@ == (
                ParseTraverserView {
                    handle,
                    free_nodes: old(self)@.free_nodes.push(
                        TraversalNodeView { handle, element: element@ },
                    ),
                    ..old(self)@
                }),
                None => old(self)@.handle == u32::MAX && final(self)@ == old(self)@,
            },
    {
        if self.handle == u32::MAX {
            return None;
        }
        self.handle = self.handle + 1;
        let node = TraversalNode { handle: self.handle, element };
        self.free_nodes.push(node);
        assert(self@.free_nodes =~= old(self)@.free_nodes.push(node@));
        Some(self.handle)
    }

    /// Closes every element of the path that lies below `parent`.
    fn close_to(&mut self, parent: u32)
        requires
            old(self)@.accepts(parent),
        ensures
            final(self)@ == (ParseTraverserView {
                traversal: closed_to(old(self)@.traversal, parent),
                ..old(self)@
            }),
    {
        let keep = match Self::find(&self.traversal, parent) {
            Some(i) => {
                assert(i < self.traversal.len());
                i + 1
            },
            None => 0,
        };
        let ghost path = old(self)@.traversal;
        while self.traversal.len() > keep
            invariant
                keep <= self.traversal@.len(),
                self@.traversal == path.take(self.traversal@.len() as int),
                self.traversal@.len() <= path.len(),
                self@.handle == old(self)@.handle,
                self@.free_nodes == old(self)@.free_nodes,
            decreases self.traversal@.len(),
        {
            self.traversal.pop();
            assert(self@.traversal =~= path.take(self.traversal@.len() as int));
        }
        assert(path.take(0) =~= Seq::<TraversalNodeView>::empty());
    }

    /// Appends `child` to `parent`. Where `parent` is neither the document
    /// nor on the path, nothing happens. Otherwise the path is first closed
    /// down to `parent`. Text then lies under that path. An element is the
    /// one created last under its handle among those not yet appended; it
    /// leaves them and becomes the innermost entry of the path.
    pub fn append(&mut self, parent: u32, child: Child) -> (r: Appended)
        ensures
            match child {
                Child::Node(handle) => final(self)@ == old(self)@.append_node(parent, handle) && r
                    == if !old(self)@.accepts(parent) {
                    Appended::Ignored
                } else if last_under(old(self)@.free_nodes, handle) is Some {
                    Appended::Element
                } else {
                    Appended::Missing
                },
                Child::Text(text) => final(self)@ == old(self)@.append_text(parent) && r
                    == if old(self)@.accepts(parent) {
                    Appended::Text(text)
                } else {
                    Appended::Ignored
                },
            },
    {
        if parent != DOCUMENT && Self::find(&self.traversal, parent).is_none() {
            return Appended::Ignored;
        }
        self.close_to(parent);
        match child {
            Child::Node(handle) => match Self::find(&self.free_nodes, handle) {
                Some(i) => {
                    let ghost free = self@.free_nodes;
                    let ghost path = self@.traversal;
                    let element = self.free_nodes.remove(i);
                    assert(self@.free_nodes =~= free.remove(i as int));
                    self.traversal.push(element);
                    assert(self@.traversal =~= path.push(free[i as int]));
                    Appended::Element
                },
                None => Appended::Missing,
            },
            Child::Text(text) => Appended::Text(text),
        }
    }

    /// The path of the elements that are open, root first.
    pub fn path(&self) -> (r: &Vec<TraversalNode>)
        ensures
            nodes_view(r@) == self@.traversal,
    {
        &self.traversal
    }
}

} // verus!
