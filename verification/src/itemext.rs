//! Operations on items that use selectors.

use vstd::prelude::*;
use crate::element_path::{ElementPath, ItemView, Node, PathView};
use crate::iteritem::Item;
use crate::selector::ContextualSelector;

verus! {

/// Whether `selector` matches the element at index `k` of `path`, in the
/// context of the elements above it.
pub open spec fn matches_at<S: ContextualSelector + ?Sized>(selector: &S, path: PathView, k: int) -> bool {
    selector.context_matches(path.take(k + 1))
}

/// Whether `k` is the index of the outermost element of `path` that
/// `selector` matches in its context.
pub open spec fn is_outermost_match<S: ContextualSelector + ?Sized>(
    selector: &S,
    path: PathView,
    k: int,
) -> bool {
    &&& 0 <= k < path.len()
    &&& matches_at(selector, path, k)
    &&& forall|j: int| 0 <= j < k ==> !matches_at(selector, path, j)
}

/// Whether `selector` matches no element of `path` in its context.
pub open spec fn matches_nowhere<S: ContextualSelector + ?Sized>(selector: &S, path: PathView) -> bool {
    forall|j: int| 0 <= j < path.len() ==> !matches_at(selector, path, j)
}

/// There is at most one outermost match.
pub proof fn lemma_outermost_match_unique<S: ContextualSelector + ?Sized>(
    selector: &S,
    path: PathView,
    j: int,
    k: int,
)
    requires
        is_outermost_match(selector, path, j),
        is_outermost_match(selector, path, k),
    ensures
        j == k,
{
}

/// Index of the outermost element of `path` that `selector` matches in its
/// context.
pub open spec fn outermost_match<S: ContextualSelector + ?Sized>(selector: &S, path: PathView) -> Option<
    int,
> {
    if exists|k: int| is_outermost_match(selector, path, k) {
        Some(choose|k: int| is_outermost_match(selector, path, k))
    } else {
        None
    }
}

/// The item re-rooted at the outermost element of its path that `selector`
/// matches: the elements above that one are gone. `None` where the
/// selector matches nothing on the path.
pub open spec fn rerooted<S: ContextualSelector + ?Sized>(selector: &S, item: ItemView) -> Option<
    ItemView,
> {
    match outermost_match(selector, item.path) {
        Some(k) => Some(ItemView { path: item.path.skip(k), node: item.node }),
        None => None,
    }
}

/// An item whose path has lost its outermost elements: the element at
/// `start` of the item under it has become the root.
pub struct IncludeItem<I> {
    pub start: usize,
    pub inner: I,
}

impl<I: Item> Item for IncludeItem<I> {
    type Path = I::Path;

    open spec fn wf(&self) -> bool {
        self.inner.wf() && self.start < self.inner.item_view().path.len()
    }

    open spec fn item_view(&self) -> ItemView {
        ItemView {
            path: self.inner.item_view().path.skip(self.start as int),
            node: self.inner.item_view().node,
        }
    }

    proof fn lemma_wf(&self) {
    }

    fn node(&self) -> (r: &Node) {
        self.inner.node()
    }

    fn as_element(&self) -> (r: Option<<I::Path as ElementPath>::E>) {
        self.inner.as_element()
    }

    fn as_path(&self) -> (r: I::Path) {
        let path = self.inner.as_path();
        let n = path.len();
        let r = path.slice(self.start, n);
        assert(path.path_view().subrange(self.start as int, n as int) =~= path.path_view().skip(
            self.start as int,
        ));
        r
    }
}

/// Operations on items that hold their path against a selector.
pub trait ItemExt: Item {
    /// Looks for the outermost element of the path that `selector` matches
    /// in its context. Where there is one, the item comes back re-rooted at
    /// it: the elements above it are gone from the path. Where there is
    /// none, nothing comes back.
    fn included<S: ContextualSelector>(self, selector: &S) -> (r: Option<IncludeItem<Self>>)
        requires
            self.wf(),
        ensures
            match r {
                Some(item) => item.inner == self && item.wf() && is_outermost_match(
                    selector,
                    self.item_view().path,
                    item.start as int,
                ) && rerooted(selector, self.item_view()) == Some(item.item_view()),
                None => matches_nowhere(selector, self.item_view().path) && rerooted(
                    selector,
                    self.item_view(),
                ) is None,
            },
    ;
}

impl<T: Item> ItemExt for T {
    fn included<S: ContextualSelector>(self, selector: &S) -> (r: Option<IncludeItem<Self>>) {
        let path = self.as_path();
        let n = path.len();
        let ghost whole = path.path_view();
        let mut start: usize = 0;
        while start < n
            invariant
                self.wf(),
                path.wf(),
                whole == path.path_view(),
                whole == self.item_view().path,
                n == whole.len(),
                start <= n,
                forall|j: int| 0 <= j < start ==> !matches_at(selector, whole, j),
            decreases n - start,
        {
            let prefix = path.slice(0, start + 1);
            assert(whole.subrange(0, start + 1) =~= whole.take(start + 1));
            if selector.context_match(&prefix) {
                proof {
                    assert(is_outermost_match(selector, whole, start as int));
                    let k = choose|k: int| is_outermost_match(selector, whole, k);
                    lemma_outermost_match_unique(selector, whole, k, start as int);
                }
                return Some(IncludeItem { start, inner: self });
            }
            start += 1;
        }
        None
    }
}

} // verus!
