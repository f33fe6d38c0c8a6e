//! How things are removed: to the Trash, or for good. Whether they may be is
//! not decided here; every path passes the safety guard first.

use vstd::prelude::*;

use crate::cleaner::RemovalBackend;
use crate::paths::{texts, under, FsPath};

verus! {

/// Where a removal ends up.
#[derive(Debug, Clone, Copy, PartialEq, Eq, Structural)]
pub enum Route {
    Trash,
    Delete,
}

/// The way of a path, given the roots whose contents must be deleted
/// outright.
pub open spec fn route_of(path: Seq<char>, permanent_roots: Seq<Seq<char>>) -> Route {
    if exists|i: int| 0 <= i < permanent_roots.len() && under(path, #[trigger] permanent_roots[i]) {
        Route::Delete
    } else {
        Route::Trash
    }
}

/// Trash for almost everything, permanent delete under the roots that cannot
/// be trashed.
///
/// The Trash itself is the reason for this: to trash something that is in the
/// Trash already does not fail, it moves the item around inside the same
/// folder and reclaims nothing.
pub struct RoutingBackend<'a, T: RemovalBackend, D: RemovalBackend> {
    /// Resolved roots whose contents must be deleted outright.
    pub permanent_roots: Vec<FsPath>,
    pub trash: &'a T,
    pub delete: &'a D,
}

impl<'a, T: RemovalBackend, D: RemovalBackend> RoutingBackend<'a, T, D> {
    /// The way of a path.
    pub fn route(&self, path: &FsPath) -> (r: Route)
        ensures
            r == route_of(path@, texts(self.permanent_roots@)),
    {
        let ghost roots = texts(self.permanent_roots@);
        let mut i: usize = 0;
        while i < self.permanent_roots.len()
            invariant
                roots == texts(self.permanent_roots@),
                i <= self.permanent_roots@.len(),
                forall|k: int| 0 <= k < i ==> !under(path@, #[trigger] roots[k]),
            decreases self.permanent_roots@.len() - i,
        {
            assert(roots[i as int] == self.permanent_roots@[i as int]@);
            if path.starts_with(&self.permanent_roots[i]) {
                return Route::Delete;
            }
            i += 1;
        }
        Route::Trash
    }
}

impl<'a, T: RemovalBackend, D: RemovalBackend> RemovalBackend for RoutingBackend<'a, T, D> {
    /// What the way of the path takes.
    open spec fn accepts(&self, path: Seq<char>) -> bool {
        match route_of(path, texts(self.permanent_roots@)) {
            Route::Delete => self.delete.accepts(path),
            Route::Trash => self.trash.accepts(path),
        }
    }

    fn remove(&self, path: &FsPath) -> (r: Result<(), String>)
        ensures
            match route_of(path@, texts(self.permanent_roots@)) {
                Route::Delete => call_ensures(D::remove, (self.delete, path), r),
                Route::Trash => call_ensures(T::remove, (self.trash, path), r),
            },
    {
        match self.route(path) {
            Route::Delete => self.delete.remove(path),
            Route::Trash => self.trash.remove(path),
        }
    }
}

/// Where a removal ends up, for the sentence before the user commits.
pub open spec fn destination(permanent: bool) -> Seq<char> {
    if permanent {
        "deleted permanently"@
    } else {
        "moved to the Trash"@
    }
}

/// Where a removal ends up, for the sentence before the user commits.
pub fn describes_trash(permanent: bool) -> (r: &'static str)
    ensures
        r@ == destination(permanent),
{
    if permanent {
        "deleted permanently"
    } else {
        "moved to the Trash"
    }
}

/// Only what lies under a permanent root is deleted: with no root nothing is,
/// and one root more adds what lies under it.
pub proof fn a_root_more_deletes_what_is_under_it(path: Seq<char>, roots: Seq<Seq<char>>, root: Seq<char>)
    ensures
        route_of(path, Seq::empty()) == Route::Trash,
        under(path, root) ==> route_of(path, roots.push(root)) == Route::Delete,
        !under(path, root) ==> route_of(path, roots.push(root)) == route_of(path, roots),
{
    let all = roots.push(root);
    assert(all[roots.len() as int] == root);
    assert(forall|i: int| 0 <= i < roots.len() ==> #[trigger] roots[i] == all[i]);
    if !under(path, root) && route_of(path, all) == Route::Delete {
        let i = choose|i: int| 0 <= i < all.len() && under(path, #[trigger] all[i]);
        assert(under(path, roots[i]));
    }
    if route_of(path, roots) == Route::Delete {
        let i = choose|i: int| 0 <= i < roots.len() && under(path, #[trigger] roots[i]);
        assert(under(path, all[i]));
    }
}

} // verus!
