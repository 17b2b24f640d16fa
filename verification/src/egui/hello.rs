//! The landing page.
use vstd::prelude::*;

verus! {

/// Shown when the page URL has no `?page=`.
///
/// Deliberately says nothing about the other pages that exist, so that a
/// crawler or a curious visitor landing on the bare root URL has nothing to
/// follow.
pub struct HelloApp;

} // verus!
