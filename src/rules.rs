use vstd::prelude::*;

use crate::address::WebUrl;
use crate::filter::{in_scope, under_some_root};

verus! {

/// The scope rule with its roots held in the open.
pub struct CrawlerRules {
    pub only_subdirs: bool,
    pub roots: Vec<WebUrl>,
}

impl CrawlerRules {
    /// Whether `url` stays in scope.
    pub fn matches(&self, url: &WebUrl) -> (r: bool)
        ensures
            r == in_scope(self.only_subdirs, self.roots@, url),
    {
        !self.only_subdirs || under_some_root(&self.roots, url)
    }
}

} // verus!
