//! Reporting of missing command-line arguments.

use vstd::prelude::*;

verus! {

/// A missing-argument report: carries the brief usage text shown to
/// the user next to the complaint.
pub struct ArgumentMissing {
    brief: &'static str,
}

impl ArgumentMissing {
    /// The brief usage text the report carries.
    pub closed spec fn brief_spec(&self) -> Seq<char> {
        self.brief@
    }

    /// A report carrying `brief` as its usage text.
    pub fn new(brief: &'static str) -> (r: Self)
        ensures
            r.brief_spec() == brief@,
    {
        Self { brief }
    }

    /// The brief usage text.
    pub fn brief(&self) -> (r: &str)
        ensures
            r@ == self.brief_spec(),
    {
        self.brief
    }
}

} // verus!
