//! The columns of a table.

use std::sync::Arc;
use vstd::prelude::*;

use crate::names::{name_in, texts};

verus! {

/// The names of the columns of a table, in order.
#[derive(Debug)]
pub struct Schema {
    pub columns: Vec<Arc<str>>,
}

impl View for Schema {
    type V = Seq<Seq<char>>;

    open spec fn view(&self) -> Seq<Seq<char>> {
        texts(self.columns@)
    }
}

impl Schema {
    /// Whether the table has a column of that name.
    pub fn contains(&self, name: &str) -> (found: bool)
        ensures
            found == self@.contains(name@),
    {
        name_in(&self.columns, name)
    }
}

} // verus!
