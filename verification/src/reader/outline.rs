//! The reader's table-of-contents entry.

use vstd::prelude::*;

verus! {

/// A table-of-contents entry of the reader: its text and position.
#[derive(Clone, Debug)]
pub struct Heading {
    pub head_name: String,
    pub head_position: i32,
}

impl Default for Heading {
    fn default() -> (r: Self)
        ensures
            r.head_name@ == Seq::<char>::empty(),
            r.head_position == 0,
    {
        Heading { head_name: String::new(), head_position: 0 }
    }
}

} // verus!
