pub mod meta;
pub mod node;

use vstd::prelude::*;

verus! {

/// Where a B+tree search starts: at the first entry, or at the first entry
/// whose key is at least the given key.
pub enum SearchMode {
    Start,
    Key(Vec<u8>),
}

} // verus!
