use vstd::prelude::*;

use crate::record::Item;
use std::io::Write;

verus! {

/// Prints one task as the tool shows it: the timestamp, a colon, the
/// text. Relies on writeln to standard output; a failed write is
/// ignored, as printing promises nothing.
#[verifier::external_body]
fn print_item(item: &Item)
{
    let _ = writeln!(std::io::stdout(), "{}: {}", item.timestamp, item.data);
}

/// Prints the given tasks in order, one per line.
pub fn print_all_items(items: Vec<Item>) {
    let mut i: usize = 0;
    while i < items.len()
        decreases items@.len() - i,
    {
        print_item(&items[i]);
        i = i + 1;
    }
}

} // verus!
