//! The entries of a listing.

use vstd::prelude::*;

verus! {

/// A file or a directory with its size in bytes. For a directory that is
/// the size of all the files below it.
#[derive(Debug)]
pub struct Item {
    pub path: String,
    pub size: u64,
    pub is_directory: bool,
}

/// An item as the contracts see it.
pub struct ItemView {
    pub path: Seq<char>,
    pub size: u64,
    pub is_directory: bool,
}

impl View for Item {
    type V = ItemView;

    open spec fn view(&self) -> ItemView {
        ItemView { path: self.path@, size: self.size, is_directory: self.is_directory }
    }
}

impl Clone for Item {
    fn clone(&self) -> (copy: Self)
        ensures
            copy@ == self@,
    {
        Item { path: self.path.clone(), size: self.size, is_directory: self.is_directory }
    }
}

impl DeepView for Item {
    type V = ItemView;

    open spec fn deep_view(&self) -> ItemView {
        self@
    }
}

/// The bytes of the files among the items. Directories do not count: their
/// bytes are those of files.
pub open spec fn file_total(items: Seq<ItemView>) -> nat
    decreases items.len(),
{
    if items.len() == 0 {
        0
    } else {
        file_total(items.drop_last()) + if items.last().is_directory {
            0
        } else {
            items.last().size as nat
        }
    }
}

/// The files among the first items hold no more bytes than those among all.
pub proof fn lemma_file_total_grows(items: Seq<ItemView>, n: int)
    requires
        0 <= n <= items.len(),
    ensures
        file_total(items.take(n)) <= file_total(items),
    decreases items.len() - n,
{
    if n < items.len() {
        lemma_file_total_grows(items, n + 1);
        assert(items.take(n + 1).drop_last() =~= items.take(n));
    } else {
        assert(items.take(n) =~= items);
    }
}

/// The files of two sequences joined hold the bytes of those of the first
/// and those of the second.
pub proof fn lemma_file_total_concat(a: Seq<ItemView>, b: Seq<ItemView>)
    ensures
        file_total(a + b) == file_total(a) + file_total(b),
    decreases b.len(),
{
    if b.len() == 0 {
        assert(a + b =~= a);
    } else {
        lemma_file_total_concat(a, b.drop_last());
        assert((a + b).drop_last() =~= a + b.drop_last());
        assert((a + b).last() == b.last());
    }
}

} // verus!
