//! What is shown of a ranked listing: its first rows, how many more there
//! are, and the bytes of its files.

use crate::item::{file_total, lemma_file_total_grows, Item, ItemView};
use vstd::prelude::*;
use vstd::string::StringExecFns;

verus! {

/// A size in bytes as a reader takes it in, in decimal units: what
/// `humansize` writes for it.
pub uninterp spec fn decimal_size_text(bytes: u64) -> Seq<char>;

/// Trusted: `humansize::format_size` with the options `humansize::DECIMAL`.
/// It writes the size in a unit of 1000 bytes to some power, with two
/// decimal places or, where the number is whole, with none. The text
/// depends on the size alone; the contract gives it the name
/// `decimal_size_text` and says nothing of what it holds.
#[verifier::external_body]
fn format_size_decimal(bytes: u64) -> (text: String)
    ensures
        text@ == decimal_size_text(bytes),
{
    humansize::format_size(bytes, humansize::DECIMAL)
}

/// One row of the table.
#[derive(Debug)]
pub struct Row {
    /// The place in the ranking, from 1.
    pub rank: usize,
    /// The path, cut at the front where it is long.
    pub path: String,
    /// The size as text.
    pub size: String,
    pub is_directory: bool,
}

/// A row as the contracts see it.
pub struct RowView {
    pub rank: nat,
    pub path: Seq<char>,
    pub size: Seq<char>,
    pub is_directory: bool,
}

impl View for Row {
    type V = RowView;

    open spec fn view(&self) -> RowView {
        RowView {
            rank: self.rank as nat,
            path: self.path@,
            size: self.size@,
            is_directory: self.is_directory,
        }
    }
}

impl DeepView for Row {
    type V = RowView;

    open spec fn deep_view(&self) -> RowView {
        self@
    }
}

/// What is shown of a listing.
#[derive(Debug)]
pub struct Report {
    /// The rows that are shown, largest first.
    pub rows: Vec<Row>,
    /// The number of items that are not shown.
    pub more: usize,
    /// The bytes of all the files of the listing, shown or not.
    pub total: u64,
}

/// A report as the contracts see it.
pub struct ReportView {
    pub rows: Seq<RowView>,
    pub more: nat,
    pub total: nat,
}

impl View for Report {
    type V = ReportView;

    open spec fn view(&self) -> ReportView {
        ReportView {
            rows: self.rows.deep_view(),
            more: self.more as nat,
            total: self.total as nat,
        }
    }
}

/// The path as a row shows it: one of more than 47 characters is cut to
/// three dots and its last 44 characters.
pub open spec fn shown_path(path: Seq<char>) -> Seq<char> {
    if path.len() > 47 {
        seq!['.', '.', '.'] + path.skip(path.len() - 44)
    } else {
        path
    }
}

/// The row that stands at the place `index` for `item`.
pub open spec fn row_of(item: ItemView, index: int) -> RowView {
    RowView {
        rank: (index + 1) as nat,
        path: shown_path(item.path),
        size: decimal_size_text(item.size),
        is_directory: item.is_directory,
    }
}

/// The rows of the first `limit` items.
pub open spec fn shown_rows(items: Seq<ItemView>, limit: nat) -> Seq<RowView> {
    Seq::new(
        if items.len() <= limit {
            items.len()
        } else {
            limit
        },
        |i: int| row_of(items[i], i),
    )
}

/// What is shown of `items` with room for `limit` rows.
pub open spec fn report_of(items: Seq<ItemView>, limit: nat) -> ReportView {
    ReportView {
        rows: shown_rows(items, limit),
        more: if items.len() > limit {
            (items.len() - limit) as nat
        } else {
            0
        },
        total: file_total(items),
    }
}

/// The word that the table has for the kind of an item.
pub fn kind_label(is_directory: bool) -> (label: &'static str)
    ensures
        label@ == if is_directory {
            "DIR"@
        } else {
            "FILE"@
        },
{
    if is_directory {
        "DIR"
    } else {
        "FILE"
    }
}

fn shorten(path: &str) -> (shown: String)
    ensures
        shown@ == shown_path(path@),
{
    let len = path.unicode_len();
    if len > 47 {
        let tail = path.substring_char(len - 44, len);
        proof {
            reveal_strlit("...");
            assert("..."@ =~= seq!['.', '.', '.']);
            assert(path@.subrange(len - 44, len as int) =~= path@.skip(len - 44));
        }
        String::from_str("...").concat(tail)
    } else {
        String::from_str(path)
    }
}

/// The row for `item` with the rank `rank` and its size written as
/// `size_text`.
pub fn make_row(rank: usize, item: &Item, size_text: String) -> (row: Row)
    ensures
        row@ == (RowView {
            rank: rank as nat,
            path: shown_path(item@.path),
            size: size_text@,
            is_directory: item@.is_directory,
        }),
{
    Row {
        rank,
        path: shorten(item.path.as_str()),
        size: size_text,
        is_directory: item.is_directory,
    }
}

/// What is shown of a listing: a row for each of its first `limit`
/// items, the number of items left over, and the bytes of all its files.
/// The bytes of a directory are those of files, so directories add
/// nothing to the total.
pub fn display_results(items: &Vec<Item>, limit: usize) -> (report: Report)
    requires
        file_total(items.deep_view()) <= u64::MAX,
    ensures
        report@ == report_of(items.deep_view(), limit as nat),
        report.rows.len() == if items.len() <= limit {
            items.len()
        } else {
            limit
        },
        report.more == if items.len() > limit {
            items.len() - limit
        } else {
            0
        },
        report.total == file_total(items.deep_view()),
{
    let ghost all = items.deep_view();
    let display_count = if items.len() <= limit {
        items.len()
    } else {
        limit
    };
    let mut rows: Vec<Row> = Vec::new();
    let mut i: usize = 0;
    while i < display_count
        invariant
            i <= display_count <= items.len(),
            all == items.deep_view(),
            rows.len() == i,
            forall|k: int| 0 <= k < i ==> (#[trigger] rows.deep_view()[k]) == row_of(all[k], k),
        decreases display_count - i,
    {
        let ghost before = rows.deep_view();
        assert(all[i as int] == items@[i as int]@);
        let row = make_row(i + 1, &items[i], format_size_decimal(items[i].size));
        rows.push(row);
        assert(rows.deep_view() =~= before.push(row@));
        i += 1;
    }
    assert(rows.deep_view() =~= shown_rows(all, limit as nat));
    let more = if items.len() > limit {
        items.len() - limit
    } else {
        0
    };
    let mut total: u64 = 0;
    let mut j: usize = 0;
    assert(all.take(0) =~= Seq::<ItemView>::empty());
    while j < items.len()
        invariant
            j <= items.len(),
            all == items.deep_view(),
            file_total(all) <= u64::MAX,
            total == file_total(all.take(j as int)),
        decreases items.len() - j,
    {
        assert(all[j as int] == items@[j as int]@);
        assert(all.take(j + 1).drop_last() =~= all.take(j as int));
        proof {
            lemma_file_total_grows(all, j + 1);
        }
        if !items[j].is_directory {
            total = total + items[j].size;
        }
        j += 1;
    }
    assert(all.take(j as int) =~= all);
    Report { rows, more, total }
}

} // verus!
