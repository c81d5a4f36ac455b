//! Summary text of statistics.

use crate::formatters::tree::{decimal_size_text, format_size_impl};
use crate::models::{types_view, FileTypeInfo, FileTypeModel, StatsModel, TreeStats};
use crate::sorting::{ints, keys_view, position_order, sort_positions, KeyModel, SortField, SortKey};
use crate::text::{decimal, decimal_string};
use vstd::prelude::*;

verus! {

/// Sort keys that order per-extension records by their counts.
pub open spec fn count_keys(buckets: Seq<FileTypeModel>) -> Seq<KeyModel> {
    Seq::new(
        buckets.len(),
        |i: int|
            KeyModel {
                is_dir: false,
                size: buckets[i].count,
                name: Seq::empty(),
                extension: Seq::empty(),
            },
    )
}

/// The positions of per-extension records in the order of the extension table: largest
/// count first, records of equal count in their stored order.
pub open spec fn by_count(buckets: Seq<FileTypeModel>) -> Seq<int> {
    Seq::new(buckets.len(), |i: int| i).sort_by(
        position_order(count_keys(buckets), SortField::Size),
    )
}

/// Orders per-extension records for the extension table.
pub fn order_by_count(buckets: &Vec<FileTypeInfo>) -> (order: Vec<usize>)
    ensures
        ints(order@) == by_count(types_view(buckets@)),
        order.len() == buckets.len(),
        forall|k: int| 0 <= k < order.len() ==> order[k] < buckets.len(),
{
    let ghost views = types_view(buckets@);
    let mut positions: Vec<usize> = Vec::new();
    let mut keys: Vec<SortKey> = Vec::new();
    let mut i: usize = 0;
    while i < buckets.len()
        invariant
            i <= buckets.len(),
            views == types_view(buckets@),
            positions.len() == i,
            keys.len() == i,
            forall|k: int| 0 <= k < i ==> positions[k] == k,
            forall|k: int| 0 <= k < i ==> (#[trigger] keys[k])@ == count_keys(views)[k],
        decreases buckets.len() - i,
    {
        positions.push(i);
        keys.push(
            SortKey {
                is_dir: false,
                size: buckets[i].count as u64,
                name: String::new(),
                extension: String::new(),
            },
        );
        i = i + 1;
    }
    proof {
        assert(ints(positions@) =~= Seq::new(views.len(), |i: int| i));
        assert(keys_view(keys@) =~= count_keys(views));
    }
    sort_positions(&positions, &keys, SortField::Size)
}

/// The text of a size in summaries: `0 B` for nothing, else the decimal size text.
pub open spec fn summary_size_text(bytes: nat) -> Seq<char> {
    if bytes == 0 {
        "0 B"@
    } else {
        decimal_size_text(bytes)
    }
}

/// Formats a size in bytes for a summary.
pub fn format_summary_size(bytes: u64) -> (r: String)
    ensures
        r@ == summary_size_text(bytes as nat),
{
    if bytes == 0 {
        String::from_str("0 B")
    } else {
        format_size_impl(bytes)
    }
}

/// The one-line summary of statistics.
pub open spec fn compact_text(stats: StatsModel) -> Seq<char> {
    decimal(stats.total_files) + " files, "@ + decimal(stats.total_directories)
        + " directories, "@ + summary_size_text(stats.total_size) + " total"@
}

/// Formats statistics in a compact, single-line form.
pub fn format_compact(stats: &TreeStats) -> (r: String)
    ensures
        r@ == compact_text(stats@),
{
    let mut r = decimal_string(stats.total_files as u64);
    r.append(" files, ");
    r.append(decimal_string(stats.total_directories as u64).as_str());
    r.append(" directories, ");
    r.append(format_summary_size(stats.total_size).as_str());
    r.append(" total");
    assert(r@ =~= compact_text(stats@));
    r
}

} // verus!
