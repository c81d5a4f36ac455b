//! Directory snapshot: what a scan of the file system reports, entry by entry, and the
//! rules that turn one directory's listing into its ordered list of surviving siblings.

use crate::filter::{FilterConfig, FilterModel};
use crate::models::FsNodeType;
use crate::sorting::{
    ints, keys_view, lemma_position_order_total, position_order, sort_positions, KeyModel,
    SortField, SortKey,
};
use crate::text::{extension_of, name_extension};
use vstd::prelude::*;

verus! {

broadcast use {
    vstd::std_specs::vec::group_vec_axioms,
    vstd::seq_lib::group_to_multiset_ensures,
    vstd::seq_lib::group_filter_ensures,
};

/// What a metadata lookup reports about a path, before classification.
#[derive(Debug, Clone, Copy, PartialEq, Eq, Structural)]
pub struct RawMetadata {
    /// The lookup saw a directory
    pub is_dir: bool,
    /// The lookup saw a symbolic link
    pub is_symlink: bool,
    /// Length in bytes
    pub len: u64,
}

/// Kind and size of a classified entry.
#[derive(Debug, Clone, Copy, PartialEq, Eq, Structural)]
pub struct EntryMeta {
    /// Kind of the entry
    pub kind: FsNodeType,
    /// Size in bytes as the lookup reported it
    pub size: u64,
}

/// Why a metadata lookup failed.
#[derive(Debug, Clone)]
pub enum ProbeError {
    /// Nothing exists at the path
    NotFound,
    /// Access was denied
    PermissionDenied,
    /// Any other failure; holds its message
    Io(String),
}

/// Mathematical view of a [`ProbeError`].
pub ghost enum ProbeFailure {
    NotFound,
    PermissionDenied,
    Io(Seq<char>),
}

impl View for ProbeError {
    type V = ProbeFailure;

    open spec fn view(&self) -> ProbeFailure {
        match self {
            ProbeError::NotFound => ProbeFailure::NotFound,
            ProbeError::PermissionDenied => ProbeFailure::PermissionDenied,
            ProbeError::Io(m) => ProbeFailure::Io(m@),
        }
    }
}

/// The kind that a lookup result stands for: a link where the lookup saw the link itself,
/// else a directory or a file.
pub open spec fn kind_of(meta: RawMetadata) -> FsNodeType {
    if meta.is_symlink {
        FsNodeType::Symlink
    } else if meta.is_dir {
        FsNodeType::Directory
    } else {
        FsNodeType::File
    }
}

/// Classifies one lookup result.
pub fn classify(meta: RawMetadata) -> (r: EntryMeta)
    ensures
        r == (EntryMeta { kind: kind_of(meta), size: meta.len }),
{
    let kind = if meta.is_symlink {
        FsNodeType::Symlink
    } else if meta.is_dir {
        FsNodeType::Directory
    } else {
        FsNodeType::File
    };
    EntryMeta { kind, size: meta.len }
}

/// Classifies an entry from two lookups: `followed` resolves links to their target,
/// `own` looks at the entry itself. The target is preferred; where it cannot be resolved
/// (a broken link) the entry's own metadata stands in, so that the entry is still
/// represented. Where both fail the error of the second lookup is reported.
pub fn classify_entry(
    followed: Result<RawMetadata, ProbeError>,
    own: Result<RawMetadata, ProbeError>,
) -> (r: Result<EntryMeta, ProbeError>)
    ensures
        match followed {
            Ok(m) => r == Ok::<EntryMeta, ProbeError>(
                EntryMeta { kind: kind_of(m), size: m.len },
            ),
            Err(_) => match own {
                Ok(m) => r == Ok::<EntryMeta, ProbeError>(
                    EntryMeta { kind: kind_of(m), size: m.len },
                ),
                Err(e) => r == Err::<EntryMeta, ProbeError>(e),
            },
        },
{
    match followed {
        Ok(m) => Ok(classify(m)),
        Err(_) => match own {
            Ok(m) => Ok(classify(m)),
            Err(e) => Err(e),
        },
    }
}

/// One candidate entry of a scanned directory, with the listing of what it holds.
#[derive(Debug)]
pub struct ScanEntry {
    /// Base name as the enumeration reported it
    pub name: String,
    /// Full path
    pub path: String,
    /// Outcome of classifying the entry
    pub meta: Result<EntryMeta, ProbeError>,
    /// The entry's immediate candidates in enumeration order; empty unless the entry is
    /// a directory that could be listed
    pub entries: Vec<ScanEntry>,
}

/// Mathematical view of a [`ScanEntry`].
pub ghost struct ScanModel {
    pub name: Seq<char>,
    pub path: Seq<char>,
    pub meta: Result<EntryMeta, ProbeFailure>,
    pub entries: Seq<ScanModel>,
}

/// View of a classification outcome.
pub open spec fn meta_view(meta: Result<EntryMeta, ProbeError>) -> Result<EntryMeta, ProbeFailure> {
    match meta {
        Ok(m) => Ok(m),
        Err(e) => Err(e@),
    }
}

/// The mathematical content of a scanned entry and of everything below it.
pub open spec fn scan_model(entry: ScanEntry) -> ScanModel
    decreases entry,
{
    ScanModel {
        name: entry.name@,
        path: entry.path@,
        meta: meta_view(entry.meta),
        entries: Seq::new(
            entry.entries@.len(),
            |i: int|
                if 0 <= i < entry.entries.len() {
                    scan_model(entry.entries[i])
                } else {
                    arbitrary()
                },
        ),
    }
}

impl View for ScanEntry {
    type V = ScanModel;

    open spec fn view(&self) -> ScanModel {
        scan_model(*self)
    }
}

/// Views of a sequence of scanned entries, element by element.
pub open spec fn scans_view(v: Seq<ScanEntry>) -> Seq<ScanModel> {
    Seq::new(v.len(), |i: int| v[i]@)
}

/// The view of an entry's listing is the sequence of the views of its candidates.
pub proof fn lemma_entries_view(entry: ScanEntry)
    ensures
        entry@.entries == scans_view(entry.entries@),
{
    assert(entry@.entries =~= scans_view(entry.entries@));
}

impl ScanModel {
    /// Whether the entry was classified as a directory.
    pub open spec fn is_directory(self) -> bool {
        self.meta matches Ok(m) && m.kind == FsNodeType::Directory
    }

    /// The kind the entry was classified as; a file where classification failed.
    pub open spec fn kind(self) -> FsNodeType {
        match self.meta {
            Ok(m) => m.kind,
            Err(_) => FsNodeType::File,
        }
    }

    /// The size that the entry's node carries: 0 for a directory and where
    /// classification failed, else the size that was reported.
    pub open spec fn node_size(self) -> nat {
        match self.meta {
            Ok(m) => if m.kind == FsNodeType::Directory {
                0
            } else {
                m.size as nat
            },
            Err(_) => 0,
        }
    }

    /// The entry's sort key.
    pub open spec fn key(self) -> KeyModel {
        KeyModel {
            is_dir: self.is_directory(),
            size: self.node_size(),
            name: self.name,
            extension: if self.is_directory() {
                Seq::empty()
            } else {
                match extension_of(self.name) {
                    Some(e) => e,
                    None => Seq::empty(),
                }
            },
        }
    }

    /// Whether the entry survives a filter: it is not excluded and was classified.
    pub open spec fn survives(self, filter: FilterModel) -> bool {
        !filter.excludes(self.path) && self.meta is Ok
    }
}

/// The sort keys of a listing, entry by entry.
pub open spec fn entry_keys(entries: Seq<ScanModel>) -> Seq<KeyModel> {
    Seq::new(entries.len(), |i: int| entries[i].key())
}

/// The positions of the entries that survive the filter, in enumeration order.
pub open spec fn survivors(entries: Seq<ScanModel>, filter: FilterModel) -> Seq<int> {
    Seq::new(entries.len(), |i: int| i).filter(|i: int| entries[i].survives(filter))
}

/// The positions of a directory's surviving entries in sibling order: directories before
/// everything else, within a class by the chosen field, ties in enumeration order; and the
/// whole sequence reversed where `reverse` is set.
pub open spec fn sibling_order(
    entries: Seq<ScanModel>,
    filter: FilterModel,
    field: SortField,
    reverse: bool,
) -> Seq<int> {
    let sorted = survivors(entries, filter).sort_by(position_order(entry_keys(entries), field));
    if reverse {
        sorted.reverse()
    } else {
        sorted
    }
}

/// Whether a directory holds any entry that the filter does not exclude, classified or not.
pub open spec fn has_visible_entry(entries: Seq<ScanModel>, filter: FilterModel) -> bool {
    exists|i: int| 0 <= i < entries.len() && !filter.excludes(#[trigger] entries[i].path)
}

/// `survivors` holds exactly the positions of the surviving entries, in increasing order.
pub proof fn lemma_survivors(entries: Seq<ScanModel>, filter: FilterModel)
    ensures
        forall|k: int|
            0 <= k < survivors(entries, filter).len() ==> 0 <= #[trigger] survivors(
                entries,
                filter,
            )[k] < entries.len() && entries[survivors(entries, filter)[k]].survives(filter),
        forall|i: int|
            0 <= i < entries.len() && entries[i].survives(filter) ==> survivors(
                entries,
                filter,
            ).contains(i),
        survivors(entries, filter).len() <= entries.len(),
{
    let all = Seq::new(entries.len(), |i: int| i);
    let pred = |i: int| entries[i].survives(filter);
    let s = all.filter(pred);
    assert forall|k: int| 0 <= k < s.len() implies 0 <= #[trigger] s[k] < entries.len()
        && entries[s[k]].survives(filter) by {
        all.lemma_filter_pred(pred, k);
        assert(s.contains(s[k]));
        all.lemma_filter_contains_rev(pred, s[k]);
    }
    assert forall|i: int| 0 <= i < entries.len() && entries[i].survives(filter) implies s.contains(
        i,
    ) by {
        assert(all[i] == i);
        all.lemma_filter_contains(pred, i);
    }
    all.lemma_filter_len(pred);
}

/// The sibling order holds exactly the surviving positions, each once.
pub proof fn lemma_sibling_order_members(
    entries: Seq<ScanModel>,
    filter: FilterModel,
    field: SortField,
    reverse: bool,
)
    ensures
        sibling_order(entries, filter, field, reverse).to_multiset() == survivors(
            entries,
            filter,
        ).to_multiset(),
        sibling_order(entries, filter, field, reverse).len() == survivors(entries, filter).len(),
        forall|k: int|
            0 <= k < sibling_order(entries, filter, field, reverse).len() ==> 0
                <= #[trigger] sibling_order(entries, filter, field, reverse)[k] < entries.len()
                && entries[sibling_order(entries, filter, field, reverse)[k]].survives(filter),
{
    let s = survivors(entries, filter);
    let leq = position_order(entry_keys(entries), field);
    let sorted = s.sort_by(leq);
    let order = sibling_order(entries, filter, field, reverse);
    lemma_position_order_total(entry_keys(entries), field);
    s.lemma_sort_by_ensures(leq);
    sorted.lemma_reverse_to_multiset();
    assert(order.to_multiset() == s.to_multiset());
    assert(order.len() == order.to_multiset().len());
    assert(s.len() == s.to_multiset().len());
    lemma_survivors(entries, filter);
    assert forall|k: int| 0 <= k < order.len() implies 0 <= #[trigger] order[k] < entries.len()
        && entries[order[k]].survives(filter) by {
        assert(order.to_multiset().count(order[k]) > 0);
        assert(s.to_multiset().count(order[k]) > 0);
        assert(s.contains(order[k]));
        let j = choose|j: int| 0 <= j < s.len() && s[j] == order[k];
        assert(0 <= s[j] < entries.len());
    }
}

impl ScanEntry {
    /// Whether the entry was classified as a directory.
    pub fn is_directory(&self) -> (b: bool)
        ensures
            b == self@.is_directory(),
    {
        match &self.meta {
            Ok(m) => m.kind == FsNodeType::Directory,
            Err(_) => false,
        }
    }

    /// The size that the entry's node carries.
    pub fn node_size(&self) -> (size: u64)
        ensures
            size as nat == self@.node_size(),
    {
        match &self.meta {
            Ok(m) => if m.kind == FsNodeType::Directory {
                0
            } else {
                m.size
            },
            Err(_) => 0,
        }
    }

    /// The entry's sort key.
    pub fn sort_key(&self) -> (key: SortKey)
        ensures
            key@ == self@.key(),
    {
        let is_dir = self.is_directory();
        let extension = if is_dir {
            String::new()
        } else {
            match name_extension(self.name.as_str()) {
                Some(e) => e,
                None => String::new(),
            }
        };
        SortKey { is_dir, size: self.node_size(), name: self.name.clone(), extension }
    }

    /// Whether the entry survives a filter.
    pub fn survives(&self, filter: &FilterConfig) -> (b: bool)
        ensures
            b == self@.survives(filter@),
    {
        if filter.should_exclude(self.path.as_str()) {
            false
        } else {
            self.meta.is_ok()
        }
    }
}

/// Computes the sort keys of a listing.
pub fn level_keys(entries: &Vec<ScanEntry>) -> (keys: Vec<SortKey>)
    ensures
        keys_view(keys@) == entry_keys(scans_view(entries@)),
        keys.len() == entries.len(),
{
    let mut keys: Vec<SortKey> = Vec::new();
    let mut i: usize = 0;
    while i < entries.len()
        invariant
            i <= entries.len(),
            keys.len() == i,
            forall|k: int| 0 <= k < i ==> keys[k]@ == entries[k]@.key(),
        decreases entries.len() - i,
    {
        keys.push(entries[i].sort_key());
        i = i + 1;
    }
    assert(keys_view(keys@) =~= entry_keys(scans_view(entries@)));
    keys
}

/// Collects the positions of the entries that survive the filter, in enumeration order.
pub fn surviving_positions(entries: &Vec<ScanEntry>, filter: &FilterConfig) -> (out: Vec<usize>)
    ensures
        ints(out@) == survivors(scans_view(entries@), filter@),
        forall|k: int| 0 <= k < out.len() ==> out[k] < entries.len(),
{
    let ghost models = scans_view(entries@);
    let ghost pred = |i: int| models[i].survives(filter@);
    let mut out: Vec<usize> = Vec::new();
    let mut i: usize = 0;
    proof {
        reveal(Seq::filter);
        assert(ints(out@) =~= Seq::new(0, |i: int| i).filter(pred));
    }
    while i < entries.len()
        invariant
            i <= entries.len(),
            models == scans_view(entries@),
            pred == (|i: int| models[i].survives(filter@)),
            ints(out@) == Seq::new(i as nat, |i: int| i).filter(pred),
            forall|k: int| 0 <= k < out.len() ==> out[k] < entries.len(),
        decreases entries.len() - i,
    {
        let keep = entries[i].survives(filter);
        let ghost before = out@;
        if keep {
            out.push(i);
        }
        proof {
            reveal(Seq::filter);
            let next = Seq::new((i + 1) as nat, |i: int| i);
            assert(next.drop_last() =~= Seq::new(i as nat, |i: int| i));
            assert(next.last() == i as int);
            assert(pred(i as int) == keep);
            if keep {
                assert(ints(out@) =~= ints(before).push(i as int));
            }
        }
        i = i + 1;
    }
    out
}

/// Reverses a list of positions.
fn reversed(items: &Vec<usize>) -> (out: Vec<usize>)
    ensures
        out@ == items@.reverse(),
{
    let mut out: Vec<usize> = Vec::new();
    let n = items.len();
    let mut i: usize = 0;
    while i < n
        invariant
            i <= n,
            n == items.len(),
            out.len() == i,
            forall|k: int| 0 <= k < i ==> out[k] == items[n - 1 - k],
        decreases n - i,
    {
        out.push(items[n - 1 - i]);
        i = i + 1;
    }
    assert(out@ =~= items@.reverse());
    out
}

/// Sorts the given positions into sibling order: by key, ties in the order of the
/// positions, and the whole result reversed where `reverse` is set.
pub fn sort_entries(positions: &Vec<usize>, keys: &Vec<SortKey>, field: SortField, reverse: bool) -> (out:
    Vec<usize>)
    requires
        forall|k: int| 0 <= k < positions.len() ==> positions[k] < keys.len(),
    ensures
        ints(out@) == ({
            let sorted = ints(positions@).sort_by(position_order(keys_view(keys@), field));
            if reverse {
                sorted.reverse()
            } else {
                sorted
            }
        }),
{
    let sorted = sort_positions(positions, keys, field);
    if reverse {
        let out = reversed(&sorted);
        assert(ints(out@) =~= ints(sorted@).reverse());
        out
    } else {
        sorted
    }
}

/// Computes a directory's sibling order from its listing: filters, then sorts.
pub fn sibling_positions(
    entries: &Vec<ScanEntry>,
    filter: &FilterConfig,
    field: SortField,
    reverse: bool,
) -> (out: Vec<usize>)
    ensures
        ints(out@) == sibling_order(scans_view(entries@), filter@, field, reverse),
        forall|k: int|
            0 <= k < out.len() ==> (#[trigger] out[k]) < entries.len() && entries[out[k] as int]@.survives(
                filter@,
            ),
{
    let positions = surviving_positions(entries, filter);
    let keys = level_keys(entries);
    let out = sort_entries(&positions, &keys, field, reverse);
    proof {
        lemma_sibling_order_members(scans_view(entries@), filter@, field, reverse);
        assert forall|k: int| 0 <= k < out.len() implies (#[trigger] out[k]) < entries.len()
            && entries[out[k] as int]@.survives(filter@) by {
            assert(ints(out@)[k] == out[k] as int);
            assert(scans_view(entries@)[out[k] as int] == entries[out[k] as int]@);
        }
    }
    out
}

/// Probes a listing for an entry that the filter does not exclude. Classification and
/// depth play no part in it.
pub fn has_children(entries: &Vec<ScanEntry>, filter: &FilterConfig) -> (b: bool)
    ensures
        b == has_visible_entry(scans_view(entries@), filter@),
{
    let mut i: usize = 0;
    while i < entries.len()
        invariant
            i <= entries.len(),
            forall|k: int| 0 <= k < i ==> filter@.excludes(#[trigger] scans_view(entries@)[k].path),
        decreases entries.len() - i,
    {
        if !filter.should_exclude(entries[i].path.as_str()) {
            assert(!filter@.excludes(scans_view(entries@)[i as int].path));
            return true;
        }
        i = i + 1;
    }
    false
}

} // verus!
