//! Sibling order: sort keys, the order they induce, and a stable sort of positions.

use crate::text::{
    lemma_lex_irreflexive, lemma_lex_total, lemma_lex_transitive, lex_before, str_before,
    str_equal,
};
use vstd::prelude::*;
use vstd::relations::{sorted_by, total_ordering};
use vstd::seq_lib::lemma_sorted_unique;

verus! {

broadcast use {vstd::seq_lib::group_to_multiset_ensures, vstd::seq_lib::group_seq_properties};

/// The field that siblings are sorted by.
#[derive(Debug, Clone, Copy, PartialEq, Eq, Structural)]
pub enum SortField {
    /// Sort by name
    Name,
    /// Sort by size, largest first
    Size,
    /// Sort by extension, then by name
    Type,
}

/// What the order of an entry among its siblings depends on.
#[derive(Debug, Clone)]
pub struct SortKey {
    /// Whether the entry is a directory
    pub is_dir: bool,
    /// Size in bytes
    pub size: u64,
    /// Display name
    pub name: String,
    /// Extension with its leading dot, empty where there is none
    pub extension: String,
}

/// Mathematical view of a [`SortKey`].
pub ghost struct KeyModel {
    pub is_dir: bool,
    pub size: nat,
    pub name: Seq<char>,
    pub extension: Seq<char>,
}

impl View for SortKey {
    type V = KeyModel;

    open spec fn view(&self) -> KeyModel {
        KeyModel {
            is_dir: self.is_dir,
            size: self.size as nat,
            name: self.name@,
            extension: self.extension@,
        }
    }
}

/// Views of a sequence of keys, element by element.
pub open spec fn keys_view(keys: Seq<SortKey>) -> Seq<KeyModel> {
    Seq::new(keys.len(), |i: int| keys[i]@)
}

/// Whether `a` comes strictly before `b` by the chosen field alone, among entries of
/// the same class.
pub open spec fn field_before(a: KeyModel, b: KeyModel, field: SortField) -> bool {
    match field {
        SortField::Name => lex_before(a.name, b.name),
        SortField::Size => a.size > b.size,
        SortField::Type => lex_before(a.extension, b.extension) || (a.extension == b.extension
            && lex_before(a.name, b.name)),
    }
}

/// Whether `a` comes strictly before `b`: directories come before everything else, and
/// within one class the chosen field decides.
pub open spec fn key_before(a: KeyModel, b: KeyModel, field: SortField) -> bool {
    if a.is_dir != b.is_dir {
        a.is_dir
    } else {
        field_before(a, b, field)
    }
}

/// No key comes before itself.
pub proof fn lemma_key_irreflexive(a: KeyModel, field: SortField)
    ensures
        !key_before(a, a, field),
{
    lemma_lex_irreflexive(a.name);
    lemma_lex_irreflexive(a.extension);
}

/// `key_before` is transitive.
pub proof fn lemma_key_transitive(a: KeyModel, b: KeyModel, c: KeyModel, field: SortField)
    requires
        key_before(a, b, field),
        key_before(b, c, field),
    ensures
        key_before(a, c, field),
{
    if a.is_dir == b.is_dir && b.is_dir == c.is_dir {
        match field {
            SortField::Name => {
                lemma_lex_transitive(a.name, b.name, c.name);
            },
            SortField::Size => {},
            SortField::Type => {
                if lex_before(a.extension, b.extension) && lex_before(b.extension, c.extension) {
                    lemma_lex_transitive(a.extension, b.extension, c.extension);
                } else if a.extension == b.extension && b.extension == c.extension {
                    lemma_lex_transitive(a.name, b.name, c.name);
                }
            },
        }
    }
}

/// Where `a` comes before `c`, any `b` comes after `a` or before `c`.
pub proof fn lemma_key_between(a: KeyModel, b: KeyModel, c: KeyModel, field: SortField)
    requires
        key_before(a, c, field),
    ensures
        key_before(a, b, field) || key_before(b, c, field),
{
    if a.is_dir == c.is_dir && b.is_dir == a.is_dir {
        match field {
            SortField::Name => {
                lemma_lex_between(a.name, b.name, c.name);
            },
            SortField::Size => {},
            SortField::Type => {
                if lex_before(a.extension, c.extension) {
                    lemma_lex_between(a.extension, b.extension, c.extension);
                } else {
                    lemma_lex_total(a.extension, b.extension);
                    if a.extension == b.extension {
                        lemma_lex_between(a.name, b.name, c.name);
                    }
                }
            },
        }
    }
}

/// Where `a` comes before `c` lexicographically, any `b` comes after `a` or before `c`.
proof fn lemma_lex_between(a: Seq<char>, b: Seq<char>, c: Seq<char>)
    requires
        lex_before(a, c),
    ensures
        lex_before(a, b) || lex_before(b, c),
{
    lemma_lex_total(a, b);
    if lex_before(b, a) {
        lemma_lex_transitive(b, a, c);
    }
}

/// The order of positions into a list of keys: by key, and where neither key comes
/// before the other, by position. On equal keys the earlier position stays first.
pub open spec fn position_order(keys: Seq<KeyModel>, field: SortField) -> spec_fn(int, int) -> bool {
    |i: int, j: int|
        key_before(keys[i], keys[j], field) || (!key_before(keys[j], keys[i], field) && i <= j)
}

/// The order of positions is a total order.
pub proof fn lemma_position_order_total(keys: Seq<KeyModel>, field: SortField)
    ensures
        total_ordering(position_order(keys, field)),
{
    let r = position_order(keys, field);
    assert forall|x: int| #[trigger] r(x, x) by {
        lemma_key_irreflexive(keys[x], field);
    }
    assert forall|x: int, y: int| #[trigger] r(x, y) && #[trigger] r(y, x) implies x == y by {
        if key_before(keys[x], keys[y], field) && key_before(keys[y], keys[x], field) {
            lemma_key_transitive(keys[x], keys[y], keys[x], field);
            lemma_key_irreflexive(keys[x], field);
        }
    }
    assert forall|x: int, y: int, z: int| #[trigger] r(x, y) && #[trigger] r(y, z) implies r(
        x,
        z,
    ) by {
        let (a, b, c) = (keys[x], keys[y], keys[z]);
        if key_before(a, b, field) && key_before(b, c, field) {
            lemma_key_transitive(a, b, c, field);
        }
        if key_before(a, b, field) {
            lemma_key_between(a, c, b, field);
        }
        if key_before(b, c, field) {
            lemma_key_between(b, a, c, field);
        }
        if key_before(c, a, field) {
            lemma_key_between(c, b, a, field);
        }
        lemma_key_irreflexive(a, field);
    }
    assert forall|x: int, y: int| #[trigger] r(x, y) || #[trigger] r(y, x) by {}
}

/// Positions as mathematical integers.
pub open spec fn ints(s: Seq<usize>) -> Seq<int> {
    s.map_values(|x: usize| x as int)
}

/// Decides `key_before` on two keys.
pub fn key_precedes(a: &SortKey, b: &SortKey, field: SortField) -> (r: bool)
    ensures
        r == key_before(a@, b@, field),
{
    if a.is_dir != b.is_dir {
        return a.is_dir;
    }
    match field {
        SortField::Name => str_before(a.name.as_str(), b.name.as_str()),
        SortField::Size => a.size > b.size,
        SortField::Type => {
            if str_before(a.extension.as_str(), b.extension.as_str()) {
                true
            } else if str_equal(a.extension.as_str(), b.extension.as_str()) {
                str_before(a.name.as_str(), b.name.as_str())
            } else {
                false
            }
        },
    }
}

/// Decides the order of two positions.
fn position_precedes(keys: &Vec<SortKey>, field: SortField, i: usize, j: usize) -> (r: bool)
    requires
        i < keys.len(),
        j < keys.len(),
    ensures
        r == position_order(keys_view(keys@), field)(i as int, j as int),
{
    if key_precedes(&keys[i], &keys[j], field) {
        true
    } else if key_precedes(&keys[j], &keys[i], field) {
        false
    } else {
        i <= j
    }
}

/// Sorts positions into `keys` by `position_order`. The sort is stable: positions whose
/// keys tie come out in increasing order.
pub fn sort_positions(items: &Vec<usize>, keys: &Vec<SortKey>, field: SortField) -> (out: Vec<
    usize,
>)
    requires
        forall|k: int| 0 <= k < items.len() ==> items[k] < keys.len(),
    ensures
        ints(out@) == ints(items@).sort_by(position_order(keys_view(keys@), field)),
        sorted_by(ints(out@), position_order(keys_view(keys@), field)),
        ints(out@).to_multiset() == ints(items@).to_multiset(),
        out.len() == items.len(),
        forall|k: int| 0 <= k < out.len() ==> out[k] < keys.len(),
{
    let ghost leq = position_order(keys_view(keys@), field);
    proof {
        lemma_position_order_total(keys_view(keys@), field);
    }
    let mut out: Vec<usize> = Vec::new();
    let mut n: usize = 0;
    while n < items.len()
        invariant
            n <= items.len(),
            leq == position_order(keys_view(keys@), field),
            total_ordering(leq),
            forall|k: int| 0 <= k < items.len() ==> items[k] < keys.len(),
            forall|k: int| 0 <= k < out.len() ==> out[k] < keys.len(),
            sorted_by(ints(out@), leq),
            ints(out@).to_multiset() == ints(items@.take(n as int)).to_multiset(),
        decreases items.len() - n,
    {
        let x = items[n];
        let mut p: usize = 0;
        while p < out.len() && position_precedes(keys, field, out[p], x)
            invariant
                p <= out.len(),
                x < keys.len(),
                leq == position_order(keys_view(keys@), field),
                forall|k: int| 0 <= k < out.len() ==> out[k] < keys.len(),
                forall|k: int| 0 <= k < p ==> leq(out[k] as int, x as int),
            decreases out.len() - p,
        {
            p = p + 1;
        }
        let ghost before = out@;
        out.insert(p, x);
        proof {
            assert(ints(out@) =~= ints(before).insert(p as int, x as int));
            assert(ints(items@.take(n + 1)) =~= ints(items@.take(n as int)).push(x as int));
            assert forall|i: int, j: int| 0 <= i < j < out.len() implies leq(
                ints(out@)[i],
                ints(out@)[j],
            ) by {
                if j < p {
                    assert(leq(ints(before)[i], ints(before)[j]));
                } else if j == p {
                } else if i < p {
                    assert(leq(ints(before)[i], ints(before)[j - 1]));
                } else if i == p {
                    assert(leq(x as int, ints(before)[p as int]));
                    if j - 1 > p {
                        assert(leq(ints(before)[p as int], ints(before)[j - 1]));
                    }
                } else {
                    assert(leq(ints(before)[i - 1], ints(before)[j - 1]));
                }
            }
        }
        n = n + 1;
    }
    proof {
        assert(items@.take(n as int) =~= items@);
        assert(ints(out@).len() == ints(out@).to_multiset().len());
        assert(ints(items@).len() == ints(items@).to_multiset().len());
        ints(items@).lemma_sort_by_ensures(leq);
        lemma_sorted_unique(ints(out@), ints(items@).sort_by(leq), leq);
    }
    out
}

} // verus!
