//! Line-oriented diff and patch: an LCS alignment of two sequences, folded
//! into insert, delete and replace operations that can be applied or rendered.
use vstd::prelude::*;
use vstd::std_specs::cmp::PartialEqSpec;

pub mod diffhelpers;
pub mod diffitem;
pub mod render;
pub mod laws;

pub use crate::diffhelpers::{build_lcs_table, convert_to_diffitems, make_diffs, EditFlags, LCSTable};
pub use crate::diffitem::DiffItem;
pub use crate::render::{pretty_lines, PrettyLine};
use crate::diffhelpers::{compress, edit_script, lcs_table, lemma_script_counts};
use crate::diffitem::{apply_op, ops_view, DiffOp};

verus! {

/// The operations that turn `from` into `to`: the LCS table, walked back into
/// flags, folded into runs.
pub open spec fn diff_ops<T: PartialEq>(from: Seq<T>, to: Seq<T>) -> Seq<DiffOp<T>> {
    compress(
        from,
        to,
        edit_script(lcs_table(from, to), from, to, from.len(), to.len()),
    )
}

/// Calculates a diff: the changes, in order, that make `from` look like `to`.
pub fn diff<'a, T: PartialEq>(from: &'a [T], to: &'a [T]) -> (r: Vec<DiffItem<'a, T>>)
    requires
        T::obeys_eq_spec(),
        from@.len() < usize::MAX,
        to@.len() < usize::MAX,
    ensures
        ops_view(r@) == diff_ops(from@, to@),
{
    let table = build_lcs_table(from, to);
    let mut diffs: Vec<EditFlags> = Vec::new();
    proof {
        assert(table@.len() == table.deep_view().len());
        assert forall|r: int| 0 <= r <= from@.len() implies to@.len() < #[trigger] table@[r]@.len() by {
            assert(table.deep_view()[r] == table@[r]@);
        }
    }
    make_diffs(&table, from, to, from.len(), to.len(), &mut diffs);
    proof {
        lemma_script_counts(table.deep_view(), from@, to@, from@.len(), to@.len());
        assert(diffs@ =~= edit_script(table.deep_view(), from@, to@, from@.len(), to@.len()));
    }
    convert_to_diffitems(from, to, &diffs)
}

/// `out` followed by clones of `items[lo..hi)`.
fn extend_cloned<T: Clone>(out: &mut Vec<T>, items: &[T], lo: usize, hi: usize)
    requires
        lo <= hi <= items@.len(),
    ensures
        final(out)@.len() == old(out)@.len() + (hi - lo),
        forall|k: int| 0 <= k < old(out)@.len() ==> final(out)@[k] == old(out)@[k],
        forall|k: int|
            0 <= k < hi - lo ==> cloned(items@[lo + k], #[trigger] final(out)@[old(out)@.len() + k]),
{
    let ghost start = out@;
    let mut t: usize = lo;
    while t < hi
        invariant
            lo <= t <= hi <= items@.len(),
            out@.len() == start.len() + (t - lo),
            forall|k: int| 0 <= k < start.len() ==> out@[k] == start[k],
            forall|k: int|
                0 <= k < t - lo ==> cloned(items@[lo + k], #[trigger] out@[start.len() + k]),
        decreases hi - t,
    {
        let item = items[t].clone();
        out.push(item);
        t = t + 1;
    }
}

/// Applies one operation to `input`: the span that the operation covers is
/// replaced by its new items (nothing, for a deletion). Each operation of a
/// diff is applied on its own to the original sequence; positions are not
/// shifted to account for other operations.
pub fn patch<T: Clone>(input: &[T], diff: &DiffItem<T>) -> (r: Vec<T>)
    requires
        diff@.fits(input@.len()),
    ensures
        r@.len() == apply_op(input@, diff@).len(),
        forall|k: int| 0 <= k < r@.len() ==> cloned(apply_op(input@, diff@)[k], #[trigger] r@[k]),
{
    let (start, end, new_items) = match diff {
        DiffItem::Add { start_from, items, .. } => (*start_from, *start_from, *items),
        DiffItem::Delete { start_from, end_from, .. } => (*start_from - 1, *end_from, &input[0..0]),
        DiffItem::Replace { start_from, end_from, to, .. } => (*start_from - 1, *end_from, *to),
    };
    assert(new_items@ == diff@.replacement());
    let mut changes: Vec<T> = Vec::new();
    extend_cloned(&mut changes, input, 0, start);
    let ghost c1 = changes@;
    extend_cloned(&mut changes, new_items, 0, new_items.len());
    let ghost c2 = changes@;
    extend_cloned(&mut changes, input, end, input.len());
    proof {
        let a = apply_op(input@, diff@);
        let len = new_items@.len();
        assert forall|k: int| 0 <= k < changes@.len() implies cloned(a[k], #[trigger] changes@[k]) by {
            if k < start {
                assert(c1[0 + k] == c1[k]);
                assert(changes@[k] == c2[k]);
                assert(a[k] == input@[k]);
            } else if k < start + len {
                let t = k - start;
                assert(changes@[k] == c2[k]);
                assert(c2[c1.len() + t] == c2[k]);
                assert(a[k] == new_items@[t]);
            } else {
                let t = k - start - len;
                assert(changes@[c2.len() + t] == changes@[k]);
                assert(a[k] == input@[end + t]);
            }
        }
    }
    changes
}

} // verus!
