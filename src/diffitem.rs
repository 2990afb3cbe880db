use vstd::prelude::*;

verus! {

/// An edit action (an addition, a deletion or a replacement), holding what is
/// needed to make the change to a slice. Positions are 1-based, as in
/// conventional diff output; the items borrow from the diffed sequences.
#[derive(Debug, PartialEq, Eq)]
pub enum DiffItem<'a, T: 'a> {
    /// An insertion.
    Add {
        /// The position in "from" after which the new items go.
        start_from: usize,
        /// The first position of the new items in "to".
        start_to: usize,
        /// The end position of the new items in "to", one past the last.
        end_to: usize,
        /// The items to insert.
        items: &'a [T],
    },
    /// A deletion.
    Delete {
        /// The first position of the deleted items in "from".
        start_from: usize,
        /// The last position of the deleted items in "from".
        end_from: usize,
        /// The position in "to" after which the items vanish.
        start_to: usize,
        /// The items to delete.
        items: &'a [T],
    },
    /// A replacement of a run of "from" by a run of "to".
    Replace {
        /// The first position of the replaced items in "from".
        start_from: usize,
        /// The last position of the replaced items in "from".
        end_from: usize,
        /// The first position of the new items in "to".
        start_to: usize,
        /// The last position of the new items in "to".
        end_to: usize,
        /// The items of "from" that are replaced.
        from: &'a [T],
        /// The items of "to" that replace them.
        to: &'a [T],
    },
}

/// The mathematical value of a `DiffItem`: its positions, and the items it
/// refers to as sequences.
pub enum DiffOp<T> {
    Add { start_from: nat, start_to: nat, end_to: nat, items: Seq<T> },
    Delete { start_from: nat, end_from: nat, start_to: nat, items: Seq<T> },
    Replace {
        start_from: nat,
        end_from: nat,
        start_to: nat,
        end_to: nat,
        from: Seq<T>,
        to: Seq<T>,
    },
}

impl<'a, T> View for DiffItem<'a, T> {
    type V = DiffOp<T>;

    open spec fn view(&self) -> DiffOp<T> {
        match *self {
            DiffItem::Add { start_from, start_to, end_to, items } => DiffOp::Add {
                start_from: start_from as nat,
                start_to: start_to as nat,
                end_to: end_to as nat,
                items: items@,
            },
            DiffItem::Delete { start_from, end_from, start_to, items } => DiffOp::Delete {
                start_from: start_from as nat,
                end_from: end_from as nat,
                start_to: start_to as nat,
                items: items@,
            },
            DiffItem::Replace { start_from, end_from, start_to, end_to, from, to } =>
                DiffOp::Replace {
                start_from: start_from as nat,
                end_from: end_from as nat,
                start_to: start_to as nat,
                end_to: end_to as nat,
                from: from@,
                to: to@,
            },
        }
    }
}

impl<'a, T> DiffItem<'a, T> {
    /// Whether the item's span lies within a sequence of `len` elements, so
    /// that it can be applied to it.
    pub fn fits_in(&self, len: usize) -> (r: bool)
        ensures
            r == self@.fits(len as nat),
    {
        match self {
            DiffItem::Add { start_from, .. } => *start_from <= len,
            DiffItem::Delete { start_from, end_from, .. } => 1 <= *start_from && *start_from - 1
                <= *end_from && *end_from <= len,
            DiffItem::Replace { start_from, end_from, .. } => 1 <= *start_from && *start_from - 1
                <= *end_from && *end_from <= len,
        }
    }
}

/// The views of a sequence of diff items.
pub open spec fn ops_view<'a, T>(items: Seq<DiffItem<'a, T>>) -> Seq<DiffOp<T>> {
    items.map_values(|d: DiffItem<'a, T>| d@)
}

impl<T> DiffOp<T> {
    /// Where the span of the original that the operation acts on begins
    /// (0-based): the insertion point, or the first removed element.
    pub open spec fn span_start(self) -> int {
        match self {
            DiffOp::Add { start_from, .. } => start_from as int,
            DiffOp::Delete { start_from, .. } => start_from - 1,
            DiffOp::Replace { start_from, .. } => start_from - 1,
        }
    }

    /// Where that span ends (0-based, exclusive).
    pub open spec fn span_end(self) -> int {
        match self {
            DiffOp::Add { start_from, .. } => start_from as int,
            DiffOp::Delete { end_from, .. } => end_from as int,
            DiffOp::Replace { end_from, .. } => end_from as int,
        }
    }

    /// The elements of the original that the operation removes.
    pub open spec fn removed(self) -> Seq<T> {
        match self {
            DiffOp::Add { .. } => Seq::empty(),
            DiffOp::Delete { items, .. } => items,
            DiffOp::Replace { from, .. } => from,
        }
    }

    /// What takes the place of that span.
    pub open spec fn replacement(self) -> Seq<T> {
        match self {
            DiffOp::Add { items, .. } => items,
            DiffOp::Delete { .. } => Seq::empty(),
            DiffOp::Replace { to, .. } => to,
        }
    }

    /// The operation's span lies within a sequence of `len` elements (for a
    /// deletion or a replacement, the 1-based start is thus at least 1).
    pub open spec fn fits(self, len: nat) -> bool {
        0 <= self.span_start() <= self.span_end() <= len
    }
}

/// `source` with the operation's span replaced by its replacement.
pub open spec fn apply_op<T>(source: Seq<T>, op: DiffOp<T>) -> Seq<T> {
    source.take(op.span_start()) + op.replacement() + source.skip(op.span_end())
}

/// `a` from `pos` on, with each of `ops` (in order, and each acting on its own
/// span of `a`) putting its replacement in place of its span, and the elements
/// between the spans kept.
pub open spec fn patched_from<T>(a: Seq<T>, ops: Seq<DiffOp<T>>, pos: int) -> Seq<T>
    decreases ops.len(),
{
    if ops.len() == 0 {
        a.subrange(pos, a.len() as int)
    } else {
        a.subrange(pos, ops[0].span_start()) + ops[0].replacement() + patched_from(
            a,
            ops.drop_first(),
            ops[0].span_end(),
        )
    }
}

/// `a` with every one of `ops` applied to its own span, in order.
pub open spec fn patch_all<T>(a: Seq<T>, ops: Seq<DiffOp<T>>) -> Seq<T> {
    patched_from(a, ops, 0)
}

} // verus!
