use vstd::prelude::*;
use vstd::std_specs::cmp::PartialEqSpec;
use crate::diffitem::{DiffItem, DiffOp, ops_view};

verus! {

/// The status of a single element in an alignment of two sequences.
///
/// Example, from `A B C` to `A D C`:
/// `A` is `Same`, `B` is `Delete`, `D` is `Add`, `C` is `Same`.
#[derive(Debug, Clone, Copy, PartialEq, Eq, Structural)]
pub enum EditFlags {
    Add,
    Delete,
    Same,
}

/// The one-character symbol of a flag.
pub open spec fn flag_symbol(f: EditFlags) -> Seq<char> {
    match f {
        EditFlags::Add => seq!['+'],
        EditFlags::Delete => seq!['-'],
        EditFlags::Same => seq!['s'],
    }
}

impl EditFlags {
    /// `+` for an addition, `-` for a deletion, `s` for an unchanged element.
    pub fn to_string(&self) -> (r: String)
        ensures
            r@ == flag_symbol(*self),
    {
        match self {
            EditFlags::Add => {
                proof {
                    reveal_strlit("+");
                }
                String::from_str("+")
            },
            EditFlags::Delete => {
                proof {
                    reveal_strlit("-");
                }
                String::from_str("-")
            },
            EditFlags::Same => {
                proof {
                    reveal_strlit("s");
                }
                String::from_str("s")
            },
        }
    }
}

/// A longest-common-subsequence table: `(len(from) + 1)` rows of
/// `(len(to) + 1)` cells.
pub type LCSTable = Vec<Vec<usize>>;

/// Two elements compare equal under their type's `==`.
pub open spec fn same_item<T: PartialEq>(a: T, b: T) -> bool {
    a.eq_spec(&b)
}

/// The cell `(i, j)` of the table: the length of the longest common
/// subsequence of `from[0..i)` and `to[0..j)`, computed for the inner cells;
/// the first and the last row and column stay zero.
pub open spec fn lcs_cell<T: PartialEq>(from: Seq<T>, to: Seq<T>, i: nat, j: nat) -> nat
    decreases i + j,
{
    if i == 0 || j == 0 || i >= from.len() || j >= to.len() {
        0
    } else if same_item(from[i - 1], to[j - 1]) {
        lcs_cell(from, to, (i - 1) as nat, (j - 1) as nat) + 1
    } else {
        let left = lcs_cell(from, to, i, (j - 1) as nat);
        let up = lcs_cell(from, to, (i - 1) as nat, j);
        if left >= up {
            left
        } else {
            up
        }
    }
}

/// The whole table for `from` and `to`.
pub open spec fn lcs_table<T: PartialEq>(from: Seq<T>, to: Seq<T>) -> Seq<Seq<usize>> {
    Seq::new(
        (from.len() + 1) as nat,
        |i: int| Seq::new((to.len() + 1) as nat, |j: int| lcs_cell(from, to, i as nat, j as nat) as usize),
    )
}

/// A cell never exceeds its row number.
proof fn lemma_lcs_cell_bound<T: PartialEq>(from: Seq<T>, to: Seq<T>, i: nat, j: nat)
    ensures
        lcs_cell(from, to, i, j) <= i,
    decreases i + j,
{
    if i == 0 || j == 0 || i >= from.len() || j >= to.len() {
    } else if same_item(from[i - 1], to[j - 1]) {
        lemma_lcs_cell_bound(from, to, (i - 1) as nat, (j - 1) as nat);
    } else {
        lemma_lcs_cell_bound(from, to, i, (j - 1) as nat);
        lemma_lcs_cell_bound(from, to, (i - 1) as nat, j);
    }
}

/// Builds the longest-common-subsequence table of `from` and `to`, row by row.
pub fn build_lcs_table<T: PartialEq>(from: &[T], to: &[T]) -> (table: LCSTable)
    requires
        T::obeys_eq_spec(),
        from@.len() < usize::MAX,
        to@.len() < usize::MAX,
    ensures
        table.deep_view() == lcs_table(from@, to@),
{
    let n = from.len();
    let m = to.len();
    let mut table: LCSTable = Vec::with_capacity(n + 1);
    let mut i: usize = 0;
    while i <= n
        invariant
            n == from@.len(),
            m == to@.len(),
            n < usize::MAX,
            m < usize::MAX,
            T::obeys_eq_spec(),
            i <= n + 1,
            table@.len() == i,
            forall|r: int| 0 <= r < i ==> #[trigger] table@[r]@.len() == m + 1,
            forall|r: int, c: int|
                0 <= r < i && 0 <= c <= m ==> #[trigger] table@[r]@[c] == lcs_cell(
                    from@,
                    to@,
                    r as nat,
                    c as nat,
                ),
        decreases n + 1 - i,
    {
        let mut row: Vec<usize> = Vec::with_capacity(m + 1);
        let mut j: usize = 0;
        while j <= m
            invariant
                n == from@.len(),
                m == to@.len(),
                n < usize::MAX,
                m < usize::MAX,
                T::obeys_eq_spec(),
                i <= n,
                j <= m + 1,
                table@.len() == i,
                forall|r: int| 0 <= r < i ==> #[trigger] table@[r]@.len() == m + 1,
                forall|r: int, c: int|
                    0 <= r < i && 0 <= c <= m ==> #[trigger] table@[r]@[c] == lcs_cell(
                        from@,
                        to@,
                        r as nat,
                        c as nat,
                    ),
                row@.len() == j,
                forall|c: int|
                    0 <= c < j ==> #[trigger] row@[c] == lcs_cell(from@, to@, i as nat, c as nat),
            decreases m + 1 - j,
        {
            let cell: usize;
            if i == 0 || j == 0 || i == n || j == m {
                cell = 0;
            } else if from[i - 1] == to[j - 1] {
                proof {
                    lemma_lcs_cell_bound(from@, to@, (i - 1) as nat, (j - 1) as nat);
                }
                cell = table[i - 1][j - 1] + 1;
            } else {
                let left = row[j - 1];
                let up = table[i - 1][j];
                if left >= up {
                    cell = left;
                } else {
                    cell = up;
                }
            }
            row.push(cell);
            j = j + 1;
        }
        table.push(row);
        i = i + 1;
    }
    proof {
        let d = table.deep_view();
        let t = lcs_table(from@, to@);
        assert(d.len() == t.len());
        assert forall|r: int| 0 <= r < d.len() implies d[r] =~= t[r] by {
            assert forall|c: int| 0 <= c < d[r].len() implies d[r][c] == t[r][c] by {
                lemma_lcs_cell_bound(from@, to@, r as nat, c as nat);
                assert(table@[r]@[c] == lcs_cell(from@, to@, r as nat, c as nat));
            }
        }
        assert(d =~= t);
    }
    table
}

/// The flags of the alignment of `from[0..i)` with `to[0..j)` that a walk back
/// through `table` from `(i, j)` finds, in document order. Equal elements are
/// matched first; otherwise an addition is taken when the cell to the left is
/// at least the cell above, and a deletion else.
pub open spec fn edit_script<T: PartialEq>(
    table: Seq<Seq<usize>>,
    from: Seq<T>,
    to: Seq<T>,
    i: nat,
    j: nat,
) -> Seq<EditFlags>
    decreases i + j,
{
    if i > 0 && j > 0 && same_item(from[i - 1], to[j - 1]) {
        edit_script(table, from, to, (i - 1) as nat, (j - 1) as nat).push(EditFlags::Same)
    } else if j > 0 && (i == 0 || table[i as int][j - 1] >= table[i - 1][j as int]) {
        edit_script(table, from, to, i, (j - 1) as nat).push(EditFlags::Add)
    } else if i > 0 {
        edit_script(table, from, to, (i - 1) as nat, j).push(EditFlags::Delete)
    } else {
        Seq::empty()
    }
}

/// Appends to `diffs` the flags of the alignment of `from[0..i)` with
/// `to[0..j)` that `table` gives.
pub fn make_diffs<T: PartialEq>(
    table: &LCSTable,
    from: &[T],
    to: &[T],
    i: usize,
    j: usize,
    diffs: &mut Vec<EditFlags>,
)
    requires
        T::obeys_eq_spec(),
        i <= from@.len(),
        j <= to@.len(),
        i < table@.len(),
        forall|r: int| 0 <= r <= i ==> j < #[trigger] table@[r]@.len(),
    ensures
        final(diffs)@ == old(diffs)@ + edit_script(table.deep_view(), from@, to@, i as nat, j as nat),
{
    let ghost tab = table.deep_view();
    let ghost whole = edit_script(tab, from@, to@, i as nat, j as nat);
    let mut ci: usize = i;
    let mut cj: usize = j;
    // The flags found so far, last first.
    let mut backwards: Vec<EditFlags> = Vec::new();
    let ghost mut found: Seq<EditFlags> = Seq::empty();
    while ci > 0 || cj > 0
        invariant
            T::obeys_eq_spec(),
            ci <= i <= from@.len(),
            cj <= j <= to@.len(),
            i < table@.len(),
            forall|r: int| 0 <= r <= i ==> j < #[trigger] table@[r]@.len(),
            tab == table.deep_view(),
            whole == edit_script(tab, from@, to@, ci as nat, cj as nat) + found,
            backwards@.len() == found.len(),
            forall|t: int|
                0 <= t < found.len() ==> #[trigger] backwards@[t] == found[found.len() - 1 - t],
        decreases ci + cj,
    {
        let flag: EditFlags;
        if ci > 0 && cj > 0 && from[ci - 1] == to[cj - 1] {
            flag = EditFlags::Same;
            ci = ci - 1;
            cj = cj - 1;
        } else if cj > 0 && (ci == 0 || table[ci][cj - 1] >= table[ci - 1][cj]) {
            flag = EditFlags::Add;
            cj = cj - 1;
        } else {
            flag = EditFlags::Delete;
            ci = ci - 1;
        }
        proof {
            assert(whole =~= edit_script(tab, from@, to@, ci as nat, cj as nat) + seq![flag]
                + found);
            found = seq![flag] + found;
        }
        backwards.push(flag);
    }
    assert(whole =~= found);
    let ghost start = diffs@;
    let mut k: usize = backwards.len();
    while k > 0
        invariant
            k <= backwards@.len() == found.len(),
            forall|t: int|
                0 <= t < found.len() ==> #[trigger] backwards@[t] == found[found.len() - 1 - t],
            diffs@ == start + found.take(found.len() - k),
        decreases k,
    {
        k = k - 1;
        diffs.push(backwards[k]);
        assert(found.take(found.len() - k) =~= found.take(found.len() - k - 1).push(
            found[found.len() - 1 - k],
        ));
    }
    assert(found.take(found.len() as int) =~= found);
}

/// How many elements of "from" the flags step over (all but additions).
pub open spec fn from_count(flags: Seq<EditFlags>) -> nat
    decreases flags.len(),
{
    if flags.len() == 0 {
        0
    } else {
        from_count(flags.drop_last()) + if flags.last() is Add {
            0nat
        } else {
            1nat
        }
    }
}

/// How many elements of "to" the flags step over (all but deletions).
pub open spec fn to_count(flags: Seq<EditFlags>) -> nat
    decreases flags.len(),
{
    if flags.len() == 0 {
        0
    } else {
        to_count(flags.drop_last()) + if flags.last() is Delete {
            0nat
        } else {
            1nat
        }
    }
}

/// A type whose `==` is exactly equality of values.
pub open spec fn eq_is_identity<T: PartialEq>() -> bool {
    forall|x: T, y: T| #[trigger] same_item(x, y) <==> x == y
}

/// The flags align `from` with `to`: they step over each side exactly, and
/// each `Same` stands where the two sides hold equal elements.
pub open spec fn is_alignment<T>(flags: Seq<EditFlags>, from: Seq<T>, to: Seq<T>) -> bool {
    &&& from_count(flags) == from.len()
    &&& to_count(flags) == to.len()
    &&& forall|k: int|
        0 <= k < flags.len() && (#[trigger] flags[k]) is Same ==> from[from_count(flags.take(k)) as int]
            == to[to_count(flags.take(k)) as int]
}

/// The counts over a prefix grow by one flag at a time.
pub(crate) proof fn lemma_count_step(flags: Seq<EditFlags>, k: int)
    requires
        0 <= k < flags.len(),
    ensures
        from_count(flags.take(k + 1)) == from_count(flags.take(k)) + if flags[k] is Add {
            0nat
        } else {
            1nat
        },
        to_count(flags.take(k + 1)) == to_count(flags.take(k)) + if flags[k] is Delete {
            0nat
        } else {
            1nat
        },
{
    assert(flags.take(k + 1).drop_last() =~= flags.take(k));
}

/// The counts over a prefix never exceed those over the whole.
pub(crate) proof fn lemma_count_prefix(flags: Seq<EditFlags>, k: int)
    requires
        0 <= k <= flags.len(),
    ensures
        from_count(flags.take(k)) <= from_count(flags),
        to_count(flags.take(k)) <= to_count(flags),
    decreases flags.len() - k,
{
    if k == flags.len() {
        assert(flags.take(k) =~= flags);
    } else {
        lemma_count_step(flags, k);
        lemma_count_prefix(flags, k + 1);
    }
}

/// The flags of `edit_script` step over exactly `i` elements of "from" and
/// `j` of "to".
pub(crate) proof fn lemma_script_counts<T: PartialEq>(
    table: Seq<Seq<usize>>,
    from: Seq<T>,
    to: Seq<T>,
    i: nat,
    j: nat,
)
    ensures
        from_count(edit_script(table, from, to, i, j)) == i,
        to_count(edit_script(table, from, to, i, j)) == j,
    decreases i + j,
{
    let s = edit_script(table, from, to, i, j);
    if i > 0 && j > 0 && same_item(from[i - 1], to[j - 1]) {
        lemma_script_counts(table, from, to, (i - 1) as nat, (j - 1) as nat);
        assert(s.drop_last() =~= edit_script(table, from, to, (i - 1) as nat, (j - 1) as nat));
    } else if j > 0 && (i == 0 || table[i as int][j - 1] >= table[i - 1][j as int]) {
        lemma_script_counts(table, from, to, i, (j - 1) as nat);
        assert(s.drop_last() =~= edit_script(table, from, to, i, (j - 1) as nat));
    } else if i > 0 {
        lemma_script_counts(table, from, to, (i - 1) as nat, j);
        assert(s.drop_last() =~= edit_script(table, from, to, (i - 1) as nat, j));
    }
}

/// The operation that a pending run becomes when it is closed: the run began
/// at the 1-based positions `s_from` and `s_to` and reaches `from[0..i)` and
/// `to[0..j)`; `adds` and `dels` say which kinds of flag it holds.
pub open spec fn run_op<T>(
    from: Seq<T>,
    to: Seq<T>,
    s_from: nat,
    s_to: nat,
    i: nat,
    j: nat,
    adds: bool,
    dels: bool,
) -> Seq<DiffOp<T>> {
    if dels && !adds {
        seq![
            DiffOp::Delete {
                start_from: s_from,
                end_from: i,
                start_to: (s_to - 1) as nat,
                items: from.subrange(s_from - 1, i as int),
            },
        ]
    } else if adds && !dels {
        seq![
            DiffOp::Add {
                start_from: (s_from - 1) as nat,
                start_to: s_to,
                end_to: j + 1,
                items: to.subrange(s_to - 1, j as int),
            },
        ]
    } else if adds && dels {
        seq![
            DiffOp::Replace {
                start_from: s_from,
                end_from: i,
                start_to: s_to,
                end_to: j,
                from: from.subrange(s_from - 1, i as int),
                to: to.subrange(s_to - 1, j as int),
            },
        ]
    } else {
        Seq::empty()
    }
}

/// The operations that `flags[k..]` yields, from the walk's state at `k`:
/// `i` and `j` elements of each side passed, a pending run begun at `s_from`
/// and `s_to` holding additions (`adds`) and deletions (`dels`). A `Same`
/// closes the pending run; so does the end of the flags.
pub open spec fn compress_from<T>(
    from: Seq<T>,
    to: Seq<T>,
    flags: Seq<EditFlags>,
    k: nat,
    i: nat,
    j: nat,
    s_from: nat,
    s_to: nat,
    adds: bool,
    dels: bool,
) -> Seq<DiffOp<T>>
    decreases flags.len() - k,
{
    if k >= flags.len() {
        Seq::empty()
    } else {
        match flags[k as int] {
            EditFlags::Same => run_op(from, to, s_from, s_to, i, j, adds, dels) + compress_from(
                from,
                to,
                flags,
                k + 1,
                i + 1,
                j + 1,
                i + 2,
                j + 2,
                false,
                false,
            ),
            EditFlags::Delete => if k + 1 == flags.len() {
                run_op(from, to, s_from, s_to, i + 1, j, adds, true)
            } else {
                compress_from(from, to, flags, k + 1, i + 1, j, s_from, s_to, adds, true)
            },
            EditFlags::Add => if k + 1 == flags.len() {
                run_op(from, to, s_from, s_to, i, j + 1, true, dels)
            } else {
                compress_from(from, to, flags, k + 1, i, j + 1, s_from, s_to, true, dels)
            },
        }
    }
}

/// The operations that the flags fold into: each maximal run of additions and
/// deletions becomes one insertion, deletion or replacement.
pub open spec fn compress<T>(from: Seq<T>, to: Seq<T>, flags: Seq<EditFlags>) -> Seq<DiffOp<T>> {
    compress_from(from, to, flags, 0, 0, 0, 1, 1, false, false)
}

/// Closes a pending run: the operation it becomes, if it holds any change.
fn check_diff<'a, T>(
    adds: bool,
    dels: bool,
    s_from: usize,
    s_to: usize,
    i: usize,
    j: usize,
    from: &'a [T],
    to: &'a [T],
) -> (r: Option<DiffItem<'a, T>>)
    requires
        1 <= s_from <= i + 1,
        i <= from@.len(),
        1 <= s_to <= j + 1,
        j <= to@.len(),
        to@.len() < usize::MAX,
    ensures
        match r {
            Some(d) => run_op(from@, to@, s_from as nat, s_to as nat, i as nat, j as nat, adds, dels)
                == seq![d@],
            None => run_op(from@, to@, s_from as nat, s_to as nat, i as nat, j as nat, adds, dels)
                == Seq::<DiffOp<T>>::empty(),
        },
{
    if dels && !adds {
        Some(
            DiffItem::Delete {
                start_from: s_from,
                end_from: i,
                start_to: s_to - 1,
                items: &from[s_from - 1..i],
            },
        )
    } else if adds && !dels {
        Some(
            DiffItem::Add {
                start_from: s_from - 1,
                start_to: s_to,
                end_to: j + 1,
                items: &to[s_to - 1..j],
            },
        )
    } else if adds && dels {
        Some(
            DiffItem::Replace {
                start_from: s_from,
                end_from: i,
                start_to: s_to,
                end_to: j,
                from: &from[s_from - 1..i],
                to: &to[s_to - 1..j],
            },
        )
    } else {
        None
    }
}

/// Folds a sequence of flags into diff items: each maximal run of additions
/// and deletions becomes one insertion, deletion or replacement.
pub fn convert_to_diffitems<'a, T>(from: &'a [T], to: &'a [T], diffs: &Vec<EditFlags>) -> (r: Vec<
    DiffItem<'a, T>,
>)
    requires
        from_count(diffs@) <= from@.len() < usize::MAX,
        to_count(diffs@) <= to@.len() < usize::MAX,
    ensures
        ops_view(r@) == compress(from@, to@, diffs@),
{
    let ghost whole = compress(from@, to@, diffs@);
    let mut result: Vec<DiffItem<'a, T>> = Vec::new();
    let mut ind_from: usize = 0;
    let mut ind_to: usize = 0;
    let mut s_from: usize = 1;
    let mut s_to: usize = 1;
    let mut adds = false;
    let mut dels = false;
    let n = diffs.len();
    let mut k: usize = 0;
    while k < n
        invariant
            n == diffs@.len(),
            from_count(diffs@) <= from@.len() < usize::MAX,
            to_count(diffs@) <= to@.len() < usize::MAX,
            k <= n,
            ind_from == from_count(diffs@.take(k as int)),
            ind_to == to_count(diffs@.take(k as int)),
            1 <= s_from <= ind_from + 1,
            1 <= s_to <= ind_to + 1,
            whole == ops_view(result@) + compress_from(
                from@,
                to@,
                diffs@,
                k as nat,
                ind_from as nat,
                ind_to as nat,
                s_from as nat,
                s_to as nat,
                adds,
                dels,
            ),
        decreases n - k,
    {
        proof {
            lemma_count_step(diffs@, k as int);
            lemma_count_prefix(diffs@, k + 1);
        }
        let ghost before = result@;
        match diffs[k] {
            EditFlags::Same => {
                let closed = check_diff(adds, dels, s_from, s_to, ind_from, ind_to, from, to);
                match closed {
                    Some(d) => {
                        result.push(d);
                    },
                    None => {},
                }
                ind_from = ind_from + 1;
                ind_to = ind_to + 1;
                s_from = ind_from + 1;
                s_to = ind_to + 1;
                adds = false;
                dels = false;
            },
            EditFlags::Delete => {
                ind_from = ind_from + 1;
                dels = true;
                if k + 1 == n {
                    let closed = check_diff(adds, dels, s_from, s_to, ind_from, ind_to, from, to);
                    match closed {
                        Some(d) => {
                            result.push(d);
                        },
                        None => {},
                    }
                }
            },
            EditFlags::Add => {
                ind_to = ind_to + 1;
                adds = true;
                if k + 1 == n {
                    let closed = check_diff(adds, dels, s_from, s_to, ind_from, ind_to, from, to);
                    match closed {
                        Some(d) => {
                            result.push(d);
                        },
                        None => {},
                    }
                }
            },
        }
        proof {
            assert(ops_view(result@) =~= ops_view(before) + (ops_view(result@).skip(
                before.len() as int,
            )));
        }
        k = k + 1;
    }
    assert(ops_view(result@) + Seq::<DiffOp<T>>::empty() =~= ops_view(result@));
    result
}

} // verus!
