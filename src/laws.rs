use vstd::prelude::*;
use crate::diff_ops;
use crate::diffhelpers::{
    compress_from, edit_script, eq_is_identity, from_count, is_alignment, lcs_table,
    lemma_count_prefix, lemma_count_step, lemma_script_counts, run_op, same_item, to_count,
    EditFlags,
};
use crate::diffitem::{patch_all, patched_from, DiffOp};

verus! {

/// With an exact `==`, the flags that a walk back through any table finds
/// align the two prefixes.
proof fn lemma_script_aligns<T: PartialEq>(
    table: Seq<Seq<usize>>,
    from: Seq<T>,
    to: Seq<T>,
    i: nat,
    j: nat,
)
    requires
        eq_is_identity::<T>(),
        i <= from.len(),
        j <= to.len(),
    ensures
        is_alignment(edit_script(table, from, to, i, j), from.take(i as int), to.take(j as int)),
    decreases i + j,
{
    let s = edit_script(table, from, to, i, j);
    lemma_script_counts(table, from, to, i, j);
    if s.len() > 0 {
        let p = s.drop_last();
        let (pi, pj) = if i > 0 && j > 0 && same_item(from[i - 1], to[j - 1]) {
            ((i - 1) as nat, (j - 1) as nat)
        } else if j > 0 && (i == 0 || table[i as int][j - 1] >= table[i - 1][j as int]) {
            (i, (j - 1) as nat)
        } else {
            ((i - 1) as nat, j)
        };
        assert(p =~= edit_script(table, from, to, pi, pj));
        lemma_script_aligns(table, from, to, pi, pj);
        lemma_script_counts(table, from, to, pi, pj);
        assert forall|k: int| 0 <= k < s.len() && (#[trigger] s[k]) is Same implies from.take(
            i as int,
        )[from_count(s.take(k)) as int] == to.take(j as int)[to_count(s.take(k)) as int] by {
            if k < p.len() {
                assert(s.take(k) =~= p.take(k));
                assert(s[k] == p[k]);
                lemma_count_step(p, k);
                lemma_count_prefix(p, k + 1);
                assert(from.take(pi as int)[from_count(p.take(k)) as int] == to.take(
                    pj as int,
                )[to_count(p.take(k)) as int]);
            } else {
                assert(s.take(k) =~= p);
            }
        }
    }
}

/// Patching `a` from `p` with the operations that the rest of an alignment
/// folds into gives `a[p..s_from - 1)` followed by the rest of `b`.
proof fn lemma_compress_patches<T>(
    a: Seq<T>,
    b: Seq<T>,
    flags: Seq<EditFlags>,
    k: nat,
    s_from: nat,
    s_to: nat,
    adds: bool,
    dels: bool,
    p: int,
)
    requires
        is_alignment(flags, a, b),
        k <= flags.len(),
        1 <= s_from <= from_count(flags.take(k as int)) + 1,
        1 <= s_to <= to_count(flags.take(k as int)) + 1,
        adds == (to_count(flags.take(k as int)) >= s_to),
        dels == (from_count(flags.take(k as int)) >= s_from),
        k == flags.len() ==> s_from == from_count(flags.take(k as int)) + 1 && s_to == to_count(
            flags.take(k as int),
        ) + 1,
        0 <= p <= s_from - 1,
    ensures
        patched_from(
            a,
            compress_from(
                a,
                b,
                flags,
                k,
                from_count(flags.take(k as int)),
                to_count(flags.take(k as int)),
                s_from,
                s_to,
                adds,
                dels,
            ),
            p,
        ) == a.subrange(p, s_from - 1) + b.subrange(s_to - 1, b.len() as int),
    decreases flags.len() - k,
{
    let i = from_count(flags.take(k as int));
    let j = to_count(flags.take(k as int));
    let ops = compress_from(a, b, flags, k, i, j, s_from, s_to, adds, dels);
    if k == flags.len() {
        assert(flags.take(k as int) =~= flags);
        assert(a.subrange(p, a.len() as int) =~= a.subrange(p, s_from - 1) + b.subrange(
            s_to - 1,
            b.len() as int,
        ));
    } else {
        lemma_count_step(flags, k as int);
        lemma_count_prefix(flags, k + 1 as int);
        match flags[k as int] {
            EditFlags::Same => {
                let rest = compress_from(a, b, flags, k + 1, i + 1, j + 1, i + 2, j + 2, false, false);
                assert(a[i as int] == b[j as int]);
                if adds || dels {
                    lemma_compress_patches(a, b, flags, k + 1, i + 2, j + 2, false, false, i as int);
                    let op = ops[0];
                    assert(ops.drop_first() =~= rest);
                    assert(op.span_start() == s_from - 1);
                    assert(op.span_end() == i);
                    assert(op.replacement() =~= b.subrange(s_to - 1, j as int));
                    assert(a.subrange(i as int, i + 1 as int) =~= b.subrange(j as int, j + 1 as int));
                    assert(patched_from(a, ops, p) =~= a.subrange(p, s_from - 1) + b.subrange(
                        s_to - 1,
                        b.len() as int,
                    ));
                } else {
                    lemma_compress_patches(a, b, flags, k + 1, i + 2, j + 2, false, false, p);
                    assert(ops =~= rest);
                    assert(a.subrange(p, i + 1 as int) =~= a.subrange(p, i as int) + b.subrange(
                        j as int,
                        j + 1 as int,
                    ));
                    assert(b.subrange(j as int, b.len() as int) =~= b.subrange(j as int, j + 1 as int)
                        + b.subrange(j + 1 as int, b.len() as int));
                }
            },
            EditFlags::Delete => {
                if k + 1 == flags.len() {
                    assert(flags.take(k + 1 as int) =~= flags);
                    let op = ops[0];
                    assert(ops.drop_first() =~= Seq::<DiffOp<T>>::empty());
                    assert(op.replacement() =~= b.subrange(s_to - 1, j as int));
                    assert(op.span_start() == s_from - 1);
                    assert(op.span_end() == a.len());
                    assert(patched_from(a, ops.drop_first(), op.span_end()) =~= Seq::<T>::empty());
                    assert(patched_from(a, ops, p) =~= a.subrange(p, s_from - 1) + b.subrange(
                        s_to - 1,
                        b.len() as int,
                    ));
                } else {
                    lemma_compress_patches(a, b, flags, k + 1, s_from, s_to, adds, true, p);
                }
            },
            EditFlags::Add => {
                if k + 1 == flags.len() {
                    assert(flags.take(k + 1 as int) =~= flags);
                    let op = ops[0];
                    assert(ops.drop_first() =~= Seq::<DiffOp<T>>::empty());
                    assert(op.replacement() =~= b.subrange(s_to - 1, j + 1 as int));
                    assert(op.span_start() == s_from - 1);
                    assert(op.span_end() == a.len());
                    assert(patched_from(a, ops.drop_first(), op.span_end()) =~= Seq::<T>::empty());
                    assert(patched_from(a, ops, p) =~= a.subrange(p, s_from - 1) + b.subrange(
                        s_to - 1,
                        b.len() as int,
                    ));
                } else {
                    lemma_compress_patches(a, b, flags, k + 1, s_from, s_to, true, dels, p);
                }
            },
        }
    }
}

/// Where `==` is exact equality of values: applying each operation of
/// `diff(from, to)` to its own span of `from`, in order, keeping the elements
/// between the spans, gives `to`.
pub proof fn lemma_diff_patches<T: PartialEq>(from: Seq<T>, to: Seq<T>)
    requires
        eq_is_identity::<T>(),
    ensures
        patch_all(from, diff_ops(from, to)) == to,
{
    let table = lcs_table(from, to);
    let flags = edit_script(table, from, to, from.len(), to.len());
    lemma_script_aligns(table, from, to, from.len(), to.len());
    assert(from.take(from.len() as int) =~= from);
    assert(to.take(to.len() as int) =~= to);
    assert(flags.take(0) =~= Seq::<EditFlags>::empty());
    lemma_compress_patches(from, to, flags, 0, 1, 1, false, false, 0);
    assert(from.subrange(0, 0) + to.subrange(0, to.len() as int) =~= to);
}

/// With an exact `==`, a sequence aligns with itself element by element.
proof fn lemma_script_identical<T: PartialEq>(table: Seq<Seq<usize>>, a: Seq<T>, i: nat)
    requires
        eq_is_identity::<T>(),
        i <= a.len(),
    ensures
        edit_script(table, a, a, i, i) == Seq::new(i, |_k: int| EditFlags::Same),
    decreases i,
{
    if i > 0 {
        assert(same_item(a[i - 1], a[i - 1]));
        lemma_script_identical(table, a, (i - 1) as nat);
        assert(edit_script(table, a, a, i, i) =~= Seq::new(i, |_k: int| EditFlags::Same));
    } else {
        assert(edit_script(table, a, a, i, i) =~= Seq::new(i, |_k: int| EditFlags::Same));
    }
}

/// Flags that are all `Same` fold into no operation.
proof fn lemma_compress_all_same<T>(
    a: Seq<T>,
    b: Seq<T>,
    flags: Seq<EditFlags>,
    k: nat,
    i: nat,
    j: nat,
)
    requires
        forall|t: int| k <= t < flags.len() ==> (#[trigger] flags[t]) is Same,
    ensures
        compress_from(a, b, flags, k, i, j, i + 1, j + 1, false, false) == Seq::<DiffOp<T>>::empty(),
    decreases flags.len() - k,
{
    if k < flags.len() {
        assert(flags[k as int] is Same);
        lemma_compress_all_same(a, b, flags, k + 1, i + 1, j + 1);
        assert(compress_from(a, b, flags, k, i, j, i + 1, j + 1, false, false) =~= Seq::<
            DiffOp<T>,
        >::empty());
    }
}

/// Where `==` is exact equality of values, a sequence diffed against itself
/// yields no operation.
pub proof fn lemma_diff_identical<T: PartialEq>(a: Seq<T>)
    requires
        eq_is_identity::<T>(),
    ensures
        diff_ops(a, a) == Seq::<DiffOp<T>>::empty(),
{
    let table = lcs_table(a, a);
    lemma_script_identical(table, a, a.len());
    lemma_compress_all_same(a, a, Seq::new(a.len(), |_k: int| EditFlags::Same), 0, 0, 0);
}

/// Two runs of `diff` on the same two sequences yield the same operations.
pub proof fn lemma_diff_deterministic<T: PartialEq>(
    from: Seq<T>,
    to: Seq<T>,
    from_again: Seq<T>,
    to_again: Seq<T>,
)
    requires
        from_again == from,
        to_again == to,
    ensures
        diff_ops(from_again, to_again) == diff_ops(from, to),
{
}

/// From an empty "from" the walk back only adds.
proof fn lemma_script_from_empty<T: PartialEq>(
    table: Seq<Seq<usize>>,
    from: Seq<T>,
    to: Seq<T>,
    j: nat,
)
    requires
        from.len() == 0,
    ensures
        edit_script(table, from, to, 0, j) == Seq::new(j, |_k: int| EditFlags::Add),
    decreases j,
{
    if j > 0 {
        lemma_script_from_empty(table, from, to, (j - 1) as nat);
    }
    assert(edit_script(table, from, to, 0, j) =~= Seq::new(j, |_k: int| EditFlags::Add));
}

/// Towards an empty "to" the walk back only deletes.
proof fn lemma_script_to_empty<T: PartialEq>(
    table: Seq<Seq<usize>>,
    from: Seq<T>,
    to: Seq<T>,
    i: nat,
)
    requires
        to.len() == 0,
    ensures
        edit_script(table, from, to, i, 0) == Seq::new(i, |_k: int| EditFlags::Delete),
    decreases i,
{
    if i > 0 {
        lemma_script_to_empty(table, from, to, (i - 1) as nat);
    }
    assert(edit_script(table, from, to, i, 0) =~= Seq::new(i, |_k: int| EditFlags::Delete));
}

/// Flags that are all `Add` fold into one insertion of the whole of "to".
proof fn lemma_compress_all_add<T>(a: Seq<T>, b: Seq<T>, flags: Seq<EditFlags>, k: nat)
    requires
        k < flags.len(),
        forall|t: int| 0 <= t < flags.len() ==> (#[trigger] flags[t]) is Add,
    ensures
        compress_from(a, b, flags, k, 0, k, 1, 1, k > 0, false) == seq![
            DiffOp::Add {
                start_from: 0,
                start_to: 1,
                end_to: flags.len() + 1,
                items: b.subrange(0, flags.len() as int),
            },
        ],
    decreases flags.len() - k,
{
    assert(flags[k as int] is Add);
    if k + 1 < flags.len() {
        lemma_compress_all_add(a, b, flags, k + 1);
    }
}

/// Flags that are all `Delete` fold into one deletion of the whole of "from".
proof fn lemma_compress_all_delete<T>(a: Seq<T>, b: Seq<T>, flags: Seq<EditFlags>, k: nat)
    requires
        k < flags.len(),
        forall|t: int| 0 <= t < flags.len() ==> (#[trigger] flags[t]) is Delete,
    ensures
        compress_from(a, b, flags, k, k, 0, 1, 1, false, k > 0) == seq![
            DiffOp::Delete {
                start_from: 1,
                end_from: flags.len(),
                start_to: 0,
                items: a.subrange(0, flags.len() as int),
            },
        ],
    decreases flags.len() - k,
{
    assert(flags[k as int] is Delete);
    if k + 1 < flags.len() {
        lemma_compress_all_delete(a, b, flags, k + 1);
    }
}

/// Diffing an empty sequence against a non-empty `to` yields one insertion
/// of the whole of `to`.
pub proof fn lemma_diff_from_empty<T: PartialEq>(to: Seq<T>)
    requires
        to.len() > 0,
    ensures
        diff_ops(Seq::<T>::empty(), to) == seq![
            DiffOp::Add { start_from: 0, start_to: 1, end_to: to.len() + 1, items: to },
        ],
{
    let from = Seq::<T>::empty();
    let table = lcs_table(from, to);
    lemma_script_from_empty(table, from, to, to.len());
    lemma_compress_all_add(from, to, Seq::new(to.len(), |_k: int| EditFlags::Add), 0);
    assert(to.subrange(0, to.len() as int) =~= to);
}

/// Diffing a non-empty `from` against an empty sequence yields one deletion
/// of the whole of `from`.
pub proof fn lemma_diff_to_empty<T: PartialEq>(from: Seq<T>)
    requires
        from.len() > 0,
    ensures
        diff_ops(from, Seq::<T>::empty()) == seq![
            DiffOp::Delete { start_from: 1, end_from: from.len(), start_to: 0, items: from },
        ],
{
    let to = Seq::<T>::empty();
    let table = lcs_table(from, to);
    lemma_script_to_empty(table, from, to, from.len());
    lemma_compress_all_delete(from, to, Seq::new(from.len(), |_k: int| EditFlags::Delete), 0);
    assert(from.subrange(0, from.len() as int) =~= from);
}

/// Each of `ops` lies within a sequence of `len` elements.
pub open spec fn all_fit<T>(ops: Seq<DiffOp<T>>, len: nat) -> bool {
    forall|t: int| 0 <= t < ops.len() ==> (#[trigger] ops[t]).fits(len)
}

/// Each operation that the rest of the flags fold into lies within `a`.
proof fn lemma_compress_fits<T>(
    a: Seq<T>,
    b: Seq<T>,
    flags: Seq<EditFlags>,
    k: nat,
    s_from: nat,
    s_to: nat,
    adds: bool,
    dels: bool,
)
    requires
        from_count(flags) <= a.len(),
        k <= flags.len(),
        1 <= s_from <= from_count(flags.take(k as int)) + 1,
    ensures
        all_fit(
            compress_from(
                a,
                b,
                flags,
                k,
                from_count(flags.take(k as int)),
                to_count(flags.take(k as int)),
                s_from,
                s_to,
                adds,
                dels,
            ),
            a.len(),
        ),
    decreases flags.len() - k,
{
    if k < flags.len() {
        let i = from_count(flags.take(k as int));
        let j = to_count(flags.take(k as int));
        lemma_count_step(flags, k as int);
        lemma_count_prefix(flags, k + 1 as int);
        let ops = compress_from(a, b, flags, k, i, j, s_from, s_to, adds, dels);
        match flags[k as int] {
            EditFlags::Same => {
                lemma_compress_fits(a, b, flags, k + 1, i + 2, j + 2, false, false);
                let first = run_op(a, b, s_from, s_to, i, j, adds, dels);
                let rest = compress_from(a, b, flags, k + 1, i + 1, j + 1, i + 2, j + 2, false, false);
                assert(all_fit(first, a.len()));
                assert(ops == first + rest);
                assert forall|t: int| 0 <= t < ops.len() implies (#[trigger] ops[t]).fits(a.len()) by {
                    if t >= first.len() {
                        assert(ops[t] == rest[t - first.len()]);
                    } else {
                        assert(ops[t] == first[t]);
                    }
                }
            },
            EditFlags::Delete => {
                if k + 1 < flags.len() {
                    lemma_compress_fits(a, b, flags, k + 1, s_from, s_to, adds, true);
                } else {
                    assert(all_fit(ops, a.len()));
                }
            },
            EditFlags::Add => {
                if k + 1 < flags.len() {
                    lemma_compress_fits(a, b, flags, k + 1, s_from, s_to, true, dels);
                } else {
                    assert(all_fit(ops, a.len()));
                }
            },
        }
    }
}

/// Every operation of `diff(from, to)` lies within `from`, so each can be
/// applied to `from` by `patch`.
pub proof fn lemma_diff_ops_fit<T: PartialEq>(from: Seq<T>, to: Seq<T>)
    ensures
        all_fit(diff_ops(from, to), from.len()),
{
    let table = lcs_table(from, to);
    let flags = edit_script(table, from, to, from.len(), to.len());
    lemma_script_counts(table, from, to, from.len(), to.len());
    assert(flags.take(0) =~= Seq::<EditFlags>::empty());
    assert(from_count(flags.take(0)) == 0);
    assert(to_count(flags.take(0)) == 0);
    lemma_compress_fits(from, to, flags, 0, 1, 1, false, false);
}

} // verus!
