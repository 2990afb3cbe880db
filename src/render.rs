use vstd::prelude::*;
use crate::diffhelpers::EditFlags;
use crate::diffitem::{DiffItem, DiffOp};

verus! {

/// The decimal digit for `d < 10`.
pub open spec fn digit_char(d: nat) -> char {
    if d == 0 {
        '0'
    } else if d == 1 {
        '1'
    } else if d == 2 {
        '2'
    } else if d == 3 {
        '3'
    } else if d == 4 {
        '4'
    } else if d == 5 {
        '5'
    } else if d == 6 {
        '6'
    } else if d == 7 {
        '7'
    } else if d == 8 {
        '8'
    } else {
        '9'
    }
}

/// The decimal notation of `n`, without leading zeros.
pub open spec fn decimal(n: nat) -> Seq<char>
    decreases n,
{
    if n < 10 {
        seq![digit_char(n)]
    } else {
        decimal(n / 10) + seq![digit_char(n % 10)]
    }
}

/// `start`, or `start,end` where the range form is asked for.
pub open spec fn range_text(start: nat, end: nat, as_range: bool) -> Seq<char> {
    if as_range {
        decimal(start) + seq![','] + decimal(end)
    } else {
        decimal(start)
    }
}

/// One line per item: `mark`, the item, a newline.
pub open spec fn marked_lines(mark: Seq<char>, items: Seq<String>) -> Seq<char>
    decreases items.len(),
{
    if items.len() == 0 {
        Seq::empty()
    } else {
        marked_lines(mark, items.drop_last()) + mark + items.last()@ + seq!['\n']
    }
}

/// The line between the two halves of a replacement.
pub open spec fn separator_line() -> Seq<char> {
    seq!['-', '-', '-', '-', '-', '-', '-', '-', '-', '-', '-', '\n']
}

/// The ed-style text of an operation: a header in `NaM`, `NdM` or `NcM` range
/// notation, then `> ` before each inserted line and `< ` before each removed
/// one. A side is written as a range only where it spans more than one element.
pub open spec fn script_text(op: DiffOp<String>) -> Seq<char> {
    match op {
        DiffOp::Add { start_from, start_to, end_to, items } => decimal(start_from) + seq!['a']
            + range_text(start_to, end_to, items.len() > 1) + seq!['\n'] + marked_lines(
            seq!['>', ' '],
            items,
        ),
        DiffOp::Delete { start_from, end_from, start_to, items } => range_text(
            start_from,
            end_from,
            start_from != end_from,
        ) + seq!['d'] + decimal(start_to) + seq!['\n'] + marked_lines(seq!['<', ' '], items),
        DiffOp::Replace { start_from, end_from, start_to, end_to, from, to } => range_text(
            start_from,
            end_from,
            from.len() > 1,
        ) + seq!['c'] + range_text(start_to, end_to, to.len() > 1) + seq!['\n'] + marked_lines(
            seq!['<', ' '],
            from,
        ) + separator_line() + marked_lines(seq!['>', ' '], to),
    }
}

fn digit_str(d: usize) -> (r: &'static str)
    requires
        d < 10,
    ensures
        r@ == seq![digit_char(d as nat)],
{
    if d == 0 {
        proof { reveal_strlit("0"); }
        "0"
    } else if d == 1 {
        proof { reveal_strlit("1"); }
        "1"
    } else if d == 2 {
        proof { reveal_strlit("2"); }
        "2"
    } else if d == 3 {
        proof { reveal_strlit("3"); }
        "3"
    } else if d == 4 {
        proof { reveal_strlit("4"); }
        "4"
    } else if d == 5 {
        proof { reveal_strlit("5"); }
        "5"
    } else if d == 6 {
        proof { reveal_strlit("6"); }
        "6"
    } else if d == 7 {
        proof { reveal_strlit("7"); }
        "7"
    } else if d == 8 {
        proof { reveal_strlit("8"); }
        "8"
    } else {
        proof { reveal_strlit("9"); }
        "9"
    }
}

fn push_decimal(out: &mut String, n: usize)
    ensures
        final(out)@ == old(out)@ + decimal(n as nat),
    decreases n,
{
    if n >= 10 {
        push_decimal(out, n / 10);
    }
    out.append(digit_str(n % 10));
    assert(final(out)@ =~= old(out)@ + decimal(n as nat));
}

fn push_range(out: &mut String, start: usize, end: usize, as_range: bool)
    ensures
        final(out)@ == old(out)@ + range_text(start as nat, end as nat, as_range),
{
    push_decimal(out, start);
    if as_range {
        proof { reveal_strlit(","); }
        out.append(",");
        push_decimal(out, end);
    }
    assert(final(out)@ =~= old(out)@ + range_text(start as nat, end as nat, as_range));
}

fn push_marked_lines(out: &mut String, mark: &str, items: &[String])
    ensures
        final(out)@ == old(out)@ + marked_lines(mark@, items@),
{
    let ghost start = out@;
    let mut k: usize = 0;
    while k < items.len()
        invariant
            k <= items@.len(),
            out@ == start + marked_lines(mark@, items@.take(k as int)),
        decreases items@.len() - k,
    {
        let ghost before = out@;
        out.append(mark);
        out.append(items[k].as_str());
        out.append("\n");
        proof {
            let next = items@.take(k + 1);
            assert(next.drop_last() =~= items@.take(k as int));
            assert(next.last() == items@[k as int]);
            reveal_strlit("\n");
            assert(out@ =~= before + mark@ + items@[k as int]@ + seq!['\n']);
        }
        k = k + 1;
    }
    assert(items@.take(k as int) =~= items@);
}

impl<'a> DiffItem<'a, String> {
    /// The operation as an ed-style script: a header line, then the affected
    /// lines, each marked with `> ` or `< `.
    pub fn to_script(&self) -> (r: String)
        ensures
            r@ == script_text(self@),
    {
        let mut out = String::new();
        proof {
            reveal_strlit("a");
            reveal_strlit("d");
            reveal_strlit("c");
            reveal_strlit("\n");
            reveal_strlit("> ");
            reveal_strlit("< ");
            reveal_strlit("-----------\n");
        }
        assert("> "@ == seq!['>', ' ']);
        assert("< "@ == seq!['<', ' ']);
        assert("-----------\n"@ == separator_line());
        match self {
            DiffItem::Add { start_from, start_to, end_to, items } => {
                push_decimal(&mut out, *start_from);
                out.append("a");
                push_range(&mut out, *start_to, *end_to, items.len() > 1);
                out.append("\n");
                push_marked_lines(&mut out, "> ", items);
                assert(out@ =~= script_text(self@));
            },
            DiffItem::Delete { start_from, end_from, start_to, items } => {
                push_range(&mut out, *start_from, *end_from, *start_from != *end_from);
                out.append("d");
                push_decimal(&mut out, *start_to);
                out.append("\n");
                push_marked_lines(&mut out, "< ", items);
                assert(out@ =~= script_text(self@));
            },
            DiffItem::Replace { start_from, end_from, start_to, end_to, from, to } => {
                push_range(&mut out, *start_from, *end_from, from.len() > 1);
                out.append("c");
                push_range(&mut out, *start_to, *end_to, to.len() > 1);
                out.append("\n");
                push_marked_lines(&mut out, "< ", from);
                out.append("-----------\n");
                push_marked_lines(&mut out, "> ", to);
                assert(out@ =~= script_text(self@));
            },
        }
        out
    }
}

/// One line of the annotated view: whether it is unchanged (`Same`), added or
/// deleted, and its text.
#[derive(Debug, PartialEq, Eq)]
pub struct PrettyLine {
    pub role: EditFlags,
    pub text: String,
}

impl View for PrettyLine {
    type V = (EditFlags, Seq<char>);

    open spec fn view(&self) -> (EditFlags, Seq<char>) {
        (self.role, self.text@)
    }
}

/// The views of a sequence of annotated lines.
pub open spec fn pretty_view(lines: Seq<PrettyLine>) -> Seq<(EditFlags, Seq<char>)> {
    lines.map_values(|l: PrettyLine| l@)
}

/// Each of `lines`, tagged with `role`.
pub open spec fn tagged(role: EditFlags, lines: Seq<String>) -> Seq<(EditFlags, Seq<char>)> {
    lines.map_values(|s: String| (role, s@))
}

/// The annotated view of an operation on `original`: the lines before its
/// span unchanged, the removed lines as deleted, the new lines as added, then
/// the lines after its span unchanged.
pub open spec fn pretty_text(original: Seq<String>, op: DiffOp<String>) -> Seq<
    (EditFlags, Seq<char>),
> {
    tagged(EditFlags::Same, original.take(op.span_start())) + tagged(
        EditFlags::Delete,
        op.removed(),
    ) + tagged(EditFlags::Add, op.replacement()) + tagged(
        EditFlags::Same,
        original.skip(op.span_end()),
    )
}

fn push_tagged(lines: &mut Vec<PrettyLine>, role: EditFlags, items: &[String], lo: usize, hi: usize)
    requires
        lo <= hi <= items@.len(),
    ensures
        pretty_view(final(lines)@) == pretty_view(old(lines)@) + tagged(
            role,
            items@.subrange(lo as int, hi as int),
        ),
{
    let ghost start = pretty_view(lines@);
    let mut k: usize = lo;
    while k < hi
        invariant
            lo <= k <= hi <= items@.len(),
            pretty_view(lines@) == start + tagged(role, items@.subrange(lo as int, k as int)),
        decreases hi - k,
    {
        let text = items[k].clone();
        let ghost before = lines@;
        lines.push(PrettyLine { role, text });
        proof {
            assert(lines@ =~= before.push(PrettyLine { role, text: items@[k as int] }));
            assert(items@.subrange(lo as int, k + 1) =~= items@.subrange(lo as int, k as int).push(
                items@[k as int],
            ));
            assert(pretty_view(lines@) =~= pretty_view(before).push((role, items@[k as int]@)));
            assert(tagged(role, items@.subrange(lo as int, k + 1)) =~= tagged(
                role,
                items@.subrange(lo as int, k as int),
            ).push((role, items@[k as int]@)));
        }
        k = k + 1;
        assert(pretty_view(lines@) =~= start + tagged(role, items@.subrange(lo as int, k as int)));
    }
}

/// The annotated, line-by-line view of `diff` applied to `original`, for a
/// printer that emphasises added and deleted lines.
pub fn pretty_lines(original: &[String], diff: &DiffItem<String>) -> (r: Vec<PrettyLine>)
    requires
        diff@.fits(original@.len()),
    ensures
        pretty_view(r@) == pretty_text(original@, diff@),
{
    let mut lines: Vec<PrettyLine> = Vec::new();
    match diff {
        DiffItem::Add { start_from, items, .. } => {
            push_tagged(&mut lines, EditFlags::Same, original, 0, *start_from);
            push_tagged(&mut lines, EditFlags::Add, items, 0, items.len());
            push_tagged(&mut lines, EditFlags::Same, original, *start_from, original.len());
        },
        DiffItem::Delete { start_from, end_from, items, .. } => {
            push_tagged(&mut lines, EditFlags::Same, original, 0, *start_from - 1);
            push_tagged(&mut lines, EditFlags::Delete, items, 0, items.len());
            push_tagged(&mut lines, EditFlags::Same, original, *end_from, original.len());
        },
        DiffItem::Replace { start_from, end_from, from, to, .. } => {
            push_tagged(&mut lines, EditFlags::Same, original, 0, *start_from - 1);
            push_tagged(&mut lines, EditFlags::Delete, from, 0, from.len());
            push_tagged(&mut lines, EditFlags::Add, to, 0, to.len());
            push_tagged(&mut lines, EditFlags::Same, original, *end_from, original.len());
        },
    }
    proof {
        let op = diff@;
        assert(original@.subrange(0, op.span_start()) =~= original@.take(op.span_start()));
        assert(original@.subrange(op.span_end(), original@.len() as int) =~= original@.skip(
            op.span_end(),
        ));
        assert(op.removed().subrange(0, op.removed().len() as int) =~= op.removed());
        assert(op.replacement().subrange(0, op.replacement().len() as int) =~= op.replacement());
        assert(tagged(EditFlags::Delete, Seq::<String>::empty()) =~= Seq::empty());
        assert(tagged(EditFlags::Add, Seq::<String>::empty()) =~= Seq::empty());
        assert(pretty_view(lines@) =~= pretty_text(original@, op));
    }
    lines
}

} // verus!
