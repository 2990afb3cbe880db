use libdiff::{diff, patch, pretty_lines, DiffItem, EditFlags, PrettyLine};

/// Applies every operation to its own span of `a`, keeping what lies between.
fn apply_all<T: Clone>(a: &[T], ops: &[DiffItem<T>]) -> Vec<T> {
    let mut out = Vec::new();
    let mut pos = 0;
    for op in ops {
        let (start, end, new_items): (usize, usize, &[T]) = match op {
            DiffItem::Add { start_from, items, .. } => (*start_from, *start_from, items),
            DiffItem::Delete { start_from, end_from, .. } => (start_from - 1, *end_from, &[]),
            DiffItem::Replace { start_from, end_from, to, .. } => (start_from - 1, *end_from, to),
        };
        out.extend_from_slice(&a[pos..start]);
        out.extend_from_slice(new_items);
        pos = end;
    }
    out.extend_from_slice(&a[pos..]);
    out
}

fn lines(words: &[&str]) -> Vec<String> {
    words.iter().map(|w| w.to_string()).collect()
}

fn line(role: EditFlags, text: &str) -> PrettyLine {
    PrettyLine { role, text: text.to_string() }
}

#[test]
fn identical_sequences_give_no_operation() {
    let a = vec![4, 8, 15, 16, 23, 42];
    assert!(diff(&a, &a).is_empty());
    let e: Vec<i32> = vec![];
    assert!(diff(&e, &e).is_empty());
}

#[test]
fn applying_all_operations_rebuilds_the_target() {
    let a = "the quick brown fox jumped over the lazy dog".as_bytes();
    let b = "thequick brown fox juumped over and lazy dog dog".as_bytes();
    assert_eq!(apply_all(a, &diff(a, b)), b.to_vec());
    let c = vec![1, 2];
    let d = vec![0, 1, 3];
    assert_eq!(apply_all(&c, &diff(&c, &d)), d);
    let e = vec![5, 6, 7, 8];
    let f = vec![9, 7, 1, 2, 8, 3];
    assert_eq!(apply_all(&e, &diff(&e, &f)), f);
    assert_eq!(apply_all(&f, &diff(&f, &e)), e);
}

#[test]
fn single_change_is_one_replace() {
    let a = vec![1, 2, 3];
    let b = vec![1, 5, 3];
    let ops = diff(&a, &b);
    assert_eq!(ops.len(), 1);
    match &ops[0] {
        DiffItem::Replace { from, to, .. } => {
            assert_eq!(*from, &[2][..]);
            assert_eq!(*to, &[5][..]);
        }
        other => panic!("expected a replace, got {:?}", other),
    }
}

#[test]
fn diff_runs_twice_alike() {
    let a = vec!["a", "b", "c", "d"];
    let b = vec!["b", "x", "d", "e"];
    assert_eq!(diff(&a, &b), diff(&a, &b));
}

#[test]
fn empty_from_gives_one_insert() {
    let a: Vec<&str> = vec![];
    let b = vec!["x", "y"];
    let expected = vec![DiffItem::Add { start_from: 0, start_to: 1, end_to: 3, items: &b[..] }];
    assert_eq!(diff(&a, &b), expected);
}

#[test]
fn empty_to_gives_one_delete() {
    let a = vec!["x", "y", "z"];
    let b: Vec<&str> = vec![];
    let expected = vec![DiffItem::Delete { start_from: 1, end_from: 3, start_to: 0, items: &a[..] }];
    assert_eq!(diff(&a, &b), expected);
}

#[test]
fn leading_insertion_is_reported() {
    let a = vec![1, 2];
    let b = vec![0, 1, 3];
    let expected = vec![
        DiffItem::Add { start_from: 0, start_to: 1, end_to: 2, items: &[0][..] },
        DiffItem::Replace {
            start_from: 2,
            end_from: 2,
            start_to: 3,
            end_to: 3,
            from: &[2][..],
            to: &[3][..],
        },
    ];
    assert_eq!(diff(&a, &b), expected);
}

#[test]
fn patch_each_kind() {
    let a = vec![1, 2, 3];
    let replace = DiffItem::Replace {
        start_from: 2,
        end_from: 2,
        start_to: 2,
        end_to: 2,
        from: &[2][..],
        to: &[5, 6][..],
    };
    assert_eq!(patch(&a, &replace), vec![1, 5, 6, 3]);
    let delete = DiffItem::Delete { start_from: 1, end_from: 2, start_to: 0, items: &[1, 2][..] };
    assert_eq!(patch(&a, &delete), vec![3]);
    let add = DiffItem::Add { start_from: 0, start_to: 1, end_to: 2, items: &[9][..] };
    assert_eq!(patch(&a, &add), vec![9, 1, 2, 3]);
    let append = DiffItem::Add { start_from: 3, start_to: 4, end_to: 5, items: &[7][..] };
    assert_eq!(patch(&a, &append), vec![1, 2, 3, 7]);
}

#[test]
fn flag_symbols() {
    assert_eq!(EditFlags::Add.to_string(), "+");
    assert_eq!(EditFlags::Delete.to_string(), "-");
    assert_eq!(EditFlags::Same.to_string(), "s");
}

#[test]
fn script_of_single_line_edits() {
    let a = lines(&["1", "2", "3"]);
    let b = lines(&["1", "3", "4"]);
    let ops = diff(&a, &b);
    assert_eq!(ops[0].to_script(), "2d1\n< 2\n");
    assert_eq!(ops[1].to_script(), "3a3\n> 4\n");
    let c = lines(&["1", "5", "3"]);
    let ops = diff(&a, &c);
    assert_eq!(ops[0].to_script(), "2c2\n< 2\n-----------\n> 5\n");
}

#[test]
fn script_of_ranges() {
    let a = lines(&["a", "b"]);
    let e: Vec<String> = vec![];
    assert_eq!(diff(&a, &e)[0].to_script(), "1,2d0\n< a\n< b\n");
    assert_eq!(diff(&e, &a)[0].to_script(), "0a1,3\n> a\n> b\n");
    let from = lines(&["b", "c"]);
    let to = lines(&["x", "y", "z"]);
    let both = DiffItem::Replace {
        start_from: 2,
        end_from: 3,
        start_to: 2,
        end_to: 4,
        from: &from,
        to: &to,
    };
    assert_eq!(both.to_script(), "2,3c2,4\n< b\n< c\n-----------\n> x\n> y\n> z\n");
    let one = lines(&["b"]);
    let to_side = DiffItem::Replace {
        start_from: 2,
        end_from: 2,
        start_to: 2,
        end_to: 3,
        from: &one,
        to: &to[..2],
    };
    assert_eq!(to_side.to_script(), "2c2,3\n< b\n-----------\n> x\n> y\n");
}

#[test]
fn script_of_large_positions() {
    let q = lines(&["q"]);
    let add = DiffItem::Add { start_from: 120, start_to: 1007, end_to: 1008, items: &q };
    assert_eq!(add.to_script(), "120a1007\n> q\n");
}

#[test]
fn pretty_lines_of_each_kind() {
    let original = lines(&["a", "b", "c"]);
    let b = lines(&["b"]);
    let x = lines(&["x"]);
    let a = lines(&["a"]);
    let replace = DiffItem::Replace {
        start_from: 2,
        end_from: 2,
        start_to: 2,
        end_to: 2,
        from: &b,
        to: &x,
    };
    assert_eq!(
        pretty_lines(&original, &replace),
        vec![
            line(EditFlags::Same, "a"),
            line(EditFlags::Delete, "b"),
            line(EditFlags::Add, "x"),
            line(EditFlags::Same, "c"),
        ]
    );
    let add = DiffItem::Add { start_from: 1, start_to: 2, end_to: 3, items: &x };
    assert_eq!(
        pretty_lines(&original, &add),
        vec![
            line(EditFlags::Same, "a"),
            line(EditFlags::Add, "x"),
            line(EditFlags::Same, "b"),
            line(EditFlags::Same, "c"),
        ]
    );
    let delete = DiffItem::Delete { start_from: 1, end_from: 1, start_to: 0, items: &a };
    assert_eq!(
        pretty_lines(&original, &delete),
        vec![line(EditFlags::Delete, "a"), line(EditFlags::Same, "b"), line(EditFlags::Same, "c")]
    );
}
