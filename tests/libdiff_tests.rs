use libdiff::{build_lcs_table, convert_to_diffitems, diff, make_diffs, patch, DiffItem, EditFlags};

#[test]
fn test_lcs_table() {
    let a = vec![1, 2, 3];
    let b = vec![1, 5, 3];
    let table = build_lcs_table(&a, &b);
    let expected = vec![vec![0, 0, 0, 0], vec![0, 1, 1, 0], vec![0, 1, 1, 0], vec![0, 0, 0, 0]];
    assert_eq!(table, expected);
}

#[test]
fn test_make_diffs() {
    let a = vec![1, 2, 3];
    let b = vec![1, 5, 3];
    let table = build_lcs_table(&a, &b);
    let mut diffs: Vec<_> = vec![];
    make_diffs(&table, &a, &b, a.len(), b.len(), &mut diffs);
    let expected = vec![EditFlags::Same, EditFlags::Delete, EditFlags::Add, EditFlags::Same];
    assert_eq!(diffs, expected);
}

#[test]
fn test_convert_to_diffitems_replace() {
    let a = vec![1, 2, 3];
    let b = vec![1, 5, 3];
    let table = build_lcs_table(&a, &b);
    let mut diffs: Vec<_> = vec![];
    make_diffs(&table, &a, &b, a.len(), b.len(), &mut diffs);
    let diffitems = convert_to_diffitems(&a, &b, &diffs);
    let from = [2];
    let to = [5];
    let expected = vec![DiffItem::Replace {
                            start_from: 2,
                            start_to: 2,
                            end_from: 2,
                            end_to: 2,
                            from: &from,
                            to: &to,
                        }];
    assert_eq!(diffitems, expected);
}

#[test]
fn test_convert_to_diffitems_add_delete() {
    let a = vec![1, 2, 3];
    let b = vec![1, 3, 4];
    let table = build_lcs_table(&a, &b);
    let mut diffs: Vec<_> = vec![];
    make_diffs(&table, &a, &b, a.len(), b.len(), &mut diffs);
    let diffitems = convert_to_diffitems(&a, &b, &diffs);
    let del = [2];
    let add = [4];
    let expected = vec![DiffItem::Delete {
                            start_from: 2,
                            end_from: 2,
                            start_to: 1,
                            items: &del,
                        },
                        DiffItem::Add {
                            start_from: 3,
                            start_to: 3,
                            end_to: 4,
                            items: &add,
                        }];
    assert_eq!(diffitems, expected);
}

#[test]
fn test_diff_strings() {
    let a = vec!["1", "2", "3"];
    let b = vec!["1", "3", "4"];
    let diffitems = diff(&a, &b);
    let del = ["2"];
    let add = ["4"];
    let expected = vec![DiffItem::Delete {
                            start_from: 2,
                            end_from: 2,
                            start_to: 1,
                            items: &del,
                        },
                        DiffItem::Add {
                            start_from: 3,
                            start_to: 3,
                            end_to: 4,
                            items: &add,
                        }];
    assert_eq!(diffitems, expected);
}

#[test]
fn test_patch() {
    let a = vec!["1", "2", "3"];
    let b = vec!["1", "3", "4"];
    let diffitems = diff(&a, &b);
    let mut patched = patch(&a, &diffitems[0]);
    assert_eq!(patched, vec!["1", "3"]);

    patched = patch(&a, &diffitems[1]);
    assert_eq!(patched, vec!["1", "2", "3", "4"]);
}

#[test]
fn test_diff_longer() {
    let a = "the quick brown fox jumped over the lazy dog";
    let b = "thequick brown fox juumped over and lazy dog dog";
    let del = " ";
    let add = "u";
    let from = "the";
    let to = "and";
    let add2 = " dog";
    let diffitems = diff(&a.as_bytes(), &b.as_bytes());
    let expected = vec![DiffItem::Delete {
                            start_from: 4,
                            end_from: 4,
                            start_to: 3,
                            items: &del.as_bytes(),
                        },
                        DiffItem::Add {
                            start_from: 21,
                            start_to: 21,
                            end_to: 22,
                            items: &add.as_bytes(),
                        },
                        DiffItem::Replace {
                            start_from: 33,
                            start_to: 33,
                            end_from: 35,
                            end_to: 35,
                            from: &from.as_bytes(),
                            to: &to.as_bytes(),
                        },
                        DiffItem::Add {
                            start_from: 40,
                            start_to: 41,
                            end_to: 45,
                            items: &add2.as_bytes(),
                        }];
    assert_eq!(diffitems, expected);
}
