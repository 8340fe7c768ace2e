use arbutus::edit::{_vec_apply_edits, sort_edits, vec_edits, Edit};

#[test]
/// Test sorting a Vec of Edit
fn edit_order() {
    // Create a test vector with out of order Edits
    let mut edits: Vec<Edit> = vec![
        Edit::Insert {
            dest_index: 1,
            source_index: 0,
        },
        Edit::Delete { dest_index: 0 },
        Edit::Replace {
            dest_index: 3,
            source_index: 0,
        },
        Edit::Replace {
            dest_index: 1,
            source_index: 0,
        },
        Edit::Delete { dest_index: 1 },
        Edit::Insert {
            dest_index: 0,
            source_index: 0,
        },
    ];

    // Sort the edits
    sort_edits(&mut edits);

    println!("Sorted edits {edits:#?}");

    // Check the expected order after sorting
    for (index, edit) in edits.iter().enumerate() {
        match index {
            // Replace should come first, with the lowest index
            0 => assert_eq!(
                *edit,
                Edit::Replace {
                    dest_index: 1,
                    source_index: 0,
                }
            ),
            1 => assert_eq!(
                *edit,
                Edit::Replace {
                    dest_index: 3,
                    source_index: 0,
                }
            ),

            // Insert should come next with the higest index
            2 => assert_eq!(
                *edit,
                Edit::Insert {
                    dest_index: 1,
                    source_index: 0,
                }
            ),
            3 => assert_eq!(
                *edit,
                Edit::Insert {
                    dest_index: 0,
                    source_index: 0,
                }
            ),

            // Deletes should come last starting with highest index
            4 => assert_eq!(*edit, Edit::Delete { dest_index: 1 }),
            5 => assert_eq!(*edit, Edit::Delete { dest_index: 0 }),
            _ => panic!("missing match case for index"),
        }
    }
}

#[test]
fn replace_one() {
    let mut dest = vec![1u64, 2, 3, 4];
    let source = vec![1u64, 2, 3, 5];

    let edits = vec_edits(&dest, &source);

    println!("Edits: {edits:#?}");
    assert_eq!(edits.len(), 1);

    _vec_apply_edits(&mut dest, &source, edits);
    assert_eq!(dest, source);
}

#[test]
fn insert_one() {
    let mut dest = vec![1u64, 2, 3, 4];
    let source = vec![1u64, 2, 3, 6, 4];

    let edits = vec_edits(&dest, &source);

    println!("Edits: {edits:#?}");
    assert_eq!(edits.len(), 1);

    _vec_apply_edits(&mut dest, &source, edits);
    assert_eq!(dest, source);
}

#[test]
fn insert_two() {
    let mut dest = vec![1u64, 2, 3, 4];
    let source = vec![1u64, 2, 5, 3, 6, 4];

    let edits = vec_edits(&dest, &source);

    println!("Edits: {edits:#?}");

    assert_eq!(edits.len(), 2);

    _vec_apply_edits(&mut dest, &source, edits);
    assert_eq!(dest, source);
}

#[test]
fn delete_one() {
    let mut dest = vec![1u64, 2, 3, 4];
    let source = vec![1u64, 3, 4];

    let edits = vec_edits(&dest, &source);

    println!("Edits: {edits:#?}");

    assert_eq!(edits.len(), 1);
    _vec_apply_edits(&mut dest, &source, edits);
    assert_eq!(dest, source);
}

#[test]
fn delete_two() {
    let mut dest = vec![1u64, 2, 3, 4];
    let source = vec![1u64, 4];

    let edits = vec_edits(&dest, &source);

    println!("Edits: {edits:#?}");

    assert_eq!(edits.len(), 2);
    _vec_apply_edits(&mut dest, &source, edits);
    assert_eq!(dest, source);
}

#[test]
fn delete_replace() {
    let mut dest = vec![1u64, 2, 3, 4];
    let source = vec![1u64, 3, 3];

    let edits = vec_edits(&dest, &source);

    println!("Edits: {edits:#?}");

    assert_eq!(edits.len(), 2);
    _vec_apply_edits(&mut dest, &source, edits);
    assert_eq!(dest, source);
}

#[test]
fn delete_replace_two() {
    let mut dest = vec![1u64, 2, 3, 4];
    let source = vec![1u64, 5];

    println!("Dest: {dest:?}");
    println!("Source: {source:?}");

    let edits = vec_edits(&dest, &source);

    println!("Edits: {edits:#?}");

    assert_eq!(edits.len(), 3);
    _vec_apply_edits(&mut dest, &source, edits);
    assert_eq!(dest, source);
}

#[test]
fn edits_compare_in_application_order() {
    let replace = |at| Edit::Replace { dest_index: at, source_index: 0 };
    let insert = |at| Edit::Insert { dest_index: at, source_index: 0 };
    let delete = |at| Edit::Delete { dest_index: at };
    assert!(replace(7) < insert(0));
    assert!(insert(0) < delete(9));
    assert!(replace(7) < delete(9));
    assert!(replace(1) < replace(2));
    assert!(insert(2) < insert(1));
    assert!(delete(2) < delete(1));
    assert!(replace(1).precedes(&replace(2)));
    assert!(!replace(2).precedes(&replace(1)));
    assert!(!delete(1).precedes(&insert(1)));
    // Insertions at one place are not told apart.
    let a = Edit::Insert { dest_index: 1, source_index: 0 };
    let b = Edit::Insert { dest_index: 1, source_index: 5 };
    assert!(!(a < b) && !(b < a));
    assert_eq!(a.partial_cmp(&b), Some(std::cmp::Ordering::Equal));
    assert_ne!(a, b);
}

#[test]
fn sorting_keeps_the_order_of_equal_edits() {
    let mut edits = vec![
        Edit::Insert { dest_index: 1, source_index: 5 },
        Edit::Delete { dest_index: 3 },
        Edit::Insert { dest_index: 1, source_index: 4 },
        Edit::Replace { dest_index: 0, source_index: 0 },
    ];
    sort_edits(&mut edits);
    assert_eq!(
        edits,
        vec![
            Edit::Replace { dest_index: 0, source_index: 0 },
            Edit::Insert { dest_index: 1, source_index: 5 },
            Edit::Insert { dest_index: 1, source_index: 4 },
            Edit::Delete { dest_index: 3 },
        ]
    );
    let mut none: Vec<Edit> = vec![];
    sort_edits(&mut none);
    assert!(none.is_empty());
}

#[test]
fn edits_of_equal_and_empty_vectors() {
    let empty: Vec<u64> = vec![];
    let some = vec![7u64, 8];
    assert_eq!(vec_edits(&empty, &empty), vec![]);
    assert_eq!(vec_edits(&some, &some), vec![]);
    assert_eq!(
        vec_edits(&empty, &some),
        vec![
            Edit::Insert { dest_index: 0, source_index: 1 },
            Edit::Insert { dest_index: 0, source_index: 0 },
        ]
    );
    assert_eq!(
        vec_edits(&some, &empty),
        vec![Edit::Delete { dest_index: 1 }, Edit::Delete { dest_index: 0 }]
    );
    let mut dest = empty.clone();
    _vec_apply_edits(&mut dest, &some, vec_edits(&empty, &some));
    assert_eq!(dest, some);
}

#[test]
fn single_edits_are_found_as_such() {
    let dest = vec![1u64, 2, 3, 4];
    assert_eq!(
        vec_edits(&dest, &vec![1, 2, 9, 4]),
        vec![Edit::Replace { dest_index: 2, source_index: 2 }]
    );
    assert_eq!(
        vec_edits(&dest, &vec![1, 2, 3, 3, 4]),
        vec![Edit::Insert { dest_index: 2, source_index: 2 }]
    );
    assert_eq!(
        vec_edits(&dest, &vec![9, 1, 2, 3, 4]),
        vec![Edit::Insert { dest_index: 0, source_index: 0 }]
    );
    assert_eq!(
        vec_edits(&dest, &vec![1, 2, 3]),
        vec![Edit::Delete { dest_index: 3 }]
    );
}

#[test]
fn deletion_is_preferred_to_insertion_and_replacement() {
    // Two edits are needed; the last item is deleted rather than replaced.
    let dest = vec![1u64, 2];
    let source = vec![3u64, 1];
    assert_eq!(
        vec_edits(&dest, &source),
        vec![
            Edit::Insert { dest_index: 0, source_index: 0 },
            Edit::Delete { dest_index: 1 },
        ]
    );
    // An insertion above a deletion: applied in place, the script gives the source.
    let mut dest = vec![2u64, 1];
    let source = vec![1u64, 3];
    let edits = vec_edits(&dest, &source);
    assert_eq!(
        edits,
        vec![
            Edit::Insert { dest_index: 2, source_index: 1 },
            Edit::Delete { dest_index: 0 },
        ]
    );
    _vec_apply_edits(&mut dest, &source, edits);
    assert_eq!(dest, source);
}
