use binpack::item_sets::{memory_estimate, Algorithm, Direction, FitRule, OutOfBounds};
use binpack::packing_common::sizes_to_counts;
use binpack::ItemSets;

fn stored() -> ItemSets {
    // {1,2,3,4}, {3,3,3,3}, {3,3,2,5}
    ItemSets::new(
        Some(vec![vec![0, 1, 1, 1, 1]]),
        Some(vec![vec![3, 3, 3, 3], vec![3, 3, 2, 5]]),
    )
}

#[test]
fn new_keeps_counts_before_sizes() {
    let s = stored();
    assert_eq!(s.__len__(), 3);
    assert_eq!(
        s.all_counts(),
        vec![
            vec![0, 1, 1, 1, 1],
            vec![0, 0, 0, 4],
            vec![0, 0, 1, 2, 0, 1]
        ]
    );
    assert_eq!(
        s.all_sizes(),
        vec![vec![4, 3, 2, 1], vec![3, 3, 3, 3], vec![5, 3, 3, 2]]
    );
}

#[test]
fn new_without_arguments_is_empty() {
    let s = ItemSets::new(None, None);
    assert_eq!(s.__len__(), 0);
    assert_eq!(s.all_counts(), Vec::<Vec<u8>>::new());
    let d = ItemSets::default();
    assert_eq!(d.__len__(), 0);
}

#[test]
fn push_appends_in_order() {
    let mut s = ItemSets::default();
    s.push_counts(vec![0, 2]);
    s.push_sizes(&[5, 1, 1, 2]);
    s.push_counts(vec![]);
    s.push_sizes(&[]);
    assert_eq!(s.__len__(), 4);
    assert_eq!(s.__getitem__(0), Ok(vec![0, 2]));
    assert_eq!(s.__getitem__(1), Ok(vec![0, 2, 1, 0, 0, 1]));
    assert_eq!(s.__getitem__(2), Ok(vec![]));
    assert_eq!(s.__getitem__(3), Ok(vec![]));
}

#[test]
fn getitem_past_the_end_is_an_error() {
    let s = stored();
    assert_eq!(s.__getitem__(2), Ok(vec![0, 0, 1, 2, 0, 1]));
    assert_eq!(s.__getitem__(5), Err(OutOfBounds { index: 5, len: 3 }));
    assert_eq!(s.__getitem__(3), Err(OutOfBounds { index: 3, len: 3 }));
    assert_eq!(OutOfBounds { index: 5, len: 3 }.message(), "Out of bounds");
}

#[test]
fn c2s_and_s2c_convert() {
    assert_eq!(ItemSets::c2s(&[0, 2, 1]), vec![2, 1, 1]);
    assert_eq!(ItemSets::s2c(&[5, 1, 1, 2]), vec![0, 2, 1, 0, 0, 1]);
    assert_eq!(ItemSets::s2c(&[]), Vec::<u8>::new());
}

fn only_hard() -> ItemSets {
    // {3,3,2,5} goes into {6,7} as {3,3} and {2,5}; best-fit misses that
    ItemSets::new(None, Some(vec![vec![3, 3, 2, 5]]))
}

#[test]
fn any_fit_into_given_answers() {
    let s = stored();
    for par in [false, true] {
        for branching in [0usize, 1, 2, 5] {
            assert_eq!(s.any_fit_into_given(&sizes_to_counts(&[10]), par, branching), true);
            assert_eq!(s.any_fit_into_given(&sizes_to_counts(&[9]), par, branching), false);
            assert_eq!(s.any_fit_into_given(&[], par, branching), false);
        }
        let bins_67 = sizes_to_counts(&[6, 7]);
        assert_eq!(only_hard().any_fit_into_given(&bins_67, par, 0), false);
        assert_eq!(only_hard().any_fit_into_given(&bins_67, par, 1), false);
        assert_eq!(only_hard().any_fit_into_given(&bins_67, par, 2), true);
    }
}

#[test]
fn all_fit_into_given_answers() {
    let s = stored();
    let bins_big = sizes_to_counts(&[6, 8, 12]);
    let bins_10 = sizes_to_counts(&[10]);
    let bins_67 = sizes_to_counts(&[6, 7]);
    for par in [false, true] {
        assert_eq!(s.all_fit_into_given(&bins_big, par, 0), true);
        assert_eq!(s.all_fit_into_given(&bins_big, par, 3), true);
        assert_eq!(s.all_fit_into_given(&bins_10, par, 0), false);
        assert_eq!(s.all_fit_into_given(&bins_67, par, 0), false);
        assert_eq!(s.all_fit_into_given(&bins_67, par, 2), true);
        assert_eq!(ItemSets::default().all_fit_into_given(&bins_10, par, 0), true);
        assert_eq!(ItemSets::default().any_fit_into_given(&bins_10, par, 0), false);
    }
}

#[test]
fn how_many_fit_into_given_counts() {
    let s = stored();
    let bins_67 = sizes_to_counts(&[6, 7]);
    let bins_10 = sizes_to_counts(&[10]);
    let bins_big = sizes_to_counts(&[6, 8, 12]);
    for par in [false, true] {
        assert_eq!(s.how_many_fit_into_given(&bins_67, par, 0), 2);
        assert_eq!(s.how_many_fit_into_given(&bins_67, par, 2), 3);
        assert_eq!(s.how_many_fit_into_given(&bins_10, par, 0), 1);
        assert_eq!(s.how_many_fit_into_given(&bins_big, par, 0), 3);
        assert_eq!(s.how_many_fit_into_given(&sizes_to_counts(&[9]), par, 4), 0);
        assert_eq!(ItemSets::default().how_many_fit_into_given(&bins_10, par, 0), 0);
    }
}

#[test]
fn given_fits_into_stored() {
    // stored bins: {10}, {4,4,4}, {6,7}
    let s = ItemSets::new(None, Some(vec![vec![10], vec![4, 4, 4], vec![6, 7]]));
    let items_3333 = sizes_to_counts(&[3, 3, 3, 3]);
    let items_3325 = sizes_to_counts(&[3, 3, 2, 5]);
    let items_44 = sizes_to_counts(&[4, 4]);
    let items_55 = sizes_to_counts(&[5, 5]);
    for par in [false, true] {
        assert_eq!(s.given_fits_into_any(&items_3333, par, 0), true);
        assert_eq!(s.given_fits_into_how_many(&items_3333, par, 0), 1);
        assert_eq!(s.given_fits_into_all(&items_3333, par, 0), false);
        assert_eq!(s.given_fits_into_any(&items_3325, par, 0), false);
        assert_eq!(s.given_fits_into_any(&items_3325, par, 2), true);
        assert_eq!(s.given_fits_into_how_many(&items_3325, par, 0), 0);
        assert_eq!(s.given_fits_into_how_many(&items_3325, par, 2), 1);
        assert_eq!(s.given_fits_into_how_many(&items_44, par, 0), 3);
        assert_eq!(s.given_fits_into_all(&items_44, par, 0), true);
        assert_eq!(s.given_fits_into_how_many(&items_55, par, 0), 2);
        assert_eq!(s.given_fits_into_all(&items_55, par, 0), false);
        assert_eq!(s.given_fits_into_all(&[], par, 7), true);
        assert_eq!(s.given_fits_into_how_many(&[], par, 7), 3);
    }
}

#[test]
fn direction_matters() {
    let s = ItemSets::new(None, Some(vec![vec![2, 2]]));
    let given = sizes_to_counts(&[5]);
    for par in [false, true] {
        assert_eq!(s.any_fit_into_given(&given, par, 0), true);
        assert_eq!(s.given_fits_into_any(&given, par, 0), false);
        assert_eq!(s.all_fit_into_given(&given, par, 0), true);
        assert_eq!(s.given_fits_into_all(&given, par, 0), false);
        assert_eq!(s.how_many_fit_into_given(&given, par, 0), 1);
        assert_eq!(s.given_fits_into_how_many(&given, par, 0), 0);
    }
}

#[test]
fn bestfit_any_fit_into_given_answers() {
    let s = stored();
    for par in [false, true] {
        for trim_upper in [false, true] {
            let bins_67 = sizes_to_counts(&[6, 7]);
            assert_eq!(only_hard().bestfit_any_fit_into_given(&bins_67, par, trim_upper), false);
            assert_eq!(s.bestfit_any_fit_into_given(&bins_67, par, trim_upper), true);
            let bins_58 = sizes_to_counts(&[5, 8]);
            assert_eq!(only_hard().bestfit_any_fit_into_given(&bins_58, par, trim_upper), true);
            let bins_9 = sizes_to_counts(&[9]);
            assert_eq!(s.bestfit_any_fit_into_given(&bins_9, par, trim_upper), false);
        }
    }
}

#[test]
fn quantifiers_are_consistent() {
    let s = ItemSets::new(
        None,
        Some(vec![
            vec![1, 2, 3, 4],
            vec![3, 3, 3, 3],
            vec![3, 3, 2, 5],
            vec![2, 2, 2],
            vec![],
            vec![1, 2, 3, 4, 5, 6, 7, 8, 9, 10],
        ]),
    );
    let queries: Vec<Vec<u8>> = vec![
        vec![],
        sizes_to_counts(&[10]),
        sizes_to_counts(&[6, 7]),
        sizes_to_counts(&[4, 4, 4]),
        sizes_to_counts(&[17, 14, 11, 13]),
        sizes_to_counts(&[1]),
    ];
    for q in &queries {
        for branching in [0usize, 1, 2, 3, 10] {
            let any = s.any_fit_into_given(q, false, branching);
            let all = s.all_fit_into_given(q, false, branching);
            let count = s.how_many_fit_into_given(q, false, branching);
            assert_eq!(count == 0, !any);
            assert_eq!(count == s.__len__(), all);
            assert_eq!(s.any_fit_into_given(q, true, branching), any);
            assert_eq!(s.all_fit_into_given(q, true, branching), all);
            assert_eq!(s.how_many_fit_into_given(q, true, branching), count);

            let any = s.given_fits_into_any(q, false, branching);
            let all = s.given_fits_into_all(q, false, branching);
            let count = s.given_fits_into_how_many(q, false, branching);
            assert_eq!(count == 0, !any);
            assert_eq!(count == s.__len__(), all);
            assert_eq!(s.given_fits_into_any(q, true, branching), any);
            assert_eq!(s.given_fits_into_all(q, true, branching), all);
            assert_eq!(s.given_fits_into_how_many(q, true, branching), count);
        }
    }
}

#[test]
fn fit_rule_holds_in_both_directions() {
    let small = sizes_to_counts(&[2, 2]);
    let large = sizes_to_counts(&[5]);
    let into_given = FitRule {
        direction: Direction::StoredIntoGiven,
        algorithm: Algorithm::Branching { budget: 0 },
    };
    let into_stored = FitRule {
        direction: Direction::GivenIntoStored,
        algorithm: Algorithm::BestFit { trim_upper: false },
    };
    assert_eq!(into_given.holds(&small, &large), true);
    assert_eq!(into_given.holds(&large, &small), false);
    assert_eq!(into_stored.holds(&small, &large), false);
    assert_eq!(into_stored.holds(&large, &small), true);
    let a = sizes_to_counts(&[3, 3, 2, 5]);
    let b = sizes_to_counts(&[6, 7]);
    assert_eq!(Algorithm::BestFit { trim_upper: true }.fits(&a, &b), false);
    assert_eq!(Algorithm::Branching { budget: 2 }.fits(&a, &b), true);
}

#[test]
fn memory_estimate_adds_headers_and_rooms() {
    assert_eq!(memory_estimate(24, 1, 0, &[]), 24);
    assert_eq!(memory_estimate(24, 1, 4, &[5, 6, 0]), 24 + 4 * 24 + 11);
    assert_eq!(memory_estimate(24, 2, 3, &[5, 6]), 24 + 3 * 24 + 22);
    assert_eq!(memory_estimate(24, 1, usize::MAX, &[1]), usize::MAX);
    assert_eq!(memory_estimate(1, 1, 1, &[usize::MAX - 2]), usize::MAX);
    assert_eq!(memory_estimate(1, 1, 1, &[usize::MAX - 3]), usize::MAX - 1);
    assert_eq!(memory_estimate(0, 3, 9, &[usize::MAX / 2]), usize::MAX);
}

#[test]
fn memory_used_covers_what_is_stored() {
    let header = std::mem::size_of::<Vec<u8>>();
    let empty = ItemSets::default();
    assert!(empty.memory_used() >= header);
    let s = stored();
    // one header for the collection, one for each stored vector, one byte for each count
    assert!(s.memory_used() >= header + 3 * header + 5 + 4 + 6);
    let mut grown = stored();
    grown.push_counts(vec![0; 200]);
    assert!(grown.memory_used() >= s.memory_used() + 200);
}
