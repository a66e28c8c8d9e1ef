use binpack::packing_bestfit::{fits_into_bestfit, fits_into_bestfit_internal};
use binpack::packing_branching::{fits_into_branching, fits_into_branching_internal};
use binpack::item_sets::is_valid_sizes;
use binpack::packing_common::{
    counts_to_sizes, is_countable, is_valid_counts, item_sum, prep_diff, sizes_to_counts,
    trim_upper_bins, trim_upper_bins_ni,
};

fn volume(c: &[u8]) -> i64 {
    item_sum(c)
}

fn some_sizes() -> Vec<Vec<u8>> {
    vec![
        vec![],
        vec![1],
        vec![5, 1, 1, 2],
        vec![3, 3, 2, 5],
        vec![3, 3, 3, 3],
        vec![1, 2, 3, 4, 5, 6, 7, 8, 9, 10],
        vec![6, 7],
        vec![6, 8],
        vec![4, 4, 4],
        vec![17, 14, 11, 13],
        vec![253, 1, 253],
        vec![2, 9, 2, 9, 2],
    ]
}

#[test]
fn round_trip_from_sizes_sorts() {
    for s in some_sizes() {
        let back = counts_to_sizes(&sizes_to_counts(&s));
        let mut sorted = s.clone();
        sorted.sort();
        sorted.reverse();
        assert_eq!(back, sorted);
    }
}

#[test]
fn round_trip_from_counts_is_identity() {
    let all: Vec<Vec<u8>> = vec![
        vec![],
        vec![0, 1],
        vec![0, 2, 1],
        vec![0, 0, 0, 4],
        vec![0, 2, 1, 0, 0, 1],
        vec![0, 255, 0, 255],
    ];
    for c in all {
        assert_eq!(sizes_to_counts(&counts_to_sizes(&c)), c);
    }
    // a counting vector that ends in a zero comes back shorter
    assert_eq!(sizes_to_counts(&counts_to_sizes(&[0, 1, 0])), vec![0, 1]);
    assert_eq!(sizes_to_counts(&counts_to_sizes(&[0])), Vec::<u8>::new());
}

#[test]
fn sizes_to_counts_is_minimal() {
    assert_eq!(sizes_to_counts(&[]), Vec::<u8>::new());
    assert_eq!(sizes_to_counts(&[1]), vec![0, 1]);
    assert_eq!(sizes_to_counts(&[3, 3]), vec![0, 0, 0, 2]);
    assert_eq!(sizes_to_counts(&[2, 0]), vec![1, 0, 1]);
    assert_eq!(sizes_to_counts(&[7; 255]), vec![0, 0, 0, 0, 0, 0, 0, 255]);
    assert_eq!(sizes_to_counts(&[255]).len(), 256);
}

#[test]
fn counts_to_sizes_is_descending() {
    assert_eq!(counts_to_sizes(&[0, 1, 0, 3]), vec![3, 3, 3, 1]);
    assert_eq!(counts_to_sizes(&[0, 0, 0]), Vec::<u8>::new());
    let mut long = vec![0u8; 254];
    long[253] = 2;
    long[1] = 1;
    assert_eq!(counts_to_sizes(&long), vec![253, 253, 1]);
}

#[test]
fn item_sum_weighs_by_index() {
    assert_eq!(item_sum::<i32>(&[]), 0);
    assert_eq!(item_sum(&[7]), 0);
    assert_eq!(item_sum(&[0, -1, 2, -3]), -1 + 4 - 9);
    assert_eq!(item_sum(&[0, i32::MAX, i32::MIN]), i32::MAX as i64 + 2 * (i32::MIN as i64));
    assert_eq!(item_sum(&[0u8, 255, 0, 255]), 255 + 3 * 255);
    assert_eq!(item_sum(&[0i64, 0, 1 << 40]), 1 << 41);
    assert_eq!(item_sum(&[5i16, -3, 2]), -3 + 4);
}

#[test]
fn prep_diff_pads_the_shorter() {
    assert_eq!(prep_diff(&[], &[]), Vec::<i32>::new());
    assert_eq!(prep_diff(&[0, 2, 1], &[0, 1, 1, 0, 3]), vec![0, 1, 0, 0, -3]);
    assert_eq!(prep_diff(&[0, 0, 0, 255], &[0, 255]), vec![0, -255, 0, 255]);
    assert_eq!(prep_diff(&[0, 1], &[]), vec![0, 1]);
}

#[test]
fn prep_diff_volume_is_difference_of_volumes() {
    for a in some_sizes() {
        for b in some_sizes() {
            let ca = sizes_to_counts(&a);
            let cb = sizes_to_counts(&b);
            assert_eq!(item_sum(&prep_diff(&ca, &cb)), volume(&ca) - volume(&cb));
        }
    }
}

#[test]
fn bestfit_true_needs_volume() {
    for a in some_sizes() {
        for b in some_sizes() {
            if a.contains(&253) || b.contains(&253) {
                continue;
            }
            let ca = sizes_to_counts(&a);
            let cb = sizes_to_counts(&b);
            for trim_upper in [false, true] {
                if fits_into_bestfit(&ca, &cb, trim_upper) {
                    assert!(volume(&ca) <= volume(&cb));
                }
            }
            for k in [0usize, 1, 2, 5, 100] {
                if fits_into_branching(&ca, &cb, k) {
                    assert!(volume(&ca) <= volume(&cb));
                }
            }
        }
    }
}

#[test]
fn volume_is_not_sufficient() {
    // the volumes are equal, and a bin of size 4 holds one item of size 3 only
    let a = sizes_to_counts(&[3, 3, 3, 3]);
    let b = sizes_to_counts(&[4, 4, 4]);
    assert_eq!(volume(&a), 12);
    assert_eq!(volume(&b), 12);
    assert_eq!(fits_into_bestfit(&a, &b, false), false);
    assert_eq!(fits_into_bestfit(&a, &b, true), false);
    assert_eq!(fits_into_branching(&a, &b, 100), false);
}

#[test]
fn bestfit_is_not_complete() {
    let items = sizes_to_counts(&[3, 3, 2, 5]);
    assert_eq!(fits_into_bestfit(&items, &sizes_to_counts(&[6, 8]), false), true);
    assert_eq!(fits_into_bestfit(&items, &sizes_to_counts(&[6, 7]), false), false);
    assert_eq!(fits_into_bestfit(&items, &sizes_to_counts(&[6, 7]), true), false);
    let many = sizes_to_counts(&[1, 2, 3, 4, 5, 6, 7, 8, 9, 10]);
    let bins = sizes_to_counts(&[17, 14, 11, 13]);
    assert!(volume(&many) <= volume(&bins));
    assert_eq!(fits_into_bestfit(&many, &bins, false), false);
    assert_eq!(fits_into_bestfit(&many, &bins, true), false);
    assert_eq!(fits_into_branching(&many, &bins, 2), false);
    assert_eq!(fits_into_branching(&many, &bins, 10), true);
}

#[test]
fn scenario_of_simple_packings() {
    assert_eq!(fits_into_bestfit(&[], &[], false), true);
    assert_eq!(fits_into_bestfit(&[], &[], true), true);
    assert_eq!(fits_into_branching(&[], &[], 0), true);
    assert_eq!(fits_into_branching(&[], &[], 3), true);
    let items = sizes_to_counts(&[1, 2, 3, 4]);
    for k in [0usize, 1, 2, 7] {
        assert_eq!(fits_into_branching(&items, &sizes_to_counts(&[10]), k), true);
        assert_eq!(fits_into_branching(&items, &sizes_to_counts(&[11]), k), true);
        assert_eq!(fits_into_branching(&items, &sizes_to_counts(&[9]), k), false);
        assert_eq!(
            fits_into_branching(&sizes_to_counts(&[3, 3, 3, 3]), &sizes_to_counts(&[4, 4, 4]), k),
            false
        );
    }
}

#[test]
fn budgets_below_two_are_bestfit_with_trimming() {
    for a in some_sizes() {
        for b in some_sizes() {
            if a.contains(&253) || b.contains(&253) {
                continue;
            }
            let ca = sizes_to_counts(&a);
            let cb = sizes_to_counts(&b);
            let bestfit = fits_into_bestfit(&ca, &cb, true);
            assert_eq!(fits_into_branching(&ca, &cb, 0), bestfit);
            assert_eq!(fits_into_branching(&ca, &cb, 1), bestfit);
        }
    }
}

#[test]
fn the_fallback_trims_before_it_scans() {
    // items {1,2,3,4,4,5} go into bins {6,7,7} as {5,1}, {4,3} and {4,2};
    // after the item of size 5 went into a bin of size 7, the matches that
    // are left are forced
    let items: Vec<u8> = vec![0, 1, 1, 1, 2, 1];
    let bins: Vec<u8> = vec![0, 0, 0, 0, 0, 0, 1, 2];
    assert_eq!(fits_into_branching(&items, &bins, 2), true);
    let mut d = prep_diff(&items, &bins);
    let sd = item_sum(&d) as i32;
    assert_eq!(fits_into_branching_internal(&mut d, sd, 2), true);
    // with a budget of one or less the search is best-fit with trimming
    for budget in [0usize, 1] {
        let mut d = vec![0i32, 1, 0, 1, 1, 0, -2];
        assert_eq!(fits_into_branching_internal(&mut d, -4, budget), true);
        let mut d = vec![0i32, 1, 0, 1, 1, 0, -2];
        assert_eq!(fits_into_bestfit_internal(&mut d, -4, true), true);
    }
}

#[test]
fn a_larger_budget_may_lose_an_answer() {
    // items {1,3,3,4,4,4} fit into bins {5,6,9}
    let items: Vec<u8> = vec![0, 1, 0, 2, 3];
    let bins: Vec<u8> = vec![0, 0, 0, 0, 0, 1, 1, 0, 0, 1];
    assert_eq!(fits_into_branching(&items, &bins, 3), true);
    assert_eq!(fits_into_branching(&items, &bins, 4), false);
}

#[test]
fn trimming_twice_is_trimming_once() {
    let all: Vec<Vec<i32>> = vec![
        vec![],
        vec![0, 0, 0, 0, 0, 0],
        vec![0, 0, 0, -1, 0, 1],
        vec![0, 0, 0, 0, 0, 1],
        vec![0, 0, 0, 1, 1, -1],
        vec![0, 0, 0, 7, 6, -1, -1],
        vec![0, 1, 0, 1, 1, 0, -2],
        vec![0, 0, 0, 1, 0, 0, -1],
        vec![0, 2, 0, 3, 0, 0, -1, 0, 0, -1],
        vec![0, -4, 0, 2, 0, 0, -2],
    ];
    for start in all {
        let mut once = start.clone();
        let first = trim_upper_bins(&mut once);
        let mut twice = once.clone();
        let second = trim_upper_bins(&mut twice);
        assert_eq!(first, second);
        assert_eq!(once, twice);
        assert_eq!(item_sum(&once), item_sum(&start));
    }
}

#[test]
fn trimming_makes_forced_matches_only() {
    // the item of size 3 goes into the bin of size 6, the rest of it takes the other
    let mut d = vec![0i32, 0, 0, 2, 0, 0, -1];
    assert_eq!(trim_upper_bins(&mut d), true);
    assert_eq!(d, vec![0, 0, 0, 0, 0, 0, 0]);
    // two bins can take the largest item: nothing is done
    let mut d = vec![0i32, 0, 0, 1, -1, 0, -1];
    assert_eq!(trim_upper_bins(&mut d), true);
    assert_eq!(d, vec![0, 0, 0, 1, -1, 0, -1]);
    // after one match the largest item has no bin
    let mut d = vec![0i32, 0, 0, 0, 2, 0, -1];
    assert_eq!(trim_upper_bins(&mut d), false);
    assert_eq!(d, vec![0, 0, -1, 0, 1, 0, 0]);
}

#[test]
fn trimming_moves_the_cursor_down() {
    let mut d = vec![0i32, 1, 0, 1, 1, 0, -2];
    let mut ni: usize = 5;
    assert_eq!(trim_upper_bins_ni(&mut d, &mut ni), true);
    assert_eq!(d, vec![0, 1, -1, -1, 0, 0, 0]);
    assert_eq!(ni, 2);

    let mut d = vec![0i32, 1, 0, 1, 1, 0, -2];
    let mut ni: usize = 1;
    assert_eq!(trim_upper_bins_ni(&mut d, &mut ni), true);
    assert_eq!(ni, 1);

    let mut d = vec![0i32, 0, 0, 1, -1, 0, -1];
    let mut ni: usize = 6;
    assert_eq!(trim_upper_bins_ni(&mut d, &mut ni), true);
    assert_eq!(ni, 6);

    let mut d: Vec<i32> = vec![];
    let mut ni: usize = 9;
    assert_eq!(trim_upper_bins_ni(&mut d, &mut ni), true);
    assert_eq!(ni, 9);
}

#[test]
fn bestfit_internal_leaves_zeros_on_success() {
    let mut d = prep_diff(&sizes_to_counts(&[1, 2, 3, 4, 5, 6, 7]), &sizes_to_counts(&[10, 18]));
    let sd = item_sum(&d) as i32;
    assert_eq!(sd, 0);
    assert_eq!(fits_into_bestfit_internal(&mut d, sd, false), true);
    assert_eq!(d, vec![0; 19]);

    let mut d = prep_diff(&sizes_to_counts(&[3, 3, 2, 5]), &sizes_to_counts(&[6, 8]));
    let sd = item_sum(&d) as i32;
    assert_eq!(sd, -1);
    assert_eq!(fits_into_bestfit_internal(&mut d, sd, true), true);
    assert_eq!(d, vec![0; 9]);

    let mut d = vec![0i32, 0, 1];
    assert_eq!(fits_into_bestfit_internal(&mut d, 2, false), false);
    assert_eq!(d.len(), 3);
}

#[test]
fn bestfit_drops_bins_below_the_items() {
    // the bin of size 1 is of no use to the item of size 2
    assert_eq!(fits_into_bestfit(&[0, 0, 1], &[0, 5, 0, 1], false), true);
    assert_eq!(fits_into_bestfit(&[0, 0, 2], &[0, 5, 0, 1], false), false);
    // two items of size 2 share a bin of size 5
    assert_eq!(fits_into_bestfit(&[0, 0, 2], &[0, 0, 0, 0, 0, 1], false), true);
    assert_eq!(fits_into_bestfit(&[0, 0, 3], &[0, 0, 0, 0, 0, 1], false), false);
    // what is left of the bin of size 7 takes the item of size 4
    assert_eq!(fits_into_bestfit(&[0, 0, 0, 1, 1], &[0, 0, 0, 0, 0, 0, 0, 1], false), true);
    // items and bins of one size cancel
    assert_eq!(fits_into_bestfit(&[0, 3, 0, 2], &[0, 3, 0, 2], false), true);
}

#[test]
fn branching_internal_follows_the_budget() {
    let a = sizes_to_counts(&[3, 3, 2, 5]);
    let b = sizes_to_counts(&[6, 7]);
    for (budget, expect) in [(0usize, false), (1, false), (2, true), (3, true)] {
        let mut d = prep_diff(&a, &b);
        let sd = item_sum(&d) as i32;
        assert_eq!(fits_into_branching_internal(&mut d, sd, budget), expect);
        assert_eq!(d.len(), 8);
    }
    // no bin is as large as the largest item
    let mut d = vec![0i32, -5, 0, 1];
    assert_eq!(fits_into_branching_internal(&mut d, -2, 4), false);
    // no item is left
    let mut d = vec![0i32, -5, 0, -1];
    assert_eq!(fits_into_branching_internal(&mut d, -8, 4), true);
    assert_eq!(d, vec![0, -5, 0, -1]);
}

#[test]
fn a_huge_budget_is_accepted() {
    let a = sizes_to_counts(&[1, 2, 3, 4, 5, 6, 7, 8, 9, 10]);
    let b = sizes_to_counts(&[17, 14, 11, 13]);
    assert_eq!(fits_into_branching(&a, &b, usize::MAX), true);
    assert_eq!(fits_into_branching(&b, &a, usize::MAX), false);
}

#[test]
fn valid_counts_are_short_and_start_with_zero() {
    assert_eq!(is_valid_counts(&[]), true);
    assert_eq!(is_valid_counts(&[0]), true);
    assert_eq!(is_valid_counts(&[0, 255, 3]), true);
    assert_eq!(is_valid_counts(&[1]), false);
    assert_eq!(is_valid_counts(&[1, 0, 0]), false);
    assert_eq!(is_valid_counts(&[0; 254]), true);
    assert_eq!(is_valid_counts(&[0; 255]), false);
}

#[test]
fn valid_sizes_have_valid_counts() {
    assert_eq!(is_valid_sizes(&[]), true);
    assert_eq!(is_valid_sizes(&[1, 253, 7, 7]), true);
    assert_eq!(is_valid_sizes(&[1, 0, 7]), false);
    assert_eq!(is_valid_sizes(&[254]), false);
    assert_eq!(is_valid_sizes(&[255, 1]), false);
    assert_eq!(is_valid_sizes(&[9; 254]), true);
    assert_eq!(is_valid_sizes(&[9; 255]), false);
    for s in some_sizes() {
        assert_eq!(is_valid_sizes(&s), is_valid_counts(&sizes_to_counts(&s)));
    }
}

#[test]
fn countable_sizes_fit_a_count() {
    assert_eq!(is_countable(&[]), true);
    assert_eq!(is_countable(&[0, 255, 255, 0]), true);
    assert_eq!(is_countable(&[4; 255]), true);
    assert_eq!(is_countable(&[4; 256]), false);
    let mut mixed = vec![4u8; 255];
    mixed.extend(vec![5u8; 255]);
    assert_eq!(is_countable(&mixed), true);
    mixed.push(5);
    assert_eq!(is_countable(&mixed), false);
}

#[test]
fn counts_do_not_depend_on_the_order_of_sizes() {
    assert_eq!(sizes_to_counts(&[5, 1, 1, 2]), sizes_to_counts(&[1, 2, 1, 5]));
    assert_eq!(sizes_to_counts(&[1, 2, 3]), sizes_to_counts(&[3, 2, 1]));
}
