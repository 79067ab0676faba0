use dateo_fun_remover::inputs::parse_date;
use dateo_fun_remover::split::{combinations_when_split, index_combinations};

#[test]
fn choose_positions() {
    assert_eq!(index_combinations(3, 1), vec![vec![0], vec![1], vec![2]]);
    assert_eq!(
        index_combinations(4, 2),
        vec![vec![0, 1], vec![0, 2], vec![0, 3], vec![1, 2], vec![1, 3], vec![2, 3]]
    );
    assert_eq!(index_combinations(5, 2).len(), 10);
    assert_eq!(index_combinations(5, 5), vec![vec![0, 1, 2, 3, 4]]);
}

#[test]
fn split_numbers_into_groups() {
    let nums = vec![-16., -10., 2., 13., 16.];
    let one = combinations_when_split(&nums, 1);
    assert_eq!(one.len(), 5);
    assert_eq!(one[0], (vec![-16.], vec![-10., 2., 13., 16.]));
    assert_eq!(one[4], (vec![16.], vec![-16., -10., 2., 13.]));
    let two = combinations_when_split(&nums, 2);
    assert_eq!(two.len(), 10);
    assert_eq!(two[1], (vec![-16., 2.], vec![-10., 13., 16.]));
    for (l, r) in &two {
        assert_eq!(l.len(), 2);
        assert_eq!(r.len(), 3);
    }
}

#[test]
fn split_three_numbers_in_order() {
    let nums = vec![1u64, 2, 3];
    assert_eq!(
        combinations_when_split(&nums, 2),
        vec![(vec![1, 2], vec![3]), (vec![1, 3], vec![2]), (vec![2, 3], vec![1])]
    );
}

#[test]
fn reads_dates() {
    assert_eq!(parse_date("2023-4-17"), Some((2023, 4, 17)));
    assert_eq!(parse_date("+2023-04-+7-extra"), Some((2023, 4, 7)));
    assert_eq!(parse_date("2023-4"), None);
    assert_eq!(parse_date("2023-x-1"), None);
    assert_eq!(parse_date("2023--1"), None);
    assert_eq!(parse_date("4294967295-0-0"), Some((4294967295, 0, 0)));
    assert_eq!(parse_date("4294967296-0-0"), None);
}
