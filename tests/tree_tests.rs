use dateo_fun_remover::joiner::{get_joiners, get_perms, Joiner};
use dateo_fun_remover::shapes::tree_shapes;
use dateo_fun_remover::tree::{Arena, Kind, Link};

const SIMPLE_UP: &str = "
   O
  / \\
  N N
";

const SIMPLE_DOWN: &str = "
  H
 / \\
 N H
  / \\
  N G
";

#[test]
fn parses_a_two_leaf_shape() {
    let arena = Arena::from_string(SIMPLE_UP).unwrap();
    assert_eq!(arena.len(), 3);
    assert_eq!(arena.get(0).kind, Kind::Num);
    assert_eq!(arena.get(0).link, Link::Branch(1, 2));
    assert_eq!(arena.get(1).parent, Some(0));
    assert_eq!(arena.get(2).parent, Some(0));
    assert_eq!(arena.get(1).link, Link::Leaf);
    assert_eq!(arena.count_num_leaves(), 2);
    assert_eq!(arena.perm_map(), vec![false, true]);
}

#[test]
fn parses_a_goal_shape() {
    let arena = Arena::from_string(SIMPLE_DOWN).unwrap();
    assert_eq!(arena.len(), 5);
    assert_eq!(arena.get(0).kind, Kind::Goal);
    assert_eq!(arena.get(0).link, Link::Branch(1, 2));
    assert_eq!(arena.get(2).link, Link::Branch(3, 4));
    assert_eq!(arena.get(4).kind, Kind::Goal);
    assert_eq!(arena.get_goal_id(), 4);
    assert_eq!(arena.count_num_leaves(), 2);
    // neither number leaf has a number leaf as its sibling
    assert_eq!(arena.perm_map(), vec![true, true]);
    assert_eq!(arena.count_goal_leaves(), 1);
    assert!(!arena.is_num_side());
}

#[test]
fn rejects_malformed_templates() {
    assert!(Arena::from_string("").is_none());
    assert!(Arena::from_string("  \n \n").is_none());
    assert!(Arena::from_string("O\n/ \\\nN X\n").is_none());
    // two pairs but only one open node
    assert!(Arena::from_string("O\n/ \\\nN N N N\n").is_none());
}

#[test]
fn single_leaf_shape() {
    let arena = Arena::from_string("\n  N\n ").unwrap();
    assert_eq!(arena.len(), 1);
    assert_eq!(arena.perm_map(), vec![true]);
    let goal = Arena::from_string("\n  G\n ").unwrap();
    assert_eq!(goal.get_goal_id(), 0);
    assert_eq!(goal.count_num_leaves(), 0);
}

#[test]
fn populate_builds_shared_keys() {
    let mut up = Arena::from_string(SIMPLE_UP).unwrap();
    up.populate(&vec!["2".to_string(), "-10".to_string()], None);
    assert_eq!(up.keys, vec!["N (N 2 N -10)", "N 2", "N -10"]);
    let mut down = Arena::from_string(SIMPLE_DOWN).unwrap();
    down.populate(&vec!["13".to_string(), "16".to_string()], Some("19".to_string()));
    assert_eq!(down.keys[4], "G 19");
    assert_eq!(down.keys[0], "G (N 13 G (N 16 G 19))");
}

#[test]
fn joiners_per_number_count() {
    let counts: Vec<usize> = (1..=5).map(|n| get_joiners(n).unwrap().len()).collect();
    assert_eq!(counts, vec![1, 1, 1, 2, 3]);
    for n in 1..=5 {
        assert_eq!(tree_shapes(n).len(), counts[n - 1]);
        for j in get_joiners(n).unwrap() {
            // every shape uses all the numbers it is listed for
            assert_eq!(j.up.count_num_leaves() + j.down.count_num_leaves(), n);
            let expected = if n == 5 { 6 } else { n as u32 };
            assert_eq!(j.base_score, expected);
            assert!(j.up.is_num_side());
            assert_eq!(j.down.count_goal_leaves(), 1);
        }
    }
}

#[test]
fn joiner_from_bad_template_is_none() {
    assert!(Joiner::from_strings("", SIMPLE_DOWN).is_none());
    assert!(Joiner::from_strings(SIMPLE_UP, SIMPLE_DOWN).is_some());
}

#[test]
fn two_numbers_keep_one_order_on_the_shape() {
    let joiners = get_joiners(2).unwrap();
    let joiner = &joiners[0];
    let mut map = joiner.up.perm_map();
    map.extend(joiner.down.perm_map());
    assert_eq!(map, vec![false, true]);
    // numbers 7 and 3: rank 1 and rank 0
    let perms = get_perms(&vec![1, 0], &map);
    assert_eq!(perms, vec![vec![1, 0]]);
}

#[test]
fn permutations_without_filter_are_all_kept() {
    let perms = get_perms(&vec![0, 1, 2], &vec![true, true, true]);
    assert_eq!(perms.len(), 6);
    let perms = get_perms(&vec![0, 1, 2, 3], &vec![]);
    assert_eq!(perms.len(), 24);
}

#[test]
fn permutations_with_filter() {
    // position 0 must rank below position 1
    let perms = get_perms(&vec![0, 1, 2], &vec![false, true]);
    assert_eq!(perms.len(), 3);
    for p in &perms {
        assert!(p[0] < p[1]);
    }
    // equal numbers keep both orders, so `2 op 2` is still tried
    let perms = get_perms(&vec![0, 0], &vec![false, true]);
    assert_eq!(perms, vec![vec![0, 1], vec![1, 0]]);
}

#[test]
fn symmetry_filter_keeps_every_number_set() {
    // the kept orderings still place every number at least once in each half
    for joiner in get_joiners(5).unwrap() {
        let mut map = joiner.up.perm_map();
        map.extend(joiner.down.perm_map());
        let perms = get_perms(&vec![0, 1, 2, 3, 4], &map);
        assert!(!perms.is_empty());
        assert!(perms.len() < 120);
        let up_leaves = joiner.up.count_num_leaves();
        for k in 0..5usize {
            assert!(perms.iter().any(|p| p[..up_leaves].contains(&k)));
        }
    }
}

#[test]
fn odd_last_token_is_ignored() {
    let arena = Arena::from_string("O\n/ \\\nN N N\n").unwrap();
    assert_eq!(arena.len(), 3);
    assert_eq!(arena.count_num_leaves(), 2);
}

#[test]
fn tabs_and_carriage_returns_separate_tokens() {
    let arena = Arena::from_string("\tH\r\n/\t\\\r\nN\tG\r\n").unwrap();
    assert_eq!(arena.len(), 3);
    assert_eq!(arena.get_goal_id(), 2);
}

#[test]
fn goal_ids_of_goal_shapes() {
    let d3 = Arena::from_string(tree_shapes(3)[0].1).unwrap();
    assert_eq!(d3.get_goal_id(), 2);
    let d2 = Arena::from_string(tree_shapes(2)[0].1).unwrap();
    assert_eq!(d2.get_goal_id(), 0);
}

#[test]
fn five_number_maps_fix_only_sibling_pairs() {
    let maps: Vec<Vec<bool>> = get_joiners(5)
        .unwrap()
        .iter()
        .map(|j| {
            let mut m = j.up.perm_map();
            m.extend(j.down.perm_map());
            m
        })
        .collect();
    assert_eq!(
        maps,
        vec![
            vec![true, false, true, true, true],
            vec![true, false, true, false, true],
            vec![false, true, false, true, true],
        ]
    );
}

#[test]
fn every_ordering_has_a_kept_sibling_swap() {
    let ranks = vec![3, 0, 4, 1, 2];
    for joiner in get_joiners(5).unwrap() {
        let mut map = joiner.up.perm_map();
        map.extend(joiner.down.perm_map());
        let kept = get_perms(&ranks, &map);
        let all = get_perms(&ranks, &vec![true; 5]);
        assert_eq!(all.len(), 120);
        for p in all {
            let mut q = p.clone();
            for i in 0..4 {
                if !map[i] && ranks[q[i]] > ranks[q[i + 1]] {
                    q.swap(i, i + 1);
                }
            }
            assert!(kept.contains(&q));
        }
    }
}
