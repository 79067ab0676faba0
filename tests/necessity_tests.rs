use dateo_fun_remover::func::Func;
use dateo_fun_remover::func_list::FuncList;
use dateo_fun_remover::necessity::{func_runs, truncations};

fn list(fs: &[Func]) -> FuncList {
    let mut l = FuncList::new();
    for f in fs {
        l.push(*f);
    }
    l
}

#[test]
fn runs_group_equal_neighbours() {
    let l = list(&[Func::SquareRoot, Func::SquareRoot, Func::Factorial, Func::SquareRoot]);
    assert_eq!(func_runs(&l), vec![(Func::SquareRoot, 2), (Func::Factorial, 1), (Func::SquareRoot, 1)]);
    assert_eq!(func_runs(&FuncList::new()), vec![]);
}

#[test]
fn cut_lists_in_order() {
    let l = list(&[Func::SquareRoot, Func::SquareRoot, Func::Factorial]);
    let cuts: Vec<Vec<Func>> = truncations(&l).iter().map(|t| t.iter()).collect();
    assert_eq!(
        cuts,
        vec![
            vec![],
            vec![Func::Factorial],
            vec![Func::SquareRoot],
            vec![Func::SquareRoot, Func::Factorial],
            vec![Func::SquareRoot, Func::SquareRoot],
            vec![Func::SquareRoot, Func::SquareRoot, Func::Factorial],
        ]
    );
}

#[test]
fn every_removal_is_a_cut() {
    let fs = [Func::Summation, Func::SquareRoot, Func::SquareRoot, Func::Summation];
    let cuts: Vec<Vec<Func>> = truncations(&list(&fs)).iter().map(|t| t.iter()).collect();
    assert_eq!(cuts.len(), 12);
    assert_eq!(cuts.last().unwrap(), &fs.to_vec());
    for mask in 0..16u32 {
        let kept: Vec<Func> = (0..4).filter(|i| mask & (1 << i) != 0).map(|i| fs[i]).collect();
        assert!(cuts.contains(&kept));
    }
}

#[test]
fn no_functions_one_cut() {
    let cuts = truncations(&FuncList::new());
    assert_eq!(cuts.len(), 1);
    assert_eq!(cuts[0].len(), 0);
}
