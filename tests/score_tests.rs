use dateo_fun_remover::func::Func;
use dateo_fun_remover::func_list::FuncList;
use dateo_fun_remover::joiner::AtomFilter;
use dateo_fun_remover::operation::Operation;
use dateo_fun_remover::score::Score;

fn list(fs: &[Func]) -> FuncList {
    let mut l = FuncList::new();
    for f in fs {
        l.push(*f);
    }
    l
}

#[test]
fn score_counts_numbers_operations_and_functions() {
    let s = Score::from_nums(3)
        .add_op(Operation::Power)
        .add_op(Operation::RootSwitch)
        .add_op(Operation::Add)
        .add_funcs_list(list(&[Func::Factorial, Func::Summation]))
        .resolve();
    assert_eq!(s.nums, 3);
    assert_eq!(s.power_ops, 1);
    assert_eq!(s.root_ops, 1);
    assert_eq!(s.funcs, 2);
    assert_eq!(s.score(), 7);
}

#[test]
fn using_all_numbers_earns_a_bonus() {
    assert_eq!(Score::from_nums(5).score(), 6);
    assert_eq!(Score::from_nums(4).score(), 4);
}

#[test]
fn stacked_square_roots_stop_counting_after_four() {
    let six = [Func::SquareRoot; 6];
    let s = Score::from_nums(1).add_funcs_list(list(&six)).resolve();
    assert_eq!(s.funcs, 4);
    // another function ends the run
    let mixed = [
        Func::SquareRoot,
        Func::SquareRoot,
        Func::SquareRoot,
        Func::SquareRoot,
        Func::SquareRoot,
        Func::Factorial,
        Func::SquareRoot,
    ];
    let s = Score::from_nums(1).add_funcs_list(list(&mixed)).resolve();
    assert_eq!(s.funcs, 6);
}

#[test]
fn pending_runs_continue_across_combined_scores() {
    let a = Score::from_nums(1).add_funcs_list(list(&[Func::SquareRoot; 3]));
    let b = Score::from_nums(1).add_funcs_list(list(&[Func::SquareRoot; 3]));
    let c = a.combine(b);
    assert_eq!(c.nums, 2);
    let r = c.resolve();
    assert_eq!(r.funcs, 4);
    assert_eq!(r.score(), 6);
}

#[test]
fn operation_properties() {
    let all = Operation::all();
    assert_eq!(all.len(), 10);
    let weights: u32 = all.iter().map(|o| o.score()).sum();
    assert_eq!(weights, 4);
    let switched = all.iter().filter(|o| o.is_switched()).count();
    assert_eq!(switched, 4);
    assert_eq!(Operation::Root.symbol(), "√");
    assert_eq!(Operation::DivideSwitch.symbol(), "/");
}

#[test]
fn func_properties() {
    assert_eq!(Func::all(), vec![Func::SquareRoot, Func::Factorial, Func::Summation]);
    assert!(Func::Factorial.is_behind());
    assert!(!Func::SquareRoot.is_behind());
    assert_eq!(Func::Summation.symbol(), "Σ");
    assert_eq!(Func::SquareRoot.symbol(), "²√");
}

#[test]
fn func_list_join_and_capacity() {
    let a = list(&[Func::Factorial; 16]);
    let b = list(&[Func::Summation; 16]);
    let j = a.join(&b);
    assert_eq!(j.len(), 32);
    assert_eq!(j.get(15), Func::Factorial);
    assert_eq!(j.get(16), Func::Summation);
    assert_eq!(j.get(31), Func::Summation);
}

#[test]
fn func_list_pop_then_push_overwrites() {
    let mut l = list(&[Func::Summation, Func::Summation]);
    assert_eq!(l.pop(), Func::Summation);
    l.push(Func::SquareRoot);
    assert_eq!(l.iter(), vec![Func::Summation, Func::SquareRoot]);
}

#[test]
fn score_floor_reports_only_improvements() {
    let mut f = AtomFilter::MinScore(3);
    assert!(!f.admits(3));
    assert!(f.admits(4));
    assert!(!f.offer(5, false));
    assert_eq!(f, AtomFilter::MinScore(3));
    assert!(f.offer(5, true));
    assert_eq!(f, AtomFilter::MinScore(5));
    assert!(!f.offer(5, true));
    assert!(!f.offer(4, true));
    assert!(f.offer(7, true));
    let mut reported = Vec::new();
    let mut g = AtomFilter::MinScore(0);
    for (score, passed) in [(2, true), (1, true), (2, true), (4, false), (3, true), (6, true)] {
        if g.offer(score, passed) {
            reported.push(score);
        }
    }
    assert_eq!(reported, vec![2, 3, 6]);
}

#[test]
fn unfiltered_reports_every_passing_expression() {
    let mut f = AtomFilter::All;
    assert!(f.offer(1, true));
    assert!(f.offer(1, true));
    assert!(!f.offer(9, false));
    assert_eq!(f, AtomFilter::All);
}
