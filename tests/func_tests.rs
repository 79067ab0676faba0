use dateo_fun_remover::func::{factorial_inverse_of, factorial_of, Func};
use dateo_fun_remover::func_list::FuncList;

#[test]
fn factorial_of_five_is_one_hundred_twenty() {
    assert_eq!(factorial_of(5), Some(120));
}

#[test]
fn factorial_of_eighteen_is_undefined() {
    assert_eq!(factorial_of(18), None);
    assert_eq!(factorial_of(17), Some(355687428096000));
}

#[test]
fn factorial_inverse_round_trips() {
    assert_eq!(factorial_inverse_of(120), Some(5));
    assert_eq!(factorial_inverse_of(1), Some(0));
    assert_eq!(factorial_inverse_of(7), None);
    for n in 2..=17u64 {
        let m = factorial_of(n).unwrap();
        assert_eq!(factorial_inverse_of(m), Some(n));
    }
}

#[test]
fn func_list_push_get_pop() {
    let mut l = FuncList::new();
    l.push(Func::SquareRoot);
    l.push(Func::Factorial);
    l.push(Func::Summation);
    assert_eq!(l.len(), 3);
    assert_eq!(l.get(0), Func::SquareRoot);
    assert_eq!(l.get(1), Func::Factorial);
    assert_eq!(l.get(2), Func::Summation);
    assert_eq!(l.pop(), Func::Summation);
    assert_eq!(l.len(), 2);
    assert_eq!(l.iter(), vec![Func::SquareRoot, Func::Factorial]);
    let r = l.reverse();
    assert_eq!(r.iter(), vec![Func::Factorial, Func::SquareRoot]);
}
