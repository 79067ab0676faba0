use dateo_fun_remover::atom::{square_assembly, Atom, Val};
use dateo_fun_remover::func::Func;
use dateo_fun_remover::func_list::FuncList;
use dateo_fun_remover::joiner::{join_vals, val_to_atom, val_to_atom_rev};
use dateo_fun_remover::operation::Operation;
use dateo_fun_remover::tree::{Arena, Path, Val as SearchVal};

fn num(t: &str) -> Atom<String> {
    Atom::new(t.to_string())
}

fn whole(n: i64) -> Atom<i64> {
    Atom::new(n)
}

fn text(a: &Atom<i64>) -> Atom<String> {
    let val = match &a.val {
        Val::Num(n) => Val::Num(n.to_string()),
        Val::Express { left, right, op } => Val::Express {
            left: Box::new(text(left)),
            right: Box::new(text(right)),
            op: *op,
        },
        Val::Hole => Val::Hole,
    };
    Atom { funcs: a.funcs, val }
}

#[test]
fn renders_plain_and_switched_operations() {
    let a = Atom::new_express(num("3"), num("5"), Operation::Subtract);
    assert_eq!(a.render(), "(3 - 5)");
    let b = Atom::new_express(num("3"), num("5"), Operation::SubtractSwitch);
    assert_eq!(b.render(), "(5 - 3)");
    let c = Atom::new_express(num("2"), num("9"), Operation::RootSwitch);
    assert_eq!(c.render(), "(9 √ 2)");
}

#[test]
fn mirrored_operation_shows_the_other_order() {
    for op in Operation::all() {
        if op == Operation::Add || op == Operation::Multiply {
            continue;
        }
        let mirrored = match op {
            Operation::Subtract => Operation::SubtractSwitch,
            Operation::SubtractSwitch => Operation::Subtract,
            Operation::Divide => Operation::DivideSwitch,
            Operation::DivideSwitch => Operation::Divide,
            Operation::Power => Operation::PowerSwitch,
            Operation::PowerSwitch => Operation::Power,
            Operation::Root => Operation::RootSwitch,
            _ => Operation::Root,
        };
        let a = Atom::new_express(num("a"), num("b"), op);
        let b = Atom::new_express(num("b"), num("a"), mirrored);
        assert_eq!(a.render(), b.render());
    }
}

#[test]
fn renders_functions() {
    let mut a = num("5");
    a.funcs.push(Func::Factorial);
    assert_eq!(a.render(), "5!");
    let mut b = num("5");
    b.funcs.push(Func::SquareRoot);
    assert_eq!(b.render(), "²√5");
    let mut c = num("5");
    c.funcs.push(Func::Factorial);
    c.funcs.push(Func::SquareRoot);
    assert_eq!(c.render(), "²√((5)!)");
    let mut d = Atom::new_express(num("1"), num("2"), Operation::Add);
    d.funcs.push(Func::Summation);
    assert_eq!(d.render(), "Σ(1 + 2)");
    let mut e = num("16");
    e.funcs.push(Func::SquareRoot);
    e.funcs.push(Func::Factorial);
    assert_eq!(e.render(), "(²√16)!");
    let mut f = num("3");
    f.funcs.push(Func::Factorial);
    f.funcs.push(Func::Factorial);
    assert_eq!(f.render(), "(((3)!))!");
    let hole: Atom<String> = Atom::new_hole();
    assert_eq!(hole.render(), "[hole]");
}

#[test]
fn fill_hole_orders_functions() {
    let mut outer: Atom<i64> = Atom::new_hole();
    outer.funcs.push(Func::Factorial);
    let mut outer = Atom::new_express(whole(2), outer, Operation::Multiply);
    let mut inner = Atom::new_express(whole(1), whole(3), Operation::Add);
    inner.funcs.push(Func::SquareRoot);
    outer.fill_hole(inner);
    // the spliced expression's own function applies first
    assert_eq!(text(&outer).render(), "(2 * (²√(1 + 3))!)");
    match &outer.val {
        Val::Express { right, .. } => {
            assert_eq!(right.funcs.iter(), vec![Func::SquareRoot, Func::Factorial]);
        }
        _ => panic!("expected a joined node"),
    }
}

#[test]
fn fill_hole_fills_every_hole() {
    let outer: Atom<i64> = Atom::new_express(Atom::new_hole(), Atom::new_hole(), Operation::Power);
    let mut outer = outer;
    outer.fill_hole(whole(4));
    assert_eq!(text(&outer).render(), "(4 ^ 4)");
}

#[test]
fn split_at_a_node() {
    let mut left = whole(4);
    left.funcs.push(Func::SquareRoot);
    left.funcs.push(Func::Factorial);
    let atom = Atom::new_express(left, whole(7), Operation::Add);
    assert_eq!(atom.node_count(), 3);
    assert!(atom.step_fits((1, 1)));
    let (outer, inner) = atom.duplicate().split((1, 1));
    assert_eq!(text(&inner).render(), "²√4");
    assert_eq!(text(&outer).render(), "([hole]! + 7)");
    assert!(!atom.step_fits((3, 0)));
    assert!(!atom.step_fits((2, 1)));
    assert!(atom.step_fits((2, 0)));
    let (outer, inner) = atom.split((0, 0));
    assert_eq!(text(&outer).render(), "[hole]");
    assert_eq!(text(&inner).render(), "((²√4)! + 7)");
}

#[test]
fn split_then_fill_restores_the_tree() {
    let mut right = whole(3);
    right.funcs.push(Func::Summation);
    let atom = Atom::new_express(whole(8), right, Operation::DivideSwitch);
    let before = text(&atom).render();
    assert_eq!(before, "(Σ3 / 8)");
    let (mut outer, inner) = atom.split((2, 0));
    outer.fill_hole(inner);
    assert_eq!(text(&outer).render(), before);
}

fn leaf(n: i64) -> SearchVal<i64> {
    SearchVal::new_pure_leaf(n)
}

fn combine(num: i64, op: Operation, left: usize, right: usize) -> SearchVal<i64> {
    SearchVal { num, origin: num, score: 0, funcs: FuncList::new(), path: Path::Combine { op, left, right } }
}

#[test]
fn rebuilds_both_halves() {
    let up = Arena::from_string("\n O\n/ \\\nN N\n").unwrap();
    let down = Arena::from_string("\n H\n/ \\\nN G\n").unwrap();
    // number half: 2 + 5
    let up_leaf_a = vec![leaf(2)];
    let up_leaf_b = vec![leaf(5)];
    let up_root = vec![combine(7, Operation::Add, 0, 0)];
    let up_tables = vec![&up_root, &up_leaf_a, &up_leaf_b];
    let sub = val_to_atom(&up_root[0], 0, &up, &up_tables).unwrap();
    // goal half: 3 * hole == 21, with a factorial on the goal side
    let down_num = vec![leaf(3)];
    let mut goal = leaf(21);
    goal.funcs.push(Func::Factorial);
    let down_goal = vec![goal];
    let down_root = vec![combine(7, Operation::Multiply, 0, 0)];
    let down_tables = vec![&down_root, &down_num, &down_goal];
    let shell = val_to_atom_rev(&down_root[0], 0, &down, &down_tables).unwrap();
    match &shell.val {
        Val::Express { left, right, op } => {
            assert_eq!(*op, Operation::Multiply);
            assert!(matches!(left.val, Val::Num(3)));
            assert!(matches!(right.val, Val::Hole));
        }
        _ => panic!("expected a joined node"),
    }
    assert_eq!(shell.funcs.iter(), vec![Func::Factorial]);
    let whole = join_vals(&up_root[0], &up, &up_tables, &down_root[0], &down, &down_tables).unwrap();
    match &whole.val {
        Val::Express { right, .. } => match &right.val {
            Val::Express { left, right, op } => {
                assert_eq!(*op, Operation::Add);
                assert!(matches!(left.val, Val::Num(2)));
                assert!(matches!(right.val, Val::Num(5)));
            }
            _ => panic!("expected the number half"),
        },
        _ => panic!("expected a joined node"),
    }
    assert_eq!(sub.node_count(), 3);
}

#[test]
fn rebuild_refuses_bad_paths() {
    let up = Arena::from_string("\n O\n/ \\\nN N\n").unwrap();
    let a = vec![leaf(2)];
    let b = vec![leaf(5)];
    let root = vec![combine(7, Operation::Add, 0, 3)];
    let tables = vec![&root, &a, &b];
    assert!(val_to_atom(&root[0], 0, &up, &tables).is_none());
    // a leaf node cannot hold a combined value
    assert!(val_to_atom(&root[0], 1, &up, &tables).is_none());
}

#[test]
fn whole_expression_score() {
    let mut left = whole(16);
    for _ in 0..6 {
        left.funcs.push(Func::SquareRoot);
    }
    let mut right = whole(3);
    right.funcs.push(Func::Factorial);
    let inner = Atom::new_express(left, right, Operation::PowerSwitch);
    let atom = Atom::new_express(inner, whole(2), Operation::RootSwitch);
    let s = atom.get_score().unwrap();
    assert_eq!(s.nums, 3);
    assert_eq!(s.funcs, 5);
    assert_eq!(s.power_ops, 1);
    assert_eq!(s.root_ops, 1);
    assert_eq!(s.score(), 10);
}

#[test]
fn square_pass_assembly() {
    let mut shell = Atom::new_express(whole(1), Atom::new_hole(), Operation::Add);
    if let Val::Express { right, .. } = &mut shell.val {
        right.funcs.push(Func::Factorial);
    }
    let inner = whole(3);
    let power = Atom::new_express(whole(2), whole(4), Operation::Multiply);
    let atom = square_assembly(&shell, &inner, power, 1, 2).unwrap();
    assert_eq!(text(&atom).render(), "(1 + (²√²√(²√3 ^ (2 * 4)))!)");
    assert!(square_assembly(&shell, &inner, whole(2), 40, 0).is_none());
    assert!(square_assembly(&shell, &inner, whole(2), 0, 32).is_none());
}
