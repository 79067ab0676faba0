//! Expression trees. A node is a number, two sub-expressions joined by an
//! operation, or a hole standing for an expression still to be spliced in;
//! every node carries the functions applied to its value, innermost first.
//!
//! The number type is a parameter: the tree's shape, its splicing and its
//! rendering do not depend on what the numbers are.
use vstd::prelude::*;
use crate::func::{Func, func_symbol};
use crate::func_list::{FuncList, MAX_FUNCS};
use crate::operation::{Operation, operation_symbol};
use crate::score::{Score, PendingFuncScore, counted_funcs, lemma_counted_funcs_bound};
use crate::necessity::repeat_func;

verus! {

pub enum Val<N> {
    Num(N),
    Express { left: Box<Atom<N>>, right: Box<Atom<N>>, op: Operation },
    Hole,
}

pub struct Atom<N> {
    pub funcs: FuncList,
    pub val: Val<N>,
}

/// How many nodes the tree has.
pub open spec fn size<N>(a: Atom<N>) -> nat
    decreases a,
{
    match a.val {
        Val::Express { left, right, .. } => 1 + size(*left) + size(*right),
        _ => 1,
    }
}

/// Whether the tree holds no hole.
pub open spec fn no_holes<N>(a: Atom<N>) -> bool
    decreases a,
{
    match a.val {
        Val::Num(_) => true,
        Val::Express { left, right, .. } => no_holes(*left) && no_holes(*right),
        Val::Hole => false,
    }
}

/// Whether every hole, with `extra` more functions, stays within a list's
/// capacity.
pub open spec fn holes_fit<N>(a: Atom<N>, extra: nat) -> bool
    decreases a,
{
    match a.val {
        Val::Num(_) => true,
        Val::Express { left, right, .. } => holes_fit(*left, extra) && holes_fit(*right, extra),
        Val::Hole => a.funcs@.len() + extra <= MAX_FUNCS,
    }
}

/// `r` is `a` with every hole replaced by `sub`: the hole's node takes `sub`'s
/// value, and `sub`'s functions apply before the hole's own.
pub open spec fn is_filled<N>(r: Atom<N>, a: Atom<N>, sub: Atom<N>) -> bool
    decreases a,
{
    match a.val {
        Val::Hole => r.funcs@ == sub.funcs@ + a.funcs@ && r.val == sub.val,
        Val::Num(_) => r == a,
        Val::Express { left, right, op } => {
            &&& r.funcs == a.funcs
            &&& r.val matches Val::Express { left: rl, right: rr, op: rop }
            &&& rop == op
            &&& is_filled(*rl, *left, sub)
            &&& is_filled(*rr, *right, sub)
        },
    }
}

impl<N> Atom<N> {
    /// A number leaf.
    pub fn new(n: N) -> (r: Atom<N>)
        ensures
            r.funcs@ == Seq::<Func>::empty(),
            r.val == Val::Num(n),
    {
        Atom { funcs: FuncList::new(), val: Val::Num(n) }
    }

    /// `left` and `right` joined by `op`.
    pub fn new_express(left: Atom<N>, right: Atom<N>, op: Operation) -> (r: Atom<N>)
        ensures
            r.funcs@ == Seq::<Func>::empty(),
            r.val == (Val::Express { left: Box::new(left), right: Box::new(right), op }),
    {
        Atom { funcs: FuncList::new(), val: Val::Express { left: Box::new(left), right: Box::new(right), op } }
    }

    /// A hole.
    pub fn new_hole() -> (r: Atom<N>)
        ensures
            r.funcs@ == Seq::<Func>::empty(),
            r.val == Val::<N>::Hole,
    {
        Atom { funcs: FuncList::new(), val: Val::Hole }
    }

}

impl<N: Copy> Atom<N> {
    /// A copy of the whole tree.
    pub fn duplicate(&self) -> (r: Atom<N>)
        ensures
            r == *self,
        decreases *self,
    {
        match &self.val {
            Val::Num(n) => Atom { funcs: self.funcs, val: Val::Num(*n) },
            Val::Express { left, right, op } => {
                let l = left.duplicate();
                let r = right.duplicate();
                Atom { funcs: self.funcs, val: Val::Express { left: Box::new(l), right: Box::new(r), op: *op } }
            },
            Val::Hole => Atom { funcs: self.funcs, val: Val::Hole },
        }
    }

    /// Splices `atom` into every hole.
    pub fn fill_hole(&mut self, atom: Atom<N>)
        requires
            holes_fit(*old(self), atom.funcs@.len()),
        ensures
            is_filled(*final(self), *old(self), atom),
        decreases *old(self),
    {
        match &mut self.val {
            Val::Hole => {
                let funcs = atom.funcs.join(&self.funcs);
                *self = Atom { funcs, val: atom.val };
            },
            Val::Express { left, right, .. } => {
                left.fill_hole(atom.duplicate());
                right.fill_hole(atom);
            },
            Val::Num(_) => {},
        }
    }
}

/// The subtree at pre-order position `k`: the root is 0, then the left
/// subtree's nodes, then the right subtree's.
pub open spec fn node_at<N>(a: Atom<N>, k: int) -> Atom<N>
    decreases a,
{
    if k == 0 {
        a
    } else {
        match a.val {
            Val::Express { left, right, .. } => if k - 1 < size(*left) {
                node_at(*left, k - 1)
            } else {
                node_at(*right, k - 1 - size(*left))
            },
            _ => a,
        }
    }
}

/// `outer` and `inner` split `a` at the node at pre-order position `k`, after
/// that node's first `j` functions: `inner` is the node's value with those
/// functions, `outer` is `a` with the node replaced by a hole carrying the
/// remaining functions.
pub open spec fn is_split<N>(outer: Atom<N>, inner: Atom<N>, a: Atom<N>, k: int, j: int) -> bool
    decreases a,
{
    if k == 0 {
        &&& inner.funcs@ == a.funcs@.take(j)
        &&& inner.val == a.val
        &&& outer.funcs@ == a.funcs@.skip(j)
        &&& outer.val == Val::<N>::Hole
    } else {
        match a.val {
            Val::Express { left, right, op } => {
                &&& outer.funcs == a.funcs
                &&& outer.val matches Val::Express { left: ol, right: or, op: oop }
                &&& oop == op
                &&& if k - 1 < size(*left) {
                    is_split(*ol, inner, *left, k - 1, j) && *or == *right
                } else {
                    *ol == *left && is_split(*or, inner, *right, k - 1 - size(*left), j)
                }
            },
            _ => false,
        }
    }
}

/// The functions of `fs` from position `from` up to `to`.
fn funcs_range(fs: &FuncList, from: usize, to: usize) -> (r: FuncList)
    requires
        from <= to <= fs@.len(),
    ensures
        r@ == fs@.subrange(from as int, to as int),
{
    let total = fs.len();
    let mut r = FuncList::new();
    let mut i: usize = from;
    while i < to
        invariant
            from <= i <= to <= fs@.len(),
            total == fs@.len(),
            total <= MAX_FUNCS,
            r@ == fs@.subrange(from as int, i as int),
        decreases to - i,
    {
        r.push(fs.get(i));
        i = i + 1;
        assert(r@ =~= fs@.subrange(from as int, i as int));
    }
    r
}

impl<N> Atom<N> {
    /// How many nodes the tree has.
    pub fn node_count(&self) -> (r: usize)
        requires
            size(*self) <= usize::MAX,
        ensures
            r == size(*self),
        decreases *self,
    {
        match &self.val {
            Val::Express { left, right, .. } => 1 + left.node_count() + right.node_count(),
            _ => 1,
        }
    }

    /// Whether `step` names a node of the tree (pre-order position `step.0`)
    /// and at most as many functions as that node has.
    pub fn step_fits(&self, step: (usize, usize)) -> (r: bool)
        requires
            size(*self) <= usize::MAX,
        ensures
            r == (step.0 < size(*self) && step.1 <= node_at(*self, step.0 as int).funcs@.len()),
        decreases *self,
    {
        let (k, j) = step;
        if k == 0 {
            return j <= self.funcs.len();
        }
        match &self.val {
            Val::Express { left, right, .. } => {
                let left_size = left.node_count();
                if k - 1 < left_size {
                    left.step_fits((k - 1, j))
                } else {
                    right.step_fits((k - 1 - left_size, j))
                }
            },
            _ => false,
        }
    }

    /// Splits the tree at `step`: the node at pre-order position `step.0`,
    /// after its first `step.1` functions. The step must name a node and no
    /// more functions than it has.
    pub fn split(self, step: (usize, usize)) -> (r: (Atom<N>, Atom<N>))
        requires
            size(self) <= usize::MAX,
            step.0 < size(self),
            step.1 <= node_at(self, step.0 as int).funcs@.len(),
        ensures
            is_split(r.0, r.1, self, step.0 as int, step.1 as int),
        decreases self,
    {
        let (k, j) = step;
        if k == 0 {
            let inner_funcs = funcs_range(&self.funcs, 0, j);
            let outer_funcs = funcs_range(&self.funcs, j, self.funcs.len());
            assert(self.funcs@.subrange(0, j as int) =~= self.funcs@.take(j as int));
            assert(self.funcs@.subrange(j as int, self.funcs@.len() as int) =~= self.funcs@.skip(j as int));
            return (Atom { funcs: outer_funcs, val: Val::Hole }, Atom { funcs: inner_funcs, val: self.val });
        }
        let funcs = self.funcs;
        match self.val {
            Val::Express { left, right, op } => {
                let left_size = left.node_count();
                if k - 1 < left_size {
                    let (outer, inner) = (*left).split((k - 1, j));
                    (Atom { funcs, val: Val::Express { left: Box::new(outer), right, op } }, inner)
                } else {
                    let (outer, inner) = (*right).split((k - 1 - left_size, j));
                    (Atom { funcs, val: Val::Express { left, right: Box::new(outer), op } }, inner)
                }
            },
            _ => unreached(),
        }
    }
}

/// The part of the display that the functions write before the value, given
/// the functions outermost first from position `i` on. A function written
/// after its argument (`!`) parenthesises that argument whenever other
/// functions apply inside it, so `(²√16)!` and `²√(16!)` never read alike;
/// one that is not the outermost adds a second pair around itself, so a
/// function written before it applies to the whole: `²√((16)!)`.
pub open spec fn func_prefix(rev: Seq<Func>, i: int) -> Seq<char>
    decreases rev.len() - i,
{
    if i < 0 || i >= rev.len() {
        Seq::empty()
    } else {
        (if rev[i].behind() {
            if i == 0 {
                if rev.len() > 1 {
                    "("@
                } else {
                    Seq::empty()
                }
            } else {
                "(("@
            }
        } else {
            func_symbol(rev[i])
        }) + func_prefix(rev, i + 1)
    }
}

/// The part of the display that the functions write after the value, the
/// innermost first.
pub open spec fn func_suffix(rev: Seq<Func>, i: int) -> Seq<char>
    decreases rev.len() - i,
{
    if i < 0 || i >= rev.len() {
        Seq::empty()
    } else {
        func_suffix(rev, i + 1) + (if rev[i].behind() {
            if i == 0 {
                if rev.len() > 1 {
                    ")"@ + func_symbol(rev[i])
                } else {
                    func_symbol(rev[i])
                }
            } else {
                ")"@ + func_symbol(rev[i]) + ")"@
            }
        } else {
            Seq::empty()
        })
    }
}

/// The display of a tree whose numbers are already text. A joined node is
/// parenthesised, and a switched operation shows its operands in the order it
/// evaluates them: `SubtractSwitch` on `(l, r)` shows `r - l`.
pub open spec fn render_spec(a: Atom<String>) -> Seq<char>
    decreases a,
{
    let rev = a.funcs@.reverse();
    let body = match a.val {
        Val::Num(t) => t@,
        Val::Express { left, right, op } => if op.switched() {
            "("@ + render_spec(*right) + " "@ + operation_symbol(op) + " "@ + render_spec(*left) + ")"@
        } else {
            "("@ + render_spec(*left) + " "@ + operation_symbol(op) + " "@ + render_spec(*right) + ")"@
        },
        Val::Hole => "[hole]"@,
    };
    func_prefix(rev, 0) + body + func_suffix(rev, 0)
}

impl Atom<String> {
    /// The display of the tree.
    pub fn render(&self) -> (r: String)
        ensures
            r@ == render_spec(*self),
        decreases *self,
    {
        let rev = self.funcs.reverse();
        let n = rev.len();
        let ghost rs = rev@;
        let mut prefix = String::new();
        let mut i: usize = 0;
        while i < n
            invariant
                n == rs.len(),
                rs == rev@,
                0 <= i <= n,
                prefix@ + func_prefix(rs, i as int) == func_prefix(rs, 0),
            decreases n - i,
        {
            let f = rev.get(i);
            if f.is_behind() {
                if i != 0 {
                    prefix.append("((");
                } else if n > 1 {
                    prefix.append("(");
                }
            } else {
                let sym = f.symbol();
                prefix.append(sym.as_str());
            }
            i = i + 1;
        }
        assert(func_prefix(rs, n as int) == Seq::<char>::empty());
        assert(prefix@ =~= func_prefix(rs, 0));
        let mut suffix = String::new();
        let mut i: usize = n;
        while i > 0
            invariant
                n == rs.len(),
                rs == rev@,
                0 <= i <= n,
                suffix@ == func_suffix(rs, i as int),
            decreases i,
        {
            i = i - 1;
            let f = rev.get(i);
            if f.is_behind() {
                let sym = f.symbol();
                if i == 0 {
                    if n > 1 {
                        suffix.append(")");
                    }
                    suffix.append(sym.as_str());
                } else {
                    suffix.append(")");
                    suffix.append(sym.as_str());
                    suffix.append(")");
                }
            }
            assert(suffix@ =~= func_suffix(rs, i as int));
        }
        let body = match &self.val {
            Val::Num(t) => t.clone(),
            Val::Express { left, right, op } => {
                let (first, second) = if op.is_switched() {
                    (right.render(), left.render())
                } else {
                    (left.render(), right.render())
                };
                String::from_str("(").concat(first.as_str()).concat(" ").concat(op.symbol().as_str()).concat(" ").concat(second.as_str()).concat(")")
            },
            Val::Hole => String::from_str("[hole]"),
        };
        prefix.concat(body.as_str()).concat(suffix.as_str())
    }
}

/// A tree with each node's functions as a sequence.
pub enum AtomModel<N> {
    Num(Seq<Func>, N),
    Express(Seq<Func>, Box<AtomModel<N>>, Box<AtomModel<N>>, Operation),
    Hole(Seq<Func>),
}

pub open spec fn model<N>(a: Atom<N>) -> AtomModel<N>
    decreases a,
{
    match a.val {
        Val::Num(n) => AtomModel::Num(a.funcs@, n),
        Val::Express { left, right, op } => AtomModel::Express(
            a.funcs@,
            Box::new(model(*left)),
            Box::new(model(*right)),
            op,
        ),
        Val::Hole => AtomModel::Hole(a.funcs@),
    }
}

/// The model with `fs` as the root's functions.
pub open spec fn with_funcs<N>(m: AtomModel<N>, fs: Seq<Func>) -> AtomModel<N> {
    match m {
        AtomModel::Num(_, n) => AtomModel::Num(fs, n),
        AtomModel::Express(_, l, r, op) => AtomModel::Express(fs, l, r, op),
        AtomModel::Hole(_) => AtomModel::Hole(fs),
    }
}

/// Joining two sub-expressions by an operation and by its mirror, with the
/// operands exchanged, display the same text: a shape that fixes the order of
/// two operands still shows, and evaluates, both orders of every
/// non-commutative operation.
pub proof fn lemma_mirrored_display(l: Atom<String>, r: Atom<String>, op: Operation, a: Atom<String>, b: Atom<String>)
    requires
        a.funcs@ == b.funcs@,
        a.val == (Val::Express { left: Box::new(l), right: Box::new(r), op }),
        b.val == (Val::Express { left: Box::new(r), right: Box::new(l), op: op.mirrored() }),
        op != Operation::Add,
        op != Operation::Multiply,
    ensures
        render_spec(a) == render_spec(b),
{
}

/// The functions at the root of a model.
pub open spec fn funcs_of<N>(m: AtomModel<N>) -> Seq<Func> {
    match m {
        AtomModel::Num(fs, _) => fs,
        AtomModel::Express(fs, _, _, _) => fs,
        AtomModel::Hole(fs) => fs,
    }
}

/// The model with every hole replaced by `sub`, `sub`'s functions applying
/// before the hole's own.
pub open spec fn fill_model<N>(m: AtomModel<N>, sub: AtomModel<N>) -> AtomModel<N>
    decreases m,
{
    match m {
        AtomModel::Hole(fs) => with_funcs(sub, funcs_of(sub) + fs),
        AtomModel::Num(_, _) => m,
        AtomModel::Express(fs, l, r, op) => AtomModel::Express(
            fs,
            Box::new(fill_model(*l, sub)),
            Box::new(fill_model(*r, sub)),
            op,
        ),
    }
}

/// Whether every hole of the model, with `extra` more functions, stays within
/// a list's capacity.
pub open spec fn holes_fit_model<N>(m: AtomModel<N>, extra: nat) -> bool
    decreases m,
{
    match m {
        AtomModel::Hole(fs) => fs.len() + extra <= MAX_FUNCS,
        AtomModel::Num(_, _) => true,
        AtomModel::Express(_, l, r, _) => holes_fit_model(*l, extra) && holes_fit_model(*r, extra),
    }
}

pub proof fn lemma_filled_model<N>(r: Atom<N>, a: Atom<N>, sub: Atom<N>)
    requires
        is_filled(r, a, sub),
    ensures
        model(r) == fill_model(model(a), model(sub)),
    decreases a,
{
    match a.val {
        Val::Express { left, right, .. } => {
            if let Val::Express { left: rl, right: rr, .. } = r.val {
                lemma_filled_model(*rl, *left, sub);
                lemma_filled_model(*rr, *right, sub);
            }
        },
        _ => {},
    }
}

pub proof fn lemma_holes_fit_model<N>(a: Atom<N>, extra: nat)
    ensures
        holes_fit(a, extra) == holes_fit_model(model(a), extra),
    decreases a,
{
    if let Val::Express { left, right, .. } = a.val {
        lemma_holes_fit_model(*left, extra);
        lemma_holes_fit_model(*right, extra);
    }
}

impl<N> Atom<N> {
    /// Whether every hole, with `extra` more functions, stays within a list's
    /// capacity.
    pub fn holes_fit_exec(&self, extra: usize) -> (r: bool)
        ensures
            r == holes_fit(*self, extra as nat),
        decreases *self,
    {
        match &self.val {
            Val::Hole => extra <= MAX_FUNCS && self.funcs.len() <= MAX_FUNCS - extra,
            Val::Num(_) => true,
            Val::Express { left, right, .. } => left.holes_fit_exec(extra) && right.holes_fit_exec(extra),
        }
    }
}

/// How many number leaves the tree has.
pub open spec fn leaf_count<N>(a: Atom<N>) -> nat
    decreases a,
{
    match a.val {
        Val::Express { left, right, .. } => leaf_count(*left) + leaf_count(*right),
        _ => 1,
    }
}

/// How many of the tree's functions count toward its score, node by node.
pub open spec fn counted_tree_funcs<N>(a: Atom<N>) -> nat
    decreases a,
{
    counted_funcs(a.funcs@, 0) + match a.val {
        Val::Express { left, right, .. } => counted_tree_funcs(*left) + counted_tree_funcs(*right),
        _ => 0,
    }
}

/// How many of the tree's operations are powers (`root == false`) or roots.
pub open spec fn op_count<N>(a: Atom<N>, root: bool) -> nat
    decreases a,
{
    match a.val {
        Val::Express { left, right, op } => (if (root && (op == Operation::Root || op
            == Operation::RootSwitch)) || (!root && (op == Operation::Power || op
            == Operation::PowerSwitch)) {
            1nat
        } else {
            0nat
        }) + op_count(*left, root) + op_count(*right, root),
        _ => 0,
    }
}

impl<N> Atom<N> {
    fn score_parts(&self) -> (r: Option<(u8, u8, u8, u8)>)
        ensures
            r matches Some((n, f, p, q)) ==> n == leaf_count(*self) && f == counted_tree_funcs(*self)
                && p == op_count(*self, false) && q == op_count(*self, true),
            r is None ==> leaf_count(*self) > u8::MAX || counted_tree_funcs(*self) > u8::MAX
                || op_count(*self, false) > u8::MAX || op_count(*self, true) > u8::MAX,
        decreases *self,
    {
        let own_len = self.funcs.len();
        assert(own_len <= MAX_FUNCS);
        let own = Score {
            nums: 0,
            pending_funcs: PendingFuncScore { func_list: self.funcs },
            funcs: 0,
            power_ops: 0,
            root_ops: 0,
        }.resolve();
        proof {
            lemma_counted_funcs_bound(self.funcs@, 0);
        }
        match &self.val {
            Val::Express { left, right, op } => {
                let (ln, lf, lp, lq) = match left.score_parts() {
                    Some(t) => t,
                    None => {
                        return None;
                    },
                };
                let (rn, rf, rp, rq) = match right.score_parts() {
                    Some(t) => t,
                    None => {
                        return None;
                    },
                };
                let p: u8 = if *op == Operation::Power || *op == Operation::PowerSwitch {
                    1
                } else {
                    0
                };
                let q: u8 = if *op == Operation::Root || *op == Operation::RootSwitch {
                    1
                } else {
                    0
                };
                if ln as u16 + rn as u16 > 255 || own.funcs as u16 + lf as u16 + rf as u16 > 255
                    || p as u16 + lp as u16 + rp as u16 > 255 || q as u16 + lq as u16 + rq as u16
                    > 255 {
                    return None;
                }
                Some((ln + rn, own.funcs + lf + rf, p + lp + rp, q + lq + rq))
            },
            _ => Some((1, own.funcs, 0, 0)),
        }
    }

    /// The score of the whole expression: its numbers, its power and root
    /// operations, and its functions (a run of square roots counting at most
    /// four). `None` where a part does not fit the score's counters.
    pub fn get_score(&self) -> (r: Option<Score>)
        ensures
            r matches Some(s) ==> s.nums == leaf_count(*self) && s.funcs == counted_tree_funcs(*self)
                && s.power_ops == op_count(*self, false) && s.root_ops == op_count(*self, true)
                && s.pending() == Seq::<Func>::empty(),
            r is None <==> leaf_count(*self) > u8::MAX || counted_tree_funcs(*self) > u8::MAX
                || op_count(*self, false) > u8::MAX || op_count(*self, true) > u8::MAX,
    {
        match self.score_parts() {
            Some((n, f, p, q)) => Some(Score {
                nums: n,
                pending_funcs: PendingFuncScore { func_list: FuncList::new() },
                funcs: f,
                power_ops: p,
                root_ops: q,
            }),
            None => None,
        }
    }
}

proof fn lemma_model_with_funcs<N>(a: Atom<N>, b: Atom<N>)
    requires
        a.val == b.val,
    ensures
        model(b) == with_funcs(model(a), b.funcs@),
        funcs_of(model(a)) == a.funcs@,
{
}

/// `fs` with `n` square roots added as the outermost functions.
fn with_square_roots(fs: &FuncList, n: usize) -> (r: FuncList)
    requires
        fs@.len() + n <= MAX_FUNCS,
    ensures
        r@ == fs@ + repeat_func(Func::SquareRoot, n as nat),
{
    let mut r = *fs;
    let mut t: usize = 0;
    while t < n
        invariant
            0 <= t <= n,
            fs@.len() + n <= MAX_FUNCS,
            r@ == fs@ + repeat_func(Func::SquareRoot, t as nat),
        decreases n - t,
    {
        r.push(Func::SquareRoot);
        t = t + 1;
        assert(r@ =~= fs@ + repeat_func(Func::SquareRoot, t as nat));
    }
    r
}

/// The expression the square-root pass builds: `inner` with `inner_sqrt`
/// square roots more, raised to the power `power`, with `outer_sqrt` square
/// roots on the power, spliced into every hole of `shell`.
pub open spec fn square_assembly_spec<N>(
    shell: AtomModel<N>,
    inner: AtomModel<N>,
    power: AtomModel<N>,
    inner_sqrt: nat,
    outer_sqrt: nat,
) -> AtomModel<N> {
    fill_model(
        shell,
        AtomModel::Express(
            repeat_func(Func::SquareRoot, outer_sqrt),
            Box::new(with_funcs(inner, funcs_of(inner) + repeat_func(Func::SquareRoot, inner_sqrt))),
            Box::new(power),
            Operation::Power,
        ),
    )
}

/// Builds the square-root pass's expression from the shell left by a split,
/// the extracted inner expression, a power expression and the two counts of
/// square roots. `None` when the square roots do not fit a function list.
pub fn square_assembly<N: Copy>(
    shell: &Atom<N>,
    inner: &Atom<N>,
    power: Atom<N>,
    inner_sqrt: usize,
    outer_sqrt: usize,
) -> (r: Option<Atom<N>>)
    ensures
        r matches Some(a) ==> model(a) == square_assembly_spec(
            model(*shell),
            model(*inner),
            model(power),
            inner_sqrt as nat,
            outer_sqrt as nat,
        ),
        r is None <==> (inner.funcs@.len() + inner_sqrt > MAX_FUNCS || outer_sqrt > MAX_FUNCS
            || !holes_fit_model(model(*shell), outer_sqrt as nat)),
{
    let inner_len = inner.funcs.len();
    if inner_sqrt > MAX_FUNCS - inner_len || outer_sqrt > MAX_FUNCS {
        return None;
    }
    let mut base = inner.duplicate();
    base.funcs = with_square_roots(&inner.funcs, inner_sqrt);
    proof {
        lemma_model_with_funcs(*inner, base);
    }
    let ghost b = base;
    let ghost p = power;
    let mut raised = Atom::new_express(base, power, Operation::Power);
    raised.funcs = with_square_roots(&FuncList::new(), outer_sqrt);
    assert(Seq::<Func>::empty() + repeat_func(Func::SquareRoot, outer_sqrt as nat) =~= repeat_func(
        Func::SquareRoot,
        outer_sqrt as nat,
    ));
    assert(model(raised) == AtomModel::Express(
        repeat_func(Func::SquareRoot, outer_sqrt as nat),
        Box::new(model(b)),
        Box::new(model(p)),
        Operation::Power,
    ));
    proof {
        lemma_holes_fit_model(*shell, outer_sqrt as nat);
    }
    if !shell.holes_fit_exec(outer_sqrt) {
        return None;
    }
    let mut atom = shell.duplicate();
    let ghost before = atom;
    let ghost sub = raised;
    atom.fill_hole(raised);
    proof {
        lemma_filled_model(atom, before, sub);
    }
    Some(atom)
}

} // verus!
