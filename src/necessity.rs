//! The function lists an expression node could have with functions removed.
//! Removing functions from a run of equal stacked functions only matters by
//! how many stay, so each run is cut to every length from none to all.
use vstd::prelude::*;
use crate::func::Func;
use crate::func_list::{FuncList, MAX_FUNCS};

verus! {

/// The runs of equal functions in `fs`, first to last, with their lengths.
pub open spec fn runs_of(fs: Seq<Func>) -> Seq<(Func, nat)>
    decreases fs.len(),
{
    if fs.len() == 0 {
        Seq::empty()
    } else {
        let r = runs_of(fs.drop_first());
        if r.len() > 0 && r[0].0 == fs[0] {
            r.update(0, (fs[0], r[0].1 + 1))
        } else {
            seq![(fs[0], 1nat)] + r
        }
    }
}

/// `n` copies of `f`.
pub open spec fn repeat_func(f: Func, n: nat) -> Seq<Func> {
    Seq::new(n, |i: int| f)
}

/// Each of `rest` after `c` copies of `f`.
pub open spec fn prefixed(f: Func, c: nat, rest: Seq<Seq<Func>>) -> Seq<Seq<Func>> {
    rest.map_values(|x: Seq<Func>| repeat_func(f, c) + x)
}

/// Each of `rest` after none, one, ..., `c` copies of `f`, in that order.
pub open spec fn picks_upto(f: Func, c: int, rest: Seq<Seq<Func>>) -> Seq<Seq<Func>>
    decreases c + 1,
{
    if c < 0 {
        Seq::empty()
    } else {
        picks_upto(f, c - 1, rest) + prefixed(f, c as nat, rest)
    }
}

/// Every way to keep, of each run in turn, some of its functions: the count
/// kept from the first run varies slowest.
pub open spec fn run_picks(runs: Seq<(Func, nat)>) -> Seq<Seq<Func>>
    decreases runs.len(),
{
    if runs.len() == 0 {
        seq![Seq::empty()]
    } else {
        picks_upto(runs[0].0, runs[0].1 as int, run_picks(runs.drop_first()))
    }
}

/// `sub` is `fs` with some functions left out.
pub open spec fn is_subsequence(sub: Seq<Func>, fs: Seq<Func>) -> bool
    decreases fs.len(),
{
    if fs.len() == 0 {
        sub.len() == 0
    } else {
        is_subsequence(sub, fs.drop_first()) || (sub.len() > 0 && sub[0] == fs[0]
            && is_subsequence(sub.drop_first(), fs.drop_first()))
    }
}

proof fn lemma_picks_upto_member(f: Func, c: int, rest: Seq<Seq<Func>>, k: nat, y: Seq<Func>)
    requires
        k <= c,
        rest.contains(y),
    ensures
        picks_upto(f, c, rest).contains(repeat_func(f, k) + y),
    decreases c + 1,
{
    let j = choose|j: int| 0 <= j < rest.len() && rest[j] == y;
    if k == c {
        let p = picks_upto(f, c - 1, rest);
        assert(picks_upto(f, c, rest)[p.len() + j] == repeat_func(f, k) + y);
    } else {
        lemma_picks_upto_member(f, c - 1, rest, k, y);
        let p = picks_upto(f, c - 1, rest);
        let i = choose|i: int| 0 <= i < p.len() && p[i] == repeat_func(f, k) + y;
        assert(picks_upto(f, c, rest)[i] == repeat_func(f, k) + y);
    }
}

proof fn lemma_picks_upto_split(f: Func, c: int, rest: Seq<Seq<Func>>, x: Seq<Func>)
    requires
        picks_upto(f, c, rest).contains(x),
    ensures
        exists|k: nat, y: Seq<Func>| k <= c && rest.contains(y) && x == repeat_func(f, k) + y,
    decreases c + 1,
{
    if c >= 0 {
        let p = picks_upto(f, c - 1, rest);
        let i = choose|i: int| 0 <= i < picks_upto(f, c, rest).len() && picks_upto(f, c, rest)[i] == x;
        if i < p.len() {
            assert(p[i] == x);
            lemma_picks_upto_split(f, c - 1, rest, x);
        } else {
            let y = rest[i - p.len()];
            assert(rest.contains(y));
            assert(x == repeat_func(f, c as nat) + y);
        }
    }
}

proof fn lemma_repeat_one_more(f: Func, k: nat, y: Seq<Func>)
    ensures
        seq![f] + (repeat_func(f, k) + y) == repeat_func(f, k + 1) + y,
{
    assert(seq![f] + (repeat_func(f, k) + y) =~= repeat_func(f, k + 1) + y);
}

/// Every way of leaving functions out of `fs` is among the cut runs: keeping
/// each run of equal functions to some length reaches any selection of the
/// functions, so checking the cut runs checks every removal.
pub proof fn lemma_picks_cover_subsequences(fs: Seq<Func>, sub: Seq<Func>)
    requires
        is_subsequence(sub, fs),
    ensures
        run_picks(runs_of(fs)).contains(sub),
    decreases fs.len(),
{
    if fs.len() == 0 {
        assert(sub =~= Seq::<Func>::empty());
        assert(run_picks(runs_of(fs))[0] == sub);
    } else {
        let f = fs[0];
        let rest = fs.drop_first();
        let r = runs_of(rest);
        let leaves_first = is_subsequence(sub, rest);
        let target = if leaves_first {
            sub
        } else {
            sub.drop_first()
        };
        lemma_picks_cover_subsequences(rest, target);
        if !leaves_first {
            assert(sub == seq![f] + target) by {
                assert(sub =~= seq![sub[0]] + sub.drop_first());
            }
        }
        if r.len() > 0 && r[0].0 == f {
            let tail = run_picks(r.drop_first());
            let runs = runs_of(fs);
            assert(runs.drop_first() =~= r.drop_first());
            assert(run_picks(r) == picks_upto(f, r[0].1 as int, tail));
            assert(run_picks(runs) == picks_upto(f, (r[0].1 + 1) as int, tail));
            lemma_picks_upto_split(f, r[0].1 as int, tail, target);
            let (k, y) = choose|k: nat, y: Seq<Func>|
                k <= r[0].1 && tail.contains(y) && target == repeat_func(f, k) + y;
            if leaves_first {
                lemma_picks_upto_member(f, (r[0].1 + 1) as int, tail, k, y);
            } else {
                lemma_repeat_one_more(f, k, y);
                lemma_picks_upto_member(f, (r[0].1 + 1) as int, tail, (k + 1) as nat, y);
            }
        } else {
            let runs = runs_of(fs);
            assert(runs.drop_first() =~= r);
            let p = run_picks(r);
            assert(run_picks(runs) == picks_upto(f, 1, p));
            if leaves_first {
                assert(repeat_func(f, 0) + sub =~= sub);
                lemma_picks_upto_member(f, 1, p, 0, sub);
            } else {
                assert(repeat_func(f, 1) + target =~= seq![f] + target);
                lemma_picks_upto_member(f, 1, p, 1, target);
            }
        }
    }
}

proof fn lemma_picks_upto_last(f: Func, c: int, rest: Seq<Seq<Func>>)
    requires
        c >= 0,
        rest.len() > 0,
    ensures
        picks_upto(f, c, rest).len() >= rest.len(),
        picks_upto(f, c, rest).last() == repeat_func(f, c as nat) + rest.last(),
{
    assert(picks_upto(f, c, rest) == picks_upto(f, c - 1, rest) + prefixed(f, c as nat, rest));
}

proof fn lemma_run_picks_nonempty(runs: Seq<(Func, nat)>)
    ensures
        run_picks(runs).len() > 0,
    decreases runs.len(),
{
    if runs.len() > 0 {
        lemma_run_picks_nonempty(runs.drop_first());
        lemma_picks_upto_last(runs[0].0, runs[0].1 as int, run_picks(runs.drop_first()));
    }
}

/// Cutting no run at all is the last of the cut lists: it is the list itself.
pub proof fn lemma_last_pick_is_whole(fs: Seq<Func>)
    ensures
        run_picks(runs_of(fs)).len() > 0,
        run_picks(runs_of(fs)).last() == fs,
    decreases fs.len(),
{
    lemma_run_picks_nonempty(runs_of(fs));
    if fs.len() == 0 {
        assert(run_picks(runs_of(fs)).last() =~= fs);
    } else {
        let f = fs[0];
        let rest = fs.drop_first();
        let r = runs_of(rest);
        lemma_last_pick_is_whole(rest);
        let runs = runs_of(fs);
        if r.len() > 0 && r[0].0 == f {
            let tail = run_picks(r.drop_first());
            lemma_run_picks_nonempty(r.drop_first());
            assert(runs.drop_first() =~= r.drop_first());
            lemma_picks_upto_last(f, r[0].1 as int, tail);
            lemma_picks_upto_last(f, (r[0].1 + 1) as int, tail);
            lemma_repeat_one_more(f, r[0].1, tail.last());
            assert(fs =~= seq![f] + rest);
        } else {
            assert(runs.drop_first() =~= r);
            lemma_run_picks_nonempty(r);
            lemma_picks_upto_last(f, 1, run_picks(r));
            assert(repeat_func(f, 1) + rest =~= fs);
        }
    }
}

/// How many functions the runs hold together.
pub open spec fn total(runs: Seq<(Func, nat)>) -> nat
    decreases runs.len(),
{
    if runs.len() == 0 {
        0
    } else {
        runs[0].1 + total(runs.drop_first())
    }
}

pub open spec fn runs_view(v: Seq<(Func, usize)>) -> Seq<(Func, nat)> {
    v.map_values(|p: (Func, usize)| (p.0, p.1 as nat))
}

pub open spec fn lists_view(v: Seq<FuncList>) -> Seq<Seq<Func>> {
    v.map_values(|l: FuncList| l@)
}

proof fn lemma_total_runs(fs: Seq<Func>)
    ensures
        total(runs_of(fs)) == fs.len(),
        forall|k: int| 0 <= k < runs_of(fs).len() ==> (#[trigger] runs_of(fs)[k]).1 >= 1,
    decreases fs.len(),
{
    if fs.len() > 0 {
        let r = runs_of(fs.drop_first());
        lemma_total_runs(fs.drop_first());
        if r.len() > 0 && r[0].0 == fs[0] {
            assert(runs_of(fs).drop_first() =~= r.drop_first());
        } else {
            assert(runs_of(fs).drop_first() =~= r);
        }
    }
}

proof fn lemma_total_skip(runs: Seq<(Func, nat)>, r: int)
    requires
        0 <= r <= runs.len(),
    ensures
        total(runs.skip(r)) <= total(runs),
        r > 0 ==> total(runs.skip(r - 1)) == runs[r - 1].1 + total(runs.skip(r)),
    decreases r,
{
    if r > 0 {
        assert(runs.skip(r - 1).drop_first() =~= runs.skip(r));
        lemma_total_skip(runs, r - 1);
    } else {
        assert(runs.skip(0) =~= runs);
    }
}

proof fn lemma_picks_len(runs: Seq<(Func, nat)>, x: Seq<Func>)
    requires
        run_picks(runs).contains(x),
    ensures
        x.len() <= total(runs),
    decreases runs.len(),
{
    if runs.len() == 0 {
        let i = choose|i: int| 0 <= i < run_picks(runs).len() && run_picks(runs)[i] == x;
        assert(x.len() == 0);
    } else {
        let tail = run_picks(runs.drop_first());
        lemma_picks_upto_split(runs[0].0, runs[0].1 as int, tail, x);
        let (k, y) = choose|k: nat, y: Seq<Func>|
            k <= runs[0].1 && tail.contains(y) && x == repeat_func(runs[0].0, k) + y;
        lemma_picks_len(runs.drop_first(), y);
    }
}

/// The runs of equal functions in `fs`, first to last, with their lengths.
pub fn func_runs(fs: &FuncList) -> (r: Vec<(Func, usize)>)
    ensures
        runs_view(r@) == runs_of(fs@),
{
    let n = fs.len();
    let mut rev: Vec<(Func, usize)> = Vec::new();
    let mut i: usize = n;
    assert(fs@.skip(n as int) =~= Seq::<Func>::empty());
    while i > 0
        invariant
            n == fs@.len(),
            n <= MAX_FUNCS,
            0 <= i <= n,
            runs_view(rev@).reverse() == runs_of(fs@.skip(i as int)),
            forall|k: int| 0 <= k < rev@.len() ==> (#[trigger] rev@[k]).1 <= n - i,
        decreases i,
    {
        let f = fs.get(i - 1);
        let ghost before = rev@;
        let ghost suffix = fs@.skip(i as int);
        assert(fs@.skip(i - 1).drop_first() =~= suffix);
        assert(fs@.skip(i - 1)[0] == f);
        let last = rev.len();
        if last > 0 && rev[last - 1].0 == f {
            let count = rev[last - 1].1;
            rev.set(last - 1, (f, count + 1));
            assert(runs_view(rev@).reverse() =~= runs_of(suffix).update(0, (f, (count + 1) as nat)));
        } else {
            rev.push((f, 1));
            assert(runs_view(rev@).reverse() =~= seq![(f, 1nat)] + runs_of(suffix));
        }
        i = i - 1;
    }
    assert(fs@.skip(0) =~= fs@);
    let mut runs: Vec<(Func, usize)> = Vec::new();
    let mut k: usize = rev.len();
    while k > 0
        invariant
            0 <= k <= rev@.len(),
            runs@.len() == rev@.len() - k,
            forall|t: int| 0 <= t < runs@.len() ==> runs@[t] == rev@[rev@.len() - 1 - t],
        decreases k,
    {
        k = k - 1;
        runs.push(rev[k]);
    }
    assert(runs_view(runs@) =~= runs_view(rev@).reverse());
    runs
}

/// Every list of functions that cutting each run of `fs` to some length gives,
/// the count kept from the first run varying slowest; the last is `fs` itself.
pub fn truncations(fs: &FuncList) -> (r: Vec<FuncList>)
    ensures
        lists_view(r@) == run_picks(runs_of(fs@)),
{
    let runs = func_runs(fs);
    let ghost rs = runs_of(fs@);
    proof {
        lemma_total_runs(fs@);
    }
    let total_len = fs.len();
    let mut acc: Vec<FuncList> = vec![FuncList::new()];
    assert(lists_view(acc@) =~= run_picks(rs.skip(runs@.len() as int)));
    let mut r: usize = runs.len();
    while r > 0
        invariant
            runs_view(runs@) == rs,
            total(rs) == total_len,
            total_len <= MAX_FUNCS,
            0 <= r <= rs.len(),
            lists_view(acc@) == run_picks(rs.skip(r as int)),
        decreases r,
    {
        let (f, n) = runs[r - 1];
        let ghost p = run_picks(rs.skip(r as int));
        proof {
            lemma_total_skip(rs, r as int);
            lemma_total_skip(rs, r - 1);
            assert(rs.skip(r - 1).drop_first() =~= rs.skip(r as int));
            assert(rs.skip(r - 1)[0] == (f, n as nat));
        }
        let mut next: Vec<FuncList> = Vec::new();
        let mut c: usize = 0;
        while c <= n
            invariant
                runs_view(runs@) == rs,
                0 < r <= rs.len(),
                rs[r - 1] == (f, n as nat),
                lists_view(acc@) == p,
                p == run_picks(rs.skip(r as int)),
                n + total(rs.skip(r as int)) <= total_len,
                total_len <= MAX_FUNCS,
                0 <= c <= n + 1,
                lists_view(next@) == picks_upto(f, c - 1, p),
            decreases n + 1 - c,
        {
            let ghost base = next@;
            let mut j: usize = 0;
            while j < acc.len()
                invariant
                    lists_view(acc@) == p,
                    p == run_picks(rs.skip(r as int)),
                    n + total(rs.skip(r as int)) <= total_len,
                    total_len <= MAX_FUNCS,
                    c <= n,
                    0 <= j <= acc@.len(),
                    lists_view(next@) == picks_upto(f, c - 1, p) + prefixed(f, c as nat, p).take(j as int),
                decreases acc@.len() - j,
            {
                let x = &acc[j];
                assert(p[j as int] == x@);
                proof {
                    assert(p.contains(x@));
                    lemma_picks_len(rs.skip(r as int), x@);
                }
                let mut list = FuncList::new();
                let mut t: usize = 0;
                while t < c
                    invariant
                        0 <= t <= c,
                        c <= MAX_FUNCS,
                        list@ == repeat_func(f, t as nat),
                    decreases c - t,
                {
                    list.push(f);
                    t = t + 1;
                    assert(list@ =~= repeat_func(f, t as nat));
                }
                let joined = list.join(x);
                assert(joined@ == prefixed(f, c as nat, p)[j as int]);
                let ghost old_next = lists_view(next@);
                next.push(joined);
                assert(lists_view(next@) =~= old_next.push(joined@));
                assert(prefixed(f, c as nat, p).take(j + 1) =~= prefixed(f, c as nat, p).take(j as int).push(joined@));
                j = j + 1;
                assert(lists_view(next@) =~= picks_upto(f, c - 1, p) + prefixed(f, c as nat, p).take(j as int));
            }
            assert(prefixed(f, c as nat, p).take(j as int) =~= prefixed(f, c as nat, p));
            c = c + 1;
        }
        acc = next;
        r = r - 1;
        assert(run_picks(rs.skip(r as int)) == picks_upto(f, n as int, p));
    }
    assert(rs.skip(0) =~= rs);
    acc
}

} // verus!
