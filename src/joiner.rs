//! The meet-in-the-middle join: the two halves of each tree shape, the
//! permutations of the numbers worth trying on a shape, and the running score
//! floor that decides which joined expressions are reported.
use vstd::prelude::*;
use itertools::Itertools;
use crate::tree::{Arena, Kind, Link, Node, Path, Val, num_leaf_ids, parse_template, fixed_pairs_apart, all_num_side, goal_leaf_count};
use crate::atom::{Atom, AtomModel, model, fill_model, funcs_of, with_funcs, holes_fit_model, lemma_filled_model, lemma_holes_fit_model};
use crate::shapes::{tree_shapes, shape_count, shape_templates};

verus! {

/// Numbers a full puzzle gives; a shape that uses them all earns a bonus point.
pub const ALL_NUMS: usize = 5;

/// Most numbers whose orderings are enumerated at once.
pub const MAX_PERM_LEN: usize = 8;

/// The score a shape over `n` numbers starts from: one point per number, and
/// one more when it uses all of them.
pub open spec fn base_score_of(n: nat) -> nat {
    if n == ALL_NUMS {
        n + 1
    } else {
        n
    }
}

/// One tree shape split into the half built up from numbers and the half
/// worked back from the goal.
pub struct Joiner {
    pub up: Arena,
    pub down: Arena,
    pub base_score: u32,
}

impl Joiner {
    pub open spec fn wf(&self) -> bool {
        &&& self.up.wf()
        &&& self.down.wf()
        &&& self.base_score == base_score_of(
            num_leaf_ids(self.up.nodes_view()).len() + num_leaf_ids(self.down.nodes_view()).len(),
        )
    }

    /// Builds the joiner of a shape from its two templates; `None` when either
    /// template is malformed or the shape is too large to score.
    pub fn from_strings(up: &str, down: &str) -> (r: Option<Joiner>)
        ensures
            r matches Some(j) ==> j.wf() && parse_template(up@) == Some(j.up.nodes_view())
                && parse_template(down@) == Some(j.down.nodes_view()),
            r is None <==> match (parse_template(up@), parse_template(down@)) {
                (Some(u), Some(d)) => num_leaf_ids(u).len() >= u32::MAX / 2 || num_leaf_ids(d).len()
                    >= u32::MAX / 2,
                _ => true,
            },
    {
        let up = match Arena::from_string(up) {
            Some(a) => a,
            None => {
                return None;
            },
        };
        let down = match Arena::from_string(down) {
            Some(a) => a,
            None => {
                return None;
            },
        };
        let up_count = up.count_num_leaves();
        let down_count = down.count_num_leaves();
        if up_count >= u32::MAX as usize / 2 || down_count >= u32::MAX as usize / 2 {
            return None;
        }
        let mut base_score = (up_count + down_count) as u32;
        if base_score == ALL_NUMS as u32 {
            base_score = base_score + 1;
        }
        Some(Joiner { up, down, base_score })
    }
}

/// The shape given by templates `up` and `down` is usable for `num_count`
/// numbers: both parse, the number half has no goal-side node, the goal half
/// has exactly one goal leaf, and together they have a leaf per number.
pub open spec fn shape_ok(num_count: nat, up: Seq<char>, down: Seq<char>) -> bool {
    match (parse_template(up), parse_template(down)) {
        (Some(u), Some(d)) => {
            &&& all_num_side(u)
            &&& goal_leaf_count(d) == 1
            &&& num_leaf_ids(u).len() + num_leaf_ids(d).len() == num_count
        },
        _ => false,
    }
}

/// The joiners of the shapes for `num_count` numbers, one per shape in the
/// order the search tries them: joiner `i` is built from template pair `i`.
/// `None` when a shape's templates are not usable, which the fixed shapes never
/// are.
pub fn get_joiners(num_count: usize) -> (r: Option<Vec<Joiner>>)
    requires
        1 <= num_count <= ALL_NUMS,
    ensures
        r is None <==> exists|i: int|
            0 <= i < shape_count(num_count as nat) && !shape_ok(
                num_count as nat,
                #[trigger] shape_templates(num_count as nat)[i].0,
                shape_templates(num_count as nat)[i].1,
            ),
        r matches Some(v) ==> v@.len() == shape_count(num_count as nat) && forall|i: int|
            0 <= i < v@.len() ==> {
                let j = #[trigger] v@[i];
                &&& j.wf()
                &&& parse_template(shape_templates(num_count as nat)[i].0) == Some(j.up.nodes_view())
                &&& parse_template(shape_templates(num_count as nat)[i].1) == Some(j.down.nodes_view())
                &&& all_num_side(j.up.nodes_view())
                &&& goal_leaf_count(j.down.nodes_view()) == 1
                &&& num_leaf_ids(j.up.nodes_view()).len() + num_leaf_ids(j.down.nodes_view()).len()
                    == num_count
            },
{
    let shapes = tree_shapes(num_count);
    let ghost t = shape_templates(num_count as nat);
    let mut joiners: Vec<Joiner> = Vec::new();
    let mut i: usize = 0;
    while i < shapes.len()
        invariant
            1 <= num_count <= ALL_NUMS,
            t == shape_templates(num_count as nat),
            0 <= i <= shapes@.len(),
            shapes@.len() == t.len(),
            forall|k: int| 0 <= k < shapes@.len() ==> ((#[trigger] shapes@[k]).0@, shapes@[k].1@) == t[k],
            joiners@.len() == i,
            forall|k: int| 0 <= k < i ==> shape_ok(num_count as nat, #[trigger] t[k].0, t[k].1),
            forall|k: int|
                0 <= k < i ==> {
                    let j = #[trigger] joiners@[k];
                    &&& j.wf()
                    &&& parse_template(t[k].0) == Some(j.up.nodes_view())
                    &&& parse_template(t[k].1) == Some(j.down.nodes_view())
                    &&& all_num_side(j.up.nodes_view())
                    &&& goal_leaf_count(j.down.nodes_view()) == 1
                    &&& num_leaf_ids(j.up.nodes_view()).len() + num_leaf_ids(j.down.nodes_view()).len()
                        == num_count
                },
        decreases shapes@.len() - i,
    {
        let (up, down) = shapes[i];
        assert((up@, down@) == t[i as int]);
        let j = match Joiner::from_strings(up, down) {
            Some(j) => j,
            None => {
                assert(!shape_ok(num_count as nat, t[i as int].0, t[i as int].1));
                return None;
            },
        };
        if !j.up.is_num_side() || j.down.count_goal_leaves() != 1 || j.up.count_num_leaves()
            + j.down.count_num_leaves() != num_count {
            assert(!shape_ok(num_count as nat, t[i as int].0, t[i as int].1));
            return None;
        }
        joiners.push(j);
        i = i + 1;
    }
    Some(joiners)
}

/// `p` orders the positions `0..n`: each once.
pub open spec fn is_permutation(p: Seq<usize>, n: nat) -> bool {
    &&& p.len() == n
    &&& forall|i: int| 0 <= i < p.len() ==> p[i] < n
    &&& p.no_duplicates()
}

/// Relies on itertools' `permutations`: taking as many items as the iterator
/// holds, it yields every ordering of the positions `0..n`, each once.
#[verifier::external_body]
fn index_permutations(n: usize) -> (r: Vec<Vec<usize>>)
    requires
        1 <= n <= MAX_PERM_LEN,
    ensures
        forall|i: int| 0 <= i < r@.len() ==> is_permutation((#[trigger] r@[i])@, n as nat),
        forall|p: Seq<usize>|
            is_permutation(p, n as nat) ==> exists|i: int| 0 <= i < r@.len() && (#[trigger] r@[i])@
                == p,
        forall|i: int, j: int| 0 <= i < j < r@.len() ==> r@[i]@ != r@[j]@,
{
    (0..n).permutations(n).collect()
}

/// Whether permutation `p` of the numbers survives the symmetry filter: at
/// each position `i` that `perm_map` marks fixed (a left leaf whose sibling
/// leaf comes next), the number there must not rank above the number after it.
pub open spec fn keeps(p: Seq<usize>, ranks: Seq<usize>, perm_map: Seq<bool>) -> bool {
    forall|i: int|
        0 <= i < p.len() - 1 && i < perm_map.len() ==> perm_map[i] || ranks[p[i] as int]
            <= ranks[p[i + 1] as int]
}

/// Where position `i` of `p` takes its number from when each fixed pair that
/// the filter would drop is put in order: its partner in a swapped pair, or
/// itself.
pub open spec fn pair_partner(p: Seq<usize>, ranks: Seq<usize>, map: Seq<bool>, i: int) -> int {
    if 0 <= i < map.len() && !map[i] && i + 1 < p.len() && ranks[p[i] as int] > ranks[p[i + 1] as int] {
        i + 1
    } else if 1 <= i && i - 1 < map.len() && !map[i - 1] && i < p.len() && ranks[p[i - 1] as int]
        > ranks[p[i] as int] {
        i - 1
    } else {
        i
    }
}

/// `p` with every fixed pair put in order.
pub open spec fn sort_pairs(p: Seq<usize>, ranks: Seq<usize>, map: Seq<bool>) -> Seq<usize> {
    Seq::new(p.len(), |i: int| p[pair_partner(p, ranks, map, i)])
}

/// The filter loses no ordering up to sibling swaps: every permutation `p`
/// has a kept counterpart that differs from it only by exchanging the two
/// numbers of some fixed pairs of sibling leaves, and such an exchange is
/// undone by the mirrored operation (`lemma_mirror_closed`), so both reach
/// the same values.
pub proof fn lemma_filter_keeps_a_sibling_swap(p: Seq<usize>, ranks: Seq<usize>, map: Seq<bool>)
    requires
        is_permutation(p, ranks.len()),
        fixed_pairs_apart(map),
    ensures
        is_permutation(sort_pairs(p, ranks, map), ranks.len()),
        keeps(sort_pairs(p, ranks, map), ranks, map),
        forall|i: int|
            0 <= i < p.len() ==> {
                let j = #[trigger] pair_partner(p, ranks, map, i);
                ||| j == i
                ||| j == i + 1 && !map[i]
                ||| j == i - 1 && !map[i - 1]
            },
{
    let q = sort_pairs(p, ranks, map);
    assert forall|i: int| 0 <= i < p.len() implies {
        let j = #[trigger] pair_partner(p, ranks, map, i);
        0 <= j < p.len() && pair_partner(p, ranks, map, j) == i
    } by {
        let j = pair_partner(p, ranks, map, i);
        if 0 <= i < map.len() && !map[i] && i + 1 < p.len() {
            assert(map[i + 1]);
        }
        if 1 <= i && i - 1 < map.len() && !map[i - 1] {
            assert(map[i]);
        }
    }
    assert(q.no_duplicates()) by {
        assert forall|a: int, b: int| 0 <= a < q.len() && 0 <= b < q.len() && a != b implies q[a] != q[b] by {
            let ja = pair_partner(p, ranks, map, a);
            let jb = pair_partner(p, ranks, map, b);
            assert(pair_partner(p, ranks, map, ja) == a);
            assert(pair_partner(p, ranks, map, jb) == b);
            assert(ja != jb);
        }
    }
    assert forall|i: int| 0 <= i < q.len() - 1 && i < map.len() implies map[i] || ranks[q[i] as int]
        <= ranks[q[i + 1] as int] by {
        if !map[i] {
            assert(map[i + 1]);
            if 1 <= i && i - 1 < map.len() && !map[i - 1] {
                assert(map[i]);
            }
        }
    }
}

/// Two permutation maps side by side keep their fixed pairs apart.
pub proof fn lemma_fixed_pairs_apart_concat(a: Seq<bool>, b: Seq<bool>)
    requires
        fixed_pairs_apart(a),
        fixed_pairs_apart(b),
    ensures
        fixed_pairs_apart(a + b),
{
    assert forall|k: int| 0 <= k < (a + b).len() && !#[trigger] (a + b)[k] implies k + 1 < (a + b).len()
        && (a + b)[k + 1] by {
        if k < a.len() {
            assert(!a[k]);
        } else {
            assert(!b[k - a.len()]);
        }
    }
}

fn keeps_exec(p: &Vec<usize>, ranks: &Vec<usize>, perm_map: &Vec<bool>) -> (r: bool)
    requires
        forall|i: int| 0 <= i < p@.len() ==> p@[i] < ranks@.len(),
    ensures
        r == keeps(p@, ranks@, perm_map@),
{
    let mut i: usize = 0;
    while i < p.len() && p.len() - i > 1 && i < perm_map.len()
        invariant
            forall|k: int| 0 <= k < p@.len() ==> p@[k] < ranks@.len(),
            forall|k: int|
                0 <= k < i && k < p@.len() - 1 && k < perm_map@.len() ==> perm_map@[k]
                    || ranks@[p@[k] as int] <= ranks@[p@[k + 1] as int],
            i <= p@.len(),
        decreases p@.len() - i,
    {
        if !perm_map[i] && !(ranks[p[i]] <= ranks[p[i + 1]]) {
            return false;
        }
        i = i + 1;
    }
    true
}

/// The orderings of the numbers worth trying on a shape, as positions into the
/// numbers. `ranks[k]` orders number `k` against the others (equal numbers,
/// equal ranks); `perm_map` is the two halves' permutation maps, up half first.
/// Every ordering that the filter keeps is returned once, and no other.
pub fn get_perms(ranks: &Vec<usize>, perm_map: &Vec<bool>) -> (r: Vec<Vec<usize>>)
    requires
        1 <= ranks@.len() <= MAX_PERM_LEN,
    ensures
        forall|i: int|
            0 <= i < r@.len() ==> is_permutation((#[trigger] r@[i])@, ranks@.len()) && keeps(
                r@[i]@,
                ranks@,
                perm_map@,
            ),
        forall|p: Seq<usize>|
            is_permutation(p, ranks@.len()) && keeps(p, ranks@, perm_map@) ==> exists|i: int|
                0 <= i < r@.len() && (#[trigger] r@[i])@ == p,
        forall|i: int, j: int| 0 <= i < j < r@.len() ==> r@[i]@ != r@[j]@,
{
    let all = index_permutations(ranks.len());
    let mut kept: Vec<Vec<usize>> = Vec::new();
    let ghost n = ranks@.len();
    let ghost mut origin: Seq<int> = Seq::empty();
    let mut i: usize = 0;
    while i < all.len()
        invariant
            n == ranks@.len(),
            0 <= i <= all@.len(),
            forall|k: int| 0 <= k < all@.len() ==> is_permutation((#[trigger] all@[k])@, n),
            forall|a: int, b: int| 0 <= a < b < all@.len() ==> all@[a]@ != all@[b]@,
            origin.len() == kept@.len(),
            forall|k: int| 0 <= k < origin.len() ==> 0 <= #[trigger] origin[k] < i,
            forall|k: int|
                0 <= k < kept@.len() ==> (#[trigger] kept@[k])@ == all@[origin[k]]@ && keeps(
                    kept@[k]@,
                    ranks@,
                    perm_map@,
                ),
            forall|a: int, b: int| 0 <= a < b < origin.len() ==> origin[a] < origin[b],
            forall|k: int|
                0 <= k < i && keeps((#[trigger] all@[k])@, ranks@, perm_map@) ==> exists|m: int|
                    0 <= m < kept@.len() && origin[m] == k,
        decreases all@.len() - i,
    {
        let p = &all[i];
        let ghost old_origin = origin;
        assert(is_permutation(all@[i as int]@, n));
        if keeps_exec(p, ranks, perm_map) {
            let c = p.clone();
            assert(c@ =~= p@);
            kept.push(c);
            proof {
                origin = origin.push(i as int);
            }
        }
        i = i + 1;
        assert forall|k: int|
            0 <= k < i && keeps((#[trigger] all@[k])@, ranks@, perm_map@) implies exists|m: int|
            0 <= m < kept@.len() && origin[m] == k by {
            if k < i - 1 {
                let m = choose|m: int| 0 <= m < old_origin.len() && old_origin[m] == k;
                assert(origin[m] == k);
            } else {
                assert(origin[origin.len() - 1] == k);
            }
        }
    }
    assert forall|p: Seq<usize>|
        is_permutation(p, ranks@.len()) && keeps(p, ranks@, perm_map@) implies exists|m: int|
        0 <= m < kept@.len() && (#[trigger] kept@[m])@ == p by {
        let k = choose|k: int| 0 <= k < all@.len() && (#[trigger] all@[k])@ == p;
        let m = choose|m: int| 0 <= m < kept@.len() && origin[m] == k;
        assert(kept@[m]@ == p);
    }
    kept
}

/// Which joined expressions are worth building: all of them, or only those
/// scoring above a floor that rises with each one reported.
#[derive(PartialEq, Eq, Structural, Clone, Copy, Debug)]
pub enum AtomFilter {
    All,
    MinScore(u32),
}

impl AtomFilter {
    pub open spec fn admits_spec(self, score: u32) -> bool {
        match self {
            AtomFilter::All => true,
            AtomFilter::MinScore(m) => score > m,
        }
    }

    pub open spec fn record_spec(self, score: u32) -> AtomFilter {
        match self {
            AtomFilter::All => AtomFilter::All,
            AtomFilter::MinScore(_) => AtomFilter::MinScore(score),
        }
    }

    /// Whether an expression of this score is worth building.
    pub fn admits(&self, score: u32) -> (r: bool)
        ensures
            r == self.admits_spec(score),
    {
        match self {
            AtomFilter::All => true,
            AtomFilter::MinScore(m) => score > *m,
        }
    }

    /// Offers a joined expression of `score` that did or did not pass the
    /// exact goal test. It is reported when the filter admits it and it passed;
    /// a reported score becomes the new floor.
    pub fn offer(&mut self, score: u32, passed: bool) -> (reported: bool)
        ensures
            reported == (old(self).admits_spec(score) && passed),
            *final(self) == if reported {
                old(self).record_spec(score)
            } else {
                *old(self)
            },
    {
        if !self.admits(score) || !passed {
            return false;
        }
        if let AtomFilter::MinScore(m) = self {
            *m = score;
        }
        true
    }
}

/// The scores reported when `offers` (score, passed the goal test) are made
/// one after another to a filter starting as `f`.
pub open spec fn reported_scores(f: AtomFilter, offers: Seq<(u32, bool)>) -> Seq<u32>
    decreases offers.len(),
{
    if offers.len() == 0 {
        Seq::empty()
    } else {
        let (score, passed) = offers[0];
        if f.admits_spec(score) && passed {
            seq![score] + reported_scores(f.record_spec(score), offers.drop_first())
        } else {
            reported_scores(f, offers.drop_first())
        }
    }
}

/// Under a score floor, the scores reported one after another strictly
/// increase, and each lies above the floor the search started from.
pub proof fn lemma_reported_scores_increase(floor: u32, offers: Seq<(u32, bool)>)
    ensures
        forall|i: int|
            0 <= i < reported_scores(AtomFilter::MinScore(floor), offers).len() ==> floor
                < #[trigger] reported_scores(AtomFilter::MinScore(floor), offers)[i],
        forall|i: int, j: int|
            0 <= i < j < reported_scores(AtomFilter::MinScore(floor), offers).len() ==> reported_scores(
                AtomFilter::MinScore(floor),
                offers,
            )[i] < reported_scores(AtomFilter::MinScore(floor), offers)[j],
    decreases offers.len(),
{
    if offers.len() > 0 {
        let (score, passed) = offers[0];
        let rest = offers.drop_first();
        let all = reported_scores(AtomFilter::MinScore(floor), offers);
        if score > floor && passed {
            lemma_reported_scores_increase(score, rest);
            let tail = reported_scores(AtomFilter::MinScore(score), rest);
            assert(all == seq![score] + tail);
            assert forall|i: int, j: int| 0 <= i < j < all.len() implies all[i] < all[j] by {
                if i == 0 {
                    assert(all[j] == tail[j - 1]);
                } else {
                    assert(all[i] == tail[i - 1]);
                    assert(all[j] == tail[j - 1]);
                }
            }
            assert forall|i: int| 0 <= i < all.len() implies floor < #[trigger] all[i] by {
                if i > 0 {
                    assert(all[i] == tail[i - 1]);
                }
            }
        } else {
            lemma_reported_scores_increase(floor, rest);
            assert(all == reported_scores(AtomFilter::MinScore(floor), rest));
        }
    }
}

/// The value lists of a shape's nodes, by node id.
pub open spec fn tables_view<N>(tables: Seq<&Vec<Val<N>>>) -> Seq<Seq<Val<N>>> {
    tables.map_values(|t: &Vec<Val<N>>| t@)
}

/// The expression a value of the number half stands for: a leaf's number, or
/// the operation on the two child values its path names, each with the
/// value's functions. `None` where a path does not fit the shape or the lists.
pub open spec fn up_atom<N>(v: Val<N>, id: int, nodes: Seq<Node>, tables: Seq<Seq<Val<N>>>) -> Option<
    AtomModel<N>,
>
    decreases nodes.len() - id,
{
    match v.path {
        Path::Leaf => Some(AtomModel::Num(v.funcs@, v.origin)),
        Path::Combine { op, left, right } => {
            if !(0 <= id < nodes.len()) {
                None
            } else {
                match nodes[id].link {
                    Link::Branch(l, r) => {
                        if id < l < nodes.len() && id < r < nodes.len() && l < tables.len() && r
                            < tables.len() && left < tables[l as int].len() && right < tables[r as int].len() {
                            match (
                                up_atom(tables[l as int][left as int], l as int, nodes, tables),
                                up_atom(tables[r as int][right as int], r as int, nodes, tables),
                            ) {
                                (Some(a), Some(b)) => Some(
                                    AtomModel::Express(v.funcs@, Box::new(a), Box::new(b), op),
                                ),
                                _ => None,
                            }
                        } else {
                            None
                        }
                    },
                    Link::Leaf => None,
                }
            }
        },
    }
}

/// The expression a value of the goal half stands for, read forward. The goal
/// half was solved backward from the goal, so the walk goes from the root (the
/// hole where the number half plugs in) down the goal side to the goal leaf:
/// at each step the number-side left child's expression and the expression so
/// far `acc` are joined by the parent's operation, and the child's functions
/// apply in reverse. `None` where the shape or a path does not allow it.
pub open spec fn down_atom<N>(
    v: Val<N>,
    n: int,
    nodes: Seq<Node>,
    tables: Seq<Seq<Val<N>>>,
    acc: AtomModel<N>,
) -> Option<AtomModel<N>>
    decreases nodes.len() - n,
{
    if !(0 <= n < nodes.len()) || nodes[n].kind != Kind::Goal {
        None
    } else {
        match nodes[n].link {
            Link::Leaf => Some(acc),
            Link::Branch(l, r) => match v.path {
                Path::Combine { op, left, right } => {
                    if n < l < nodes.len() && n < r < nodes.len() && l < tables.len() && r
                        < tables.len() && nodes[l as int].kind == Kind::Num && left < tables[l as int].len()
                        && right < tables[r as int].len() {
                        let vl = tables[l as int][left as int];
                        let vr = tables[r as int][right as int];
                        match up_atom(vl, l as int, nodes, tables) {
                            Some(sib) => down_atom(
                                vr,
                                r as int,
                                nodes,
                                tables,
                                AtomModel::Express(
                                    vr.funcs@.reverse(),
                                    Box::new(sib),
                                    Box::new(acc),
                                    op,
                                ),
                            ),
                            None => None,
                        }
                    } else {
                        None
                    }
                },
                Path::Leaf => None,
            },
        }
    }
}

/// How many holes a model has.
pub open spec fn hole_count<N>(m: AtomModel<N>) -> nat
    decreases m,
{
    match m {
        AtomModel::Hole(_) => 1,
        AtomModel::Num(_, _) => 0,
        AtomModel::Express(_, l, r, _) => hole_count(*l) + hole_count(*r),
    }
}

proof fn lemma_up_atom_no_holes<N>(v: Val<N>, id: int, nodes: Seq<Node>, tables: Seq<Seq<Val<N>>>)
    requires
        up_atom(v, id, nodes, tables) is Some,
    ensures
        hole_count(up_atom(v, id, nodes, tables)->0) == 0,
    decreases nodes.len() - id,
{
    if let Path::Combine { op, left, right } = v.path {
        if let Link::Branch(l, r) = nodes[id].link {
            lemma_up_atom_no_holes(tables[l as int][left as int], l as int, nodes, tables);
            lemma_up_atom_no_holes(tables[r as int][right as int], r as int, nodes, tables);
        }
    }
}

proof fn lemma_down_atom_holes<N>(
    v: Val<N>,
    n: int,
    nodes: Seq<Node>,
    tables: Seq<Seq<Val<N>>>,
    acc: AtomModel<N>,
)
    requires
        down_atom(v, n, nodes, tables, acc) is Some,
    ensures
        hole_count(down_atom(v, n, nodes, tables, acc)->0) == hole_count(acc),
    decreases nodes.len() - n,
{
    if let Link::Branch(l, r) = nodes[n].link {
        if let Path::Combine { op, left, right } = v.path {
            let vl = tables[l as int][left as int];
            let vr = tables[r as int][right as int];
            lemma_up_atom_no_holes(vl, l as int, nodes, tables);
            let sib = up_atom(vl, l as int, nodes, tables)->0;
            lemma_down_atom_holes(
                vr,
                r as int,
                nodes,
                tables,
                AtomModel::Express(vr.funcs@.reverse(), Box::new(sib), Box::new(acc), op),
            );
        }
    }
}

proof fn lemma_fill_model_holes<N>(m: AtomModel<N>, sub: AtomModel<N>)
    requires
        hole_count(sub) == 0,
    ensures
        hole_count(fill_model(m, sub)) == 0,
    decreases m,
{
    match m {
        AtomModel::Hole(fs) => {
            assert(hole_count(with_funcs(sub, funcs_of(sub) + fs)) == hole_count(sub));
        },
        AtomModel::Express(_, l, r, _) => {
            lemma_fill_model_holes(*l, sub);
            lemma_fill_model_holes(*r, sub);
        },
        _ => {},
    }
}

/// Rebuilds the expression of `val`, a value of node `id` of the number half.
pub fn val_to_atom<N: Copy>(val: &Val<N>, id: usize, arena: &Arena, tables: &Vec<&Vec<Val<N>>>) -> (r: Option<Atom<N>>)
    ensures
        match r {
            Some(a) => up_atom(*val, id as int, arena.nodes_view(), tables_view(tables@)) == Some(model(a))
                && hole_count(model(a)) == 0,
            None => up_atom(*val, id as int, arena.nodes_view(), tables_view(tables@)) is None,
        },
    decreases arena.nodes_view().len() - id,
{
    proof {
        if up_atom(*val, id as int, arena.nodes_view(), tables_view(tables@)) is Some {
            lemma_up_atom_no_holes(*val, id as int, arena.nodes_view(), tables_view(tables@));
        }
    }
    let ghost nodes = arena.nodes_view();
    let ghost tv = tables_view(tables@);
    let mut atom = match val.path {
        Path::Leaf => Atom::new(val.origin),
        Path::Combine { op, left, right } => {
            if id >= arena.len() {
                return None;
            }
            match arena.get(id).link {
                Link::Branch(l, r) => {
                    if !(id < l && l < arena.len() && id < r && r < arena.len() && l < tables.len()
                        && r < tables.len()) {
                        return None;
                    }
                    if left >= tables[l].len() || right >= tables[r].len() {
                        return None;
                    }
                    assert(tv[l as int] == tables@[l as int]@);
                    assert(tv[r as int] == tables@[r as int]@);
                    let la = match val_to_atom(&tables[l][left], l, arena, tables) {
                        Some(a) => a,
                        None => {
                            return None;
                        },
                    };
                    let ra = match val_to_atom(&tables[r][right], r, arena, tables) {
                        Some(a) => a,
                        None => {
                            return None;
                        },
                    };
                    Atom::new_express(la, ra, op)
                },
                Link::Leaf => {
                    return None;
                },
            }
        },
    };
    atom.funcs = val.funcs;
    Some(atom)
}

/// Rebuilds the expression of `val`, a value of node `id` (the root) of the
/// goal half, read forward, with a hole where the number half plugs in.
pub fn val_to_atom_rev<N: Copy>(val: &Val<N>, id: usize, arena: &Arena, tables: &Vec<&Vec<Val<N>>>) -> (r: Option<Atom<N>>)
    ensures
        match r {
            Some(a) => down_atom(*val, id as int, arena.nodes_view(), tables_view(tables@), AtomModel::Hole(val.funcs@.reverse())) == Some(model(a))
                && hole_count(model(a)) == 1,
            None => down_atom(*val, id as int, arena.nodes_view(), tables_view(tables@), AtomModel::Hole(val.funcs@.reverse())) is None,
        },
{
    let ghost nodes = arena.nodes_view();
    let ghost tv = tables_view(tables@);
    proof {
        let start = AtomModel::<N>::Hole(val.funcs@.reverse());
        if down_atom(*val, id as int, nodes, tv, start) is Some {
            lemma_down_atom_holes(*val, id as int, nodes, tv, start);
            assert(hole_count(start) == 1);
        }
    }
    let mut acc: Atom<N> = Atom::new_hole();
    acc.funcs = val.funcs.reverse();
    let mut v: Val<N> = *val;
    let mut n: usize = id;
    while n < arena.len()
        invariant
            nodes == arena.nodes_view(),
            tv == tables_view(tables@),
            down_atom(v, n as int, nodes, tv, model(acc)) == down_atom(*val, id as int, nodes, tv, AtomModel::Hole(val.funcs@.reverse())),
            down_atom(*val, id as int, nodes, tv, AtomModel::Hole(val.funcs@.reverse())) is Some ==> hole_count(
                down_atom(*val, id as int, nodes, tv, AtomModel::Hole(val.funcs@.reverse()))->0,
            ) == 1,
        decreases nodes.len() - n,
    {
        let node = arena.get(n);
        if node.kind != Kind::Goal {
            return None;
        }
        match node.link {
            Link::Leaf => {
                return Some(acc);
            },
            Link::Branch(l, r) => {
                if !(n < l && l < arena.len() && n < r && r < arena.len() && l < tables.len()
                    && r < tables.len()) {
                    return None;
                }
                if arena.get(l).kind != Kind::Num {
                    return None;
                }
                match v.path {
                    Path::Combine { op, left, right } => {
                        if left >= tables[l].len() || right >= tables[r].len() {
                            return None;
                        }
                        assert(tv[l as int] == tables@[l as int]@);
                        assert(tv[r as int] == tables@[r as int]@);
                        let sib = match val_to_atom(&tables[l][left], l, arena, tables) {
                            Some(a) => a,
                            None => {
                                return None;
                            },
                        };
                        let vr = tables[r][right];
                        let mut joined = Atom::new_express(sib, acc, op);
                        joined.funcs = vr.funcs.reverse();
                        acc = joined;
                        v = vr;
                        n = r;
                    },
                    Path::Leaf => {
                        return None;
                    },
                }
            },
        }
    }
    None
}

/// The whole expression of a match between the two halves: the goal half's
/// expression with the number half's spliced into its hole. `None` where
/// either half cannot be rebuilt, or a hole cannot take the number half's
/// functions.
pub fn join_vals<N: Copy>(
    up_val: &Val<N>,
    up: &Arena,
    up_tables: &Vec<&Vec<Val<N>>>,
    down_val: &Val<N>,
    down: &Arena,
    down_tables: &Vec<&Vec<Val<N>>>,
) -> (r: Option<Atom<N>>)
    ensures
        match (
            up_atom(*up_val, 0, up.nodes_view(), tables_view(up_tables@)),
            down_atom(*down_val, 0, down.nodes_view(), tables_view(down_tables@), AtomModel::Hole(down_val.funcs@.reverse())),
        ) {
            (Some(s), Some(d)) => if holes_fit_model(d, funcs_of(s).len()) {
                r matches Some(a) && model(a) == fill_model(d, s) && hole_count(model(a)) == 0
            } else {
                r is None
            },
            _ => r is None,
        },
{
    let sub_atom = match val_to_atom(up_val, 0, up, up_tables) {
        Some(a) => a,
        None => {
            return None;
        },
    };
    let mut atom = match val_to_atom_rev(down_val, 0, down, down_tables) {
        Some(a) => a,
        None => {
            return None;
        },
    };
    proof {
        lemma_holes_fit_model(atom, sub_atom.funcs@.len());
    }
    if !atom.holes_fit_exec(sub_atom.funcs.len()) {
        return None;
    }
    let ghost before = atom;
    let ghost sub = sub_atom;
    atom.fill_hole(sub_atom);
    proof {
        lemma_filled_model(atom, before, sub);
        lemma_fill_model_holes(model(before), model(sub));
    }
    Some(atom)
}

} // verus!
