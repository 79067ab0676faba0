//! Tree shapes: a fixed binary-tree template instantiated as an arena of nodes.
//!
//! A template is text, one row of node letters per tree level with a row of
//! slashes between levels:
//!
//! ```text
//!    H
//!   / \
//!   N G
//! ```
//!
//! `N` and `O` are number-side nodes, `G` and `H` goal-side nodes; `O` and `H`
//! have children on the next letter row, `N` and `G` are leaves. The children
//! of the row's open nodes come in pairs, left to right.
use vstd::prelude::*;
use vstd::string::*;
use crate::func_list::FuncList;
use crate::operation::Operation;

verus! {

/// How a node is wired to its children.
#[derive(PartialEq, Eq, Structural, Clone, Copy, Debug)]
pub enum Link {
    Branch(usize, usize),
    Leaf,
}

/// Which half of the search a node belongs to: built up from the numbers, or
/// worked back from the goal.
#[derive(PartialEq, Eq, Structural, Clone, Copy, Debug)]
pub enum Kind {
    Goal,
    Num,
}

#[derive(PartialEq, Eq, Structural, Clone, Copy, Debug)]
pub struct Node {
    pub link: Link,
    pub parent: Option<usize>,
    pub kind: Kind,
}

impl Node {
    fn new(kind: Kind, parent: Option<usize>) -> (r: Self)
        ensures
            r == (Node { link: Link::Leaf, parent, kind }),
    {
        Self { link: Link::Leaf, parent, kind }
    }
}

/// How a value of the search was formed: straight from a leaf, or by an
/// operation on one value of each child (their positions in the children's
/// value lists).
#[derive(PartialEq, Eq, Structural, Clone, Copy, Debug)]
pub enum Path {
    Leaf,
    Combine { op: Operation, left: usize, right: usize },
}

/// One value reachable at a node of a shape, with what is needed to rebuild
/// its expression: the value before the last run of functions, the score so
/// far, those functions and how the value was formed.
#[derive(Clone, Copy, Debug)]
pub struct Val<N> {
    pub num: N,
    pub origin: N,
    pub score: u32,
    pub funcs: FuncList,
    pub path: Path,
}

impl<N: Copy> Val<N> {
    /// A leaf's own value, with nothing applied.
    pub fn new_pure_leaf(num: N) -> (r: Self)
        ensures
            r.num == num,
            r.origin == num,
            r.score == 0,
            r.funcs@ == Seq::<crate::func::Func>::empty(),
            r.path == Path::Leaf,
    {
        Self { num, origin: num, score: 0, funcs: FuncList::new(), path: Path::Leaf }
    }

    /// This value with `funcs` applied, giving `num`: one point more per
    /// function, the same path.
    pub fn clone_with_funcs(&self, num: N, funcs: FuncList) -> (r: Self)
        requires
            self.score + funcs@.len() <= u32::MAX,
        ensures
            r.num == num,
            r.origin == self.num,
            r.score == self.score + funcs@.len(),
            r.funcs == funcs,
            r.path == self.path,
    {
        Self { num, origin: self.num, score: self.score + funcs.len() as u32, funcs, path: self.path }
    }
}

/// A number-side leaf: a slot for one input number.
pub open spec fn is_num_leaf(n: Node) -> bool {
    n.kind == Kind::Num && n.link == Link::Leaf
}

/// The goal leaf: the slot for the goal value.
pub open spec fn is_goal_leaf(n: Node) -> bool {
    n.kind == Kind::Goal && n.link == Link::Leaf
}

/// The ids of the number leaves, in id order.
pub open spec fn num_leaf_ids(nodes: Seq<Node>) -> Seq<int>
    decreases nodes.len(),
{
    if nodes.len() == 0 {
        Seq::empty()
    } else if is_num_leaf(nodes.last()) {
        num_leaf_ids(nodes.drop_last()).push(nodes.len() - 1)
    } else {
        num_leaf_ids(nodes.drop_last())
    }
}

/// Whether node `id` is the left child of its parent and its right sibling is
/// a number leaf too: the two numbers can trade places, since every operation
/// has a mirror taking its operands the other way round.
pub open spec fn pairs_with_sibling(nodes: Seq<Node>, id: int) -> bool {
    match nodes[id].parent {
        Some(p) => 0 <= p < nodes.len() && (match nodes[p as int].link {
            Link::Branch(l, r) => l == id && 0 <= r < nodes.len() && is_num_leaf(nodes[r as int]),
            Link::Leaf => false,
        }),
        None => false,
    }
}

/// The positions a permutation map fixes never touch: a fixed position is
/// followed by a free one, its partner.
pub open spec fn fixed_pairs_apart(map: Seq<bool>) -> bool {
    forall|k: int| 0 <= k < map.len() && !#[trigger] map[k] ==> k + 1 < map.len() && map[k + 1]
}

proof fn lemma_num_leaf_ids_facts(nodes: Seq<Node>)
    ensures
        forall|a: int, b: int|
            0 <= a < b < num_leaf_ids(nodes).len() ==> num_leaf_ids(nodes)[a] < num_leaf_ids(nodes)[b],
        forall|k: int|
            0 <= k < num_leaf_ids(nodes).len() ==> 0 <= #[trigger] num_leaf_ids(nodes)[k] < nodes.len()
                && is_num_leaf(nodes[num_leaf_ids(nodes)[k]]),
        forall|x: int|
            0 <= x < nodes.len() && is_num_leaf(#[trigger] nodes[x]) ==> num_leaf_ids(nodes).contains(x),
    decreases nodes.len(),
{
    if nodes.len() > 0 {
        let prev = nodes.drop_last();
        lemma_num_leaf_ids_facts(prev);
        assert(forall|x: int| 0 <= x < prev.len() ==> prev[x] == nodes[x]);
        if is_num_leaf(nodes.last()) {
            let ids = num_leaf_ids(nodes);
            assert(ids == num_leaf_ids(prev).push(nodes.len() - 1));
            assert(ids[ids.len() - 1] == nodes.len() - 1);
            assert forall|x: int| 0 <= x < nodes.len() && is_num_leaf(#[trigger] nodes[x]) implies ids.contains(x) by {
                if x < prev.len() {
                    assert(is_num_leaf(prev[x]));
                    let j = choose|j: int| 0 <= j < num_leaf_ids(prev).len() && num_leaf_ids(prev)[j] == x;
                    assert(ids[j] == x);
                } else {
                    assert(ids[ids.len() - 1] == x);
                }
            }
        } else {
            assert forall|x: int| 0 <= x < nodes.len() && is_num_leaf(#[trigger] nodes[x]) implies num_leaf_ids(
                nodes,
            ).contains(x) by {
                assert(is_num_leaf(prev[x]));
            }
        }
    }
}

/// How many goal leaves `nodes` has.
pub open spec fn goal_leaf_count(nodes: Seq<Node>) -> nat
    decreases nodes.len(),
{
    if nodes.len() == 0 {
        0
    } else {
        goal_leaf_count(nodes.drop_last()) + if is_goal_leaf(nodes.last()) {
            1nat
        } else {
            0nat
        }
    }
}

/// Whether every node of `nodes` is on the number side.
pub open spec fn all_num_side(nodes: Seq<Node>) -> bool {
    forall|i: int| 0 <= i < nodes.len() ==> (#[trigger] nodes[i]).kind == Kind::Num
}

/// Whether `link` has `id` as a child.
pub open spec fn has_child(link: Link, id: int) -> bool {
    match link {
        Link::Branch(a, b) => a == id || b == id,
        Link::Leaf => false,
    }
}

/// Node `id` has a parent before it that links to it.
pub open spec fn parent_ok(nodes: Seq<Node>, id: int) -> bool {
    match nodes[id].parent {
        Some(q) => q < id && has_child(nodes[q as int].link, id),
        None => false,
    }
}

/// The children of node `id`, if any, are two distinct later nodes whose parent
/// is `id`.
pub open spec fn children_ok(nodes: Seq<Node>, id: int) -> bool {
    match nodes[id].link {
        Link::Branch(a, b) => {
            &&& id < a < nodes.len()
            &&& id < b < nodes.len()
            &&& b == a + 1
            &&& nodes[a as int].parent == Some(id as usize)
            &&& nodes[b as int].parent == Some(id as usize)
        },
        Link::Leaf => true,
    }
}

/// Parents come before their children, and parent and child links agree.
#[verifier::opaque]
pub open spec fn nodes_wf(nodes: Seq<Node>) -> bool {
    &&& nodes.len() >= 1
    &&& nodes[0].parent is None
    &&& forall|id: int| 0 < id < nodes.len() ==> #[trigger] parent_ok(nodes, id)
    &&& forall|id: int| 0 <= id < nodes.len() ==> #[trigger] children_ok(nodes, id)
}

proof fn lemma_fixed_leaves_pair_up(nodes: Seq<Node>)
    requires
        nodes_wf(nodes),
    ensures
        forall|k: int|
            0 <= k < num_leaf_ids(nodes).len() && pairs_with_sibling(nodes, #[trigger] num_leaf_ids(nodes)[k])
                ==> k + 1 < num_leaf_ids(nodes).len() && num_leaf_ids(nodes)[k + 1] == num_leaf_ids(nodes)[k] + 1
                && !pairs_with_sibling(nodes, num_leaf_ids(nodes)[k + 1]),
{
    reveal(nodes_wf);
    lemma_num_leaf_ids_facts(nodes);
    let ids = num_leaf_ids(nodes);
    assert forall|k: int|
        0 <= k < ids.len() && pairs_with_sibling(nodes, #[trigger] ids[k]) implies k + 1 < ids.len()
            && ids[k + 1] == ids[k] + 1 && !pairs_with_sibling(nodes, ids[k + 1]) by {
        let x = ids[k];
        let p = nodes[x].parent->0 as int;
        assert(children_ok(nodes, p));
        let y = x + 1;
        assert(is_num_leaf(nodes[y]));
        let j = choose|j: int| 0 <= j < ids.len() && ids[j] == y;
        assert(j > k) by {
            if j <= k {
                if j < k {
                    assert(ids[j] < ids[k]);
                }
            }
        }
        assert(ids[k + 1] > x);
        if k + 1 < j {
            assert(ids[k + 1] < ids[j]);
        }
        assert(ids[k + 1] == y);
        assert(nodes[y].parent == Some(p as usize));
    }
}

/// The lookup key of node `id`, given the keys of the leaves: a branch's key
/// names its side and both children's keys, so equal subtrees over equal
/// values share one key.
pub open spec fn node_key(nodes: Seq<Node>, leaf_keys: Seq<Seq<char>>, id: int) -> Seq<char>
    decreases nodes.len() - id,
{
    if 0 <= id < nodes.len() {
        match nodes[id].link {
            Link::Leaf => leaf_keys[id],
            Link::Branch(l, r) => if id < l < nodes.len() && id < r < nodes.len() {
                kind_letter(nodes[id].kind) + " ("@ + node_key(nodes, leaf_keys, l as int) + " "@
                    + node_key(nodes, leaf_keys, r as int) + ")"@
            } else {
                Seq::empty()
            },
        }
    } else {
        Seq::empty()
    }
}

pub open spec fn kind_letter(k: Kind) -> Seq<char> {
    match k {
        Kind::Num => "N"@,
        Kind::Goal => "G"@,
    }
}

/// One tree shape as a graph of nodes; node 0 is the root.
#[derive(Debug)]
pub struct Arena {
    nodes: Vec<Node>,
    pub keys: Vec<String>,
}

impl Arena {
    pub closed spec fn nodes_view(&self) -> Seq<Node> {
        self.nodes@
    }

    pub closed spec fn keys_view(&self) -> Seq<String> {
        self.keys@
    }

    pub open spec fn wf(&self) -> bool {
        nodes_wf(self.nodes_view())
    }

    fn new() -> (r: Self)
        ensures
            r.nodes_view() == Seq::<Node>::empty(),
            r.keys_view() == Seq::<String>::empty(),
    {
        Self { nodes: vec![], keys: vec![] }
    }

    fn add_node(&mut self, node: Node) -> (r: usize)
        requires
            old(self).nodes_view().len() < usize::MAX,
        ensures
            final(self).nodes_view() == old(self).nodes_view().push(node),
            final(self).keys_view() == old(self).keys_view(),
            r == old(self).nodes_view().len(),
    {
        self.nodes.push(node);
        self.nodes.len() - 1
    }

    fn add_new(&mut self, kind: Kind, parent: Option<usize>) -> (r: usize)
        requires
            old(self).nodes_view().len() < usize::MAX,
        ensures
            final(self).nodes_view() == old(self).nodes_view().push(
                Node { link: Link::Leaf, parent, kind },
            ),
            final(self).keys_view() == old(self).keys_view(),
            r == old(self).nodes_view().len(),
    {
        self.add_node(Node::new(kind, parent))
    }

    pub fn get_mut(&mut self, index: usize) -> (r: &mut Node)
        requires
            index < old(self).nodes_view().len(),
        ensures
            *r == old(self).nodes_view()[index as int],
            final(self).nodes_view() == old(self).nodes_view().update(index as int, *final(r)),
            final(self).keys_view() == old(self).keys_view(),
    {
        &mut self.nodes[index]
    }

    pub fn get(&self, index: usize) -> (r: &Node)
        requires
            index < self.nodes_view().len(),
        ensures
            *r == self.nodes_view()[index as int],
    {
        &self.nodes[index]
    }

    pub fn len(&self) -> (r: usize)
        ensures
            r == self.nodes_view().len(),
    {
        self.nodes.len()
    }
    /// For each number leaf in id order, whether its place in a permutation is
    /// free: `false` for a left child whose right sibling is a number leaf too;
    /// the search keeps only one order of such a pair.
    pub fn perm_map(&self) -> (r: Vec<bool>)
        requires
            self.wf(),
        ensures
            r@.len() == num_leaf_ids(self.nodes_view()).len(),
            forall|k: int|
                0 <= k < r@.len() ==> r@[k] == !pairs_with_sibling(
                    self.nodes_view(),
                    num_leaf_ids(self.nodes_view())[k],
                ),
            forall|k: int|
                0 <= k < r@.len() && !r@[k] ==> k + 1 < r@.len() && num_leaf_ids(self.nodes_view())[k
                    + 1] == num_leaf_ids(self.nodes_view())[k] + 1,
            fixed_pairs_apart(r@),
    {
        let ghost nodes = self.nodes_view();
        let mut map: Vec<bool> = Vec::new();
        let mut id: usize = 0;
        while id < self.nodes.len()
            invariant
                nodes == self.nodes_view(),
                0 <= id <= nodes.len(),
                map@.len() == num_leaf_ids(nodes.take(id as int)).len(),
                forall|k: int|
                    0 <= k < map@.len() ==> map@[k] == !pairs_with_sibling(
                        nodes,
                        num_leaf_ids(nodes.take(id as int))[k],
                    ),
            decreases nodes.len() - id,
        {
            let ghost prev = num_leaf_ids(nodes.take(id as int));
            assert(nodes.take(id + 1).drop_last() =~= nodes.take(id as int));
            assert(nodes.take(id + 1).last() == nodes[id as int]);
            assert(num_leaf_ids(nodes.take(id + 1)) == if is_num_leaf(nodes[id as int]) {
                prev.push(id as int)
            } else {
                prev
            });
            let node = &self.nodes[id];
            if node.kind == Kind::Num && node.link == Link::Leaf {
                let mut free = true;
                if let Some(parent_id) = node.parent {
                    if parent_id < self.nodes.len() {
                        if let Link::Branch(left, right) = self.nodes[parent_id].link {
                            if left == id && right < self.nodes.len() {
                                let sibling = &self.nodes[right];
                                free = !(sibling.kind == Kind::Num && sibling.link == Link::Leaf);
                            }
                        }
                    }
                }
                map.push(free);
            }
            id = id + 1;
        }
        assert(nodes.take(id as int) =~= nodes);
        proof {
            lemma_fixed_leaves_pair_up(nodes);
        }
        map
    }

    /// How many goal leaves the shape has.
    pub fn count_goal_leaves(&self) -> (r: usize)
        ensures
            r == goal_leaf_count(self.nodes_view()),
    {
        let ghost nodes = self.nodes_view();
        let mut count: usize = 0;
        let mut id: usize = 0;
        while id < self.nodes.len()
            invariant
                nodes == self.nodes_view(),
                0 <= id <= nodes.len(),
                count == goal_leaf_count(nodes.take(id as int)),
                count <= id,
            decreases nodes.len() - id,
        {
            assert(nodes.take(id + 1).drop_last() =~= nodes.take(id as int));
            assert(nodes.take(id + 1).last() == nodes[id as int]);
            let node = &self.nodes[id];
            if node.kind == Kind::Goal && node.link == Link::Leaf {
                count = count + 1;
            }
            id = id + 1;
        }
        assert(nodes.take(id as int) =~= nodes);
        count
    }

    /// Whether every node of the shape is on the number side.
    pub fn is_num_side(&self) -> (r: bool)
        ensures
            r == all_num_side(self.nodes_view()),
    {
        let mut id: usize = 0;
        while id < self.nodes.len()
            invariant
                0 <= id <= self.nodes_view().len(),
                forall|j: int| 0 <= j < id ==> (#[trigger] self.nodes_view()[j]).kind == Kind::Num,
            decreases self.nodes_view().len() - id,
        {
            if self.nodes[id].kind != Kind::Num {
                return false;
            }
            id = id + 1;
        }
        true
    }

    /// How many number leaves the shape has.
    pub fn count_num_leaves(&self) -> (r: usize)
        ensures
            r == num_leaf_ids(self.nodes_view()).len(),
    {
        let ghost nodes = self.nodes_view();
        let mut count: usize = 0;
        let mut id: usize = 0;
        while id < self.nodes.len()
            invariant
                nodes == self.nodes_view(),
                0 <= id <= nodes.len(),
                count == num_leaf_ids(nodes.take(id as int)).len(),
                count <= id,
            decreases nodes.len() - id,
        {
            assert(nodes.take(id + 1).drop_last() =~= nodes.take(id as int));
            assert(nodes.take(id + 1).last() == nodes[id as int]);
            let node = &self.nodes[id];
            if node.kind == Kind::Num && node.link == Link::Leaf {
                count = count + 1;
            }
            id = id + 1;
        }
        assert(nodes.take(id as int) =~= nodes);
        count
    }

    /// The id of the first goal leaf; the shape must have one.
    pub fn get_goal_id(&self) -> (r: usize)
        requires
            exists|j: int| 0 <= j < self.nodes_view().len() && is_goal_leaf(self.nodes_view()[j]),
        ensures
            r < self.nodes_view().len(),
            is_goal_leaf(self.nodes_view()[r as int]),
            forall|j: int| 0 <= j < r ==> !is_goal_leaf(self.nodes_view()[j]),
    {
        let mut id: usize = 0;
        while id < self.nodes.len()
            invariant
                0 <= id <= self.nodes_view().len(),
                forall|j: int| 0 <= j < id ==> !is_goal_leaf(self.nodes_view()[j]),
            decreases self.nodes_view().len() - id,
        {
            let node = &self.nodes[id];
            if node.kind == Kind::Goal && node.link == Link::Leaf {
                return id;
            }
            id = id + 1;
        }
        unreached()
    }
}

/// `nodes` with two new leaves of kinds `lk` and `rk` hung under the leaf `p`.
pub open spec fn attach_children(nodes: Seq<Node>, p: int, lk: Kind, rk: Kind) -> Seq<Node> {
    let l = nodes.len();
    nodes.push(Node { link: Link::Leaf, parent: Some(p as usize), kind: lk }).push(
        Node { link: Link::Leaf, parent: Some(p as usize), kind: rk },
    ).update(p, Node { link: Link::Branch(l as usize, (l + 1) as usize), ..nodes[p] })
}

proof fn lemma_attach_children_wf(nodes: Seq<Node>, p: int, lk: Kind, rk: Kind)
    requires
        nodes_wf(nodes),
        0 <= p < nodes.len(),
        nodes[p].link == Link::Leaf,
        nodes.len() + 2 <= usize::MAX,
    ensures
        nodes_wf(attach_children(nodes, p, lk, rk)),
{
    let n = attach_children(nodes, p, lk, rk);
    let len = nodes.len();
    assert(n.len() == len + 2);
    assert(forall|id: int| 0 <= id < len && id != p ==> n[id] == nodes[id]);
    assert(n[p] == Node { link: Link::Branch(len as usize, (len + 1) as usize), ..nodes[p] });
    assert(n[len as int] == Node { link: Link::Leaf, parent: Some(p as usize), kind: lk });
    assert(n[(len + 1) as int] == Node { link: Link::Leaf, parent: Some(p as usize), kind: rk });
    lemma_attached_wf(nodes, n, p);
}

proof fn lemma_attached_wf(nodes: Seq<Node>, n: Seq<Node>, p: int)
    requires
        nodes_wf(nodes),
        0 <= p < nodes.len(),
        nodes[p].link == Link::Leaf,
        nodes.len() + 2 <= usize::MAX,
        n.len() == nodes.len() + 2,
        forall|id: int| 0 <= id < nodes.len() && id != p ==> n[id] == nodes[id],
        n[p] == (Node {
            link: Link::Branch(nodes.len() as usize, (nodes.len() + 1) as usize),
            ..nodes[p]
        }),
        n[nodes.len() as int].link == Link::Leaf,
        n[nodes.len() as int].parent == Some(p as usize),
        n[(nodes.len() + 1) as int].link == Link::Leaf,
        n[(nodes.len() + 1) as int].parent == Some(p as usize),
    ensures
        nodes_wf(n),
{
    reveal(nodes_wf);
    let len = nodes.len();
    assert forall|id: int| 0 < id < n.len() implies #[trigger] parent_ok(n, id) by {
        if id < len {
            assert(parent_ok(nodes, id));
            let q = nodes[id].parent->0 as int;
            assert(q != p);
            assert(n[id].parent == nodes[id].parent);
            assert(n[q] == nodes[q]);
        }
    }
    assert forall|id: int| 0 <= id < n.len() implies #[trigger] children_ok(n, id) by {
        if id < len && id != p {
            assert(children_ok(nodes, id));
            if let Link::Branch(a, b) = nodes[id].link {
                assert(n[a as int].parent == nodes[a as int].parent);
                assert(n[b as int].parent == nodes[b as int].parent);
            }
        }
    }
}

/// Whether a character separates tokens of a template.
pub open spec fn is_blank(c: char) -> bool {
    c == ' ' || c == '\t' || c == '\n' || c == '\r' || c == '\x0C'
}

/// The state after scanning `s`: the rows finished so far, the tokens of the
/// row being read, and the token being read. A blank ends a token, a newline
/// ends a row, and rows without tokens are dropped.
pub open spec fn scan(s: Seq<char>) -> (Seq<Seq<Seq<char>>>, Seq<Seq<char>>, Seq<char>)
    decreases s.len(),
{
    if s.len() == 0 {
        (Seq::empty(), Seq::empty(), Seq::empty())
    } else {
        let prev = scan(s.drop_last());
        let c = s.last();
        if is_blank(c) {
            let row = if prev.2.len() > 0 {
                prev.1.push(prev.2)
            } else {
                prev.1
            };
            if c == '\n' && row.len() > 0 {
                (prev.0.push(row), Seq::empty(), Seq::empty())
            } else {
                (prev.0, row, Seq::empty())
            }
        } else {
            (prev.0, prev.1, prev.2.push(c))
        }
    }
}

/// The rows of a template that hold something, each as its tokens: maximal
/// runs of non-blank characters.
pub open spec fn template_rows_spec(s: Seq<char>) -> Seq<Seq<Seq<char>>> {
    let (rows, row, token) = scan(s);
    let row = if token.len() > 0 {
        row.push(token)
    } else {
        row
    };
    if row.len() > 0 {
        rows.push(row)
    } else {
        rows
    }
}

pub open spec fn row_view(v: Seq<Vec<char>>) -> Seq<Seq<char>> {
    v.map_values(|t: Vec<char>| t@)
}

pub open spec fn rows_view(v: Seq<Vec<Vec<char>>>) -> Seq<Seq<Seq<char>>> {
    v.map_values(|r: Vec<Vec<char>>| row_view(r@))
}

fn template_rows(s: &str) -> (r: Vec<Vec<Vec<char>>>)
    ensures
        rows_view(r@) == template_rows_spec(s@),
{
    let n = s.unicode_len();
    let mut rows: Vec<Vec<Vec<char>>> = Vec::new();
    let mut row: Vec<Vec<char>> = Vec::new();
    let mut token: Vec<char> = Vec::new();
    let mut i: usize = 0;
    assert(s@.take(0) =~= Seq::<char>::empty());
    assert(rows_view(rows@) =~= Seq::<Seq<Seq<char>>>::empty());
    assert(row_view(row@) =~= Seq::<Seq<char>>::empty());
    while i < n
        invariant
            n == s@.len(),
            0 <= i <= n,
            (rows_view(rows@), row_view(row@), token@) == scan(s@.take(i as int)),
        decreases n - i,
    {
        let c = s.get_char(i);
        assert(s@.take(i + 1).drop_last() =~= s@.take(i as int));
        assert(s@.take(i + 1).last() == c);
        if c == ' ' || c == '\t' || c == '\n' || c == '\r' || c == '\x0C' {
            if token.len() > 0 {
                let ghost before = row_view(row@);
                row.push(token);
                assert(row_view(row@) =~= before.push(row@.last()@));
                token = Vec::new();
            }
            if c == '\n' && row.len() > 0 {
                let ghost before = rows_view(rows@);
                rows.push(row);
                assert(rows_view(rows@) =~= before.push(row_view(rows@.last()@)));
                row = Vec::new();
                assert(row_view(row@) =~= Seq::<Seq<char>>::empty());
            }
            assert(token@ =~= Seq::<char>::empty());
        } else {
            token.push(c);
        }
        i = i + 1;
    }
    assert(s@.take(n as int) =~= s@);
    if token.len() > 0 {
        let ghost before = row_view(row@);
        row.push(token);
        assert(row_view(row@) =~= before.push(row@.last()@));
    }
    if row.len() > 0 {
        let ghost before = rows_view(rows@);
        rows.push(row);
        assert(rows_view(rows@) =~= before.push(row_view(rows@.last()@)));
    }
    rows
}

/// The kind a template token gives a child node, and whether that child has
/// children of its own on the next letter row.
pub open spec fn token_kind(t: Seq<char>) -> Option<(Kind, bool)> {
    if t == seq!['G'] {
        Some((Kind::Goal, false))
    } else if t == seq!['H'] {
        Some((Kind::Goal, true))
    } else if t == seq!['N'] {
        Some((Kind::Num, false))
    } else if t == seq!['O'] {
        Some((Kind::Num, true))
    } else {
        None
    }
}

fn read_token_kind(t: &Vec<char>) -> (r: Option<(Kind, bool)>)
    ensures
        r == token_kind(t@),
{
    if t.len() != 1 {
        return None;
    }
    let c = t[0];
    assert(t@ == seq![c]);
    if c == 'G' {
        Some((Kind::Goal, false))
    } else if c == 'H' {
        Some((Kind::Goal, true))
    } else if c == 'N' {
        Some((Kind::Num, false))
    } else if c == 'O' {
        Some((Kind::Num, true))
    } else {
        None
    }
}

/// Whether a row mentions the goal side anywhere.
pub open spec fn mentions_goal(row: Seq<Seq<char>>) -> bool {
    exists|j: int, k: int|
        0 <= j < row.len() && 0 <= k < row[j].len() && (row[j][k] == 'G' || row[j][k] == 'H')
}

/// The open nodes of a row after it: the new children of kinds `O` and `H`.
pub open spec fn opened(left: (Kind, bool), right: (Kind, bool), l: int) -> Seq<usize> {
    (if left.1 {
        seq![l as usize]
    } else {
        Seq::empty()
    }) + (if right.1 {
        seq![(l + 1) as usize]
    } else {
        Seq::empty()
    })
}

/// The nodes after the pairs of `row` from pair `i` on hang under the open
/// nodes `open`, and the open nodes of the next letter row (after
/// `new_open`); `None` for an unknown token or a pair without an open node.
pub open spec fn attach_row(
    row: Seq<Seq<char>>,
    i: int,
    nodes: Seq<Node>,
    open: Seq<usize>,
    new_open: Seq<usize>,
) -> Option<(Seq<Node>, Seq<usize>)>
    decreases row.len() - 2 * i,
{
    if i < 0 || 2 * i + 2 > row.len() {
        Some((nodes, new_open))
    } else if i >= open.len() || nodes.len() + 3 > usize::MAX {
        None
    } else {
        match (token_kind(row[2 * i]), token_kind(row[2 * i + 1])) {
            (Some(lt), Some(rt)) => attach_row(
                row,
                i + 1,
                attach_children(nodes, open[i] as int, lt.0, rt.0),
                open,
                new_open + opened(lt, rt, nodes.len() as int),
            ),
            _ => None,
        }
    }
}

/// The nodes after the letter rows from row `k` on (every second row; the
/// rows between hold the slashes).
pub open spec fn build_rows(rows: Seq<Seq<Seq<char>>>, k: int, nodes: Seq<Node>, open: Seq<usize>) -> Option<
    Seq<Node>,
>
    decreases rows.len() - k,
{
    if k < 0 || k >= rows.len() {
        Some(nodes)
    } else if k % 2 == 1 {
        build_rows(rows, k + 1, nodes, open)
    } else {
        match attach_row(rows[k], 0, nodes, open, Seq::empty()) {
            Some((n, o)) => build_rows(rows, k + 1, n, o),
            None => None,
        }
    }
}

/// The nodes a template describes: the root, of the goal side when its row
/// mentions `G` or `H`, then the children row by row.
pub open spec fn parse_template(s: Seq<char>) -> Option<Seq<Node>> {
    let rows = template_rows_spec(s);
    if rows.len() == 0 {
        None
    } else {
        let kind = if mentions_goal(rows[0]) {
            Kind::Goal
        } else {
            Kind::Num
        };
        build_rows(rows, 1, seq![Node { link: Link::Leaf, parent: None, kind }], seq![0usize])
    }
}

fn row_mentions_goal(row: &Vec<Vec<char>>) -> (r: bool)
    ensures
        r == mentions_goal(row_view(row@)),
{
    let mut j: usize = 0;
    while j < row.len()
        invariant
            0 <= j <= row@.len(),
            forall|a: int, k: int|
                0 <= a < j && 0 <= k < row@[a]@.len() ==> !(row@[a]@[k] == 'G' || row@[a]@[k]
                    == 'H'),
        decreases row@.len() - j,
    {
        let token = &row[j];
        let mut k: usize = 0;
        while k < token.len()
            invariant
                0 <= k <= token@.len(),
                0 <= j < row@.len(),
                token@ == row@[j as int]@,
                forall|b: int| 0 <= b < k ==> !(token@[b] == 'G' || token@[b] == 'H'),
            decreases token@.len() - k,
        {
            if token[k] == 'G' || token[k] == 'H' {
                assert(row_view(row@)[j as int][k as int] == token@[k as int]);
                return true;
            }
            k = k + 1;
        }
        j = j + 1;
    }
    assert(!mentions_goal(row_view(row@))) by {
        assert forall|a: int, b: int|
            0 <= a < row_view(row@).len() && 0 <= b < row_view(row@)[a].len() implies !(row_view(
            row@,
        )[a][b] == 'G' || row_view(row@)[a][b] == 'H') by {
            assert(row_view(row@)[a] == row@[a]@);
        }
    }
    false
}

impl Arena {
    /// Builds the arena of a tree-shape template. The root's side is the goal
    /// side when its row mentions `G` or `H`. Every second row that holds
    /// anything after the first gives, pair by pair, the two children of the
    /// open nodes of the row before; an odd last token is ignored. `None` when
    /// the template is empty, holds an unknown token, or gives more pairs than
    /// there are open nodes.
    pub fn from_string(s: &str) -> (r: Option<Arena>)
        ensures
            match r {
                Some(a) => parse_template(s@) == Some(a.nodes_view()) && a.wf(),
                None => parse_template(s@) is None,
            },
    {
        let rows = template_rows(s);
        let ghost rv = rows_view(rows@);
        if rows.len() == 0 {
            return None;
        }
        let mut arena = Arena::new();
        let mentions = row_mentions_goal(&rows[0]);
        assert(rv[0] == row_view(rows@[0]@));
        let root_kind = if mentions {
            Kind::Goal
        } else {
            Kind::Num
        };
        let root = arena.add_new(root_kind, None);
        proof {
            reveal(nodes_wf);
            assert(children_ok(arena.nodes_view(), 0));
        }
        let mut open: Vec<usize> = vec![root];
        assert(arena.nodes_view() =~= seq![Node { link: Link::Leaf, parent: None, kind: root_kind }]);
        assert(open@ =~= seq![0usize]);
        let mut k: usize = 1;
        while k < rows.len()
            invariant
                rv == rows_view(rows@),
                rv == template_rows_spec(s@),
                1 <= k,
                build_rows(rv, k as int, arena.nodes_view(), open@) == parse_template(s@),
                nodes_wf(arena.nodes_view()),
                forall|j: int|
                    0 <= j < open@.len() ==> (#[trigger] open@[j]) < arena.nodes_view().len()
                        && arena.nodes_view()[open@[j] as int].link == Link::Leaf,
                forall|a: int, b: int| 0 <= a < b < open@.len() ==> open@[a] < open@[b],
            decreases rows@.len() - k,
        {
            if k % 2 == 0 {
                let row = &rows[k];
                let ghost rk = rv[k as int];
                assert(rk == row_view(row@));
                let ghost start = arena.nodes_view().len();
                let mut new_open: Vec<usize> = Vec::new();
                let mut i: usize = 0;
                assert(new_open@ =~= Seq::<usize>::empty());
                while i < row.len() / 2
                    invariant
                        rv == rows_view(rows@),
                        k < rv.len(),
                        k % 2 == 0,
                        rk == rv[k as int],
                        rk == row_view(row@),
                        (match attach_row(rk, i as int, arena.nodes_view(), open@, new_open@) {
                            Some((n, o)) => build_rows(rv, k + 1, n, o),
                            None => None,
                        }) == parse_template(s@),
                        nodes_wf(arena.nodes_view()),
                        start <= arena.nodes_view().len(),
                        forall|j: int| 0 <= j < open@.len() ==> (#[trigger] open@[j]) < start,
                        forall|j: int|
                            i <= j < open@.len() ==> arena.nodes_view()[(#[trigger] open@[j]) as int].link
                                == Link::Leaf,
                        forall|a: int, b: int| 0 <= a < b < open@.len() ==> open@[a] < open@[b],
                        forall|j: int|
                            0 <= j < new_open@.len() ==> start <= (#[trigger] new_open@[j])
                                < arena.nodes_view().len() && arena.nodes_view()[new_open@[j] as int].link
                                == Link::Leaf,
                        forall|a: int, b: int|
                            0 <= a < b < new_open@.len() ==> new_open@[a] < new_open@[b],
                    decreases row@.len() / 2 - i,
                {
                    if i >= open.len() || arena.len() > usize::MAX - 3 {
                        return None;
                    }
                    assert(rk[2 * i as int] == row@[2 * i as int]@);
                    assert(rk[2 * i + 1] == row@[2 * i + 1]@);
                    let (lk, l_open) = match read_token_kind(&row[2 * i]) {
                        Some(t) => t,
                        None => {
                            return None;
                        },
                    };
                    let (rk_, r_open) = match read_token_kind(&row[2 * i + 1]) {
                        Some(t) => t,
                        None => {
                            return None;
                        },
                    };
                    let parent = open[i];
                    let ghost before = arena.nodes_view();
                    let ghost before_open = new_open@;
                    proof {
                        lemma_attach_children_wf(before, parent as int, lk, rk_);
                    }
                    let l = arena.add_new(lk, Some(parent));
                    let rc = arena.add_new(rk_, Some(parent));
                    arena.get_mut(parent).link = Link::Branch(l, rc);
                    assert(arena.nodes_view() =~= attach_children(before, parent as int, lk, rk_));
                    if l_open {
                        new_open.push(l);
                    }
                    if r_open {
                        new_open.push(rc);
                    }
                    assert(new_open@ =~= before_open + opened((lk, l_open), (rk_, r_open), before.len() as int));
                    i = i + 1;
                }
                open = new_open;
            }
            k = k + 1;
        }
        Some(arena)
    }
}

/// The keys the leaves start from: the `k`-th number leaf gets `"N "` and the
/// `k`-th number's text, the first goal leaf `"G "` and the goal's text, every
/// other node the empty text.
pub open spec fn leaf_keys(nodes: Seq<Node>, nums: Seq<Seq<char>>, goal: Option<Seq<char>>) -> Seq<
    Seq<char>,
> {
    Seq::new(
        nodes.len(),
        |id: int|
            if is_num_leaf(nodes[id]) {
                "N "@ + nums[num_leaf_ids(nodes.take(id)).len() as int]
            } else if goal is Some && is_goal_leaf(nodes[id]) && forall|j: int|
                0 <= j < id ==> !is_goal_leaf(#[trigger] nodes[j]) {
                "G "@ + goal->0
            } else {
                Seq::empty()
            },
    )
}

/// The text an optional string holds.
pub open spec fn text_of(o: Option<String>) -> Option<Seq<char>> {
    match o {
        Some(g) => Some(g@),
        None => None,
    }
}

proof fn lemma_num_leaf_ids_prefix(nodes: Seq<Node>, i: int)
    requires
        0 <= i <= nodes.len(),
    ensures
        num_leaf_ids(nodes.take(i)).len() <= num_leaf_ids(nodes).len(),
        i < nodes.len() && is_num_leaf(nodes[i]) ==> num_leaf_ids(nodes.take(i)).len() < num_leaf_ids(
            nodes,
        ).len(),
    decreases nodes.len() - i,
{
    if i < nodes.len() {
        assert(nodes.take(i + 1).drop_last() =~= nodes.take(i));
        lemma_num_leaf_ids_prefix(nodes, i + 1);
    } else {
        assert(nodes.take(i) =~= nodes);
    }
}

impl Arena {
    /// Fills `keys` for one permutation: each leaf's key from `nums` (the texts
    /// of the numbers, one per number leaf in id order) and `goal`, then every
    /// branch's key from its children's. A goal needs a goal leaf to go to.
    pub fn populate(&mut self, nums: &Vec<String>, goal: Option<String>)
        requires
            old(self).wf(),
            nums@.len() >= num_leaf_ids(old(self).nodes_view()).len(),
            goal is Some ==> exists|j: int|
                0 <= j < old(self).nodes_view().len() && is_goal_leaf(old(self).nodes_view()[j]),
        ensures
            final(self).nodes_view() == old(self).nodes_view(),
            final(self).keys_view().len() == old(self).nodes_view().len(),
            forall|id: int|
                0 <= id < final(self).keys_view().len() ==> (#[trigger] final(self).keys_view()[id])@
                    == node_key(
                    old(self).nodes_view(),
                    leaf_keys(
                        old(self).nodes_view(),
                        nums@.map_values(|t: String| t@),
                        text_of(goal),
                    ),
                    id,
                ),
    {
        let ghost nodes = self.nodes_view();
        let ghost texts = nums@.map_values(|t: String| t@);
        let ghost goal_text = text_of(goal);
        let goal_id = if goal.is_some() {
            Some(self.get_goal_id())
        } else {
            None
        };
        let mut keys: Vec<String> = Vec::new();
        let n_nums = nums.len();
        let mut rank: usize = 0;
        let mut id: usize = 0;
        while id < self.nodes.len()
            invariant
                nodes == self.nodes_view(),
                0 <= id <= nodes.len(),
                rank == num_leaf_ids(nodes.take(id as int)).len(),
                n_nums == nums@.len(),
                nums@.len() >= num_leaf_ids(nodes).len(),
                texts == nums@.map_values(|t: String| t@),
                goal_text == text_of(goal),
                goal_id matches Some(g) ==> g < nodes.len() && is_goal_leaf(nodes[g as int])
                    && forall|j: int| 0 <= j < g ==> !is_goal_leaf(nodes[j]),
                goal_id is None ==> goal is None,
                keys@.len() == id,
                forall|j: int|
                    0 <= j < id ==> (#[trigger] keys@[j])@ == leaf_keys(nodes, texts, goal_text)[j],
            decreases nodes.len() - id,
        {
            assert(nodes.take(id + 1).drop_last() =~= nodes.take(id as int));
            assert(nodes.take(id + 1).last() == nodes[id as int]);
            proof {
                lemma_num_leaf_ids_prefix(nodes, id as int);
            }
            let node = &self.nodes[id];
            let is_goal_here = match (&goal, goal_id) {
                (Some(_), Some(g)) => g == id,
                _ => false,
            };
            if node.kind == Kind::Num && node.link == Link::Leaf {
                assert(is_num_leaf(nodes[id as int]));
                assert(rank < nums@.len());
                let key = String::from_str("N ").concat(nums[rank].as_str());
                keys.push(key);
                rank = rank + 1;
            } else if is_goal_here {
                let key = match &goal {
                    Some(g) => String::from_str("G ").concat(g.as_str()),
                    None => String::new(),
                };
                keys.push(key);
            } else {
                proof {
                    if goal is Some && is_goal_leaf(nodes[id as int]) {
                        assert(goal_id is Some);
                        let g = goal_id->0;
                        assert(!(forall|j: int|
                            0 <= j < id ==> !is_goal_leaf(#[trigger] nodes[j]))) by {
                            assert(g < id);
                            assert(is_goal_leaf(nodes[g as int]));
                        }
                    }
                }
                keys.push(String::new());
            }
            assert(keys@[id as int]@ == leaf_keys(nodes, texts, goal_text)[id as int]);
            id = id + 1;
        }
        self.keys = keys;
        let mut full: Vec<String> = Vec::new();
        let mut id: usize = 0;
        while id < self.nodes.len()
            invariant
                nodes == self.nodes_view(),
                nodes_wf(nodes),
                0 <= id <= nodes.len(),
                self.keys_view().len() == nodes.len(),
                forall|j: int|
                    0 <= j < nodes.len() ==> (#[trigger] self.keys_view()[j])@ == leaf_keys(
                        nodes,
                        texts,
                        goal_text,
                    )[j],
                full@.len() == id,
                forall|j: int|
                    0 <= j < id ==> (#[trigger] full@[j])@ == node_key(
                        nodes,
                        leaf_keys(nodes, texts, goal_text),
                        j,
                    ),
            decreases nodes.len() - id,
        {
            let key = self.init_node_key(id, Ghost(leaf_keys(nodes, texts, goal_text)));
            full.push(key);
            id = id + 1;
        }
        self.keys = full;
    }

    fn init_node_key(&self, id: usize, Ghost(leaves): Ghost<Seq<Seq<char>>>) -> (r: String)
        requires
            nodes_wf(self.nodes_view()),
            id < self.nodes_view().len(),
            self.keys_view().len() == self.nodes_view().len(),
            leaves.len() == self.nodes_view().len(),
            forall|j: int|
                0 <= j < self.nodes_view().len() ==> (#[trigger] self.keys_view()[j])@ == leaves[j],
        ensures
            r@ == node_key(self.nodes_view(), leaves, id as int),
        decreases self.nodes_view().len() - id,
    {
        proof {
            reveal(nodes_wf);
            assert(children_ok(self.nodes_view(), id as int));
        }
        let node = &self.nodes[id];
        match node.link {
            Link::Leaf => self.keys[id].clone(),
            Link::Branch(left, right) => {
                let left_key = self.init_node_key(left, Ghost(leaves));
                let right_key = self.init_node_key(right, Ghost(leaves));
                let kind = match node.kind {
                    Kind::Num => String::from_str("N"),
                    Kind::Goal => String::from_str("G"),
                };
                kind.concat(" (").concat(left_key.as_str()).concat(" ").concat(
                    right_key.as_str(),
                ).concat(")")
            },
        }
    }
}

} // verus!
