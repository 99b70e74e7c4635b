//! A single-writer ordered set built on a skip list whose nodes are charged
//! to a dedicated bump arena.
//!
//! The list keeps its nodes in a growing table; a node names its successors
//! by table index, with index 0 reserved for the head sentinel. Search walks
//! the forward links from the highest published level downward; insertion
//! splices a node of randomly drawn height behind the last strictly smaller
//! key of every level. Keys are `u64` values under their numeric order.

#![allow(unused_imports)]

use vstd::prelude::*;

pub mod arena;
pub mod sorted;

use crate::arena::{Arena, BLOCK_SIZE, BLOCK_ENTRY_BYTES};
use crate::sorted::{first_geq, lemma_first_geq_bounds, lemma_first_geq_contains,
    lemma_first_geq_is, lemma_first_geq_self, lemma_first_geq_sorted, lemma_insert_contains,
    lemma_insert_sorted, sorted_strict};

verus! {

/// Tallest forward array a node may get; the head sentinel always has it.
pub const MAX_HEIGHT: usize = 12;

/// One chance in `K_BRANCHING` of growing a drawn height by another level.
pub const K_BRANCHING: u64 = 4;

/// Bytes charged to the arena for one node record: the key word plus the
/// header of its forward array.
pub const NODE_CHARGE: usize = 32;

/// Outside type: the deterministic standard generator of the rand crate.
#[verifier::external_type_specification]
#[verifier::external_body]
pub struct ExStdRng(rand::rngs::StdRng);

/// Relies on rand's `SeedableRng::seed_from_u64` to build a generator whose
/// draws are determined by the seed. Nothing is claimed of the draws.
#[verifier::external_body]
fn rng_from_seed(seed: u64) -> rand::rngs::StdRng {
    <rand::rngs::StdRng as rand::SeedableRng>::seed_from_u64(seed)
}

/// Relies on rand's `Rng::gen_range`: a draw from the non-empty range
/// `0..bound` lies in that range (the call panics only on an empty range,
/// which the precondition rules out).
#[verifier::external_body]
fn sample_below(rnd: &mut rand::rngs::StdRng, bound: u64) -> (r: u64)
    requires
        bound >= 1,
    ensures
        r < bound,
{
    rand::Rng::gen_range(rnd, 0..bound)
}

/// A skip-list node: an immutable key and a forward array whose length is
/// the node's height, fixed at creation. A forward cell holds the table
/// index of a later node, or `None` at the end of its level.
pub struct Node {
    key: u64,
    next: Vec<Option<usize>>,
}

impl Node {
    /// The node's key.
    pub closed spec fn spec_key(self) -> u64 {
        self.key
    }

    /// The node's height: the length of its forward array.
    pub closed spec fn height(self) -> int {
        self.next@.len() as int
    }

    /// The forward cell at level `l`.
    pub closed spec fn spec_link(self, l: int) -> Option<usize> {
        self.next@[l]
    }

    /// A node of the given height with every forward cell empty.
    pub fn new(key: u64, height: usize) -> (n: Node)
        requires
            1 <= height,
        ensures
            n.height() == height,
            n.spec_key() == key,
            forall|l: int| 0 <= l < height ==> #[trigger] n.spec_link(l) is None,
    {
        let mut next: Vec<Option<usize>> = Vec::new();
        let mut i: usize = 0;
        while i < height
            invariant
                i <= height,
                next@.len() == i,
                forall|l: int| 0 <= l < i ==> #[trigger] next@[l] is None,
            decreases height - i,
        {
            next.push(None);
            i = i + 1;
        }
        Node { key, next }
    }

    /// Reads the forward cell at `level`.
    pub fn next(&self, level: usize) -> (r: Option<usize>)
        requires
            level < self.height(),
        ensures
            r == self.spec_link(level as int),
    {
        self.next[level]
    }

    /// Writes the forward cell at `level`; key, height and the other cells
    /// are untouched.
    pub fn set_next(&mut self, level: usize, node: Option<usize>)
        requires
            level < old(self).height(),
        ensures
            final(self).spec_key() == old(self).spec_key(),
            final(self).height() == old(self).height(),
            final(self).spec_link(level as int) == node,
            forall|l: int| 0 <= l < old(self).height() && l != level ==>
                #[trigger] final(self).spec_link(l) == old(self).spec_link(l),
    {
        self.next.set(level, node);
    }
}

/// The mathematical shape of a skip list: the node table, the inserted nodes
/// in ascending key order, and the published maximum height.
pub struct Model {
    pub nodes: Seq<Node>,
    pub order: Seq<usize>,
    pub max_height: int,
}

impl Model {
    /// Number of node records, the head included.
    pub open spec fn count(self) -> int {
        self.nodes.len() as int
    }

    pub open spec fn key_of(self, n: int) -> u64 {
        self.nodes[n].spec_key()
    }

    pub open spec fn height_of(self, n: int) -> int {
        self.nodes[n].height()
    }

    pub open spec fn link(self, n: int, l: int) -> Option<usize> {
        self.nodes[n].spec_link(l)
    }

    /// The keys of the inserted nodes, in list order.
    pub open spec fn view(self) -> Seq<u64> {
        self.order.map_values(|i: usize| self.key_of(i as int))
    }

    /// The level-0 successor that the order prescribes after position `p`
    /// (position `-1` stands for the head).
    pub open spec fn succ_at(self, p: int) -> Option<usize> {
        if p + 1 < self.order.len() {
            Some(self.order[p + 1])
        } else {
            None
        }
    }

    /// What a forward cell at level `l` of node `n` may hold: nothing, or a
    /// real inserted node of greater height than `l` whose key is strictly
    /// greater (the head compares with nothing).
    pub open spec fn link_ok(self, n: int, l: int) -> bool {
        match self.link(n, l) {
            None => true,
            Some(m) => {
                &&& 1 <= m < self.count()
                &&& l < self.height_of(m as int)
                &&& self.order.contains(m)
                &&& (n != 0 ==> self.key_of(n) < self.key_of(m as int))
            },
        }
    }

    /// Well-formedness of the whole structure.
    pub open spec fn inv(self) -> bool {
        &&& 1 <= self.count()
        &&& self.height_of(0) == MAX_HEIGHT
        &&& 1 <= self.max_height <= MAX_HEIGHT as int
        &&& self.order.len() == self.count() - 1
        &&& forall|p: int|
            0 <= p < self.order.len() ==> 1 <= #[trigger] self.order[p] < self.count()
        &&& forall|n: usize| 1 <= n < self.count() ==> #[trigger] self.order.contains(n)
        &&& forall|p: int, q: int|
            0 <= p < q < self.order.len() ==> self.key_of(#[trigger] self.order[p] as int)
                < self.key_of(#[trigger] self.order[q] as int)
        &&& forall|n: int| 1 <= n < self.count() ==> 1 <= #[trigger] self.height_of(n)
            <= self.max_height
        &&& (self.order.len() == 0 ==> self.max_height == 1)
        &&& (self.max_height > 1 ==> exists|n: int|
            1 <= n < self.count() && #[trigger] self.height_of(n) == self.max_height)
        &&& self.link(0, 0) == self.succ_at(-1)
        &&& forall|p: int|
            0 <= p < self.order.len() ==> #[trigger] self.link(self.order[p] as int, 0)
                == self.succ_at(p)
        &&& forall|n: int, l: int|
            0 <= n < self.count() && 0 <= l < self.height_of(n) ==> #[trigger] self.link_ok(n, l)
        &&& forall|l: int| self.max_height <= l < MAX_HEIGHT ==> #[trigger] self.link(0, l) is None
    }

    /// Position of node `n` in the order; the head sits before everything.
    pub open spec fn rank(self, n: usize) -> int {
        if n == 0 {
            -1
        } else {
            self.order.index_of(n)
        }
    }

    /// The node `x` is a well-formed resting place of the descent at level
    /// `l` while searching for `key`: the head or an inserted node with key
    /// below `key`, tall enough for level `l`, whose level-`l` successor is
    /// nothing or has key at least `key`.
    pub open spec fn prev_ok(self, x: usize, l: int, key: u64) -> bool {
        &&& x < self.count()
        &&& (x == 0 || self.order.contains(x))
        &&& (x != 0 ==> self.key_of(x as int) < key)
        &&& l < self.height_of(x as int)
        &&& match self.link(x as int, l) {
            None => true,
            Some(m) => self.key_of(m as int) >= key,
        }
    }
}

proof fn lemma_inv_chain(m: Model, p: int)
    requires
        m.inv(),
        0 <= p < m.order.len(),
    ensures
        m.link(m.order[p] as int, 0) == m.succ_at(p),
        1 <= m.order[p] < m.count(),
{
}

proof fn lemma_inv_link_ok(m: Model, n: int, l: int)
    requires
        m.inv(),
        0 <= n < m.count(),
        0 <= l < m.height_of(n),
    ensures
        m.link_ok(n, l),
{
}

/// A node that the order holds has a well-defined rank, and the order at
/// that rank gives the node back.
proof fn lemma_rank(m: Model, n: usize)
    requires
        m.inv(),
        1 <= n < m.count(),
    ensures
        0 <= m.rank(n) < m.order.len(),
        m.order[m.rank(n)] == n,
{
    assert(m.order.contains(n));
    let i = choose|i: int| 0 <= i < m.order.len() && m.order[i] == n;
    assert(m.order[i] == n);
    assert(m.rank(n) == m.order.index_of(n));
}

/// Ranks are unique: the order lists a node only once.
proof fn lemma_rank_at(m: Model, p: int)
    requires
        m.inv(),
        0 <= p < m.order.len(),
    ensures
        m.rank(m.order[p]) == p,
{
    lemma_rank(m, m.order[p]);
    let r = m.rank(m.order[p]);
    if r < p {
        assert(m.key_of(m.order[r] as int) < m.key_of(m.order[p] as int));
    }
    if r > p {
        assert(m.key_of(m.order[p] as int) < m.key_of(m.order[r] as int));
    }
}

/// A strictly greater key means a strictly greater rank.
proof fn lemma_rank_monotone(m: Model, x: usize, y: usize)
    requires
        m.inv(),
        x < m.count(),
        x == 0 || m.order.contains(x),
        1 <= y < m.count(),
        m.order.contains(y),
        x == 0 || m.key_of(x as int) < m.key_of(y as int),
    ensures
        m.rank(x) < m.rank(y),
{
    lemma_rank(m, y);
    if x != 0 {
        lemma_rank(m, x);
        if m.rank(x) >= m.rank(y) {
            if m.rank(x) == m.rank(y) {
                assert(m.order[m.rank(x)] == x);
                assert(m.order[m.rank(y)] == y);
                assert(x == y);
            } else {
                assert(m.key_of(m.order[m.rank(y)] as int) < m.key_of(
                    m.order[m.rank(x)] as int,
                ));
            }
        }
    }
}

/// The view reads the key at each position of the order.
proof fn lemma_view_index(m: Model, p: int)
    requires
        0 <= p < m.order.len(),
    ensures
        m.view().len() == m.order.len(),
        m.view()[p] == m.key_of(m.order[p] as int),
{
}

/// The view of a well-formed list is strictly sorted.
proof fn lemma_view_sorted_model(m: Model)
    requires
        m.inv(),
    ensures
        sorted_strict(m.view()),
        m.view().len() == m.order.len(),
{
    assert forall|p: int, q: int| 0 <= p < q < m.view().len() implies m.view()[p]
        < m.view()[q] by {
        lemma_view_index(m, p);
        lemma_view_index(m, q);
    };
}

/// A level-0 resting place pins down the boundary position of `key`: the
/// node is the last one below `key` and its successor is the first at or
/// above it.
proof fn lemma_prev0(m: Model, x: usize, key: u64)
    requires
        m.inv(),
        m.prev_ok(x, 0, key),
    ensures
        ({
            let fg = first_geq(m.view(), key);
            &&& 0 <= fg <= m.order.len()
            &&& (fg == 0 ==> x == 0)
            &&& (fg > 0 ==> x == m.order[fg - 1])
            &&& m.link(x as int, 0) == (if fg < m.order.len() {
                Some(m.order[fg])
            } else {
                None::<usize>
            })
        }),
{
    lemma_view_sorted_model(m);
    lemma_first_geq_bounds(m.view(), key);
    let v = m.view();
    if x == 0 {
        if m.order.len() == 0 {
            assert(first_geq(v, key) == 0);
            assert(m.link(0, 0) == m.succ_at(-1));
        } else {
            assert(m.link(0, 0) == m.succ_at(-1));
            assert(m.link(0, 0) == Some(m.order[0]));
            lemma_view_index(m, 0);
            assert(v[0] >= key);
            lemma_first_geq_is(v, key, 0);
        }
    } else {
        lemma_rank(m, x);
        let p = m.rank(x);
        assert(m.order[p] == x);
        lemma_inv_chain(m, p);
        assert(m.link(x as int, 0) == m.succ_at(p));
        lemma_view_index(m, p);
        assert(v[p] < key);
        assert forall|i: int| 0 <= i < p + 1 implies v[i] < key by {
            if i < p {
                assert(v[i] < v[p]);
            }
        };
        if p + 1 < m.order.len() {
            lemma_view_index(m, p + 1);
            assert(v[p + 1] >= key);
            lemma_first_geq_is(v, key, p + 1);
        } else {
            lemma_first_geq_is(v, key, m.order.len() as int);
        }
    }
}

/// A concurrent ordered set in spirit: here, the verified single-threaded
/// core of a skip list. It owns the arena its nodes are charged to, a node
/// table whose entry 0 is the head sentinel, the published maximum height,
/// and the seeded generator that draws node heights.
pub struct SkipList {
    nodes: Vec<Node>,
    max_height: usize,
    rnd: rand::rngs::StdRng,
    arena: Arena,
    order: Ghost<Seq<usize>>,
}

impl View for SkipList {
    type V = Seq<u64>;

    /// The inserted keys in ascending order.
    closed spec fn view(&self) -> Seq<u64> {
        self.model().view()
    }
}

impl SkipList {
    /// The mathematical shape of the list.
    pub closed spec fn model(self) -> Model {
        Model { nodes: self.nodes@, order: self.order@, max_height: self.max_height as int }
    }

    /// Well-formedness: the shape invariant plus a well-formed arena.
    pub closed spec fn wf(self) -> bool {
        &&& self.model().inv()
        &&& self.arena.wf()
    }

    /// The usage counter of the owned arena.
    pub closed spec fn arena_usage(self) -> int {
        self.arena.usage()
    }

    /// The arena can still be charged for one node without its usage counter
    /// overflowing; a machine limit, not a logical one.
    pub open spec fn can_insert(self) -> bool {
        self.arena_usage() + NODE_CHARGE as int + BLOCK_SIZE as int + BLOCK_ENTRY_BYTES as int
            <= usize::MAX as int
    }

    /// Builds an empty list over the given arena and charges the head
    /// sentinel to it. The head's key is a placeholder that no search or
    /// insertion ever compares.
    pub fn new(arena: Arena) -> (s: SkipList)
        requires
            arena.wf(),
            arena.fits(NODE_CHARGE as int),
        ensures
            s.wf(),
            s@ =~= Seq::<u64>::empty(),
            arena.usage() <= s.arena_usage(),
            s.arena_usage() <= arena.usage() + NODE_CHARGE as int + BLOCK_SIZE as int
                + BLOCK_ENTRY_BYTES as int,
    {
        let mut arena = arena;
        let _head_bytes = arena.allocate(NODE_CHARGE);
        let head = Node::new(0, MAX_HEIGHT);
        let mut nodes: Vec<Node> = Vec::new();
        nodes.push(head);
        let s = SkipList {
            nodes,
            max_height: 1,
            rnd: rng_from_seed(0xdeadbeef),
            arena,
            order: Ghost(Seq::empty()),
        };
        proof {
            let m = s.model();
            assert(m.order.len() == 0);
            assert(m.link(0, 0) is None);
            assert forall|n: int, l: int|
                0 <= n < m.count() && 0 <= l < m.height_of(n) implies #[trigger] m.link_ok(
                n,
                l,
            ) by {
                assert(n == 0);
                assert(m.link(0, l) is None);
            };
            assert(m.inv());
        }
        s
    }

    /// True when `node` names a real node whose key lies strictly before
    /// `key`: the descent keeps moving right exactly in that case.
    pub fn key_is_after_node(&self, key: u64, node: Option<usize>) -> (r: bool)
        requires
            self.wf(),
            node matches Some(n) ==> 1 <= n < self.model().count(),
        ensures
            r == match node {
                None => false,
                Some(n) => self.model().key_of(n as int) < key,
            },
    {
        match node {
            None => false,
            Some(n) => self.nodes[n].key < key,
        }
    }

    /// Core descent. Returns one resting place per level — the last node
    /// strictly before `key` at that level — and the level-0 successor of
    /// the lowest of them.
    fn find_with_prev(&self, key: u64) -> (res: (Vec<usize>, Option<usize>))
        requires
            self.wf(),
        ensures
            res.0@.len() == MAX_HEIGHT,
            forall|l: int| 0 <= l < MAX_HEIGHT ==> self.model().prev_ok(
                #[trigger] res.0@[l],
                l,
                key,
            ),
            res.1 == self.model().link(res.0@[0] as int, 0),
    {
        let ghost m = self.model();
        let mut prev: Vec<usize> = Vec::new();
        let mut i: usize = 0;
        while i < MAX_HEIGHT
            invariant
                i <= MAX_HEIGHT,
                prev@.len() == i,
                forall|l: int| 0 <= l < i ==> #[trigger] prev@[l] == 0,
            decreases MAX_HEIGHT - i,
        {
            prev.push(0);
            i = i + 1;
        }
        let mut x: usize = 0;
        let mut level: usize = self.max_height - 1;
        proof {
            assert forall|l: int| level < l < MAX_HEIGHT implies m.prev_ok(
                #[trigger] prev@[l],
                l,
                key,
            ) by {
                assert(prev@[l] == 0);
                assert(m.link(0, l) is None);
            };
        }
        loop
            invariant
                self.wf(),
                m == self.model(),
                prev@.len() == MAX_HEIGHT,
                x < m.count(),
                x == 0 || m.order.contains(x),
                x == 0 || m.key_of(x as int) < key,
                level < m.max_height,
                (level as int) < m.height_of(x as int),
                forall|l: int| level < l < MAX_HEIGHT ==> m.prev_ok(#[trigger] prev@[l], l, key),
            decreases m.order.len() - m.rank(x), level,
        {
            proof {
                lemma_inv_link_ok(m, x as int, level as int);
            }
            let next = self.nodes[x].next(level);
            if self.key_is_after_node(key, next) {
                proof {
                    lemma_rank_monotone(m, x, next->Some_0);
                }
                x = next.unwrap();
            } else {
                prev.set(level, x);
                if level == 0 {
                    return (prev, next);
                }
                level = level - 1;
            }
        }
    }

    /// Returns the table index of the first node whose key is at or above
    /// `key`, or nothing when every inserted key lies below it.
    pub fn find_greater_or_equal(&self, key: u64) -> (r: Option<usize>)
        requires
            self.wf(),
        ensures
            ({
                let fg = first_geq(self@, key);
                match r {
                    None => fg == self@.len(),
                    Some(n) => {
                        &&& 0 <= fg < self@.len()
                        &&& self.model().order[fg] == n
                        &&& 1 <= n < self.model().count()
                        &&& self.model().key_of(n as int) == self@[fg]
                    },
                }
            }),
    {
        let (prev, found) = self.find_with_prev(key);
        proof {
            let m = self.model();
            assert(m.prev_ok(prev@[0], 0, key));
            lemma_prev0(m, prev@[0], key);
            let fg = first_geq(m.view(), key);
            if fg < m.order.len() {
                lemma_view_index(m, fg);
            }
        }
        found
    }

    /// Membership: true exactly when `key` was inserted.
    pub fn contains(&self, key: u64) -> (r: bool)
        requires
            self.wf(),
        ensures
            r == self@.contains(key),
    {
        let found = self.find_greater_or_equal(key);
        proof {
            lemma_view_sorted_model(self.model());
            lemma_first_geq_contains(self@, key);
        }
        match found {
            None => false,
            Some(n) => self.nodes[n].key == key,
        }
    }

    /// Returns the table index of the last node whose key lies strictly
    /// below `key`, or 0 — the head — when there is none.
    pub fn find_less_than(&self, key: u64) -> (r: usize)
        requires
            self.wf(),
        ensures
            ({
                let fg = first_geq(self@, key);
                &&& (fg == 0 ==> r == 0)
                &&& (fg > 0 ==> r == self.model().order[fg - 1])
            }),
    {
        let ghost m = self.model();
        let mut x: usize = 0;
        let mut level: usize = self.max_height - 1;
        loop
            invariant
                self.wf(),
                m == self.model(),
                x < m.count(),
                x == 0 || m.order.contains(x),
                x == 0 || m.key_of(x as int) < key,
                level < m.max_height,
                (level as int) < m.height_of(x as int),
            decreases m.order.len() - m.rank(x), level,
        {
            proof {
                lemma_inv_link_ok(m, x as int, level as int);
            }
            let next = self.nodes[x].next(level);
            let move_right = match next {
                None => false,
                Some(nx) => self.nodes[nx].key < key,
            };
            if move_right {
                proof {
                    lemma_rank_monotone(m, x, next->Some_0);
                }
                x = next.unwrap();
            } else {
                if level == 0 {
                    proof {
                        assert(m.prev_ok(x, 0, key));
                        lemma_prev0(m, x, key);
                    }
                    return x;
                }
                level = level - 1;
            }
        }
    }

    /// Returns the table index of the last node, or 0 — the head — when the
    /// list is empty.
    pub fn find_last(&self) -> (r: usize)
        requires
            self.wf(),
        ensures
            self@.len() == 0 ==> r == 0,
            self@.len() > 0 ==> r == self.model().order[self@.len() - 1],
    {
        let ghost m = self.model();
        let mut x: usize = 0;
        let mut level: usize = self.max_height - 1;
        loop
            invariant
                self.wf(),
                m == self.model(),
                x < m.count(),
                x == 0 || m.order.contains(x),
                level < m.max_height,
                (level as int) < m.height_of(x as int),
            decreases m.order.len() - m.rank(x), level,
        {
            proof {
                lemma_inv_link_ok(m, x as int, level as int);
            }
            let next = self.nodes[x].next(level);
            match next {
                Some(nx) => {
                    proof {
                        lemma_rank_monotone(m, x, nx);
                    }
                    x = nx;
                },
                None => {
                    if level == 0 {
                        proof {
                            if x == 0 {
                                assert(m.link(0, 0) == m.succ_at(-1));
                            } else {
                                lemma_rank(m, x);
                                lemma_inv_chain(m, m.rank(x));
                                assert(m.succ_at(m.rank(x)) is None);
                            }
                        }
                        return x;
                    }
                    level = level - 1;
                },
            }
        }
    }

    /// Draws a height: starting from 1, it grows while a draw from
    /// `[0, K_BRANCHING)` hits 0, and is capped at [`MAX_HEIGHT`]. Only the
    /// generator advances; the structure and its keys stay as they are.
    pub fn random_height(&mut self) -> (h: usize)
        requires
            old(self).wf(),
        ensures
            final(self).wf(),
            1 <= h <= MAX_HEIGHT,
            final(self).model() == old(self).model(),
            final(self).arena_state() == old(self).arena_state(),
    {
        let ghost m0 = self.model();
        let ghost a0 = self.arena;
        let mut height: usize = 1;
        loop
            invariant
                1 <= height <= MAX_HEIGHT,
                self.wf(),
                self.model() == m0,
                self.arena == a0,
            decreases MAX_HEIGHT - height,
        {
            if height >= MAX_HEIGHT {
                break;
            }
            let d = sample_below(&mut self.rnd, K_BRANCHING);
            if d != 0 {
                break;
            }
            height = height + 1;
        }
        height
    }

    /// The owned arena, for stating what of it a call leaves untouched.
    pub closed spec fn arena_state(self) -> Arena {
        self.arena
    }

    /// Writes the forward cell `level` of node `i`; every other cell, every
    /// key and height, the order and the arena stay as they were.
    fn set_link(&mut self, i: usize, level: usize, v: Option<usize>)
        requires
            i < old(self).model().count(),
            level < old(self).model().height_of(i as int),
        ensures
            final(self).model().count() == old(self).model().count(),
            final(self).model().order == old(self).model().order,
            final(self).model().max_height == old(self).model().max_height,
            forall|j: int| 0 <= j < old(self).model().count() ==>
                #[trigger] final(self).model().key_of(j) == old(self).model().key_of(j),
            forall|j: int| 0 <= j < old(self).model().count() ==>
                #[trigger] final(self).model().height_of(j) == old(self).model().height_of(j),
            final(self).model().link(i as int, level as int) == v,
            forall|j: int, lv: int|
                0 <= j < old(self).model().count() && 0 <= lv < old(self).model().height_of(j)
                    && !(j == i && lv == level) ==> #[trigger] final(self).model().link(j, lv)
                    == old(self).model().link(j, lv),
            final(self).arena_state() == old(self).arena_state(),
    {
        let node = &mut self.nodes[i];
        node.set_next(level, v);
    }

    /// Inserts `key`, which must be absent. The node record is charged to
    /// the arena, gets a randomly drawn height, and is spliced in behind the
    /// last strictly smaller key of every level it spans: exactly the shape
    /// the searches rely on, with the set of keys grown by `key` alone.
    pub fn insert(&mut self, key: u64)
        requires
            old(self).wf(),
            !old(self)@.contains(key),
            old(self).can_insert(),
        ensures
            final(self).wf(),
            final(self)@ == old(self)@.insert(first_geq(old(self)@, key), key),
            final(self)@.to_set() == old(self)@.to_set().insert(key),
            final(self)@.len() == old(self)@.len() + 1,
            old(self).arena_usage() <= final(self).arena_usage(),
            final(self).arena_usage() <= old(self).arena_usage() + NODE_CHARGE as int
                + BLOCK_SIZE as int + BLOCK_ENTRY_BYTES as int,
    {
        let ghost m0 = self.model();
        let ghost fg = first_geq(m0.view(), key);
        let ghost u0 = self.arena.usage();
        let (prev, _found) = self.find_with_prev(key);
        let height = self.random_height();

        if height > self.max_height {
            self.max_height = height;
        }
        let _node_bytes = self.arena.allocate(NODE_CHARGE);

        let n = self.nodes.len();
        let node = Node::new(key, height);
        self.nodes.push(node);
        proof {
            lemma_view_sorted_model(m0);
            lemma_first_geq_bounds(m0.view(), key);
        }
        self.order = Ghost(self.order@.insert(fg, n));
        proof {
            assert(splice_state(m0, self.model(), prev@, key, height as int, n, 0));
        }

        let mut l: usize = 0;
        while l < height
            invariant
                m0.inv(),
                self.arena.wf(),
                u0 <= self.arena.usage(),
                self.arena.usage() <= u0 + NODE_CHARGE as int + BLOCK_SIZE as int
                    + BLOCK_ENTRY_BYTES as int,
                !m0.view().contains(key),
                prev@.len() == MAX_HEIGHT,
                forall|lv: int| 0 <= lv < MAX_HEIGHT ==> m0.prev_ok(#[trigger] prev@[lv], lv, key),
                l <= height,
                1 <= height <= MAX_HEIGHT,
                n == m0.count(),
                self.model().order == m0.order.insert(fg, n),
                splice_state(m0, self.model(), prev@, key, height as int, n, l as int),
            decreases height - l,
        {
            let ghost ll = l as int;
            let ghost hh = height as int;
            let ghost ma = self.model();
            let p = prev[l];
            proof {
                assert(m0.prev_ok(prev@[ll], ll, key));
                assert(p < n);
                assert(ma.height_of(p as int) == m0.height_of(p as int));
                assert(ma.link(p as int, ll) == m0.link(p as int, ll));
            }
            let succ = self.nodes[p].next(l);
            self.set_link(n, l, succ);
            let ghost mb = self.model();
            self.set_link(p, l, Some(n));
            proof {
                let mc = self.model();
                assert forall|lv: int| 0 <= lv < ll + 1 implies #[trigger] mc.link(n as int, lv)
                    == m0.link(prev@[lv] as int, lv) by {
                    if lv < ll {
                        assert(mc.link(n as int, lv) == mb.link(n as int, lv));
                        assert(mb.link(n as int, lv) == ma.link(n as int, lv));
                    } else {
                        assert(mc.link(n as int, ll) == mb.link(n as int, ll));
                    }
                };
                assert forall|lv: int| ll + 1 <= lv < hh implies #[trigger] mc.link(n as int, lv)
                    is None by {
                    assert(mc.link(n as int, lv) == mb.link(n as int, lv));
                    assert(mb.link(n as int, lv) == ma.link(n as int, lv));
                    assert(ma.link(n as int, lv) is None);
                };
                assert forall|lv: int| 0 <= lv < ll + 1 implies #[trigger] mc.link(
                    prev@[lv] as int,
                    lv,
                ) == Some(n) by {
                    if lv < ll {
                        assert(m0.prev_ok(prev@[lv], lv, key));
                        assert(prev@[lv] < n);
                        assert(mc.link(prev@[lv] as int, lv) == mb.link(prev@[lv] as int, lv));
                        assert(mb.link(prev@[lv] as int, lv) == ma.link(prev@[lv] as int, lv));
                    }
                };
                assert forall|j: int, lv: int|
                    0 <= j < m0.count() && 0 <= lv < m0.height_of(j) && !(0 <= lv < ll + 1 && j
                        == prev@[lv] as int) implies #[trigger] mc.link(j, lv) == m0.link(
                    j,
                    lv,
                ) by {
                    assert(mc.link(j, lv) == mb.link(j, lv));
                    assert(mb.link(j, lv) == ma.link(j, lv));
                    assert(ma.link(j, lv) == m0.link(j, lv));
                };
                assert(splice_state(m0, mc, prev@, key, hh, n, ll + 1));
            }
            l = l + 1;
        }
        proof {
            lemma_insert_wf(m0, self.model(), prev@, key, height as int, n, fg);
        }
    }
}

/// The wiring state once the new node `n` is published on its lowest `l`
/// levels: `m` differs from `m0` by the appended node record, the possibly
/// raised maximum height, and the spliced cells of the levels below `l`.
spec fn splice_state(
    m0: Model,
    m: Model,
    prev: Seq<usize>,
    key: u64,
    height: int,
    n: usize,
    l: int,
) -> bool {
    &&& m.count() == m0.count() + 1
    &&& n == m0.count()
    &&& m.max_height == (if height > m0.max_height {
        height
    } else {
        m0.max_height
    })
    &&& m.key_of(n as int) == key
    &&& m.height_of(n as int) == height
    &&& forall|j: int| 0 <= j < m0.count() ==> #[trigger] m.key_of(j) == m0.key_of(j)
    &&& forall|j: int| 0 <= j < m0.count() ==> #[trigger] m.height_of(j) == m0.height_of(j)
    &&& forall|lv: int|
        0 <= lv < l ==> #[trigger] m.link(n as int, lv) == m0.link(prev[lv] as int, lv)
    &&& forall|lv: int| l <= lv < height ==> #[trigger] m.link(n as int, lv) is None
    &&& forall|lv: int| 0 <= lv < l ==> #[trigger] m.link(prev[lv] as int, lv) == Some(n)
    &&& forall|j: int, lv: int|
        0 <= j < m0.count() && 0 <= lv < m0.height_of(j) && !(0 <= lv < l && j == prev[lv] as int)
            ==> #[trigger] m.link(j, lv) == m0.link(j, lv)
}

/// A node the order holds is a real non-head node with a well-defined rank.
proof fn lemma_member_range(m: Model, n: usize)
    requires
        m.inv(),
        m.order.contains(n),
    ensures
        1 <= n < m.count(),
        0 <= m.rank(n) < m.order.len(),
        m.order[m.rank(n)] == n,
{
    let p = choose|p: int| 0 <= p < m.order.len() && m.order[p] == n;
    assert(1 <= m.order[p] < m.count());
    lemma_rank(m, n);
}

/// Ordered-traversal law: the keys of a well-formed list are strictly
/// increasing along its view, so a forward walk by `next` yields ascending
/// keys and a backward walk by `prev` descending ones, each key once.
pub proof fn lemma_view_sorted(l: SkipList)
    requires
        l.wf(),
    ensures
        sorted_strict(l@),
{
    lemma_view_sorted_model(l.model());
}

/// A position handle over a [`SkipList`]: either invalid, or resting on one
/// inserted node, never on the head sentinel.
pub struct SkipListIterator<'a> {
    node: Option<usize>,
    list: &'a SkipList,
}

impl<'a> SkipListIterator<'a> {
    /// The list this cursor walks.
    pub closed spec fn lst(self) -> SkipList {
        *self.list
    }

    /// The cursor names nothing, or a node its list really holds.
    pub closed spec fn wf(self) -> bool {
        &&& self.lst().wf()
        &&& match self.node {
            None => true,
            Some(n) => self.lst().model().order.contains(n),
        }
    }

    /// The cursor rests on a node.
    pub closed spec fn is_valid(self) -> bool {
        self.node is Some
    }

    /// Position of that node in the ascending key sequence; meaningful only
    /// while the cursor is valid.
    pub closed spec fn pos(self) -> int {
        self.lst().model().rank(self.node->Some_0)
    }

    /// A fresh, invalid cursor over `list`.
    pub fn new(list: &'a SkipList) -> (it: SkipListIterator<'a>)
        ensures
            it.lst() == *list,
            !it.is_valid(),
            list.wf() ==> it.wf(),
    {
        SkipListIterator { node: None, list }
    }

    /// Whether the cursor rests on a node.
    pub fn valid(&self) -> (r: bool)
        ensures
            r == self.is_valid(),
    {
        self.node.is_some()
    }

    /// The key under the cursor.
    pub fn key(&self) -> (k: u64)
        requires
            self.wf(),
            self.is_valid(),
        ensures
            0 <= self.pos() < self.lst()@.len(),
            k == self.lst()@[self.pos()],
    {
        let n = self.node.unwrap();
        proof {
            let m = self.list.model();
            lemma_member_range(m, n);
            lemma_view_index(m, m.rank(n));
        }
        self.list.nodes[n].key
    }

    /// Advances to the next node in key order; at the last node the cursor
    /// becomes invalid.
    pub fn next(&mut self)
        requires
            old(self).wf(),
            old(self).is_valid(),
        ensures
            final(self).wf(),
            final(self).lst() == old(self).lst(),
            old(self).pos() == old(self).lst()@.len() - 1 ==> !final(self).is_valid(),
            old(self).pos() < old(self).lst()@.len() - 1 ==> final(self).is_valid()
                && final(self).pos() == old(self).pos() + 1,
    {
        let n = self.node.unwrap();
        proof {
            let m = self.list.model();
            lemma_member_range(m, n);
            assert(1 <= m.height_of(n as int));
            lemma_inv_chain(m, m.rank(n));
            if m.rank(n) + 1 < m.order.len() {
                lemma_rank_at(m, m.rank(n) + 1);
            }
        }
        self.node = self.list.nodes[n].next(0);
    }

    /// Steps back to the previous node in key order by re-searching for the
    /// current key; at the first node the cursor becomes invalid.
    pub fn prev(&mut self)
        requires
            old(self).wf(),
            old(self).is_valid(),
        ensures
            final(self).wf(),
            final(self).lst() == old(self).lst(),
            old(self).pos() == 0 ==> !final(self).is_valid(),
            old(self).pos() > 0 ==> final(self).is_valid() && final(self).pos() == old(
                self,
            ).pos() - 1,
    {
        let n = self.node.unwrap();
        let ghost m = self.list.model();
        proof {
            lemma_member_range(m, n);
            lemma_view_index(m, m.rank(n));
            lemma_view_sorted_model(m);
            lemma_first_geq_self(m.view(), m.rank(n));
        }
        let k = self.list.nodes[n].key;
        let p = self.list.find_less_than(k);
        proof {
            if m.rank(n) > 0 {
                assert(p == m.order[m.rank(n) - 1]);
                lemma_rank_at(m, m.rank(n) - 1);
            }
        }
        if p == 0 {
            self.node = None;
        } else {
            self.node = Some(p);
        }
    }

    /// Rests the cursor on the first node whose key is at or above `target`,
    /// or makes it invalid when every key lies below `target`.
    pub fn seek(&mut self, target: u64)
        requires
            old(self).wf(),
        ensures
            final(self).wf(),
            final(self).lst() == old(self).lst(),
            ({
                let fg = first_geq(old(self).lst()@, target);
                &&& (fg == old(self).lst()@.len() ==> !final(self).is_valid())
                &&& (fg < old(self).lst()@.len() ==> final(self).is_valid() && final(self).pos()
                    == fg)
            }),
    {
        let found = self.list.find_greater_or_equal(target);
        proof {
            let m = self.list.model();
            let fg = first_geq(m.view(), target);
            if found is Some {
                lemma_rank_at(m, fg);
            }
        }
        self.node = found;
    }

    /// Rests the cursor on the smallest key, or makes it invalid when the
    /// list is empty.
    pub fn seek_to_first(&mut self)
        requires
            old(self).wf(),
        ensures
            final(self).wf(),
            final(self).lst() == old(self).lst(),
            old(self).lst()@.len() == 0 ==> !final(self).is_valid(),
            old(self).lst()@.len() > 0 ==> final(self).is_valid() && final(self).pos() == 0,
    {
        proof {
            let m = self.list.model();
            assert(m.link(0, 0) == m.succ_at(-1));
            if m.order.len() > 0 {
                lemma_rank_at(m, 0);
            }
        }
        self.node = self.list.nodes[0].next(0);
    }

    /// Rests the cursor on the largest key, or makes it invalid when the
    /// list is empty.
    pub fn seek_to_last(&mut self)
        requires
            old(self).wf(),
        ensures
            final(self).wf(),
            final(self).lst() == old(self).lst(),
            old(self).lst()@.len() == 0 ==> !final(self).is_valid(),
            old(self).lst()@.len() > 0 ==> final(self).is_valid() && final(self).pos() == old(
                self,
            ).lst()@.len() - 1,
    {
        let ghost m = self.list.model();
        let p = self.list.find_last();
        proof {
            if m.order.len() > 0 {
                lemma_rank_at(m, m.order.len() - 1);
                assert(1 <= m.order[m.order.len() - 1]);
            }
        }
        if p == 0 {
            self.node = None;
        } else {
            self.node = Some(p);
        }
    }
}

/// The key of a node that the order holds appears in the view.
proof fn lemma_key_in_view(m: Model, t: usize)
    requires
        m.inv(),
        m.order.contains(t),
    ensures
        m.view().contains(m.key_of(t as int)),
{
    let p = choose|p: int| 0 <= p < m.order.len() && m.order[p] == t;
    lemma_view_index(m, p);
    assert(m.view()[p] == m.key_of(t as int));
}

/// After the splice loop has wired every level of the new node and the node
/// took its place in the order, the whole invariant holds again and the view
/// grew by exactly `key` at its boundary position.
proof fn lemma_insert_wf(
    m0: Model,
    m1: Model,
    prev: Seq<usize>,
    key: u64,
    height: int,
    n: usize,
    fg: int,
)
    requires
        m0.inv(),
        !m0.view().contains(key),
        prev.len() == MAX_HEIGHT,
        forall|l: int| 0 <= l < MAX_HEIGHT ==> m0.prev_ok(#[trigger] prev[l], l, key),
        1 <= height <= MAX_HEIGHT,
        n == m0.count(),
        fg == first_geq(m0.view(), key),
        splice_state(m0, m1, prev, key, height, n, height),
        m1.order == m0.order.insert(fg, n),
    ensures
        m1.inv(),
        m1.view() == m0.view().insert(fg, key),
        m1.view().to_set() == m0.view().to_set().insert(key),
        m1.view().len() == m0.view().len() + 1,
{
    let v0 = m0.view();
    let ord0 = m0.order;
    let ord1 = m1.order;
    let cnt0 = m0.count();
    lemma_view_sorted_model(m0);
    lemma_first_geq_bounds(v0, key);
    lemma_first_geq_sorted(v0, key);
    assert(0 <= fg <= ord0.len());
    ord0.insert_ensures(fg, n);
    v0.insert_ensures(fg, key);
    assert(ord1.len() == ord0.len() + 1);

    // every order entry names a real non-head node
    assert forall|p: int| 0 <= p < ord1.len() implies 1 <= #[trigger] ord1[p] < m1.count() by {
        if p < fg {
            assert(ord1[p] == ord0[p]);
        } else if p == fg {
            assert(ord1[p] == n);
        } else {
            assert(ord1[(p - 1) + 1] == ord0[p - 1]);
        }
    };

    // the new view is the old one with `key` inserted at the boundary
    assert forall|p: int| 0 <= p < ord1.len() implies #[trigger] m1.view()[p] == v0.insert(
        fg,
        key,
    )[p] by {
        lemma_view_index(m1, p);
        if p < fg {
            assert(ord1[p] == ord0[p]);
            lemma_view_index(m0, p);
            assert(m1.key_of(ord1[p] as int) == m0.key_of(ord0[p] as int));
        } else if p == fg {
            assert(ord1[p] == n);
        } else {
            assert(ord1[(p - 1) + 1] == ord0[p - 1]);
            lemma_view_index(m0, p - 1);
            assert(v0.insert(fg, key)[(p - 1) + 1] == v0[p - 1]);
            assert(m1.key_of(ord1[p] as int) == m0.key_of(ord0[p - 1] as int));
        }
    };
    assert(m1.view() =~= v0.insert(fg, key));
    lemma_insert_sorted(v0, key);
    let v1 = m1.view();
    assert(sorted_strict(v1));

    // every non-head node is somewhere in the order
    assert forall|j: usize| 1 <= j < m1.count() implies #[trigger] ord1.contains(j) by {
        if j < n {
            assert(ord0.contains(j));
            lemma_insert_contains(ord0, fg, n, j);
        } else {
            assert(j == n);
            assert(ord1[fg] == n);
            assert(ord1.contains(n));
        }
    };

    // keys are strictly increasing along the order
    assert forall|p: int, q: int| 0 <= p < q < ord1.len() implies m1.key_of(
        #[trigger] ord1[p] as int,
    ) < m1.key_of(#[trigger] ord1[q] as int) by {
        lemma_view_index(m1, p);
        lemma_view_index(m1, q);
        assert(v1[p] < v1[q]);
    };

    // heights stay within the published maximum
    assert forall|j: int| 1 <= j < m1.count() implies 1 <= #[trigger] m1.height_of(j)
        <= m1.max_height by {
        if j < cnt0 {
            assert(m1.height_of(j) == m0.height_of(j));
        }
    };

    // the published maximum is witnessed
    if m1.max_height > 1 {
        if height == m1.max_height {
            assert(m1.height_of(n as int) == m1.max_height);
        } else {
            assert(m1.max_height == m0.max_height);
            let w = choose|w: int| 1 <= w < cnt0 && #[trigger] m0.height_of(w) == m0.max_height;
            assert(m1.height_of(w) == m1.max_height);
        }
    }

    // the level-0 chain walks the new order
    let x0 = prev[0];
    assert(m0.prev_ok(x0, 0, key));
    lemma_prev0(m0, x0, key);

    assert(m1.link(0, 0) == m1.succ_at(-1)) by {
        if fg == 0 {
            assert(x0 == 0);
            assert(m1.link(0, 0) == Some(n));
            assert(ord1[0] == n);
        } else {
            assert(x0 == ord0[fg - 1]);
            assert(1 <= x0);
            assert(m1.link(0, 0) == m0.link(0, 0));
            assert(m0.link(0, 0) == m0.succ_at(-1));
            assert(ord0.len() > 0);
            assert(ord1[0] == ord0[0]);
        }
    };

    assert forall|p: int| 0 <= p < ord1.len() implies #[trigger] m1.link(ord1[p] as int, 0)
        == m1.succ_at(p) by {
        if p < fg - 1 {
            assert(ord1[p] == ord0[p]);
            if ord0[p] == x0 {
                lemma_rank_at(m0, p);
                lemma_rank_at(m0, fg - 1);
            }
            assert(m1.link(ord1[p] as int, 0) == m0.link(ord0[p] as int, 0));
            lemma_inv_chain(m0, p);
            assert(m0.succ_at(p) == Some(ord0[p + 1]));
            assert(ord1[p + 1] == ord0[p + 1]);
        } else if fg > 0 && p == fg - 1 {
            assert(ord1[p] == ord0[fg - 1]);
            assert(ord1[p] == x0);
            assert(m1.link(x0 as int, 0) == Some(n));
            assert(ord1[fg] == n);
        } else if p == fg {
            assert(ord1[p] == n);
            assert(m1.link(n as int, 0) == m0.link(x0 as int, 0));
            if fg < ord0.len() {
                assert(m0.link(x0 as int, 0) == Some(ord0[fg]));
                assert(ord1[fg + 1] == ord0[fg]);
            } else {
                assert(m0.link(x0 as int, 0) is None);
            }
        } else {
            assert(ord1[(p - 1) + 1] == ord0[p - 1]);
            let j = ord0[p - 1];
            if fg > 0 && j == x0 {
                lemma_rank_at(m0, p - 1);
                lemma_rank_at(m0, fg - 1);
            }
            if fg == 0 {
                assert(x0 == 0);
                assert(1 <= j);
            }
            assert(m1.link(j as int, 0) == m0.link(j as int, 0));
            lemma_inv_chain(m0, p - 1);
            if p < ord1.len() - 1 {
                assert(m0.succ_at(p - 1) == Some(ord0[p]));
                assert(ord1[p + 1] == ord0[p]);
            } else {
                assert(p - 1 == ord0.len() - 1);
                assert(m0.succ_at(p - 1) is None);
            }
        }
    };

    // every forward cell is well formed
    assert forall|j: int, lv: int|
        0 <= j < m1.count() && 0 <= lv < m1.height_of(j) implies #[trigger] m1.link_ok(j, lv) by {
        if j == n {
            assert(m1.link(j, lv) == m0.link(prev[lv] as int, lv));
            assert(m0.prev_ok(prev[lv], lv, key));
            lemma_inv_link_ok(m0, prev[lv] as int, lv);
            match m1.link(j, lv) {
                None => {},
                Some(t) => {
                    assert(1 <= t < cnt0);
                    assert(m1.height_of(t as int) == m0.height_of(t as int));
                    lemma_insert_contains(ord0, fg, n, t);
                    assert(ord1.contains(t));
                    if m0.key_of(t as int) == key {
                        lemma_key_in_view(m0, t);
                    }
                    assert(m0.key_of(t as int) > key);
                    assert(m1.key_of(t as int) == m0.key_of(t as int));
                    assert(m1.key_of(j) == key);
                },
            }
        } else {
            assert(0 <= j < cnt0);
            assert(m1.height_of(j) == m0.height_of(j));
            if 0 <= lv < height && j == prev[lv] as int {
                assert(m1.link(prev[lv] as int, lv) == Some(n));
                assert(1 <= n < m1.count());
                assert(lv < m1.height_of(n as int));
                assert(ord1[fg] == n);
                assert(ord1.contains(n));
                if j != 0 {
                    assert(m0.prev_ok(prev[lv], lv, key));
                    assert(m0.key_of(j) < key);
                    assert(m1.key_of(j) == m0.key_of(j));
                    assert(m1.key_of(n as int) == key);
                }
            } else {
                assert(m1.link(j, lv) == m0.link(j, lv));
                lemma_inv_link_ok(m0, j, lv);
                match m1.link(j, lv) {
                    None => {},
                    Some(t) => {
                        assert(1 <= t < cnt0);
                        assert(m1.height_of(t as int) == m0.height_of(t as int));
                        lemma_insert_contains(ord0, fg, n, t);
                        assert(ord1.contains(t));
                        assert(m1.key_of(t as int) == m0.key_of(t as int));
                        if j != 0 {
                            assert(m1.key_of(j) == m0.key_of(j));
                        }
                    },
                }
            }
        }
    };

    // the head is bare above the published maximum
    assert forall|lv: int| m1.max_height <= lv < MAX_HEIGHT implies #[trigger] m1.link(0, lv)
        is None by {
        assert(lv >= height);
        assert(lv >= m0.max_height);
        assert(m1.link(0, lv) == m0.link(0, lv));
    };

    assert(m1.inv());
    assert(m1.view().to_set() == v0.to_set().insert(key));
}

} // verus!
