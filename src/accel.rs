use crate::transform::Axis;
use vstd::prelude::*;

verus! {

broadcast use vstd::seq_lib::group_to_multiset_ensures, vstd::seq_lib::group_seq_properties;

/// A hit reported by one primitive of a scene: the primitive's index, an order key of the
/// ray distance (a smaller key is a nearer hit), and whatever record the primitive produced.
pub struct Hit<R> {
    pub index: usize,
    pub key: u32,
    pub record: R,
}

/// Hit `(ka, ia)` is at least as good as hit `(kb, ib)`: nearer, or as near with a lower
/// primitive index.
pub open spec fn precedes(ka: u32, ia: usize, kb: u32, ib: usize) -> bool {
    ka < kb || (ka == kb && ia <= ib)
}

/// The intersection test gives one answer per primitive.
pub open spec fn deterministic<R, F: Fn(usize) -> Option<(u32, R)>>(test: F) -> bool {
    forall|q: usize, a: Option<(u32, R)>, b: Option<(u32, R)>|
        #[trigger] test.ensures((q,), a) && #[trigger] test.ensures((q,), b) ==> a == b
}

/// `r` is the nearest hit among the primitives of `domain` as `test` reports them: the one
/// with the smallest key, the lowest index among equal keys; `None` when none of them is hit.
pub open spec fn nearest_in<R, F: Fn(usize) -> Option<(u32, R)>>(
    test: F,
    domain: Set<usize>,
    r: Option<Hit<R>>,
) -> bool {
    match r {
        Some(h) => {
            &&& domain.contains(h.index)
            &&& test.ensures((h.index,), Some((h.key, h.record)))
            &&& forall|q: usize, k: u32, rec: R|
                domain.contains(q) && #[trigger] test.ensures((q,), Some((k, rec))) ==> precedes(
                    h.key,
                    h.index,
                    k,
                    q,
                )
        },
        None => forall|q: usize|
            domain.contains(q) ==> #[trigger] test.ensures((q,), None::<(u32, R)>),
    }
}

/// The primitive indices below `n`.
pub open spec fn below(n: nat) -> Set<usize> {
    Set::new(|q: usize| q < n)
}

/// The better of two candidate hits, `a` on a tie.
pub open spec fn pick_nearer<R>(a: Option<Hit<R>>, b: Option<Hit<R>>) -> Option<Hit<R>> {
    match (a, b) {
        (None, _) => b,
        (_, None) => a,
        (Some(ha), Some(hb)) => if precedes(ha.key, ha.index, hb.key, hb.index) {
            a
        } else {
            b
        },
    }
}

/// The nearest hit of a union of two primitive sets is the nearer of the nearest hits of
/// each set.
pub proof fn lemma_nearest_union<R, F: Fn(usize) -> Option<(u32, R)>>(
    test: F,
    da: Set<usize>,
    db: Set<usize>,
    a: Option<Hit<R>>,
    b: Option<Hit<R>>,
)
    requires
        deterministic(test),
        nearest_in(test, da, a),
        nearest_in(test, db, b),
    ensures
        nearest_in(test, da.union(db), pick_nearer(a, b)),
{
    match (a, b) {
        (Some(ha), Some(hb)) => {
            if precedes(ha.key, ha.index, hb.key, hb.index) {
                assert forall|q: usize, k: u32, rec: R|
                    da.union(db).contains(q) && #[trigger] test.ensures(
                        (q,),
                        Some((k, rec)),
                    ) implies precedes(ha.key, ha.index, k, q) by {
                    if db.contains(q) {
                        assert(precedes(hb.key, hb.index, k, q));
                    }
                }
            } else {
                assert forall|q: usize, k: u32, rec: R|
                    da.union(db).contains(q) && #[trigger] test.ensures(
                        (q,),
                        Some((k, rec)),
                    ) implies precedes(hb.key, hb.index, k, q) by {
                    if da.contains(q) {
                        assert(precedes(ha.key, ha.index, k, q));
                    }
                }
            }
        },
        (Some(ha), None) => {
            assert forall|q: usize, k: u32, rec: R|
                da.union(db).contains(q) && #[trigger] test.ensures(
                    (q,),
                    Some((k, rec)),
                ) implies precedes(ha.key, ha.index, k, q) by {
                if db.contains(q) {
                    assert(test.ensures((q,), None::<(u32, R)>));
                }
            }
        },
        (None, Some(hb)) => {
            assert forall|q: usize, k: u32, rec: R|
                da.union(db).contains(q) && #[trigger] test.ensures(
                    (q,),
                    Some((k, rec)),
                ) implies precedes(hb.key, hb.index, k, q) by {
                if da.contains(q) {
                    assert(test.ensures((q,), None::<(u32, R)>));
                }
            }
        },
        (None, None) => {},
    }
}

/// Under a deterministic intersection test the nearest hit is unique. So the hierarchy's
/// answer (`BVH::hit`) and the linear scan's answer (`nearest_hit`) over the same primitives
/// are the same hit: the same primitive, key and record.
pub proof fn lemma_nearest_unique<R, F: Fn(usize) -> Option<(u32, R)>>(
    test: F,
    domain: Set<usize>,
    a: Option<Hit<R>>,
    b: Option<Hit<R>>,
)
    requires
        deterministic(test),
        nearest_in(test, domain, a),
        nearest_in(test, domain, b),
    ensures
        a == b,
{
    match (a, b) {
        (Some(ha), Some(hb)) => {
            assert(precedes(ha.key, ha.index, hb.key, hb.index));
            assert(precedes(hb.key, hb.index, ha.key, ha.index));
            assert(test.ensures((ha.index,), Some((hb.key, hb.record))));
        },
        (Some(ha), None) => {
            assert(test.ensures((ha.index,), None::<(u32, R)>));
        },
        (None, Some(hb)) => {
            assert(test.ensures((hb.index,), None::<(u32, R)>));
        },
        (None, None) => {},
    }
}

/// The better of two candidate hits, `a` on a tie.
fn nearer<R>(a: Option<Hit<R>>, b: Option<Hit<R>>) -> (r: Option<Hit<R>>)
    ensures
        r == pick_nearer(a, b),
{
    match a {
        None => b,
        Some(ha) => match b {
            None => Some(ha),
            Some(hb) => {
                if ha.key < hb.key || (ha.key == hb.key && ha.index <= hb.index) {
                    Some(ha)
                } else {
                    Some(hb)
                }
            },
        },
    }
}

/// Tests primitive `q` alone.
fn test_one<R, F>(q: usize, test: &F) -> (r: Option<Hit<R>>) where F: Fn(usize) -> Option<(u32, R)>
    requires
        test.requires((q,)),
        deterministic(*test),
    ensures
        nearest_in(*test, Set::empty().insert(q), r),
{
    match test(q) {
        Some((key, record)) => Some(Hit { index: q, key, record }),
        None => None,
    }
}

/// The nearest hit among primitives `0..count` by testing every one of them: the smallest
/// key, the lowest index among equal keys, or `None` when no primitive is hit.
pub fn nearest_hit<R, F>(count: usize, test: &F) -> (r: Option<Hit<R>>) where
    F: Fn(usize) -> Option<(u32, R)>,

    requires
        forall|q: usize| q < count ==> test.requires((q,)),
        deterministic(*test),
    ensures
        nearest_in(*test, below(count as nat), r),
{
    let mut best: Option<Hit<R>> = None;
    let mut q: usize = 0;
    while q < count
        invariant
            q <= count,
            forall|q: usize| q < count ==> test.requires((q,)),
            deterministic(*test),
            nearest_in(*test, below(q as nat), best),
        decreases count - q,
    {
        let one = test_one(q, test);
        proof {
            lemma_nearest_union(*test, below(q as nat), Set::empty().insert(q), best, one);
            assert(below(q as nat).union(Set::empty().insert(q)) =~= below((q + 1) as nat));
        }
        best = nearer(best, one);
        q = q + 1;
    }
    best
}


/// A node of a bounding-volume hierarchy, held in an arena. A leaf names one or two
/// primitives; a split names its two children, which stand before it in the arena, and the
/// axis along which its primitives were ordered.
pub enum BvhNode {
    Leaf(Vec<usize>),
    Split(Axis, usize, usize),
}

/// The primitives under node `i` of the arena `nodes`, leaf by leaf from left to right.
pub open spec fn members(nodes: Seq<BvhNode>, i: int) -> Seq<usize>
    decreases i,
{
    if 0 <= i < nodes.len() {
        match nodes[i] {
            BvhNode::Leaf(items) => items@,
            BvhNode::Split(_, l, r) => if l < i && r < i {
                members(nodes, l as int) + members(nodes, r as int)
            } else {
                Seq::empty()
            },
        }
    } else {
        Seq::empty()
    }
}

/// Node `i` is well formed over `count` primitives: a leaf holds one or two primitive
/// indices below `count`; a split points to earlier nodes.
pub open spec fn node_wf(nodes: Seq<BvhNode>, i: int, count: nat) -> bool {
    match nodes[i] {
        BvhNode::Leaf(items) => 1 <= items.len() <= 2 && forall|j: int|
            0 <= j < items.len() ==> items[j] < count,
        BvhNode::Split(_, l, r) => l < i && r < i,
    }
}

/// The indices `0..n` in order.
pub open spec fn index_seq(n: nat) -> Seq<usize> {
    Seq::new(n, |i: int| i as usize)
}

/// An arena of well-formed nodes whose last node, the root, holds each of the primitives
/// `0..count` exactly once.
pub open spec fn tree_wf(nodes: Seq<BvhNode>, count: nat) -> bool {
    &&& nodes.len() > 0
    &&& forall|i: int| 0 <= i < nodes.len() ==> #[trigger] node_wf(nodes, i, count)
    &&& members(nodes, nodes.len() - 1).to_multiset() == index_seq(count).to_multiset()
}

/// Component `axis` of the order key of primitive `p`'s bounding-box minimum.
pub open spec fn corner(keys: Seq<[u32; 3]>, p: usize, axis: int) -> u32 {
    keys[p as int][axis]
}

/// Node `i`, if a split, divides its primitives at the median along its axis: the left
/// child holds the lower half (rounded down) and no key on the left exceeds one on the right.
/// Only nodes of more than two primitives are split.
pub open spec fn split_at_median(nodes: Seq<BvhNode>, keys: Seq<[u32; 3]>, i: int) -> bool {
    match nodes[i] {
        BvhNode::Split(axis, l, r) => {
            &&& members(nodes, i).len() > 2
            &&& members(nodes, l as int).len() == members(nodes, i).len() / 2
            &&& forall|a: int, b: int|
                0 <= a < members(nodes, l as int).len() && 0 <= b < members(
                    nodes,
                    r as int,
                ).len() ==> corner(keys, #[trigger] members(nodes, l as int)[a], axis.index() as int)
                    <= corner(keys, #[trigger] members(nodes, r as int)[b], axis.index() as int)
        },
        BvhNode::Leaf(_) => true,
    }
}

/// Every split of the arena divides its primitives at the median along its axis.
pub open spec fn median_split(nodes: Seq<BvhNode>, keys: Seq<[u32; 3]>) -> bool {
    forall|i: int| 0 <= i < nodes.len() ==> #[trigger] split_at_median(nodes, keys, i)
}

/// Node `n` may only be passed over when none of its primitives is hit: the box test
/// answers `false` for a node only when the primitive test answers `None` for all under it.
pub open spec fn conservative<R, B: Fn(usize) -> bool, F: Fn(usize) -> Option<(u32, R)>>(
    nodes: Seq<BvhNode>,
    box_test: B,
    test: F,
) -> bool {
    forall|n: usize, q: usize|
        n < nodes.len() && #[trigger] box_test.ensures((n,), false) && #[trigger] members(
            nodes,
            n as int,
        ).contains(q) ==> test.ensures((q,), None::<(u32, R)>)
}

/// The members of a node depend only on the arena up to that node.
proof fn lemma_members_prefix(a: Seq<BvhNode>, b: Seq<BvhNode>, i: int)
    requires
        0 <= i < a.len() <= b.len(),
        b.subrange(0, a.len() as int) == a,
    ensures
        members(b, i) == members(a, i),
    decreases i,
{
    assert(a[i] == b[i]);
    match a[i] {
        BvhNode::Split(_, l, r) => {
            if l < i && r < i {
                lemma_members_prefix(a, b, l as int);
                lemma_members_prefix(a, b, r as int);
            }
        },
        _ => {},
    }
}

/// Appending to an arena keeps its nodes well formed and its splits at the median.
proof fn lemma_extend(a: Seq<BvhNode>, b: Seq<BvhNode>, keys: Seq<[u32; 3]>, count: nat)
    requires
        a.len() <= b.len(),
        b.subrange(0, a.len() as int) == a,
        forall|i: int| 0 <= i < a.len() ==> #[trigger] node_wf(a, i, count),
        median_split(a, keys),
    ensures
        forall|i: int| 0 <= i < a.len() ==> #[trigger] node_wf(b, i, count),
        forall|i: int| 0 <= i < a.len() ==> #[trigger] members(b, i) == members(a, i),
        forall|i: int| 0 <= i < a.len() ==> #[trigger] split_at_median(b, keys, i),
{
    assert forall|i: int| 0 <= i < a.len() implies #[trigger] members(b, i) == members(a, i) by {
        lemma_members_prefix(a, b, i);
    }
    assert forall|i: int| 0 <= i < a.len() implies #[trigger] node_wf(b, i, count) by {
        assert(b.subrange(0, a.len() as int)[i] == b[i]);
        assert(node_wf(a, i, count));
    }
    assert forall|i: int| 0 <= i < a.len() implies #[trigger] split_at_median(b, keys, i) by {
        assert(a[i] == b[i]);
        assert(node_wf(a, i, count));
        assert(split_at_median(a, keys, i));
        match a[i] {
            BvhNode::Split(_, l, r) => {
                assert(members(b, l as int) == members(a, l as int));
                assert(members(b, r as int) == members(a, r as int));
            },
            _ => {},
        }
    }
}


/// Relies on `slice::sort_by_key`: the items come out rearranged, in non-decreasing order
/// of component `axis` of their keys. The key lookup panics on an item outside `keys`, which
/// `requires` rules out.
#[verifier::external_body]
fn sort_by_corner(items: &mut Vec<usize>, keys: &Vec<[u32; 3]>, axis: usize)
    requires
        axis < 3,
        forall|j: int| 0 <= j < old(items).len() ==> old(items)[j] < keys.len(),
    ensures
        final(items)@.to_multiset() == old(items)@.to_multiset(),
        forall|i: int, j: int|
            0 <= i < j < final(items).len() ==> corner(keys@, #[trigger] final(items)[i], axis as int)
                <= corner(keys@, #[trigger] final(items)[j], axis as int),
{
    items.sort_by_key(|i| keys[*i][axis]);
}

/// Builds the subtree over `items` at the end of the arena and returns its root.
fn build_node(nodes: &mut Vec<BvhNode>, keys: &Vec<[u32; 3]>, items: Vec<usize>) -> (id: usize)
    requires
        items.len() > 0,
        forall|j: int| 0 <= j < items.len() ==> items[j] < keys.len(),
        forall|i: int|
            0 <= i < old(nodes).len() ==> #[trigger] node_wf(old(nodes)@, i, keys.len() as nat),
        median_split(old(nodes)@, keys@),
    ensures
        old(nodes).len() <= id,
        id + 1 == final(nodes).len(),
        final(nodes)@.subrange(0, old(nodes).len() as int) == old(nodes)@,
        forall|i: int|
            0 <= i < final(nodes).len() ==> #[trigger] node_wf(
                final(nodes)@,
                i,
                keys.len() as nat,
            ),
        median_split(final(nodes)@, keys@),
        members(final(nodes)@, id as int).to_multiset() == items@.to_multiset(),
    decreases items.len(),
{
    let ghost count = keys.len() as nat;
    let ghost given = items@;
    let mut items = items;
    let axis = Axis::random();
    sort_by_corner(&mut items, keys, axis.index());
    let ghost sorted = items@;
    assert(sorted.len() == given.len()) by {
        assert(sorted.to_multiset().len() == given.to_multiset().len());
    }
    assert forall|j: int| 0 <= j < sorted.len() implies sorted[j] < keys.len() by {
        assert(sorted.to_multiset().count(sorted[j]) > 0);
        assert(given.contains(sorted[j]));
    }
    if items.len() <= 2 {
        let ghost before = nodes@;
        nodes.push(BvhNode::Leaf(items));
        proof {
            assert(nodes@.subrange(0, before.len() as int) =~= before);
            lemma_extend(before, nodes@, keys@, count);
            assert(node_wf(nodes@, before.len() as int, count));
            assert(split_at_median(nodes@, keys@, before.len() as int));
        }
        nodes.len() - 1
    } else {
        let mid = items.len() / 2;
        let right = items.split_off(mid);
        let ghost left_s = items@;
        let ghost right_s = right@;
        assert(sorted =~= left_s + right_s);
        let ghost nodes0 = nodes@;
        let l = build_node(nodes, keys, items);
        let ghost nodes1 = nodes@;
        let r = build_node(nodes, keys, right);
        let ghost nodes2 = nodes@;
        nodes.push(BvhNode::Split(axis, l, r));
        proof {
            let nodes3 = nodes@;
            let id = nodes2.len() as int;
            assert(nodes3.subrange(0, nodes2.len() as int) =~= nodes2);
            lemma_extend(nodes2, nodes3, keys@, count);
            lemma_members_prefix(nodes1, nodes2, l as int);
            assert(nodes2.subrange(0, nodes0.len() as int) =~= nodes0) by {
                assert(nodes2.subrange(0, nodes1.len() as int) == nodes1);
                assert(nodes1.subrange(0, nodes0.len() as int) == nodes0);
                assert(nodes2.subrange(0, nodes0.len() as int) =~= nodes2.subrange(
                    0,
                    nodes1.len() as int,
                ).subrange(0, nodes0.len() as int));
            }
            assert(nodes3.subrange(0, nodes0.len() as int) =~= nodes0) by {
                assert(nodes3.subrange(0, nodes0.len() as int) =~= nodes3.subrange(
                    0,
                    nodes2.len() as int,
                ).subrange(0, nodes0.len() as int));
            }
            let ml = members(nodes3, l as int);
            let mr = members(nodes3, r as int);
            assert(ml == members(nodes1, l as int));
            assert(mr == members(nodes2, r as int));
            assert(members(nodes3, id) == ml + mr);
            vstd::seq_lib::lemma_multiset_commutative(ml, mr);
            vstd::seq_lib::lemma_multiset_commutative(left_s, right_s);
            assert(node_wf(nodes3, id, count));
            assert(ml.len() == left_s.len()) by {
                assert(ml.to_multiset().len() == left_s.to_multiset().len());
            }
            assert(mr.len() == right_s.len()) by {
                assert(mr.to_multiset().len() == right_s.to_multiset().len());
            }
            assert forall|x: int, y: int| 0 <= x < ml.len() && 0 <= y < mr.len() implies corner(
                keys@,
                #[trigger] ml[x],
                axis.index() as int,
            ) <= corner(keys@, #[trigger] mr[y], axis.index() as int) by {
                assert(ml.to_multiset().count(ml[x]) > 0);
                assert(left_s.contains(ml[x]));
                let i = choose|i: int| 0 <= i < left_s.len() && left_s[i] == ml[x];
                assert(mr.to_multiset().count(mr[y]) > 0);
                assert(right_s.contains(mr[y]));
                let j = choose|j: int| 0 <= j < right_s.len() && right_s[j] == mr[y];
                assert(sorted[i] == ml[x]);
                assert(sorted[mid + j] == mr[y]);
            }
            assert(split_at_median(nodes3, keys@, id));
        }
        nodes.len() - 1
    }
}

/// A bounding-volume hierarchy over the primitives `0..len()` of a scene. It records only
/// which primitives stand under which node; the boxes and the intersection tests belong to
/// the caller, which answers for node and primitive indices.
pub struct BVH {
    nodes: Vec<BvhNode>,
    count: usize,
}

impl View for BVH {
    type V = Seq<BvhNode>;

    closed spec fn view(&self) -> Seq<BvhNode> {
        self.nodes@
    }
}

impl BVH {
    /// The number of primitives the hierarchy was built over.
    pub closed spec fn spec_len(&self) -> usize {
        self.count
    }

    /// The arena is well formed and its root holds each primitive exactly once.
    pub open spec fn wf(&self) -> bool {
        tree_wf(self@, self.spec_len() as nat)
    }

    /// The number of primitives the hierarchy was built over.
    #[verifier::when_used_as_spec(spec_len)]
    pub fn len(&self) -> (r: usize)
        ensures
            r == self.spec_len(),
    {
        self.count
    }

    /// The number of nodes; node indices run below it, the root being the last.
    pub fn node_count(&self) -> (r: usize)
        ensures
            r == self@.len(),
    {
        self.nodes.len()
    }

    /// Builds a hierarchy over primitives `0..keys.len()`, where `keys[p]` holds the order
    /// keys of the minimum corner of primitive `p`'s bounding box. Each node draws an axis at
    /// random, orders its primitives along it, and splits them at the median; one or two
    /// primitives form a leaf.
    pub fn build(keys: &Vec<[u32; 3]>) -> (r: BVH)
        requires
            keys.len() > 0,
        ensures
            r.wf(),
            r.len() == keys.len(),
            median_split(r@, keys@),
    {
        let mut items: Vec<usize> = Vec::new();
        let mut q: usize = 0;
        while q < keys.len()
            invariant
                q <= keys.len(),
                items@ == index_seq(q as nat),
            decreases keys.len() - q,
        {
            items.push(q);
            proof {
                assert(items@ =~= index_seq((q + 1) as nat));
            }
            q = q + 1;
        }
        let mut nodes: Vec<BvhNode> = Vec::new();
        build_node(&mut nodes, keys, items);
        BVH { nodes, count: keys.len() }
    }

    /// The primitives under node `n`, leaf by leaf from left to right.
    pub fn members_of(&self, n: usize) -> (r: Vec<usize>)
        requires
            self.wf(),
            n < self@.len(),
        ensures
            r@ == members(self@, n as int),
        decreases n,
    {
        assert(node_wf(self@, n as int, self.count as nat));
        match &self.nodes[n] {
            BvhNode::Leaf(items) => items.clone(),
            BvhNode::Split(_, l, r) => {
                let mut a = self.members_of(*l);
                let mut b = self.members_of(*r);
                a.append(&mut b);
                a
            },
        }
    }

    /// The nearest hit under node `id`.
    fn hit_node<R, B, F>(&self, id: usize, box_test: &B, test: &F) -> (r: Option<Hit<R>>) where
        B: Fn(usize) -> bool,
        F: Fn(usize) -> Option<(u32, R)>,

        requires
            self.wf(),
            id < self@.len(),
            forall|n: usize| n < self@.len() ==> box_test.requires((n,)),
            forall|q: usize| q < self.len() ==> test.requires((q,)),
            deterministic(*test),
            conservative(self@, *box_test, *test),
        ensures
            nearest_in(*test, members(self@, id as int).to_set(), r),
        decreases id,
    {
        if !box_test(id) {
            return None;
        }
        assert(node_wf(self@, id as int, self.count as nat));
        match &self.nodes[id] {
            BvhNode::Leaf(items) => {
                let first = test_one(items[0], test);
                if items.len() == 1 {
                    assert(items@.to_set() =~= Set::empty().insert(items[0])) by {
                        assert(items@[0] == items[0]);
                    }
                    first
                } else {
                    let second = test_one(items[1], test);
                    proof {
                        lemma_nearest_union(
                            *test,
                            Set::empty().insert(items[0]),
                            Set::empty().insert(items[1]),
                            first,
                            second,
                        );
                        assert(items@.to_set() =~= Set::empty().insert(items[0]).union(
                            Set::empty().insert(items[1]),
                        )) by {
                            assert(items@[0] == items[0]);
                            assert(items@[1] == items[1]);
                        }
                    }
                    nearer(first, second)
                }
            },
            BvhNode::Split(_, l, r) => {
                let a = self.hit_node(*l, box_test, test);
                let b = self.hit_node(*r, box_test, test);
                proof {
                    let ml = members(self@, *l as int);
                    let mr = members(self@, *r as int);
                    lemma_nearest_union(*test, ml.to_set(), mr.to_set(), a, b);
                    assert(members(self@, id as int) == ml + mr);
                    assert(members(self@, id as int).to_set() =~= ml.to_set().union(mr.to_set()));
                }
                nearer(a, b)
            },
        }
    }

    /// The nearest hit in the scene: the same answer as a linear scan of every primitive
    /// (`nearest_hit`), found by testing only the primitives under nodes whose box is hit.
    /// `box_test(n)` reports whether the ray meets the box of node `n`; `test(q)` intersects
    /// primitive `q`.
    pub fn hit<R, B, F>(&self, box_test: &B, test: &F) -> (r: Option<Hit<R>>) where
        B: Fn(usize) -> bool,
        F: Fn(usize) -> Option<(u32, R)>,

        requires
            self.wf(),
            forall|n: usize| n < self@.len() ==> box_test.requires((n,)),
            forall|q: usize| q < self.len() ==> test.requires((q,)),
            deterministic(*test),
            conservative(self@, *box_test, *test),
        ensures
            nearest_in(*test, below(self.len() as nat), r),
    {
        let root = self.nodes.len() - 1;
        let r = self.hit_node(root, box_test, test);
        proof {
            let m = members(self@, root as int);
            let all = index_seq(self.count as nat);
            assert forall|q: usize| m.to_set().contains(q) <==> below(self.count as nat).contains(
                q,
            ) by {
                if q < self.count {
                    assert(all[q as int] == q);
                    assert(all.contains(q));
                }
                if m.contains(q) {
                    assert(all.to_multiset().count(q) > 0);
                }
            }
            assert(m.to_set() =~= below(self.count as nat));
        }
        r
    }
}

} // verus!
