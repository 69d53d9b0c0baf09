use rtw::accel::{nearest_hit, Hit};
use rtw::BVH;

/// A small deterministic generator for test data.
fn lcg(state: &mut u64) -> u64 {
    *state = state.wrapping_mul(6364136223846793005).wrapping_add(1442695040888963407);
    *state >> 33
}

fn keys_for(n: usize, seed: u64) -> Vec<[u32; 3]> {
    let mut s = seed;
    (0..n)
        .map(|_| [lcg(&mut s) as u32 % 1000, lcg(&mut s) as u32 % 1000, lcg(&mut s) as u32 % 1000])
        .collect()
}

fn hits_for(n: usize, seed: u64) -> Vec<Option<u32>> {
    let mut s = seed;
    (0..n)
        .map(|_| {
            if lcg(&mut s) % 3 == 0 {
                None
            } else {
                Some(lcg(&mut s) as u32 % 50)
            }
        })
        .collect()
}

fn summary(h: &Option<Hit<u32>>) -> Option<(usize, u32, u32)> {
    h.as_ref().map(|h| (h.index, h.key, h.record))
}

#[test]
fn build_holds_every_primitive_once() {
    for n in 1..40 {
        let keys = keys_for(n, n as u64);
        let bvh = BVH::build(&keys);
        assert_eq!(bvh.len(), n);
        let mut all = bvh.members_of(bvh.node_count() - 1);
        all.sort();
        assert_eq!(all, (0..n).collect::<Vec<_>>());
    }
}

#[test]
fn single_primitive_is_one_leaf() {
    let bvh = BVH::build(&vec![[3, 4, 5]]);
    assert_eq!(bvh.node_count(), 1);
    assert_eq!(bvh.members_of(0), vec![0]);
}

#[test]
fn nearest_hit_picks_smallest_key() {
    let keys = vec![Some(7u32), None, Some(3), Some(9)];
    let test = |q: usize| keys[q].map(|k| (k, 100 + q as u32));
    let r = nearest_hit(4, &test);
    assert_eq!(summary(&r), Some((2, 3, 102)));
}

#[test]
fn nearest_hit_ties_go_to_lowest_index() {
    let keys = vec![None, Some(5u32), Some(5), Some(8)];
    let test = |q: usize| keys[q].map(|k| (k, q as u32));
    let r = nearest_hit(4, &test);
    assert_eq!(summary(&r), Some((1, 5, 1)));
}

#[test]
fn nearest_hit_none_when_nothing_is_hit() {
    let test = |_q: usize| -> Option<(u32, u32)> { None };
    assert!(nearest_hit(6, &test).is_none());
    assert!(nearest_hit(0, &test).is_none());
}

#[test]
fn hierarchy_matches_linear_scan() {
    for n in 1..60 {
        let keys = keys_for(n, 1000 + n as u64);
        let bvh = BVH::build(&keys);
        for round in 0..5u64 {
            let hits = hits_for(n, round * 77 + n as u64);
            let test = |q: usize| hits[q].map(|k| (k, q as u32 * 10));
            // A box is hit exactly when one of the primitives under it is.
            let boxes: Vec<bool> = (0..bvh.node_count())
                .map(|id| bvh.members_of(id).iter().any(|&q| hits[q].is_some()))
                .collect();
            let box_test = |id: usize| boxes[id];
            let scan = nearest_hit(n, &test);
            let tree = bvh.hit(&box_test, &test);
            assert_eq!(summary(&tree), summary(&scan));
            let always = |_id: usize| true;
            assert_eq!(summary(&bvh.hit(&always, &test)), summary(&scan));
        }
    }
}

#[test]
fn hierarchy_misses_when_root_box_misses() {
    let keys = keys_for(10, 5);
    let bvh = BVH::build(&keys);
    let test = |_q: usize| -> Option<(u32, u32)> { None };
    let never = |_id: usize| false;
    assert!(bvh.hit(&never, &test).is_none());
}

#[test]
fn hierarchy_equal_keys_resolve_to_lowest_index() {
    let keys = keys_for(9, 11);
    let bvh = BVH::build(&keys);
    let test = |q: usize| if q % 2 == 1 { Some((4u32, q as u32)) } else { None };
    let always = |_id: usize| true;
    assert_eq!(summary(&bvh.hit(&always, &test)), Some((1, 4, 1)));
}
