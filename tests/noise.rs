use rtw::noise::{generate_perm, TABLE_SIZE};
use rtw::Perlin;

fn identity() -> Vec<u8> {
    (0..=255u8).collect()
}

fn gradients() -> Vec<u32> {
    (0..256u32).map(|g| g * 10).collect()
}

#[test]
fn generated_permutation_holds_every_byte_once() {
    for _ in 0..5 {
        let mut p = generate_perm();
        assert_eq!(p.len(), TABLE_SIZE);
        p.sort();
        assert_eq!(p, identity());
    }
}

#[test]
fn identity_tables_hash_by_exclusive_or() {
    let perlin = Perlin::from_tables(identity(), identity(), identity(), gradients()).unwrap();
    assert_eq!(perlin.corner_index(1, 2, 4), 7);
    assert_eq!(perlin.corner_index(5, 5, 9), 9);
    assert_eq!(perlin.corner_index(256 + 3, 512, 0), 3);
    assert_eq!(perlin.corner_index(usize::MAX, 0, 0), 255);
}

#[test]
fn corners_follow_lattice_order() {
    let perlin = Perlin::from_tables(identity(), identity(), identity(), gradients()).unwrap();
    let c = perlin.corners(1, 2, 4);
    let expected: Vec<u32> = vec![
        (1 ^ 2 ^ 4) * 10,
        (1 ^ 2 ^ 5) * 10,
        (1 ^ 3 ^ 4) * 10,
        (1 ^ 3 ^ 5) * 10,
        (2 ^ 2 ^ 4) * 10,
        (2 ^ 2 ^ 5) * 10,
        (2 ^ 3 ^ 4) * 10,
        (2 ^ 3 ^ 5) * 10,
    ];
    assert_eq!(c, expected);
    // the lattice wraps at 256
    let w = perlin.corners(255, 0, 0);
    assert_eq!(w[0], 255 * 10);
    assert_eq!(w[4], 0);
}

#[test]
fn shuffled_tables_use_their_permutations() {
    let px: Vec<u8> = identity().into_iter().rev().collect();
    let perlin = Perlin::from_tables(px, identity(), identity(), gradients()).unwrap();
    assert_eq!(perlin.corner_index(0, 0, 0), 255);
    assert_eq!(perlin.corner_index(3, 1, 0), 252 ^ 1);
}

#[test]
fn invalid_tables_are_refused() {
    let mut dup = identity();
    dup[7] = 8;
    assert!(Perlin::from_tables(dup, identity(), identity(), gradients()).is_none());
    let short: Vec<u8> = (0..255u8).collect();
    assert!(Perlin::from_tables(identity(), short, identity(), gradients()).is_none());
    let few: Vec<u32> = (0..255u32).collect();
    assert!(Perlin::from_tables(identity(), identity(), identity(), few).is_none());
}

#[test]
fn random_tables_need_full_gradient_table() {
    assert!(Perlin::new(gradients()).is_some());
    let few: Vec<u32> = (0..100u32).collect();
    assert!(Perlin::new(few).is_none());
    let p = Perlin::new(gradients()).unwrap();
    for i in 0..20 {
        assert!(p.corner_index(i, i * 3, i * 7) < TABLE_SIZE);
    }
}
