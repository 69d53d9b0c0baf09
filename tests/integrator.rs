use rtw::integrator::{radiance, MAX_DEPTH};
use std::cell::Cell;

#[test]
fn empty_scene_gives_background() {
    let hits = Cell::new(0u32);
    let shaded = Cell::new(0u32);
    for ray in 0..20u64 {
        let hit = |_r: &u64| -> Option<u64> {
            hits.set(hits.get() + 1);
            None
        };
        let emitted = |_h: &u64| -> u64 {
            shaded.set(shaded.get() + 1);
            0
        };
        let scatter = |_r: &u64, _h: &u64| -> Option<(u64, u64)> {
            shaded.set(shaded.get() + 1);
            None
        };
        let background = |r: &u64| r * 3 + 1;
        let combine = |e: u64, a: u64, x: u64| e + a * x;
        let c = radiance(&ray, 0, &hit, &emitted, &scatter, &background, &combine);
        assert_eq!(c, ray * 3 + 1);
    }
    assert_eq!(hits.get(), 20);
    assert_eq!(shaded.get(), 0);
}

#[test]
fn mirror_scene_stops_at_depth_cap() {
    let hits = Cell::new(0u32);
    let scatters = Cell::new(0u32);
    let hit = |r: &u64| -> Option<u64> {
        hits.set(hits.get() + 1);
        Some(*r)
    };
    let emitted = |_h: &u64| 1u64;
    let scatter = |r: &u64, _h: &u64| -> Option<(u64, u64)> {
        scatters.set(scatters.get() + 1);
        Some((1, r + 1))
    };
    let background = |_r: &u64| 1000u64;
    let combine = |e: u64, a: u64, x: u64| e + a * x;
    let c = radiance(&0u64, 0, &hit, &emitted, &scatter, &background, &combine);
    assert_eq!(MAX_DEPTH, 50);
    assert_eq!(c, 51);
    assert_eq!(hits.get(), 51);
    assert_eq!(scatters.get(), 50);
}

#[test]
fn absorbed_ray_keeps_emitted_light() {
    let hit = |r: &u64| -> Option<u64> { if *r < 3 { Some(*r) } else { None } };
    let emitted = |h: &u64| h + 10;
    let scatter = |r: &u64, _h: &u64| -> Option<(u64, u64)> {
        if *r == 2 { None } else { Some((2, r + 1)) }
    };
    let background = |_r: &u64| 7u64;
    let combine = |e: u64, a: u64, x: u64| e + a * x;
    // 10 + 2 * (11 + 2 * 12)
    assert_eq!(radiance(&0u64, 0, &hit, &emitted, &scatter, &background, &combine), 80);
    // a ray that leaves the scene after one bounce: 12 + 2 * 7
    let scatter_out = |r: &u64, _h: &u64| -> Option<(u64, u64)> { Some((2, r + 10)) };
    assert_eq!(radiance(&2u64, 0, &hit, &emitted, &scatter_out, &background, &combine), 26);
}

#[test]
fn ray_at_cap_is_not_scattered() {
    let scatters = Cell::new(0u32);
    let hit = |r: &u64| -> Option<u64> { Some(*r) };
    let emitted = |_h: &u64| 4u64;
    let scatter = |r: &u64, _h: &u64| -> Option<(u64, u64)> {
        scatters.set(scatters.get() + 1);
        Some((1, *r))
    };
    let background = |_r: &u64| 0u64;
    let combine = |e: u64, a: u64, x: u64| e + a * x;
    assert_eq!(radiance(&0u64, MAX_DEPTH, &hit, &emitted, &scatter, &background, &combine), 4);
    assert_eq!(radiance(&0u64, MAX_DEPTH - 1, &hit, &emitted, &scatter, &background, &combine), 8);
    assert_eq!(scatters.get(), 1);
}
