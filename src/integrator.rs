use vstd::prelude::*;

verus! {

/// The number of bounces after which a path is cut: a ray at this depth takes the light its
/// surface emits and is not scattered again.
pub const MAX_DEPTH: u32 = 50;

/// `r` is a radiance sample that the integrator may return for `ray` at bounce `depth`.
/// `hit` finds the nearest surface; `emitted` is the light a surface gives off; `scatter`
/// gives, for a surface that scatters the ray, the attenuation and the scattered ray;
/// `background` is the light of a ray that leaves the scene; `combine(e, a, x)` is
/// `e + a * x`. Without a hit the sample is the background; otherwise it is the emitted
/// light, plus the attenuated sample of the scattered ray while `depth` is below the cap.
pub open spec fn is_radiance<Y, H, C, HF, EF, SF, BF, CF>(
    hit: HF,
    emitted: EF,
    scatter: SF,
    background: BF,
    combine: CF,
    ray: Y,
    depth: u32,
    r: C,
) -> bool where
    HF: Fn(&Y) -> Option<H>,
    EF: Fn(&H) -> C,
    SF: Fn(&Y, &H) -> Option<(C, Y)>,
    BF: Fn(&Y) -> C,
    CF: Fn(C, C, C) -> C,

    decreases MAX_DEPTH - depth,
{
    exists|h: Option<H>|
        #[trigger] hit.ensures((&ray,), h) && match h {
            None => background.ensures((&ray,), r),
            Some(rec) => exists|e: C|
                #[trigger] emitted.ensures((&rec,), e) && if depth < MAX_DEPTH {
                    exists|s: Option<(C, Y)>|
                        #[trigger] scatter.ensures((&ray, &rec), s) && match s {
                            Some((att, next)) => exists|rest: C|
                                is_radiance(
                                    hit,
                                    emitted,
                                    scatter,
                                    background,
                                    combine,
                                    next,
                                    (depth + 1) as u32,
                                    rest,
                                ) && #[trigger] combine.ensures((e, att, rest), r),
                            None => r == e,
                        }
                } else {
                    r == e
                },
        }
}

/// One radiance sample along `ray`, which has already bounced `depth` times: the recursive
/// light-transport estimate described by `is_radiance`. The recursion stops at `MAX_DEPTH`.
pub fn radiance<Y, H, C, HF, EF, SF, BF, CF>(
    ray: &Y,
    depth: u32,
    hit: &HF,
    emitted: &EF,
    scatter: &SF,
    background: &BF,
    combine: &CF,
) -> (r: C) where
    HF: Fn(&Y) -> Option<H>,
    EF: Fn(&H) -> C,
    SF: Fn(&Y, &H) -> Option<(C, Y)>,
    BF: Fn(&Y) -> C,
    CF: Fn(C, C, C) -> C,

    requires
        forall|y: &Y| hit.requires((y,)),
        forall|h: &H| emitted.requires((h,)),
        forall|y: &Y, h: &H| scatter.requires((y, h)),
        forall|y: &Y| background.requires((y,)),
        forall|e: C, a: C, x: C| combine.requires((e, a, x)),
    ensures
        is_radiance(*hit, *emitted, *scatter, *background, *combine, *ray, depth, r),
    decreases MAX_DEPTH - depth,
{
    match hit(ray) {
        None => background(ray),
        Some(rec) => {
            let e = emitted(&rec);
            if depth < MAX_DEPTH {
                match scatter(ray, &rec) {
                    Some((att, next)) => {
                        let rest = radiance(
                            &next,
                            depth + 1,
                            hit,
                            emitted,
                            scatter,
                            background,
                            combine,
                        );
                        combine(e, att, rest)
                    },
                    None => e,
                }
            } else {
                e
            }
        },
    }
}

/// In a scene where no ray hits anything, every radiance sample is the background light of
/// the ray itself: no surface is shaded and nothing is scattered.
pub proof fn lemma_empty_scene<Y, H, C, HF, EF, SF, BF, CF>(
    hit: HF,
    emitted: EF,
    scatter: SF,
    background: BF,
    combine: CF,
    ray: Y,
    depth: u32,
    r: C,
) where
    HF: Fn(&Y) -> Option<H>,
    EF: Fn(&H) -> C,
    SF: Fn(&Y, &H) -> Option<(C, Y)>,
    BF: Fn(&Y) -> C,
    CF: Fn(C, C, C) -> C,

    requires
        forall|y: &Y, h: Option<H>| #[trigger] hit.ensures((y,), h) ==> h is None,
        is_radiance(hit, emitted, scatter, background, combine, ray, depth, r),
    ensures
        background.ensures((&ray,), r),
{
}

/// At the depth cap a sample never recurses: it is the background light when nothing is hit,
/// and otherwise the light the hit surface emits, however that surface scatters.
pub proof fn lemma_depth_cap<Y, H, C, HF, EF, SF, BF, CF>(
    hit: HF,
    emitted: EF,
    scatter: SF,
    background: BF,
    combine: CF,
    ray: Y,
    depth: u32,
    r: C,
) where
    HF: Fn(&Y) -> Option<H>,
    EF: Fn(&H) -> C,
    SF: Fn(&Y, &H) -> Option<(C, Y)>,
    BF: Fn(&Y) -> C,
    CF: Fn(C, C, C) -> C,

    requires
        depth >= MAX_DEPTH,
        is_radiance(hit, emitted, scatter, background, combine, ray, depth, r),
    ensures
        exists|h: Option<H>|
            #[trigger] hit.ensures((&ray,), h) && match h {
                None => background.ensures((&ray,), r),
                Some(rec) => emitted.ensures((&rec,), r),
            },
{
}

} // verus!
