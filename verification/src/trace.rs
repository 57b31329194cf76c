//! Following one ray through a scene, bounce by bounce, to a bounded depth.

use vstd::prelude::*;

verus! {

/// Whether `color` is a radiance that following `ray` for at most `depth`
/// bounces can arrive at.
///
/// With no bounce left the ray carries `black`. Otherwise the ray is tested
/// against the scene. A ray that meets nothing carries the background for that
/// ray. A ray that meets a surface is scattered or absorbed there: an absorbed
/// ray carries `black`, and a scattered ray carries what the outgoing ray
/// brings in with one bounce fewer, weakened by the surface's attenuation.
pub open spec fn traces<R, H, C, FH, FS, FB, FM>(
    hit: FH,
    scatter: FS,
    background: FB,
    attenuate: FM,
    black: C,
    ray: R,
    depth: nat,
    color: C,
) -> bool where
    FH: Fn(&R) -> Option<H>,
    FS: Fn(&R, &H) -> Option<(C, R)>,
    FB: Fn(&R) -> C,
    FM: Fn(C, C) -> C,

    decreases depth,
{
    if depth == 0 {
        color == black
    } else {
        exists|found: Option<H>| #[trigger]
            hit.ensures((&ray,), found) && match found {
                None => background.ensures((&ray,), color),
                Some(record) => exists|bounce: Option<(C, R)>| #[trigger]
                    scatter.ensures((&ray, &record), bounce) && match bounce {
                        None => color == black,
                        Some((attenuation, scattered)) => exists|incoming: C|
                            traces(
                                hit,
                                scatter,
                                background,
                                attenuate,
                                black,
                                scattered,
                                (depth - 1) as nat,
                                incoming,
                            ) && #[trigger] attenuate.ensures((attenuation, incoming), color),
                    },
            }
    }
}

/// With no bounce left a ray carries `black`, whatever the scene holds.
pub proof fn lemma_cutoff_is_black<R, H, C, FH, FS, FB, FM>(
    hit: FH,
    scatter: FS,
    background: FB,
    attenuate: FM,
    black: C,
    ray: R,
    color: C,
) where
    FH: Fn(&R) -> Option<H>,
    FS: Fn(&R, &H) -> Option<(C, R)>,
    FB: Fn(&R) -> C,
    FM: Fn(C, C) -> C,

    ensures
        traces(hit, scatter, background, attenuate, black, ray, 0, color) <==> color == black,
{
}

/// A ray that meets no surface carries the background for that ray, however
/// many bounces it has left, as long as it has one.
pub proof fn lemma_miss_is_background<R, H, C, FH, FS, FB, FM>(
    hit: FH,
    scatter: FS,
    background: FB,
    attenuate: FM,
    black: C,
    ray: R,
    depth: nat,
    color: C,
) where
    FH: Fn(&R) -> Option<H>,
    FS: Fn(&R, &H) -> Option<(C, R)>,
    FB: Fn(&R) -> C,
    FM: Fn(C, C) -> C,

    requires
        depth > 0,
        forall|found: Option<H>| #[trigger] hit.ensures((&ray,), found) ==> found is None,
        traces(hit, scatter, background, attenuate, black, ray, depth, color),
    ensures
        background.ensures((&ray,), color),
{
}

/// A ray whose every meeting with a surface ends in absorption carries
/// `black`.
pub proof fn lemma_absorbed_is_black<R, H, C, FH, FS, FB, FM>(
    hit: FH,
    scatter: FS,
    background: FB,
    attenuate: FM,
    black: C,
    ray: R,
    depth: nat,
    color: C,
) where
    FH: Fn(&R) -> Option<H>,
    FS: Fn(&R, &H) -> Option<(C, R)>,
    FB: Fn(&R) -> C,
    FM: Fn(C, C) -> C,

    requires
        forall|found: Option<H>| #[trigger] hit.ensures((&ray,), found) ==> found is Some,
        forall|record: H, bounce: Option<(C, R)>| #[trigger]
            scatter.ensures((&ray, &record), bounce) ==> bounce is None,
        traces(hit, scatter, background, attenuate, black, ray, depth, color),
    ensures
        color == black,
{
}

/// The radiance that `ray` carries when it is followed for at most `depth`
/// bounces.
pub fn trace<R, H, C, FH, FS, FB, FM>(
    ray: &R,
    depth: usize,
    hit: &FH,
    scatter: &FS,
    background: &FB,
    attenuate: &FM,
    black: C,
) -> (color: C) where
    FH: Fn(&R) -> Option<H>,
    FS: Fn(&R, &H) -> Option<(C, R)>,
    FB: Fn(&R) -> C,
    FM: Fn(C, C) -> C,

    requires
        forall|r: R| #[trigger] hit.requires((&r,)),
        forall|r: R, h: H| #[trigger] scatter.requires((&r, &h)),
        forall|r: R| #[trigger] background.requires((&r,)),
        forall|a: C, b: C| #[trigger] attenuate.requires((a, b)),
    ensures
        traces(*hit, *scatter, *background, *attenuate, black, *ray, depth as nat, color),
        depth == 0 ==> color == black,
    decreases depth,
{
    if depth == 0 {
        return black;
    }
    match hit(ray) {
        None => background(ray),
        Some(record) => match scatter(ray, &record) {
            None => black,
            Some((attenuation, scattered)) => {
                let incoming = trace(
                    &scattered,
                    depth - 1,
                    hit,
                    scatter,
                    background,
                    attenuate,
                    black,
                );
                attenuate(attenuation, incoming)
            },
        },
    }
}

/// Whether `color` can be the sum of `samples` draws, added one after the
/// other to `black`.
pub open spec fn sums<C, FD, FA>(
    draw: FD,
    combine: FA,
    black: C,
    samples: nat,
    color: C,
) -> bool where
    FD: Fn() -> C,
    FA: Fn(C, C) -> C,

    decreases samples,
{
    if samples == 0 {
        color == black
    } else {
        exists|so_far: C, sample: C|
            sums(draw, combine, black, (samples - 1) as nat, so_far) && draw.ensures((), sample)
                && #[trigger] combine.ensures((so_far, sample), color)
    }
}

/// The radiance of one pixel before it is averaged: `samples` draws, summed
/// from `black` in the order in which they are drawn.
pub fn accumulate<C, FD, FA>(samples: usize, draw: &FD, combine: &FA, black: C) -> (color: C) where
    FD: Fn() -> C,
    FA: Fn(C, C) -> C,

    requires
        draw.requires(()),
        forall|a: C, b: C| #[trigger] combine.requires((a, b)),
    ensures
        sums(*draw, *combine, black, samples as nat, color),
{
    let mut color = black;
    let mut drawn: usize = 0;
    while drawn < samples
        invariant
            drawn <= samples,
            draw.requires(()),
            forall|a: C, b: C| #[trigger] combine.requires((a, b)),
            sums(*draw, *combine, black, drawn as nat, color),
        decreases samples - drawn,
    {
        let sample = draw();
        color = combine(color, sample);
        drawn += 1;
    }
    color
}

} // verus!
