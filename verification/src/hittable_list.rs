//! A scene as a list of objects, and the nearest hit of a ray among them.

use vstd::prelude::*;

verus! {

/// An ordered list of the objects of a scene.
pub struct HittableList<O> {
    objects: Vec<O>,
}

impl<O> View for HittableList<O> {
    type V = Seq<O>;

    closed spec fn view(&self) -> Seq<O> {
        self.objects@
    }
}

/// Whether testing `objects` one after the other, each only up to the hit
/// found before it, can end with the bound `closest` and the hit `found`.
///
/// The scan starts with the bound `time_max` and no hit. An object that
/// reports a hit within the bound replaces the hit, and the time of its hit
/// becomes the bound for the objects after it; an object that reports none
/// leaves both as they were.
pub open spec fn scans<O, R, S, H, FH, FT>(
    hit: FH,
    time: FT,
    objects: Seq<O>,
    ray: R,
    time_min: S,
    time_max: S,
    closest: S,
    found: Option<H>,
) -> bool where FH: Fn(&O, &R, &S, &S) -> Option<H>, FT: Fn(&H) -> S
    decreases objects.len(),
{
    if objects.len() == 0 {
        closest == time_max && found is None
    } else {
        exists|bound: S, earlier: Option<H>, reported: Option<H>|
            scans(hit, time, objects.drop_last(), ray, time_min, time_max, bound, earlier)
                && #[trigger] step(
                hit,
                time,
                objects.last(),
                ray,
                time_min,
                bound,
                earlier,
                reported,
                closest,
                found,
            )
    }
}

/// One object's part in a scan: what it reports for the bound so far, and
/// what bound and hit the scan goes on with.
pub open spec fn step<O, R, S, H, FH, FT>(
    hit: FH,
    time: FT,
    object: O,
    ray: R,
    time_min: S,
    bound: S,
    earlier: Option<H>,
    reported: Option<H>,
    closest: S,
    found: Option<H>,
) -> bool where FH: Fn(&O, &R, &S, &S) -> Option<H>, FT: Fn(&H) -> S {
    &&& hit.ensures((&object, &ray, &time_min, &bound), reported)
    &&& match reported {
        Some(record) => time.ensures((&record,), closest) && found == Some(record),
        None => closest == bound && found == earlier,
    }
}

/// A scan of no object finds nothing and leaves the bound as it was.
pub proof fn lemma_scan_of_nothing<O, R, S, H, FH, FT>(
    hit: FH,
    time: FT,
    ray: R,
    time_min: S,
    time_max: S,
    closest: S,
    found: Option<H>,
) where FH: Fn(&O, &R, &S, &S) -> Option<H>, FT: Fn(&H) -> S
    ensures
        scans(hit, time, Seq::<O>::empty(), ray, time_min, time_max, closest, found) <==> (closest
            == time_max && found is None),
{
}

/// Where no object ever reports a hit, the scan finds nothing.
pub proof fn lemma_all_miss<O, R, S, H, FH, FT>(
    hit: FH,
    time: FT,
    objects: Seq<O>,
    ray: R,
    time_min: S,
    time_max: S,
    closest: S,
    found: Option<H>,
) where FH: Fn(&O, &R, &S, &S) -> Option<H>, FT: Fn(&H) -> S
    requires
        forall|k: int, bound: S, reported: Option<H>|
            0 <= k < objects.len() && #[trigger] hit.ensures(
                (&objects[k], &ray, &time_min, &bound),
                reported,
            ) ==> reported is None,
        scans(hit, time, objects, ray, time_min, time_max, closest, found),
    ensures
        found is None,
        closest == time_max,
    decreases objects.len(),
{
    if objects.len() > 0 {
        let (bound, earlier, reported): (S, Option<H>, Option<H>) = choose|
            bound: S,
            earlier: Option<H>,
            reported: Option<H>,
        |
            scans(hit, time, objects.drop_last(), ray, time_min, time_max, bound, earlier)
                && #[trigger] step(
                hit,
                time,
                objects.last(),
                ray,
                time_min,
                bound,
                earlier,
                reported,
                closest,
                found,
            );
        let rest = objects.drop_last();
        assert forall|k: int, low: S, out: Option<H>|
            0 <= k < rest.len() && #[trigger] hit.ensures(
                (&rest[k], &ray, &time_min, &low),
                out,
            ) implies out is None by {
            assert(rest[k] == objects[k]);
        }
        lemma_all_miss(hit, time, rest, ray, time_min, time_max, bound, earlier);
        assert(objects.last() == objects[objects.len() - 1]);
    }
}

/// A hit that the scan finds is a hit that one of the objects reported.
pub proof fn lemma_found_was_reported<O, R, S, H, FH, FT>(
    hit: FH,
    time: FT,
    objects: Seq<O>,
    ray: R,
    time_min: S,
    time_max: S,
    closest: S,
    found: Option<H>,
) where FH: Fn(&O, &R, &S, &S) -> Option<H>, FT: Fn(&H) -> S
    requires
        scans(hit, time, objects, ray, time_min, time_max, closest, found),
        found is Some,
    ensures
        exists|k: int, bound: S|
            0 <= k < objects.len() && #[trigger] hit.ensures(
                (&objects[k], &ray, &time_min, &bound),
                found,
            ),
    decreases objects.len(),
{
    if objects.len() > 0 {
        let (bound, earlier, reported): (S, Option<H>, Option<H>) = choose|
            bound: S,
            earlier: Option<H>,
            reported: Option<H>,
        |
            scans(hit, time, objects.drop_last(), ray, time_min, time_max, bound, earlier)
                && #[trigger] step(
                hit,
                time,
                objects.last(),
                ray,
                time_min,
                bound,
                earlier,
                reported,
                closest,
                found,
            );
        let rest = objects.drop_last();
        let last = objects.len() - 1;
        assert(objects.last() == objects[last]);
        if reported is Some {
            assert(hit.ensures((&objects[last], &ray, &time_min, &bound), found));
        } else {
            lemma_found_was_reported(hit, time, rest, ray, time_min, time_max, bound, earlier);
            let (k, low): (int, S) = choose|k: int, low: S|
                0 <= k < rest.len() && #[trigger] hit.ensures(
                    (&rest[k], &ray, &time_min, &low),
                    found,
                );
            assert(rest[k] == objects[k]);
            assert(hit.ensures((&objects[k], &ray, &time_min, &low), found));
        }
    }
}

/// Whether `object` can report, bounded by `bound`, a hit whose ray
/// parameter is `at`.
pub open spec fn hits_at<O, R, S, H, FH, FT>(
    hit: FH,
    time: FT,
    object: O,
    ray: R,
    time_min: S,
    bound: S,
    at: S,
) -> bool where FH: Fn(&O, &R, &S, &S) -> Option<H>, FT: Fn(&H) -> S {
    exists|record: H| #[trigger]
        hit.ensures((&object, &ray, &time_min, &bound), Some(record)) && time.ensures(
            (&record,),
            at,
        )
}

/// Whether the objects answer as surfaces on a ray do, where `before(a, b)`
/// says that the ray parameter `a` is at or before `b`.
///
/// The ray parameters stand in one line. An object reports no hit beyond its
/// bound. An object that reports no hit within a bound has its hit, if it has
/// one at all, beyond that bound. And an object is hit at one ray parameter
/// only, whatever the bound.
pub open spec fn on_a_line<O, R, S, H, FH, FT>(
    hit: FH,
    time: FT,
    before: spec_fn(S, S) -> bool,
    objects: Seq<O>,
    ray: R,
    time_min: S,
) -> bool where FH: Fn(&O, &R, &S, &S) -> Option<H>, FT: Fn(&H) -> S {
    &&& forall|a: S, b: S| #[trigger] before(a, b) || before(b, a)
    &&& forall|a: S, b: S|
        #![trigger before(a, b), before(b, a)]
        before(a, b) && before(b, a) ==> a == b
    &&& forall|a: S, b: S, c: S| #[trigger] before(a, b) && #[trigger] before(b, c) ==> before(a, c)
    &&& forall|k: int, bound: S, at: S|
        0 <= k < objects.len() && #[trigger] hits_at(
            hit,
            time,
            objects[k],
            ray,
            time_min,
            bound,
            at,
        ) ==> before(at, bound)
    &&& forall|k: int, bound: S, other: S, at: S|
        0 <= k < objects.len() && #[trigger] hit.ensures(
            (&objects[k], &ray, &time_min, &bound),
            None,
        ) && #[trigger] hits_at(hit, time, objects[k], ray, time_min, other, at) ==> !before(
            at,
            bound,
        )
    &&& forall|k: int, bound: S, at: S, other: S, there: S|
        0 <= k < objects.len() && #[trigger] hits_at(
            hit,
            time,
            objects[k],
            ray,
            time_min,
            bound,
            at,
        ) && #[trigger] hits_at(hit, time, objects[k], ray, time_min, other, there) ==> at
            == there
}

/// What holds of the objects of one list holds of any list made of them.
pub proof fn lemma_on_a_line_members<O, R, S, H, FH, FT>(
    hit: FH,
    time: FT,
    before: spec_fn(S, S) -> bool,
    objects: Seq<O>,
    others: Seq<O>,
    ray: R,
    time_min: S,
) where FH: Fn(&O, &R, &S, &S) -> Option<H>, FT: Fn(&H) -> S
    requires
        on_a_line(hit, time, before, objects, ray, time_min),
        forall|k: int| 0 <= k < others.len() ==> objects.contains(#[trigger] others[k]),
    ensures
        on_a_line(hit, time, before, others, ray, time_min),
{
    assert forall|k: int, bound: S, at: S|
        0 <= k < others.len() && #[trigger] hits_at(
            hit,
            time,
            others[k],
            ray,
            time_min,
            bound,
            at,
        ) implies before(at, bound) by {
        let j = choose|j: int| 0 <= j < objects.len() && objects[j] == others[k];
        assert(hits_at(hit, time, objects[j], ray, time_min, bound, at));
    }
    assert forall|k: int, bound: S, other: S, at: S|
        0 <= k < others.len() && #[trigger] hit.ensures(
            (&others[k], &ray, &time_min, &bound),
            None,
        ) && #[trigger] hits_at(hit, time, others[k], ray, time_min, other, at) implies !before(
        at,
        bound,
    ) by {
        let j = choose|j: int| 0 <= j < objects.len() && objects[j] == others[k];
        assert(hit.ensures((&objects[j], &ray, &time_min, &bound), None));
        assert(hits_at(hit, time, objects[j], ray, time_min, other, at));
    }
    assert forall|k: int, bound: S, at: S, other: S, there: S|
        0 <= k < others.len() && #[trigger] hits_at(
            hit,
            time,
            others[k],
            ray,
            time_min,
            bound,
            at,
        ) && #[trigger] hits_at(hit, time, others[k], ray, time_min, other, there) implies at
        == there by {
        let j = choose|j: int| 0 <= j < objects.len() && objects[j] == others[k];
        assert(hits_at(hit, time, objects[j], ray, time_min, bound, at));
        assert(hits_at(hit, time, objects[j], ray, time_min, other, there));
    }
}

/// The scan finds the nearest hit.
///
/// The bound it ends with is at or before every hit that any of the objects
/// reports, within whatever bound. Where a hit was found, the bound is the ray
/// parameter of that hit, and one of the objects reports a hit there. Where
/// none was found, the bound is the upper bound itself, and every object
/// reported that it is not hit within the full bounds.
pub proof fn lemma_scan_finds_the_nearest<O, R, S, H, FH, FT>(
    hit: FH,
    time: FT,
    before: spec_fn(S, S) -> bool,
    objects: Seq<O>,
    ray: R,
    time_min: S,
    time_max: S,
    closest: S,
    found: Option<H>,
) where FH: Fn(&O, &R, &S, &S) -> Option<H>, FT: Fn(&H) -> S
    requires
        on_a_line(hit, time, before, objects, ray, time_min),
        scans(hit, time, objects, ray, time_min, time_max, closest, found),
    ensures
        forall|k: int, bound: S, at: S|
            0 <= k < objects.len() && #[trigger] hits_at(
                hit,
                time,
                objects[k],
                ray,
                time_min,
                bound,
                at,
            ) ==> before(closest, at),
        before(closest, time_max),
        found matches Some(record) ==> time.ensures((&record,), closest),
        found is Some ==> exists|k: int, bound: S|
            0 <= k < objects.len() && #[trigger] hits_at(
                hit,
                time,
                objects[k],
                ray,
                time_min,
                bound,
                closest,
            ),
        found is None ==> closest == time_max,
        found is None ==> forall|k: int|
            0 <= k < objects.len() ==> #[trigger] hit.ensures(
                (&objects[k], &ray, &time_min, &time_max),
                None,
            ),
    decreases objects.len(),
{
    assert(before(closest, closest) || before(closest, closest));
    if objects.len() > 0 {
        let (bound, earlier, reported): (S, Option<H>, Option<H>) = choose|
            bound: S,
            earlier: Option<H>,
            reported: Option<H>,
        |
            scans(hit, time, objects.drop_last(), ray, time_min, time_max, bound, earlier)
                && #[trigger] step(
                hit,
                time,
                objects.last(),
                ray,
                time_min,
                bound,
                earlier,
                reported,
                closest,
                found,
            );
        let rest = objects.drop_last();
        let last = objects.len() - 1;
        assert forall|k: int| 0 <= k < rest.len() implies objects.contains(#[trigger] rest[k]) by {
            assert(rest[k] == objects[k]);
        }
        lemma_on_a_line_members(hit, time, before, objects, rest, ray, time_min);
        lemma_scan_finds_the_nearest(
            hit,
            time,
            before,
            rest,
            ray,
            time_min,
            time_max,
            bound,
            earlier,
        );
        assert(objects.last() == objects[last]);
        match reported {
            Some(record) => {
                assert(hits_at(hit, time, objects[last], ray, time_min, bound, closest));
                assert(before(closest, bound));
            },
            None => {
                if found is Some {
                    let (k, low): (int, S) = choose|k: int, low: S|
                        0 <= k < rest.len() && #[trigger] hits_at(
                            hit,
                            time,
                            rest[k],
                            ray,
                            time_min,
                            low,
                            bound,
                        );
                    assert(rest[k] == objects[k]);
                    assert(hits_at(hit, time, objects[k], ray, time_min, low, closest));
                } else {
                    assert forall|k: int| 0 <= k < objects.len() implies #[trigger] hit.ensures(
                        (&objects[k], &ray, &time_min, &time_max),
                        None,
                    ) by {
                        if k < last {
                            assert(rest[k] == objects[k]);
                        }
                    }
                }
            },
        }
        assert forall|k: int, low: S, at: S|
            0 <= k < objects.len() && #[trigger] hits_at(
                hit,
                time,
                objects[k],
                ray,
                time_min,
                low,
                at,
            ) implies before(closest, at) by {
            if k < last {
                assert(rest[k] == objects[k]);
                assert(hits_at(hit, time, rest[k], ray, time_min, low, at));
                assert(before(bound, at));
            } else {
                match reported {
                    Some(record) => {
                        assert(closest == at);
                    },
                    None => {
                        assert(!before(at, bound));
                        assert(before(at, bound) || before(bound, at));
                    },
                }
            }
        }
    }
}

/// The order of the list does not matter to how near the nearest hit is: two
/// lists of the same objects end their scans with the same bound, and either
/// both find a hit or neither does.
pub proof fn lemma_order_does_not_matter<O, R, S, H, FH, FT>(
    hit: FH,
    time: FT,
    before: spec_fn(S, S) -> bool,
    objects: Seq<O>,
    others: Seq<O>,
    ray: R,
    time_min: S,
    time_max: S,
    closest: S,
    found: Option<H>,
    other_closest: S,
    other_found: Option<H>,
) where FH: Fn(&O, &R, &S, &S) -> Option<H>, FT: Fn(&H) -> S
    requires
        on_a_line(hit, time, before, objects, ray, time_min),
        forall|k: int| 0 <= k < others.len() ==> objects.contains(#[trigger] others[k]),
        forall|k: int| 0 <= k < objects.len() ==> others.contains(#[trigger] objects[k]),
        scans(hit, time, objects, ray, time_min, time_max, closest, found),
        scans(hit, time, others, ray, time_min, time_max, other_closest, other_found),
    ensures
        closest == other_closest,
        found is None <==> other_found is None,
{
    lemma_on_a_line_members(hit, time, before, objects, others, ray, time_min);
    lemma_scan_finds_the_nearest(
        hit,
        time,
        before,
        objects,
        ray,
        time_min,
        time_max,
        closest,
        found,
    );
    lemma_scan_finds_the_nearest(
        hit,
        time,
        before,
        others,
        ray,
        time_min,
        time_max,
        other_closest,
        other_found,
    );
    if other_found is Some {
        let (k, bound): (int, S) = choose|k: int, bound: S|
            0 <= k < others.len() && #[trigger] hits_at(
                hit,
                time,
                others[k],
                ray,
                time_min,
                bound,
                other_closest,
            );
        let j = choose|j: int| 0 <= j < objects.len() && objects[j] == others[k];
        assert(hits_at(hit, time, objects[j], ray, time_min, bound, other_closest));
        assert(before(closest, other_closest));
        if found is None {
            assert(hit.ensures((&objects[j], &ray, &time_min, &time_max), None));
            assert(before(other_closest, time_max));
            assert(false);
        }
    }
    if found is Some {
        let (k, bound): (int, S) = choose|k: int, bound: S|
            0 <= k < objects.len() && #[trigger] hits_at(
                hit,
                time,
                objects[k],
                ray,
                time_min,
                bound,
                closest,
            );
        let j = choose|j: int| 0 <= j < others.len() && others[j] == objects[k];
        assert(hits_at(hit, time, others[j], ray, time_min, bound, closest));
        assert(before(other_closest, closest));
        if other_found is None {
            assert(hit.ensures((&others[j], &ray, &time_min, &time_max), None));
            assert(before(closest, time_max));
            assert(false);
        }
    }
}

/// Of two objects on one ray the nearer one wins, whichever stands first in
/// the list.
///
/// `near` and `far` are both hit within the bounds, `near` at `near_time` and
/// `far` at `far_time`. That `near` is the nearer one shows in two tests:
/// bounded by `near_time`, `far` is not hit; bounded by `far_time`, `near`
/// still is.
pub proof fn lemma_nearer_wins<O, R, S, H, FH, FT>(
    hit: FH,
    time: FT,
    near: O,
    far: O,
    ray: R,
    time_min: S,
    time_max: S,
    near_record: H,
    near_time: S,
    far_record: H,
    far_time: S,
    closest: S,
    found: Option<H>,
) where FH: Fn(&O, &R, &S, &S) -> Option<H>, FT: Fn(&H) -> S
    requires
        forall|out: Option<H>| #[trigger]
            hit.ensures((&near, &ray, &time_min, &time_max), out) ==> out == Some(near_record),
        forall|out: Option<H>| #[trigger]
            hit.ensures((&far, &ray, &time_min, &time_max), out) ==> out == Some(far_record),
        forall|out: S| #[trigger] time.ensures((&near_record,), out) ==> out == near_time,
        forall|out: S| #[trigger] time.ensures((&far_record,), out) ==> out == far_time,
        forall|out: Option<H>| #[trigger]
            hit.ensures((&far, &ray, &time_min, &near_time), out) ==> out is None,
        forall|out: Option<H>| #[trigger]
            hit.ensures((&near, &ray, &time_min, &far_time), out) ==> out == Some(near_record),
        scans(hit, time, seq![near, far], ray, time_min, time_max, closest, found) || scans(
            hit,
            time,
            seq![far, near],
            ray,
            time_min,
            time_max,
            closest,
            found,
        ),
    ensures
        found == Some(near_record),
        closest == near_time,
{
    let objects = if scans(hit, time, seq![near, far], ray, time_min, time_max, closest, found) {
        seq![near, far]
    } else {
        seq![far, near]
    };
    let (bound, earlier, reported): (S, Option<H>, Option<H>) = choose|
        bound: S,
        earlier: Option<H>,
        reported: Option<H>,
    |
        scans(hit, time, objects.drop_last(), ray, time_min, time_max, bound, earlier)
            && #[trigger] step(
            hit,
            time,
            objects.last(),
            ray,
            time_min,
            bound,
            earlier,
            reported,
            closest,
            found,
        );
    let first = objects.drop_last();
    assert(first.len() == 1);
    assert(first.drop_last() =~= Seq::<O>::empty());
    let (bound0, earlier0, reported0): (S, Option<H>, Option<H>) = choose|
        bound0: S,
        earlier0: Option<H>,
        reported0: Option<H>,
    |
        scans(hit, time, first.drop_last(), ray, time_min, time_max, bound0, earlier0)
            && #[trigger] step(
            hit,
            time,
            first.last(),
            ray,
            time_min,
            bound0,
            earlier0,
            reported0,
            bound,
            earlier,
        );
    assert(bound0 == time_max);
    assert(objects.last() == objects[1]);
    assert(first.last() == objects[0]);
}

impl<O> HittableList<O> {
    /// A scene without objects.
    pub fn new() -> (list: Self)
        ensures
            list@ == Seq::<O>::empty(),
    {
        Self { objects: Vec::new() }
    }

    /// Puts `object` at the end of the list.
    pub fn add(&mut self, object: O)
        ensures
            final(self)@ == old(self)@.push(object),
    {
        self.objects.push(object);
    }

    /// Takes every object out of the list.
    pub fn clear(&mut self)
        ensures
            final(self)@ == Seq::<O>::empty(),
    {
        self.objects.clear();
    }

    /// The number of objects.
    pub fn len(&self) -> (count: usize)
        ensures
            count == self@.len(),
    {
        self.objects.len()
    }

    /// The nearest hit of `ray` among the objects, within the given bounds.
    ///
    /// `hit` tests one object against the ray between two bounds, and `time`
    /// reads the ray parameter of a hit. Every object is tested, each only up
    /// to the nearest hit found before it.
    pub fn hit<R, S, H, FH, FT>(
        &self,
        ray: &R,
        time_min: &S,
        time_max: S,
        hit: &FH,
        time: &FT,
    ) -> (found: Option<H>) where FH: Fn(&O, &R, &S, &S) -> Option<H>, FT: Fn(&H) -> S
        requires
            forall|o: O, r: R, low: S, high: S| #[trigger] hit.requires((&o, &r, &low, &high)),
            forall|h: H| #[trigger] time.requires((&h,)),
        ensures
            exists|closest: S|
                scans(*hit, *time, self@, *ray, *time_min, time_max, closest, found),
            self@.len() == 0 ==> found is None,
    {
        let mut closest_so_far = time_max;
        let mut closest_hit_record: Option<H> = None;
        let mut k: usize = 0;
        while k < self.objects.len()
            invariant
                k <= self@.len(),
                forall|o: O, r: R, low: S, high: S| #[trigger] hit.requires((&o, &r, &low, &high)),
                forall|h: H| #[trigger] time.requires((&h,)),
                scans(
                    *hit,
                    *time,
                    self@.take(k as int),
                    *ray,
                    *time_min,
                    time_max,
                    closest_so_far,
                    closest_hit_record,
                ),
            decreases self@.len() - k,
        {
            let ghost bound = closest_so_far;
            let ghost earlier = closest_hit_record;
            let hit_record = hit(&self.objects[k], ray, time_min, &closest_so_far);
            let ghost reported = hit_record;
            if let Some(record) = hit_record {
                closest_so_far = time(&record);
                closest_hit_record = Some(record);
            }
            proof {
                let seen = self@.take(k + 1);
                assert(seen.drop_last() =~= self@.take(k as int));
                assert(seen.last() == self@[k as int]);
                assert(step(
                    *hit,
                    *time,
                    seen.last(),
                    *ray,
                    *time_min,
                    bound,
                    earlier,
                    reported,
                    closest_so_far,
                    closest_hit_record,
                ));
            }
            k += 1;
        }
        assert(self@.take(k as int) =~= self@);
        closest_hit_record
    }
}

impl<O> Default for HittableList<O> {
    fn default() -> (list: Self)
        ensures
            list@ == Seq::<O>::empty(),
    {
        Self::new()
    }
}

} // verus!
