//! Damping of the changes from one table to the next.
//!
//! Near the boundary between two regions the latencies often differ by a few
//! milliseconds only, so that the measured winner flaps from one refresh to the
//! next. A colo changes its region only if the new one is faster than the
//! current one by at least `max(15 ms, 20 %)`.

use crate::latency::{clears, clears_margin};
use crate::merge::{is_last, last_places};
use crate::snapshot::{colo_views, ColoEntry, ColoView, Snapshot, SnapshotView};
use crate::text::same;
use crate::textmap::TextMap;
use vstd::prelude::*;

verus! {

/// How many colos changed their region, were kept from changing it, or had none
/// before.
#[derive(Debug)]
pub struct HysteresisStats {
    pub flipped: usize,
    pub kept: usize,
    pub bootstrapped: usize,
}

impl Default for HysteresisStats {
    fn default() -> (r: Self)
        ensures
            r.flipped == 0,
            r.kept == 0,
            r.bootstrapped == 0,
    {
        HysteresisStats { flipped: 0, kept: 0, bootstrapped: 0 }
    }
}

/// What happens to one colo.
pub enum Outcome {
    /// It had no region before: the new one, if any, stands.
    Bootstrapped,
    /// It has no new region, or the one it had: nothing to decide.
    Settled,
    /// The new region is enough faster: it stands.
    Flipped,
    /// The new region is not known to be enough faster: the old one stands.
    Kept,
}

/// The last colo in the list with a given code.
pub open spec fn last_with_code(colos: Seq<ColoView>, code: Seq<char>) -> Option<ColoView>
    decreases colos.len(),
{
    if colos.len() == 0 {
        None
    } else if colos.last().code == code {
        Some(colos.last())
    } else {
        last_with_code(colos.drop_last(), code)
    }
}

/// The region that the previous table gives for a colo.
pub open spec fn previous_region(previous: Option<SnapshotView>, code: Seq<char>) -> Option<
    Seq<char>,
> {
    match previous {
        Some(s) => match last_with_code(s.colos, code) {
            Some(c) => c.nearest_region,
            None => None,
        },
        None => None,
    }
}

/// What happens to a colo whose region was `prev`.
pub open spec fn outcome(c: ColoView, prev: Option<Seq<char>>) -> Outcome {
    match (prev, c.nearest_region) {
        (None, _) => Outcome::Bootstrapped,
        (Some(p), None) => Outcome::Settled,
        (Some(p), Some(n)) => if n == p {
            Outcome::Settled
        } else if c.regions.dom().contains(n) && c.regions.dom().contains(p) && clears(
            c.regions[p].reading(),
            c.regions[n].reading(),
        ) {
            Outcome::Flipped
        } else {
            Outcome::Kept
        },
    }
}

/// A colo whose region was `prev`, with the region that it has from now on.
pub open spec fn damped(c: ColoView, prev: Option<Seq<char>>) -> ColoView {
    if outcome(c, prev) == Outcome::Kept {
        ColoView { nearest_region: prev, ..c }
    } else {
        c
    }
}

/// All colos, each with the region that it has from now on.
pub open spec fn damped_all(colos: Seq<ColoView>, previous: Option<SnapshotView>) -> Seq<ColoView> {
    Seq::new(colos.len(), |i: int| damped(colos[i], previous_region(previous, colos[i].code)))
}

/// The colos to which one thing happens.
pub open spec fn with_outcome(
    colos: Seq<ColoView>,
    previous: Option<SnapshotView>,
    o: Outcome,
) -> Seq<ColoView> {
    colos.filter(|c: ColoView| outcome(c, previous_region(previous, c.code)) == o)
}

/// The content of the previous table, where there is one.
pub open spec fn previous_view(previous: Option<&Snapshot>) -> Option<SnapshotView> {
    match previous {
        Some(s) => Some(s@),
        None => None,
    }
}

proof fn last_with_code_at(colos: Seq<ColoView>, code: Seq<char>, j: int)
    requires
        is_last(colos, code, j, colos.len() as int),
    ensures
        last_with_code(colos, code) == Some(colos[j]),
    decreases colos.len(),
{
    if colos.last().code != code {
        let rest = colos.drop_last();
        assert(is_last(rest, code, j, rest.len() as int)) by {
            assert forall|l: int| j < l < rest.len() implies (#[trigger] rest[l]).code != code by {
                assert(colos[l].code != code);
            }
        }
        last_with_code_at(rest, code, j);
    } else {
        assert(colos[colos.len() - 1].code == code);
    }
}

/// A list that has a colo has a last one.
pub proof fn last_with_code_is_last(colos: Seq<ColoView>, code: Seq<char>, i: int)
    requires
        0 <= i < colos.len(),
        colos[i].code == code,
    ensures
        exists|j: int|
            i <= j && #[trigger] is_last(colos, code, j, colos.len() as int)
                && last_with_code(colos, code) == Some(colos[j]),
    decreases colos.len(),
{
    let n = colos.len() as int;
    if colos.last().code == code {
        assert(is_last(colos, code, n - 1, n));
    } else {
        let rest = colos.drop_last();
        last_with_code_is_last(rest, code, i);
        let j = choose|j: int|
            i <= j && #[trigger] is_last(rest, code, j, n - 1) && last_with_code(rest, code) == Some(
                rest[j],
            );
        assert(is_last(colos, code, j, n)) by {
            assert forall|l: int| j < l < n implies (#[trigger] colos[l]).code != code by {
                if l < n - 1 {
                    assert(rest[l].code != code);
                }
            }
        }
    }
}

pub(crate) proof fn last_with_code_absent(colos: Seq<ColoView>, code: Seq<char>)
    requires
        forall|j: int| 0 <= j < colos.len() ==> (#[trigger] colos[j]).code != code,
    ensures
        last_with_code(colos, code) is None,
    decreases colos.len(),
{
    if colos.len() > 0 {
        assert(colos[colos.len() - 1].code != code);
        let rest = colos.drop_last();
        assert forall|j: int| 0 <= j < rest.len() implies (#[trigger] rest[j]).code != code by {
            assert(colos[j].code != code);
        }
        last_with_code_absent(rest, code);
    }
}

/// The region of a colo in the previous table, which `places` indexes.
fn region_before<'a>(
    previous: Option<&'a Snapshot>,
    places: &TextMap<usize>,
    code: &str,
) -> (r: Option<&'a String>)
    requires
        previous is None || {
            &&& forall|k: Seq<char>| #[trigger]
                places@.dom().contains(k) ==> is_last(
                    previous->0@.colos,
                    k,
                    places@[k] as int,
                    previous->0@.colos.len() as int,
                )
            &&& forall|j: int|
                0 <= j < previous->0@.colos.len() ==> places@.dom().contains(
                    (#[trigger] previous->0@.colos[j]).code,
                )
        },
    ensures
        match r {
            Some(p) => previous_region(previous_view(previous), code@) == Some(p@),
            None => previous_region(previous_view(previous), code@) is None,
        },
{
    match previous {
        None => None,
        Some(s) => match places.get(code) {
            None => {
                proof {
                    last_with_code_absent(s@.colos, code@);
                }
                None
            },
            Some(j) => {
                proof {
                    last_with_code_at(s@.colos, code@, *j as int);
                }
                s.colos[*j].nearest_region.as_ref()
            },
        },
    }
}

/// Decides for one colo.
fn decide(c: &ColoEntry, prev: Option<&String>) -> (r: Outcome)
    ensures
        r == outcome(
            c@,
            match prev {
                Some(p) => Some(p@),
                None => None,
            },
        ),
{
    let p: &String = match prev {
        Some(p) => p,
        None => {
            return Outcome::Bootstrapped;
        },
    };
    let n: &String = match &c.nearest_region {
        Some(n) => n,
        None => {
            return Outcome::Settled;
        },
    };
    if same(n.as_str(), p.as_str()) {
        return Outcome::Settled;
    }
    match (c.regions.get(n.as_str()), c.regions.get(p.as_str())) {
        (Some(new_lat), Some(prev_lat)) => if clears_margin(*prev_lat, *new_lat) {
            Outcome::Flipped
        } else {
            Outcome::Kept
        },
        _ => Outcome::Kept,
    }
}

/// Weighs the new region of each colo against the one that the previous table
/// gives, and keeps the old one unless the new one is enough faster.
pub fn apply_hysteresis(colos: Vec<ColoEntry>, previous: Option<&Snapshot>) -> (r: (
    Vec<ColoEntry>,
    HysteresisStats,
))
    ensures
        colo_views(r.0@) == damped_all(colo_views(colos@), previous_view(previous)),
        r.1.flipped == with_outcome(
            colo_views(colos@),
            previous_view(previous),
            Outcome::Flipped,
        ).len(),
        r.1.kept == with_outcome(
            colo_views(colos@),
            previous_view(previous),
            Outcome::Kept,
        ).len(),
        r.1.bootstrapped == with_outcome(
            colo_views(colos@),
            previous_view(previous),
            Outcome::Bootstrapped,
        ).len(),
{
    let places: TextMap<usize> = match previous {
        Some(s) => last_places(&s.colos),
        None => TextMap::new(),
    };
    let mut out: Vec<ColoEntry> = colos;
    let mut stats: HysteresisStats = HysteresisStats::default();
    let mut i: usize = 0;
    let ghost all = colo_views(colos@);
    let ghost prev = previous_view(previous);
    let ghost goal = damped_all(all, prev);
    proof {
        assert(all.take(0) =~= Seq::<ColoView>::empty());
        counted(all, prev, 0, Outcome::Flipped);
        counted(all, prev, 0, Outcome::Kept);
        counted(all, prev, 0, Outcome::Bootstrapped);
    }
    while i < out.len()
        invariant
            i <= out@.len() == all.len(),
            prev == previous_view(previous),
            goal == damped_all(all, prev),
            previous is Some ==> {
                &&& forall|k: Seq<char>| #[trigger]
                    places@.dom().contains(k) ==> is_last(
                        previous->0@.colos,
                        k,
                        places@[k] as int,
                        previous->0@.colos.len() as int,
                    )
                &&& forall|j: int|
                    0 <= j < previous->0@.colos.len() ==> places@.dom().contains(
                        (#[trigger] previous->0@.colos[j]).code,
                    )
            },
            forall|j: int| 0 <= j < i ==> #[trigger] colo_views(out@)[j] == goal[j],
            forall|j: int| i <= j < all.len() ==> #[trigger] colo_views(out@)[j] == all[j],
            stats.flipped == with_outcome(all.take(i as int), prev, Outcome::Flipped).len() <= i,
            stats.kept == with_outcome(all.take(i as int), prev, Outcome::Kept).len() <= i,
            stats.bootstrapped == with_outcome(
                all.take(i as int),
                prev,
                Outcome::Bootstrapped,
            ).len() <= i,
        decreases out@.len() - i,
    {
        assert(colo_views(out@)[i as int] == all[i as int]);
        let before: Option<&String> = region_before(previous, &places, out[i].code.as_str());
        proof {
            counted(all, prev, i + 1, Outcome::Flipped);
            counted(all, prev, i + 1, Outcome::Kept);
            counted(all, prev, i + 1, Outcome::Bootstrapped);
        }
        let ghost start = colo_views(out@);
        match decide(&out[i], before) {
            Outcome::Bootstrapped => {
                stats.bootstrapped = stats.bootstrapped + 1;
            },
            Outcome::Settled => {},
            Outcome::Flipped => {
                stats.flipped = stats.flipped + 1;
            },
            Outcome::Kept => {
                if let Some(p) = before {
                    out[i].nearest_region = Some(p.clone());
                }
                stats.kept = stats.kept + 1;
            },
        }
        assert(colo_views(out@) =~= start.update(i as int, goal[i as int]));
        i = i + 1;
    }
    assert(all.take(i as int) =~= all);
    assert(colo_views(out@) =~= goal);
    (out, stats)
}

proof fn counted(all: Seq<ColoView>, prev: Option<SnapshotView>, n: int, o: Outcome)
    requires
        0 <= n <= all.len(),
    ensures
        n == 0 ==> with_outcome(all.take(n), prev, o).len() == 0,
        n > 0 ==> with_outcome(all.take(n), prev, o).len() == with_outcome(
            all.take(n - 1),
            prev,
            o,
        ).len() + (if outcome(all[n - 1], previous_region(prev, all[n - 1].code)) == o {
            1int
        } else {
            0
        }),
{
    let p = |c: ColoView| outcome(c, previous_region(prev, c.code)) == o;
    if n == 0 {
        all.take(0).lemma_filter_len(p);
    } else {
        assert(all.take(n) =~= all.take(n - 1).push(all[n - 1]));
        all.take(n - 1).lemma_filter_push(all[n - 1], p);
    }
}

/// Damping changes nothing of a colo but its region, and that only to the one it
/// had before.
pub proof fn only_the_region_is_damped(c: ColoView, prev: Option<Seq<char>>)
    ensures
        damped(c, prev).code == c.code,
        damped(c, prev).name == c.name,
        damped(c, prev).cf_region == c.cf_region,
        damped(c, prev).regions == c.regions,
        damped(c, prev).nearest_region == c.nearest_region || damped(c, prev).nearest_region == prev,
        damped(c, prev) != c <==> outcome(c, prev) == Outcome::Kept,
{
}

/// A colo that had a region has another one afterwards only if both were measured
/// and the new one clears the margin.
pub proof fn region_changes_only_past_the_margin(c: ColoView, p: Seq<char>, n: Seq<char>)
    requires
        damped(c, Some(p)).nearest_region == Some(n),
        n != p,
    ensures
        c.nearest_region == Some(n),
        c.regions.dom().contains(p),
        c.regions.dom().contains(n),
        clears(c.regions[p].reading(), c.regions[n].reading()),
{
}

/// Without a previous table nothing is damped, and every colo counts as new.
pub proof fn first_table_is_not_damped(colos: Seq<ColoView>)
    ensures
        damped_all(colos, None) == colos,
        with_outcome(colos, None, Outcome::Bootstrapped) == colos,
    decreases colos.len(),
{
    assert(damped_all(colos, None) =~= colos);
    if colos.len() > 0 {
        let rest = colos.drop_last();
        first_table_is_not_damped(rest);
        assert(colos =~= rest.push(colos.last()));
        rest.lemma_filter_push(
            colos.last(),
            |c: ColoView| outcome(c, previous_region(None, c.code)) == Outcome::Bootstrapped,
        );
    } else {
        colos.lemma_filter_len(
            |c: ColoView| outcome(c, previous_region(None, c.code)) == Outcome::Bootstrapped,
        );
        assert(with_outcome(colos, None, Outcome::Bootstrapped) =~= colos);
    }
}

/// One thing happens to every colo.
pub proof fn outcomes_add_up(colos: Seq<ColoView>, previous: Option<SnapshotView>)
    ensures
        with_outcome(colos, previous, Outcome::Flipped).len() + with_outcome(
            colos,
            previous,
            Outcome::Kept,
        ).len() + with_outcome(colos, previous, Outcome::Bootstrapped).len() + with_outcome(
            colos,
            previous,
            Outcome::Settled,
        ).len() == colos.len(),
    decreases colos.len(),
{
    let n = colos.len() as int;
    assert(colos.take(n) =~= colos);
    counted(colos, previous, n, Outcome::Flipped);
    counted(colos, previous, n, Outcome::Kept);
    counted(colos, previous, n, Outcome::Bootstrapped);
    counted(colos, previous, n, Outcome::Settled);
    if n > 0 {
        outcomes_add_up(colos.take(n - 1), previous);
    }
}

/// On the same measurements, damping a second time against the region that the
/// first time gave changes nothing more.
pub proof fn damping_settles(c: ColoView, prev: Option<Seq<char>>)
    ensures
        damped(c, damped(c, prev).nearest_region) == damped(c, prev),
{
}

} // verus!
