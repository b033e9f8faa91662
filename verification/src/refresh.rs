//! The refresh of the table from upstream data.
//!
//! The list of colos comes from a status page, the latencies from the service
//! that measures them. Both are merged, so that each colo has the region with the
//! lowest latency; the result is damped against the current table, and the new
//! table carries the stamp of the day.

use crate::calendar::{is_day_stamp, today_yyyy_mm_dd};
use crate::components::{
    colo_of_component, colos_of_components, extract_from_components, ComponentsResponse, ItemView,
};
use crate::hysteresis::{
    apply_hysteresis, damped, damped_all, damping_settles, last_with_code, last_with_code_is_last,
    previous_region, previous_view, with_outcome, HysteresisStats, Outcome,
};
use crate::latency::clears;
use crate::merge::{
    distinct_codes, is_last, is_merge, merge_covers_both, merge_do_data, merge_keeps_codes_distinct,
    merge_of, merge_takes_measurements, only_the_last_has_a_region, ordered_by_code, DoResponse,
    winner, wins_by_latency, MeasuredView,
};
use crate::service::{hint_for, knows, listed_colo_is_known};
use crate::snapshot::{hint_of, ColoEntry, ColoView, Snapshot, SnapshotView};
use crate::text::text_lt;
use vstd::prelude::*;

verus! {

/// Where the list of colos comes from.
pub const COMPONENTS_URL: &'static str = "https://www.cloudflarestatus.com/api/v2/components.json";

/// Where the latencies come from.
pub const DO_DATA_URL: &'static str = "https://where.durableobjects.live/api/v3/data.json";

/// The key that the table is stored under: the configured one, or `snapshot`.
pub fn snapshot_key(configured: Option<String>) -> (r: String)
    ensures
        r@ == (match configured {
            Some(key) => key@,
            None => "snapshot"@,
        }),
{
    match configured {
        Some(key) => key,
        None => "snapshot".to_owned(),
    }
}

/// The upstream data, merged.
pub open spec fn upstream(
    items: Seq<ItemView>,
    measured: Map<Seq<char>, MeasuredView>,
) -> Seq<ColoView> {
    merge_of(colos_of_components(items), measured)
}

/// Makes the new table from upstream data, the previous table and the time, which
/// is given in milliseconds since the start of 1970.
pub fn run(
    components: &ComponentsResponse,
    do_data: &DoResponse,
    previous: Option<&Snapshot>,
    now_ms: u64,
) -> (r: (Snapshot, HysteresisStats))
    ensures
        is_day_stamp(r.0@.version, now_ms as int / 86_400_000),
        is_merge(
            colos_of_components(components@),
            do_data@,
            upstream(components@, do_data@),
        ),
        forall|code: Seq<char>| #[trigger]
            do_data@.dom().contains(code) ==> wins_by_latency(do_data@[code]),
        r.0@.colos == damped_all(upstream(components@, do_data@), previous_view(previous)),
        r.1.flipped == with_outcome(
            upstream(components@, do_data@),
            previous_view(previous),
            Outcome::Flipped,
        ).len(),
        r.1.kept == with_outcome(
            upstream(components@, do_data@),
            previous_view(previous),
            Outcome::Kept,
        ).len(),
        r.1.bootstrapped == with_outcome(
            upstream(components@, do_data@),
            previous_view(previous),
            Outcome::Bootstrapped,
        ).len(),
{
    let base: Vec<ColoEntry> = extract_from_components(components);
    let merged: Vec<ColoEntry> = merge_do_data(base, do_data);
    let (colos, stats): (Vec<ColoEntry>, HysteresisStats) = apply_hysteresis(merged, previous);
    (Snapshot { version: today_yyyy_mm_dd(now_ms), colos }, stats)
}

proof fn components_have_no_region(items: Seq<ItemView>)
    ensures
        forall|i: int|
            0 <= i < colos_of_components(items).len() ==> (#[trigger] colos_of_components(
                items,
            )[i]).nearest_region is None,
{
    let f = |item: ItemView| colo_of_component(item);
    let colos = items.filter_map(f);
    assert forall|i: int| 0 <= i < colos.len() implies (#[trigger] colos[i]).nearest_region is None by {
        assert(colos.contains(colos[i]));
        items.lemma_filter_map_contains(f, colos[i]);
    }
}

/// A refresh from the same upstream data against the table that the first refresh
/// made leaves that table as it is.
pub proof fn refresh_settles(
    items: Seq<ItemView>,
    measured: Map<Seq<char>, MeasuredView>,
    merged: Seq<ColoView>,
    previous: Option<SnapshotView>,
    current: SnapshotView,
)
    requires
        is_merge(colos_of_components(items), measured, merged),
        current.colos == damped_all(merged, previous),
    ensures
        damped_all(merged, Some(current)) == current.colos,
{
    let colos = current.colos;
    components_have_no_region(items);
    assert forall|i: int| 0 <= i < merged.len() implies damped(
        merged[i],
        previous_region(Some(current), merged[i].code),
    ) == #[trigger] colos[i] by {
        let code = merged[i].code;
        assert(colos[i].code == code);
        last_with_code_is_last(colos, code, i);
        let j = choose|j: int|
            i <= j && #[trigger] is_last(colos, code, j, colos.len() as int) && last_with_code(
                colos,
                code,
            ) == Some(colos[j]);
        if i < j {
            assert(merged[j].code == colos[j].code);
            only_the_last_has_a_region(colos_of_components(items), measured, merged, i, j);
        } else {
            damping_settles(merged[i], previous_region(previous, code));
        }
    }
    assert(damped_all(merged, Some(current)) =~= colos);
}

/// The table stands in the order of the codes.
pub proof fn table_is_ordered(
    items: Seq<ItemView>,
    measured: Map<Seq<char>, MeasuredView>,
    merged: Seq<ColoView>,
    previous: Option<SnapshotView>,
)
    requires
        is_merge(colos_of_components(items), measured, merged),
    ensures
        ordered_by_code(damped_all(merged, previous)),
{
    let colos = damped_all(merged, previous);
    assert forall|i: int, j: int| 0 <= i < j < colos.len() implies !text_lt(
        (#[trigger] colos[j]).code,
        (#[trigger] colos[i]).code,
    ) by {
        assert(colos[i].code == merged[i].code && colos[j].code == merged[j].code);
    }
}

/// A colo is in the table exactly if the status page lists it or it was measured.
pub proof fn table_covers_upstream(
    items: Seq<ItemView>,
    measured: Map<Seq<char>, MeasuredView>,
    merged: Seq<ColoView>,
    previous: Option<SnapshotView>,
    code: Seq<char>,
)
    requires
        is_merge(colos_of_components(items), measured, merged),
    ensures
        (exists|i: int|
            0 <= i < damped_all(merged, previous).len() && (#[trigger] damped_all(
                merged,
                previous,
            )[i]).code == code) <==> (measured.dom().contains(code) || exists|i: int|
            0 <= i < colos_of_components(items).len() && (#[trigger] colos_of_components(
                items,
            )[i]).code == code),
{
    let colos = damped_all(merged, previous);
    merge_covers_both(colos_of_components(items), measured, merged, code);
    if exists|i: int| 0 <= i < merged.len() && (#[trigger] merged[i]).code == code {
        let i = choose|i: int| 0 <= i < merged.len() && (#[trigger] merged[i]).code == code;
        assert(colos[i].code == code);
    }
    if exists|i: int| 0 <= i < colos.len() && (#[trigger] colos[i]).code == code {
        let i = choose|i: int| 0 <= i < colos.len() && (#[trigger] colos[i]).code == code;
        assert(merged[i].code == code);
    }
}

/// If the status page lists no colo twice, the table does not either.
pub proof fn table_keeps_codes_distinct(
    items: Seq<ItemView>,
    measured: Map<Seq<char>, MeasuredView>,
    merged: Seq<ColoView>,
    previous: Option<SnapshotView>,
)
    requires
        is_merge(colos_of_components(items), measured, merged),
        distinct_codes(colos_of_components(items)),
    ensures
        distinct_codes(damped_all(merged, previous)),
{
    let colos = damped_all(merged, previous);
    merge_keeps_codes_distinct(colos_of_components(items), measured, merged);
    assert forall|i: int, j: int| 0 <= i < j < colos.len() implies (#[trigger] colos[i]).code != (
    #[trigger] colos[j]).code by {
        assert(colos[i].code == merged[i].code && colos[j].code == merged[j].code);
    }
}

/// A measured colo is answered, after a refresh, with the hint for the region that
/// its measurements give it; where the previous table had another region for it,
/// only if both were measured and the new one clears the margin, else with the
/// hint for the previous one. The status page is taken to list no colo twice.
pub proof fn measured_colo_is_answered(
    items: Seq<ItemView>,
    measured: Map<Seq<char>, MeasuredView>,
    merged: Seq<ColoView>,
    previous: Option<SnapshotView>,
    current: SnapshotView,
    code: Seq<char>,
)
    requires
        is_merge(colos_of_components(items), measured, merged),
        distinct_codes(colos_of_components(items)),
        current.colos == damped_all(merged, previous),
        measured.dom().contains(code),
    ensures
        knows(current, code),
        match (previous_region(previous, code), winner(measured[code])) {
            (Some(p), Some(n)) => hint_for(current, code) == hint_of(
                Some(
                    if n == p || (measured[code].regions.dom().contains(n)
                        && measured[code].regions.dom().contains(p) && clears(
                        measured[code].regions[p].reading(),
                        measured[code].regions[n].reading(),
                    )) {
                        n
                    } else {
                        p
                    },
                ),
            ),
            (_, region) => hint_for(current, code) == hint_of(region),
        },
{
    let listed = colos_of_components(items);
    merge_covers_both(listed, measured, merged, code);
    let i = choose|i: int| 0 <= i < merged.len() && (#[trigger] merged[i]).code == code;
    merge_takes_measurements(listed, measured, merged, i);
    table_keeps_codes_distinct(items, measured, merged, previous);
    assert(current.colos[i] == damped(merged[i], previous_region(previous, code)));
    listed_colo_is_known(current, i);
}

} // verus!
