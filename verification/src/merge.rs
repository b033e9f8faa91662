//! The merge of the list of colos with the measured latencies. Each colo gets the
//! region with the lowest latency.

use crate::latency::{below, is_number, reads_below, Latency, Reading};
use crate::snapshot::{colo_views, text_of, ColoEntry, ColoView};
use crate::text::{rank, text_lt, text_order_irreflexive, text_order_total, text_order_transitive, Rank};
use crate::textmap::TextMap;
use vstd::prelude::*;

verus! {

/// The measurements, by the code of the colo they were made from.
#[derive(Debug)]
pub struct DoResponse {
    pub colos: TextMap<DoColoEntry>,
}

/// What was measured from one colo.
#[derive(Debug)]
pub struct DoColoEntry {
    /// The region that the data name as the nearest.
    pub nearest_region: Option<String>,
    pub regions: TextMap<Latency>,
}

/// The content of a `DoColoEntry`.
pub struct MeasuredView {
    pub nearest_region: Option<Seq<char>>,
    pub regions: Map<Seq<char>, Latency>,
}

impl View for DoColoEntry {
    type V = MeasuredView;

    open spec fn view(&self) -> MeasuredView {
        MeasuredView { nearest_region: text_of(self.nearest_region), regions: self.regions@ }
    }
}

impl View for DoResponse {
    type V = Map<Seq<char>, MeasuredView>;

    open spec fn view(&self) -> Map<Seq<char>, MeasuredView> {
        self.colos@.map_values(|e: DoColoEntry| e@)
    }
}

/// A region whose latency was measured. What is not a number measures nothing.
pub open spec fn is_timed(regions: Map<Seq<char>, Latency>, k: Seq<char>) -> bool {
    regions.dom().contains(k) && regions[k].reading() !is NotANumber
}

/// A region that was measured, and than which none was measured to be lower.
pub open spec fn is_lowest(regions: Map<Seq<char>, Latency>, n: Seq<char>) -> bool {
    &&& is_timed(regions, n)
    &&& forall|k: Seq<char>| #[trigger]
        regions.dom().contains(k) ==> !reads_below(regions[k].reading(), regions[n].reading())
}

/// Of the regions with the lowest latency, the first in the order of their names.
pub open spec fn is_first_lowest(regions: Map<Seq<char>, Latency>, n: Seq<char>) -> bool {
    &&& is_lowest(regions, n)
    &&& forall|k: Seq<char>| #[trigger] is_lowest(regions, k) && k != n ==> text_lt(n, k)
}

/// The region that a colo gets: the one with the lowest latency. Among several, it
/// is the one that the data name, or else the first. Where nothing was measured,
/// what the data name stands.
pub open spec fn winner(m: MeasuredView) -> Option<Seq<char>> {
    if m.nearest_region is Some && is_lowest(m.regions, m.nearest_region->0) {
        m.nearest_region
    } else if exists|k: Seq<char>| is_timed(m.regions, k) {
        Some(choose|n: Seq<char>| is_first_lowest(m.regions, n))
    } else {
        m.nearest_region
    }
}

/// The region that a colo gets has the lowest latency, if anything was measured.
pub open spec fn wins_by_latency(m: MeasuredView) -> bool {
    (exists|k: Seq<char>| is_timed(m.regions, k)) ==> winner(m) is Some && is_lowest(
        m.regions,
        winner(m)->0,
    )
}

/// The colos with a given code, in their order.
pub open spec fn with_code(colos: Seq<ColoView>, code: Seq<char>) -> Seq<ColoView> {
    colos.filter(|c: ColoView| c.code == code)
}

/// The colos stand in the order of their codes.
pub open spec fn ordered_by_code(colos: Seq<ColoView>) -> bool {
    forall|i: int, j: int|
        0 <= i < j < colos.len() ==> !text_lt((#[trigger] colos[j]).code, (#[trigger] colos[i]).code)
}

/// A colo with its measurements, and the region that they give it, put in.
pub open spec fn with_measurement(c: ColoView, m: MeasuredView) -> ColoView {
    ColoView { nearest_region: winner(m), regions: m.regions, ..c }
}

/// A colo of which nothing but measurements is known.
pub open spec fn unlisted(code: Seq<char>, m: MeasuredView) -> ColoView {
    ColoView {
        code,
        name: code,
        cf_region: "Unknown"@,
        nearest_region: winner(m),
        regions: m.regions,
    }
}

/// What becomes of the listed colos with a given code. The measurements go to
/// the last of them; where none is listed, they make a colo of their own.
pub open spec fn merged_for(
    listed: Seq<ColoView>,
    code: Seq<char>,
    measured: Map<Seq<char>, MeasuredView>,
) -> Seq<ColoView> {
    if !measured.dom().contains(code) {
        listed
    } else if listed.len() == 0 {
        seq![unlisted(code, measured[code])]
    } else {
        listed.drop_last().push(with_measurement(listed.last(), measured[code]))
    }
}

/// `merged` is the merge of the listed colos with the measurements, in the order
/// of the codes; colos with one code keep their order.
pub open spec fn is_merge(
    listed: Seq<ColoView>,
    measured: Map<Seq<char>, MeasuredView>,
    merged: Seq<ColoView>,
) -> bool {
    &&& ordered_by_code(merged)
    &&& forall|code: Seq<char>| #[trigger]
        with_code(merged, code) == merged_for(with_code(listed, code), code, measured)
}

/// The merge of the listed colos with the measurements.
pub open spec fn merge_of(
    listed: Seq<ColoView>,
    measured: Map<Seq<char>, MeasuredView>,
) -> Seq<ColoView> {
    choose|merged: Seq<ColoView>| is_merge(listed, measured, merged)
}

proof fn with_code_split(a: Seq<ColoView>, b: Seq<ColoView>, code: Seq<char>)
    ensures
        with_code(a + b, code) == with_code(a, code) + with_code(b, code),
{
    Seq::filter_distributes_over_add(a, b, |c: ColoView| c.code == code);
}

proof fn with_code_one(c: ColoView, code: Seq<char>)
    ensures
        with_code(seq![c], code) == (if c.code == code {
            seq![c]
        } else {
            Seq::empty()
        }),
{
    let p = |c: ColoView| c.code == code;
    let none = Seq::<ColoView>::empty();
    none.lemma_filter_push(c, p);
    none.lemma_filter_len(p);
    assert(none.push(c) =~= seq![c]);
    assert(none.filter(p) =~= none);
}

proof fn with_code_absent(colos: Seq<ColoView>, code: Seq<char>)
    requires
        forall|i: int| 0 <= i < colos.len() ==> (#[trigger] colos[i]).code != code,
    ensures
        with_code(colos, code) == Seq::<ColoView>::empty(),
{
    let p = |c: ColoView| c.code == code;
    let r = colos.filter(p);
    if r.len() > 0 {
        colos.lemma_filter_pred(p, 0);
        assert(r.contains(r[0]));
        colos.lemma_filter_contains_rev(p, r[0]);
    }
    assert(r =~= Seq::<ColoView>::empty());
}

/// Puts the colos in the order of their codes; those with one code keep theirs.
fn sort_by_code(colos: Vec<ColoEntry>) -> (r: Vec<ColoEntry>)
    ensures
        ordered_by_code(colo_views(r@)),
        forall|code: Seq<char>| #[trigger]
            with_code(colo_views(r@), code) == with_code(colo_views(colos@), code),
{
    let mut rest: Vec<ColoEntry> = colos;
    let mut r: Vec<ColoEntry> = Vec::new();
    let ghost all = colo_views(colos@);
    assert(colo_views(rest@) =~= all.take(rest@.len() as int));
    assert(all.skip(rest@.len() as int) =~= Seq::<ColoView>::empty());
    assert(colo_views(r@) =~= Seq::<ColoView>::empty());
    loop
        invariant
            rest@.len() <= all.len(),
            colo_views(rest@) == all.take(rest@.len() as int),
            ordered_by_code(colo_views(r@)),
            forall|code: Seq<char>| #[trigger]
                with_code(colo_views(r@), code) == with_code(all.skip(rest@.len() as int), code),
        ensures
            rest@.len() == 0,
        decreases rest@.len(),
    {
        let ghost n = rest@.len() as int;
        let ghost before = rest@;
        match rest.pop() {
            None => {
                break ;
            },
            Some(c) => {
                let ghost done = colo_views(r@);
                assert(colo_views(before)[n - 1] == c@);
                assert(colo_views(rest@) =~= all.take(n - 1)) by {
                    assert(colo_views(rest@) =~= colo_views(before).take(n - 1));
                }
                let i: usize = place(&r, &c);
                r.insert(i, c);
                proof {
                    assert(colo_views(r@) =~= done.insert(i as int, c@));
                    insertion(done, i as int, c@);
                    assert(all.skip(n - 1) =~= seq![c@] + all.skip(n));
                    assert forall|code: Seq<char>| #[trigger]
                        with_code(colo_views(r@), code) == with_code(all.skip(n - 1), code) by {
                        with_code_split(seq![c@], all.skip(n), code);
                        assert(with_code(done, code) == with_code(all.skip(n), code));
                    }
                }
            },
        }
    }
    assert(all.skip(0) =~= all);
    r
}

/// The place of the first colo whose code is not before that of `c`.
fn place(colos: &Vec<ColoEntry>, c: &ColoEntry) -> (r: usize)
    requires
        ordered_by_code(colo_views(colos@)),
    ensures
        r <= colos@.len(),
        forall|j: int| 0 <= j < r ==> text_lt((#[trigger] colo_views(colos@)[j]).code, c@.code),
        forall|j: int|
            r <= j < colos@.len() ==> !text_lt((#[trigger] colo_views(colos@)[j]).code, c@.code),
{
    let mut i: usize = 0;
    let ghost views = colo_views(colos@);
    while i < colos.len()
        invariant
            i <= colos@.len(),
            views == colo_views(colos@),
            ordered_by_code(views),
            forall|j: int| 0 <= j < i ==> text_lt((#[trigger] views[j]).code, c@.code),
        decreases colos@.len() - i,
    {
        assert(views[i as int] == colos@[i as int]@);
        match rank(colos[i].code.as_str(), c.code.as_str()) {
            Rank::Before => {},
            _ => {
                proof {
                    assert forall|j: int| i <= j < views.len() implies !text_lt(
                        (#[trigger] views[j]).code,
                        c@.code,
                    ) by {
                        if i < j && text_lt(views[j].code, c@.code) {
                            text_order_total(views[i as int].code, c@.code);
                            if text_lt(c@.code, views[i as int].code) {
                                text_order_transitive(
                                    views[j].code,
                                    c@.code,
                                    views[i as int].code,
                                );
                            }
                        }
                    }
                }
                return i;
            },
        }
        i = i + 1;
    }
    i
}

/// A colo put in before the first that does not come before it.
proof fn insertion(done: Seq<ColoView>, i: int, c: ColoView)
    requires
        ordered_by_code(done),
        0 <= i <= done.len(),
        forall|j: int| 0 <= j < i ==> text_lt((#[trigger] done[j]).code, c.code),
        forall|j: int| i <= j < done.len() ==> !text_lt((#[trigger] done[j]).code, c.code),
    ensures
        ordered_by_code(done.insert(i, c)),
        forall|code: Seq<char>| #[trigger]
            with_code(done.insert(i, c), code) == with_code(seq![c], code) + with_code(done, code),
{
    let r = done.insert(i, c);
    assert forall|a: int, b: int| 0 <= a < b < r.len() implies !text_lt(
        (#[trigger] r[b]).code,
        (#[trigger] r[a]).code,
    ) by {
        let a0 = if a < i { a } else { a - 1 };
        let b0 = if b < i { b } else { b - 1 };
        if a == i {
            assert(r[b] == done[b0]);
        } else if b == i {
            assert(r[a] == done[a0]);
            if text_lt(c.code, done[a0].code) {
                text_order_transitive(done[a0].code, c.code, done[a0].code);
                text_order_irreflexive(done[a0].code);
            }
        } else {
            assert(r[a] == done[a0] && r[b] == done[b0]);
        }
    }
    let (lo, hi) = (done.take(i), done.skip(i));
    assert(done =~= lo + hi);
    assert(r =~= lo + (seq![c] + hi));
    assert forall|code: Seq<char>| #[trigger]
        with_code(r, code) == with_code(seq![c], code) + with_code(done, code) by {
        with_code_split(lo, hi, code);
        with_code_split(seq![c], hi, code);
        with_code_split(lo, seq![c] + hi, code);
        with_code_one(c, code);
        if c.code == code {
            assert forall|j: int| 0 <= j < lo.len() implies (#[trigger] lo[j]).code != code by {
                assert(lo[j] == done[j]);
                text_order_irreflexive(code);
            }
            with_code_absent(lo, code);
            assert(with_code(lo, code) + (seq![c] + with_code(hi, code)) =~= seq![c] + (with_code(
                lo,
                code,
            ) + with_code(hi, code)));
        } else {
            assert(with_code(lo, code) + (Seq::<ColoView>::empty() + with_code(hi, code))
                =~= Seq::<ColoView>::empty() + (with_code(lo, code) + with_code(hi, code)));
        }
    }
}

/// `j` is the last place below `n` at which a colo with a given code stands.
pub open spec fn is_last(colos: Seq<ColoView>, code: Seq<char>, j: int, n: int) -> bool {
    &&& 0 <= j < n
    &&& colos[j].code == code
    &&& forall|l: int| j < l < n ==> (#[trigger] colos[l]).code != code
}

/// The last place of each code.
pub fn last_places(colos: &Vec<ColoEntry>) -> (r: TextMap<usize>)
    ensures
        forall|code: Seq<char>| #[trigger]
            r@.dom().contains(code) ==> is_last(
                colo_views(colos@),
                code,
                r@[code] as int,
                colos@.len() as int,
            ),
        forall|j: int|
            0 <= j < colos@.len() ==> r@.dom().contains((#[trigger] colo_views(colos@)[j]).code),
{
    let mut r: TextMap<usize> = TextMap::new();
    let mut i: usize = 0;
    let ghost views = colo_views(colos@);
    while i < colos.len()
        invariant
            i <= colos@.len(),
            views == colo_views(colos@),
            forall|code: Seq<char>| #[trigger]
                r@.dom().contains(code) ==> is_last(views, code, r@[code] as int, i as int),
            forall|j: int| 0 <= j < i ==> r@.dom().contains((#[trigger] views[j]).code),
        decreases colos@.len() - i,
    {
        let ghost before = r@;
        assert(views[i as int].code == colos@[i as int].code@);
        r.insert(colos[i].code.clone(), i);
        proof {
            assert forall|code: Seq<char>| #[trigger] r@.dom().contains(code) implies is_last(
                views,
                code,
                r@[code] as int,
                i + 1,
            ) by {
                if code != views[i as int].code {
                    assert(before.dom().contains(code));
                    assert(is_last(views, code, before[code] as int, i as int));
                }
            }
        }
        i = i + 1;
    }
    r
}

/// A finite set that holds anything holds something that nothing in it comes before.
proof fn minimal_exists<A>(s: Set<A>, before: spec_fn(A, A) -> bool)
    requires
        s.finite(),
        !s.is_empty(),
        forall|a: A| !#[trigger] before(a, a),
        forall|a: A, b: A, c: A| #[trigger] before(a, b) && #[trigger] before(b, c) ==> before(a, c),
    ensures
        exists|n: A| #[trigger] s.contains(n) && forall|k: A| s.contains(k) ==> !before(k, n),
    decreases s.len(),
{
    let a = s.choose();
    let rest = s.remove(a);
    if rest.is_empty() {
        assert forall|k: A| s.contains(k) implies !before(k, a) by {
            assert(k == a || rest.contains(k));
        }
        assert(s.contains(a));
    } else {
        minimal_exists(rest, before);
        let n = choose|n: A| #[trigger]
            rest.contains(n) && forall|k: A| rest.contains(k) ==> !before(k, n);
        let least = if before(a, n) { a } else { n };
        assert forall|k: A| s.contains(k) implies !before(k, least) by {
            assert(k == a || rest.contains(k));
        }
        assert(s.contains(least));
    }
}

/// Where anything was measured, one region is the first of those with the lowest
/// latency.
pub proof fn first_lowest_exists(regions: Map<Seq<char>, Latency>)
    requires
        regions.dom().finite(),
        exists|k: Seq<char>| is_timed(regions, k),
    ensures
        exists|n: Seq<char>| is_first_lowest(regions, n),
{
    let faster = |a: Seq<char>, b: Seq<char>|
        reads_below(regions[a].reading(), regions[b].reading());
    let timed = regions.dom().filter(|k: Seq<char>| is_timed(regions, k));
    assert(timed.contains(choose|k: Seq<char>| is_timed(regions, k)));
    minimal_exists(timed, faster);
    let n = choose|n: Seq<char>| #[trigger]
        timed.contains(n) && forall|k: Seq<char>| timed.contains(k) ==> !faster(k, n);
    assert forall|k: Seq<char>| #[trigger] regions.dom().contains(k) implies !reads_below(
        regions[k].reading(),
        regions[n].reading(),
    ) by {
        if is_timed(regions, k) {
            assert(timed.contains(k));
            assert(!faster(k, n));
        }
    }
    assert(is_lowest(regions, n));
    let lowest = regions.dom().filter(|k: Seq<char>| is_lowest(regions, k));
    assert(lowest.contains(n));
    let earlier = |a: Seq<char>, b: Seq<char>| text_lt(a, b);
    assert forall|a: Seq<char>| !#[trigger] earlier(a, a) by {
        text_order_irreflexive(a);
    }
    assert forall|a: Seq<char>, b: Seq<char>, c: Seq<char>| #[trigger]
        earlier(a, b) && #[trigger] earlier(b, c) implies earlier(a, c) by {
        text_order_transitive(a, b, c);
    }
    minimal_exists(lowest, earlier);
    let first = choose|m: Seq<char>| #[trigger]
        lowest.contains(m) && forall|k: Seq<char>| lowest.contains(k) ==> !earlier(k, m);
    assert forall|k: Seq<char>| #[trigger] is_lowest(regions, k) && k != first implies text_lt(
        first,
        k,
    ) by {
        assert(lowest.contains(k));
        assert(!earlier(k, first));
        text_order_total(first, k);
    }
    assert(is_first_lowest(regions, first));
}

/// Only one region is the first of those with the lowest latency.
proof fn first_lowest_unique(regions: Map<Seq<char>, Latency>, a: Seq<char>, b: Seq<char>)
    requires
        is_first_lowest(regions, a),
        is_first_lowest(regions, b),
    ensures
        a == b,
{
    if a != b {
        text_order_transitive(a, b, a);
        text_order_irreflexive(a);
    }
}

/// The region that a colo gets has the lowest latency, if anything was measured.
pub proof fn winner_is_lowest(m: MeasuredView)
    requires
        m.regions.dom().finite(),
    ensures
        wins_by_latency(m),
{
    if exists|k: Seq<char>| is_timed(m.regions, k) {
        first_lowest_exists(m.regions);
    }
}

/// Whether a region was measured, and none was measured to be lower.
fn lowest(regions: &TextMap<Latency>, n: &str) -> (r: bool)
    ensures
        r == is_lowest(regions@, n@),
{
    let here: Latency = match regions.get(n) {
        Some(latency) => *latency,
        None => {
            return false;
        },
    };
    if !is_number(here) {
        return false;
    }
    let count: usize = regions.len();
    let ghost keys = regions.keys();
    let mut i: usize = 0;
    while i < count
        invariant
            i <= count == keys.len(),
            keys == regions.keys(),
            regions@.dom().contains(n@),
            here == regions@[n@],
            forall|j: int|
                0 <= j < i ==> !reads_below(regions@[#[trigger] keys[j]].reading(), here.reading()),
        decreases count - i,
    {
        if below(*regions.entry(i).1, here) {
            return false;
        }
        i = i + 1;
    }
    assert forall|k: Seq<char>| #[trigger] regions@.dom().contains(k) implies !reads_below(
        regions@[k].reading(),
        here.reading(),
    ) by {
        assert(keys.contains(k));
        let j = keys.index_of(k);
        assert(keys[j] == k);
    }
    true
}

/// The region that a colo gets.
fn pick(info: &DoColoEntry) -> (r: Option<String>)
    ensures
        text_of(r) == winner(info@),
        wins_by_latency(info@),
{
    let count: usize = info.regions.len();
    let ghost regions = info@.regions;
    let ghost keys = info.regions.keys();
    proof {
        assert(regions.dom() =~= keys.to_set());
        vstd::seq_lib::seq_to_set_is_finite(keys);
        winner_is_lowest(info@);
    }
    if let Some(n) = &info.nearest_region {
        if lowest(&info.regions, n.as_str()) {
            return Some(n.clone());
        }
    }
    let ghost timed = exists|k: Seq<char>| is_timed(regions, k);
    let ghost goal = choose|n: Seq<char>| is_first_lowest(regions, n);
    proof {
        if timed {
            first_lowest_exists(regions);
        }
    }
    let mut i: usize = 0;
    while i < count
        invariant
            i <= count == keys.len(),
            keys == info.regions.keys(),
            crate::textmap::ascending(keys),
            regions == info.regions@,
            forall|k: Seq<char>| regions.dom().contains(k) <==> keys.contains(k),
            timed == exists|k: Seq<char>| is_timed(regions, k),
            timed ==> winner(info@) == Some(goal) && is_first_lowest(regions, goal),
            wins_by_latency(info@),
            forall|j: int| 0 <= j < i ==> !is_lowest(regions, #[trigger] keys[j]),
        decreases count - i,
    {
        let region: &String = info.regions.entry(i).0;
        if lowest(&info.regions, region.as_str()) {
            proof {
                assert(is_timed(regions, keys[i as int]));
                assert(is_first_lowest(regions, keys[i as int])) by {
                    assert forall|k: Seq<char>| #[trigger]
                        is_lowest(regions, k) && k != keys[i as int] implies text_lt(
                        keys[i as int],
                        k,
                    ) by {
                        assert(keys.contains(k));
                        let j = keys.index_of(k);
                        assert(keys[j] == k);
                    }
                }
                first_lowest_unique(regions, keys[i as int], goal);
            }
            return Some(region.clone());
        }
        i = i + 1;
    }
    proof {
        if timed {
            assert(is_lowest(regions, goal));
            assert(keys.contains(goal));
            assert(keys[keys.index_of(goal)] == goal);
        }
    }
    copy_text(&info.nearest_region)
}

fn copy_text(s: &Option<String>) -> (r: Option<String>)
    ensures
        r == *s,
{
    match s {
        Some(t) => Some(t.clone()),
        None => None,
    }
}

/// The first `n` measurements, in the order of the codes.
spec fn first_measured(
    measured: Map<Seq<char>, MeasuredView>,
    codes: Seq<Seq<char>>,
    n: int,
) -> Map<Seq<char>, MeasuredView> {
    Map::new(
        |code: Seq<char>| measured.dom().contains(code) && codes.take(n).contains(code),
        |code: Seq<char>| measured[code],
    )
}

/// Replacing the last colo with a code by another with that code.
proof fn replace_last(colos: Seq<ColoView>, i: int, c: ColoView)
    requires
        is_last(colos, c.code, i, colos.len() as int),
    ensures
        forall|code: Seq<char>| code != c.code ==> #[trigger] with_code(colos.update(i, c), code)
            == with_code(colos, code),
        with_code(colos, c.code).len() > 0,
        with_code(colos, c.code).last() == colos[i],
        with_code(colos.update(i, c), c.code) == with_code(colos, c.code).drop_last().push(c),
{
    let (lo, old, hi) = (colos.take(i), seq![colos[i]], colos.skip(i + 1));
    let r = colos.update(i, c);
    assert(colos =~= lo + (old + hi));
    assert(r =~= lo + (seq![c] + hi));
    assert forall|code: Seq<char>| code != c.code implies #[trigger] with_code(r, code) == with_code(
        colos,
        code,
    ) by {
        with_code_split(lo, old + hi, code);
        with_code_split(lo, seq![c] + hi, code);
        with_code_split(old, hi, code);
        with_code_split(seq![c], hi, code);
        with_code_one(colos[i], code);
        with_code_one(c, code);
    }
    let code = c.code;
    with_code_split(lo, old + hi, code);
    with_code_split(lo, seq![c] + hi, code);
    with_code_split(old, hi, code);
    with_code_split(seq![c], hi, code);
    with_code_one(colos[i], code);
    with_code_one(c, code);
    assert forall|j: int| 0 <= j < hi.len() implies (#[trigger] hi[j]).code != code by {
        assert(hi[j] == colos[i + 1 + j]);
    }
    with_code_absent(hi, code);
    let w = with_code(lo, code);
    assert(with_code(colos, code) =~= w.push(colos[i]));
    assert(with_code(r, code) =~= w.push(c));
    assert(w.push(colos[i]).drop_last() =~= w);
}

/// Adding a colo at the end.
proof fn add_last(colos: Seq<ColoView>, c: ColoView)
    ensures
        forall|code: Seq<char>| code != c.code ==> #[trigger] with_code(colos.push(c), code)
            == with_code(colos, code),
        with_code(colos.push(c), c.code) == with_code(colos, c.code).push(c),
{
    assert forall|code: Seq<char>| code != c.code implies #[trigger] with_code(colos.push(c), code)
        == with_code(colos, code) by {
        colos.lemma_filter_push(c, |c: ColoView| c.code == code);
    }
    let code = c.code;
    colos.lemma_filter_push(c, |c: ColoView| c.code == code);
}

/// Puts the measurements into the list of colos, adds the colos that were
/// measured but not listed, and orders all by their codes.
pub fn merge_do_data(base: Vec<ColoEntry>, do_data: &DoResponse) -> (r: Vec<ColoEntry>)
    ensures
        is_merge(colo_views(base@), do_data@, colo_views(r@)),
        colo_views(r@) == merge_of(colo_views(base@), do_data@),
        forall|code: Seq<char>| #[trigger]
            do_data@.dom().contains(code) ==> wins_by_latency(do_data@[code]),
        distinct_codes(colo_views(base@)) ==> forall|i: int|
            0 <= i < r@.len() && do_data@.dom().contains((#[trigger] colo_views(r@)[i]).code)
                && (exists|k: Seq<char>|
                is_timed(do_data@[colo_views(r@)[i].code].regions, k)) ==> has_lowest_region(
                colo_views(r@)[i],
            ),
{
    let seen: TextMap<usize> = last_places(&base);
    let mut colos: Vec<ColoEntry> = base;
    let count: usize = do_data.colos.len();
    let ghost listed = colo_views(base@);
    let ghost measured = do_data@;
    let ghost codes = do_data.colos.keys();
    let mut n: usize = 0;
    assert(codes.take(0) =~= Seq::<Seq<char>>::empty());
    while n < count
        invariant
            n <= count,
            count == codes.len(),
            codes == do_data.colos.keys(),
            crate::textmap::ascending(codes),
            measured == do_data@,
            forall|code: Seq<char>| #[trigger]
                measured.dom().contains(code) ==> codes.contains(code),
            forall|code: Seq<char>| #[trigger]
                seen@.dom().contains(code) ==> is_last(
                    listed,
                    code,
                    seen@[code] as int,
                    listed.len() as int,
                ),
            forall|j: int|
                0 <= j < listed.len() ==> seen@.dom().contains((#[trigger] listed[j]).code),
            forall|j: int| 0 <= j < n ==> wins_by_latency(measured[#[trigger] codes[j]]),
            listed.len() <= colos@.len(),
            forall|j: int|
                0 <= j < listed.len() ==> (#[trigger] colo_views(colos@)[j]).code == listed[j].code,
            forall|j: int|
                listed.len() <= j < colos@.len() ==> !seen@.dom().contains(
                    (#[trigger] colo_views(colos@)[j]).code,
                ),
            forall|code: Seq<char>| #[trigger]
                with_code(colo_views(colos@), code) == merged_for(
                    with_code(listed, code),
                    code,
                    first_measured(measured, codes, n as int),
                ),
        decreases count - n,
    {
        let (code, info): (&String, &DoColoEntry) = do_data.colos.entry(n);
        let ghost views = colo_views(colos@);
        let ghost part = first_measured(measured, codes, n as int);
        let ghost next = first_measured(measured, codes, n + 1);
        let ghost k = code@;
        let ghost m = info@;
        proof {
            assert(codes.take(n + 1) =~= codes.take(n as int).push(k));
            assert(measured.dom().contains(k) && measured[k] == m);
            assert(codes.take(n + 1)[n as int] == k);
            if codes.take(n as int).contains(k) {
                let j = codes.take(n as int).index_of(k);
                assert(codes[j] == k && codes[n as int] == k);
                text_order_irreflexive(k);
            }
            assert forall|c: Seq<char>| c != k implies (next.dom().contains(c)
                <==> part.dom().contains(c)) by {
                if codes.take(n + 1).contains(c) {
                    let j = codes.take(n + 1).index_of(c);
                    assert(codes.take(n as int)[j] == c);
                }
                if codes.take(n as int).contains(c) {
                    let j = codes.take(n as int).index_of(c);
                    assert(codes.take(n + 1)[j] == c);
                }
            }
            assert(with_code(views, k) == with_code(listed, k));
        }
        let region: Option<String> = pick(info);
        match seen.get(code.as_str()) {
            Some(idx) => {
                let i: usize = *idx;
                assert(is_last(listed, k, i as int, listed.len() as int));
                assert(is_last(views, k, i as int, views.len() as int)) by {
                    assert forall|l: int| i < l < views.len() implies (#[trigger] views[l]).code
                        != k by {
                        if l < listed.len() {
                            assert(listed[l].code != k);
                        }
                    }
                }
                colos[i].nearest_region = region;
                colos[i].regions = info.regions.clone();
                proof {
                    let c = with_measurement(views[i as int], m);
                    assert(colo_views(colos@) =~= views.update(i as int, c));
                    replace_last(views, i as int, c);
                }
            },
            None => {
                colos.push(
                    ColoEntry {
                        code: code.clone(),
                        name: code.clone(),
                        cf_region: "Unknown".to_owned(),
                        nearest_region: region,
                        regions: info.regions.clone(),
                    },
                );
                proof {
                    let c = unlisted(k, m);
                    assert(colo_views(colos@) =~= views.push(c));
                    add_last(views, c);
                    assert forall|j: int| 0 <= j < listed.len() implies (#[trigger] listed[j]).code
                        != k by {
                        assert(seen@.dom().contains(listed[j].code));
                    }
                    with_code_absent(listed, k);
                    assert(with_code(views, k).push(c) =~= seq![c]);
                }
            },
        }
        n = n + 1;
    }
    let r: Vec<ColoEntry> = sort_by_code(colos);
    proof {
        let all = first_measured(measured, codes, n as int);
        assert(codes.take(n as int) =~= codes);
        assert forall|code: Seq<char>| #[trigger]
            with_code(colo_views(r@), code) == merged_for(with_code(listed, code), code, measured) by {
            assert(with_code(colo_views(r@), code) == with_code(colo_views(colos@), code));
            assert(all.dom().contains(code) <==> measured.dom().contains(code));
        }
        assert(is_merge(listed, measured, colo_views(r@)));
        merge_is_determined(listed, measured, colo_views(r@), merge_of(listed, measured));
        assert forall|code: Seq<char>| #[trigger] measured.dom().contains(code) implies
            wins_by_latency(measured[code]) by {
            assert(codes.contains(code));
            assert(codes[codes.index_of(code)] == code);
        }
        if distinct_codes(listed) {
            let merged = colo_views(r@);
            assert forall|i: int|
                0 <= i < merged.len() && measured.dom().contains((#[trigger] merged[i]).code)
                    && (exists|k: Seq<char>|
                    is_timed(measured[merged[i].code].regions, k)) implies has_lowest_region(
                merged[i],
            ) by {
                merge_takes_measurements(listed, measured, merged, i);
            }
        }
    }
    r
}

proof fn code_present(colos: Seq<ColoView>, code: Seq<char>)
    ensures
        with_code(colos, code).len() > 0 <==> exists|i: int|
            0 <= i < colos.len() && (#[trigger] colos[i]).code == code,
{
    let p = |c: ColoView| c.code == code;
    let w = colos.filter(p);
    if w.len() > 0 {
        colos.lemma_filter_pred(p, 0);
        assert(w.contains(w[0]));
        colos.lemma_filter_contains_rev(p, w[0]);
        let i = choose|i: int| 0 <= i < colos.len() && colos[i] == w[0];
        assert(colos[i].code == code);
    }
    if exists|i: int| 0 <= i < colos.len() && (#[trigger] colos[i]).code == code {
        let i = choose|i: int| 0 <= i < colos.len() && (#[trigger] colos[i]).code == code;
        colos.lemma_filter_contains(p, i);
        let j = choose|j: int| 0 <= j < w.len() && w[j] == colos[i];
    }
}

/// A colo is in the merge exactly if it was listed or measured.
pub proof fn merge_covers_both(
    listed: Seq<ColoView>,
    measured: Map<Seq<char>, MeasuredView>,
    merged: Seq<ColoView>,
    code: Seq<char>,
)
    requires
        is_merge(listed, measured, merged),
    ensures
        (exists|i: int| 0 <= i < merged.len() && (#[trigger] merged[i]).code == code) <==> (
        measured.dom().contains(code) || exists|i: int|
            0 <= i < listed.len() && (#[trigger] listed[i]).code == code),
{
    code_present(merged, code);
    code_present(listed, code);
    assert(with_code(merged, code) == merged_for(with_code(listed, code), code, measured));
}

/// A listed colo keeps its name and its region on the status page.
pub proof fn merge_keeps_names(
    listed: Seq<ColoView>,
    measured: Map<Seq<char>, MeasuredView>,
    merged: Seq<ColoView>,
    code: Seq<char>,
)
    requires
        is_merge(listed, measured, merged),
        with_code(listed, code).len() > 0,
    ensures
        with_code(merged, code).len() == with_code(listed, code).len(),
        forall|i: int|
            0 <= i < with_code(listed, code).len() ==> {
                &&& (#[trigger] with_code(merged, code)[i]).name == with_code(listed, code)[i].name
                &&& with_code(merged, code)[i].cf_region == with_code(listed, code)[i].cf_region
            },
{
    assert(with_code(merged, code) == merged_for(with_code(listed, code), code, measured));
}

/// No two colos of a list have one code.
pub open spec fn distinct_codes(colos: Seq<ColoView>) -> bool {
    forall|i: int, j: int|
        0 <= i < j < colos.len() ==> (#[trigger] colos[i]).code != (#[trigger] colos[j]).code
}

proof fn two_with_code(colos: Seq<ColoView>, i: int, j: int)
    requires
        0 <= i < j < colos.len(),
        colos[i].code == colos[j].code,
    ensures
        with_code(colos, colos[i].code).len() >= 2,
{
    let code = colos[i].code;
    let (lo, hi) = (colos.take(i + 1), colos.skip(i + 1));
    assert(colos =~= lo + hi);
    with_code_split(lo, hi, code);
    assert(lo[i].code == code);
    assert(hi[j - i - 1].code == code);
    code_present(lo, code);
    code_present(hi, code);
}

proof fn one_with_code(colos: Seq<ColoView>, code: Seq<char>)
    requires
        distinct_codes(colos),
    ensures
        with_code(colos, code).len() <= 1,
{
    code_present(colos, code);
    if with_code(colos, code).len() > 0 {
        let i = choose|i: int| 0 <= i < colos.len() && (#[trigger] colos[i]).code == code;
        let (lo, hi) = (colos.take(i), seq![colos[i]] + colos.skip(i + 1));
        assert(colos =~= lo + hi);
        with_code_split(lo, hi, code);
        with_code_split(seq![colos[i]], colos.skip(i + 1), code);
        with_code_one(colos[i], code);
        with_code_absent(lo, code);
        assert forall|j: int| 0 <= j < colos.skip(i + 1).len() implies (#[trigger] colos.skip(
            i + 1,
        )[j]).code != code by {
            assert(colos.skip(i + 1)[j] == colos[i + 1 + j]);
        }
        with_code_absent(colos.skip(i + 1), code);
    }
}

/// If the list names no colo twice, the merge does not either.
pub proof fn merge_keeps_codes_distinct(
    listed: Seq<ColoView>,
    measured: Map<Seq<char>, MeasuredView>,
    merged: Seq<ColoView>,
)
    requires
        is_merge(listed, measured, merged),
        distinct_codes(listed),
    ensures
        distinct_codes(merged),
{
    assert forall|i: int, j: int| 0 <= i < j < merged.len() implies (#[trigger] merged[i]).code != (
    #[trigger] merged[j]).code by {
        let code = merged[i].code;
        if code == merged[j].code {
            two_with_code(merged, i, j);
            one_with_code(listed, code);
            assert(with_code(merged, code) == merged_for(with_code(listed, code), code, measured));
        }
    }
}

/// If the list names no colo twice, a measured colo has its measurements in the
/// merge, and the region that they give it.
pub proof fn merge_takes_measurements(
    listed: Seq<ColoView>,
    measured: Map<Seq<char>, MeasuredView>,
    merged: Seq<ColoView>,
    i: int,
)
    requires
        is_merge(listed, measured, merged),
        distinct_codes(listed),
        0 <= i < merged.len(),
        measured.dom().contains(merged[i].code),
    ensures
        merged[i].nearest_region == winner(measured[merged[i].code]),
        merged[i].regions == measured[merged[i].code].regions,
{
    let code = merged[i].code;
    let w = with_code(merged, code);
    one_with_code(listed, code);
    assert(w == merged_for(with_code(listed, code), code, measured));
    merged.lemma_filter_contains(|c: ColoView| c.code == code, i);
    let j = choose|j: int| 0 <= j < w.len() && w[j] == merged[i];
    assert(w.len() == 1);
}

/// A colo has a region, which was measured, and no region was measured to be lower.
pub open spec fn has_lowest_region(c: ColoView) -> bool {
    c.nearest_region is Some && is_lowest(c.regions, c.nearest_region->0)
}

/// If the list names no colo twice, a colo from which anything was measured has, in
/// the merge, the region with the lowest latency: of finite latencies, none is
/// smaller.
pub proof fn merge_picks_the_lowest(
    listed: Seq<ColoView>,
    measured: Map<Seq<char>, MeasuredView>,
    merged: Seq<ColoView>,
    i: int,
)
    requires
        is_merge(listed, measured, merged),
        distinct_codes(listed),
        0 <= i < merged.len(),
        measured.dom().contains(merged[i].code),
        measured[merged[i].code].regions.dom().finite(),
        exists|k: Seq<char>| is_timed(measured[merged[i].code].regions, k),
    ensures
        merged[i].regions == measured[merged[i].code].regions,
        has_lowest_region(merged[i]),
        forall|k: Seq<char>| #[trigger]
            merged[i].regions.dom().contains(k) ==> match (
                merged[i].regions[merged[i].nearest_region->0].reading(),
                merged[i].regions[k].reading(),
            ) {
                (Reading::Finite(x), Reading::Finite(y)) => x <= y,
                _ => true,
            },
{
    merge_takes_measurements(listed, measured, merged, i);
    winner_is_lowest(measured[merged[i].code]);
}

/// A list of colos has one order by code that keeps colos with one code in turn.
pub proof fn order_by_code_is_determined(a: Seq<ColoView>, b: Seq<ColoView>)
    requires
        ordered_by_code(a),
        ordered_by_code(b),
        forall|code: Seq<char>| #[trigger] with_code(a, code) == with_code(b, code),
    ensures
        a == b,
    decreases a.len(),
{
    if a.len() == 0 {
        if b.len() > 0 {
            code_present(b, b[0].code);
            code_present(a, b[0].code);
            assert(with_code(a, b[0].code) == with_code(b, b[0].code));
        }
        assert(a =~= b);
    } else {
        code_present(a, a[0].code);
        code_present(b, a[0].code);
        assert(with_code(a, a[0].code) == with_code(b, a[0].code));
        let j = choose|j: int| 0 <= j < b.len() && (#[trigger] b[j]).code == a[0].code;
        code_present(b, b[0].code);
        code_present(a, b[0].code);
        assert(with_code(a, b[0].code) == with_code(b, b[0].code));
        let i = choose|i: int| 0 <= i < a.len() && (#[trigger] a[i]).code == b[0].code;
        text_order_total(a[0].code, b[0].code);
        assert(a[0].code == b[0].code);
        let (x, y) = (a.drop_first(), b.drop_first());
        assert(a =~= seq![a[0]] + x);
        assert(b =~= seq![b[0]] + y);
        let first = a[0].code;
        with_code_split(seq![a[0]], x, first);
        with_code_split(seq![b[0]], y, first);
        with_code_one(a[0], first);
        with_code_one(b[0], first);
        assert((seq![a[0]] + with_code(x, first))[0] == a[0]);
        assert((seq![b[0]] + with_code(y, first))[0] == b[0]);
        assert forall|code: Seq<char>| #[trigger] with_code(x, code) == with_code(y, code) by {
            with_code_split(seq![a[0]], x, code);
            with_code_split(seq![b[0]], y, code);
            with_code_one(a[0], code);
            assert(with_code(a, code) == with_code(b, code));
            let head = with_code(seq![a[0]], code);
            assert((head + with_code(x, code)).skip(head.len() as int) =~= with_code(x, code));
            assert((head + with_code(y, code)).skip(head.len() as int) =~= with_code(y, code));
        }
        order_by_code_is_determined(x, y);
    }
}

/// Where the listed colos have no region, only the last of those with one code
/// has a region in the merge.
pub proof fn only_the_last_has_a_region(
    listed: Seq<ColoView>,
    measured: Map<Seq<char>, MeasuredView>,
    merged: Seq<ColoView>,
    i: int,
    j: int,
)
    requires
        is_merge(listed, measured, merged),
        forall|k: int|
            0 <= k < listed.len() ==> (#[trigger] listed[k]).nearest_region is None,
        0 <= i < j < merged.len(),
        merged[i].code == merged[j].code,
    ensures
        merged[i].nearest_region is None,
{
    let code = merged[i].code;
    let p = |c: ColoView| c.code == code;
    let (lo, hi) = (merged.take(i), merged.skip(i + 1));
    let one = seq![merged[i]];
    assert(merged =~= lo + (one + hi));
    with_code_split(lo, one + hi, code);
    with_code_split(one, hi, code);
    with_code_one(merged[i], code);
    assert(hi[j - i - 1].code == code);
    code_present(hi, code);
    let w = with_code(merged, code);
    let l = with_code(listed, code);
    let at = with_code(lo, code).len() as int;
    assert(w == merged_for(l, code, measured));
    assert(w[at] == merged[i]);
    assert(at + 1 < w.len());
    assert(w[at] == l[at]);
    assert(l.contains(l[at]));
    listed.lemma_filter_contains_rev(p, l[at]);
    let k = choose|k: int| 0 <= k < listed.len() && listed[k] == l[at];
    assert(listed[k].nearest_region is None);
}

/// A list and measurements have one merge only.
pub proof fn merge_is_determined(
    listed: Seq<ColoView>,
    measured: Map<Seq<char>, MeasuredView>,
    a: Seq<ColoView>,
    b: Seq<ColoView>,
)
    requires
        is_merge(listed, measured, a),
        is_merge(listed, measured, b),
    ensures
        a == b,
{
    assert forall|code: Seq<char>| #[trigger] with_code(a, code) == with_code(b, code) by {
        assert(with_code(b, code) == merged_for(with_code(listed, code), code, measured));
    }
    order_by_code_is_determined(a, b);
}

} // verus!
