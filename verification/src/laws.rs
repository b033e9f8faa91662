//! What the library promises, said of what goes in and what comes out.
//!
//! The functions are specified by way of the notions of their modules. Here those
//! notions are tied down from outside: to the fields of the values, to the places
//! in a list, and to characters and numbers as they are.

use crate::components::{
    code_and_base, colos_of_components, group_name, ComponentItem, ComponentsResponse, ItemView,
};
use crate::hysteresis::{
    damped_all, last_with_code_absent, last_with_code_is_last, outcome, previous_region,
    previous_view, with_outcome, Outcome,
};
use crate::latency::{clears, Latency, Reading};
use crate::merge::{
    distinct_codes, is_last, is_merge, merge_is_determined, merge_of, merge_takes_measurements, winner,
    winner_is_lowest, with_code, DoColoEntry, DoResponse, MeasuredView,
};
use crate::refresh::upstream;
use crate::routes::{route_of, Route};
use crate::service::{hint_for, info_for, is_load_error, knows, listing, table, ServiceError};
use crate::snapshot::{
    colo_views, first_with_code, first_with_code_is_first, hint_of, hinted, published, summary,
    ColoEntry, ColoPb, ColoPbView, ColoView, LocationHint, Snapshot, SnapshotPb, SnapshotView,
};
use crate::text::{text_lt, text_order_irreflexive, text_order_transitive, trimmed};
use crate::textmap::ascending;
use vstd::prelude::*;
use vstd::utf8::encode_utf8;

verus! {

// ---------------------------------------------------------------------------
// Contents
// ---------------------------------------------------------------------------

/// The content of an entry is what its fields hold.
pub proof fn entry_holds_its_fields(e: ColoEntry)
    ensures
        e@.code == e.code@,
        e@.name == e.name@,
        e@.cf_region == e.cf_region@,
        e.nearest_region is None ==> e@.nearest_region is None,
        e.nearest_region matches Some(t) ==> e@.nearest_region == Some(t@),
        e@.regions == e.regions@,
{
}

/// The content of a table is its version and, place by place, its entries.
pub proof fn table_holds_its_entries(s: Snapshot)
    ensures
        s@.version == s.version@,
        s@.colos.len() == s.colos@.len(),
        forall|i: int| 0 <= i < s.colos@.len() ==> #[trigger] s@.colos[i] == s.colos@[i]@,
        previous_view(Some(&s)) == Some(s@),
        previous_view(None) is None,
{
}

/// The contents of a list of entries are those of the entries, place by place.
pub proof fn list_holds_its_entries(v: Seq<ColoEntry>)
    ensures
        colo_views(v).len() == v.len(),
        forall|i: int| 0 <= i < v.len() ==> #[trigger] colo_views(v)[i] == v[i]@,
{
}

/// The content of a published colo is what its fields hold.
pub proof fn published_colo_holds_its_fields(c: ColoPb)
    ensures
        c@.code == c.code@,
        c@.name == c.name@,
        c@.cf_region == c.cf_region@,
        c@.hint == c.hint,
{
}

/// The content of a published summary is what its fields hold.
pub proof fn published_summary_holds_its_fields(s: SnapshotPb)
    ensures
        s@.version == s.version@,
        s@.total_colos == s.total_colos,
        s@.colos_with_hint == s.colos_with_hint,
{
}

/// The content of the status page is, place by place, what its components hold.
pub proof fn page_holds_its_components(page: ComponentsResponse)
    ensures
        page@.len() == page.components@.len(),
        forall|i: int|
            0 <= i < page@.len() ==> #[trigger] page@[i] == page.components@[i]@,
{
}

/// The content of a component is what its fields hold.
pub proof fn component_holds_its_fields(item: ComponentItem)
    ensures
        item@.name == item.name@,
        item@.group == item.group,
        item.group_id is None ==> item@.group_id is None,
        item.group_id matches Some(t) ==> item@.group_id == Some(t@),
{
}

/// The content of the measurements is, code by code, what their entries hold.
pub proof fn measurements_hold_their_entries(data: DoResponse, e: DoColoEntry)
    ensures
        forall|k: Seq<char>| #[trigger]
            data@.dom().contains(k) <==> data.colos@.dom().contains(k),
        forall|k: Seq<char>| #[trigger]
            data.colos@.dom().contains(k) ==> data@[k] == data.colos@[k]@,
        e.nearest_region is None ==> e@.nearest_region is None,
        e.nearest_region matches Some(t) ==> e@.nearest_region == Some(t@),
        e@.regions == e.regions@,
{
}

// ---------------------------------------------------------------------------
// Text
// ---------------------------------------------------------------------------

/// The first byte in which two encodings differ decides the order of the strings,
/// and a string comes before every longer one that its encoding begins.
pub proof fn first_difference_decides(a: Seq<char>, b: Seq<char>, i: int)
    requires
        0 <= i <= encode_utf8(a).len(),
        i < encode_utf8(b).len(),
        forall|j: int| 0 <= j < i ==> encode_utf8(a)[j] == encode_utf8(b)[j],
        i == encode_utf8(a).len() || encode_utf8(a)[i] < encode_utf8(b)[i],
    ensures
        text_lt(a, b),
        !text_lt(b, a),
        a != b,
{
    assert(crate::text::smaller_at(encode_utf8(a), encode_utf8(b), i));
    if text_lt(b, a) {
        text_order_transitive(a, b, a);
    }
    text_order_irreflexive(a);
}

/// Keys that ascend stand in the order of strings, and no key stands twice.
pub proof fn ascending_keys_stand_in_order(keys: Seq<Seq<char>>, i: int, j: int)
    requires
        ascending(keys),
        0 <= i < j < keys.len(),
    ensures
        text_lt(keys[i], keys[j]),
        keys[i] != keys[j],
{
    text_order_irreflexive(keys[i]);
}

/// The code points that Unicode lists as `White_Space`.
pub open spec fn white(c: char) -> bool {
    let n = c as int;
    ||| 9 <= n <= 13
    ||| n == 32
    ||| n == 133
    ||| n == 160
    ||| n == 5760
    ||| 8192 <= n <= 8202
    ||| n == 8232
    ||| n == 8233
    ||| n == 8239
    ||| n == 8287
    ||| n == 12288
}

/// The bounds of what trimming leaves: everything outside them passes a test that
/// all whitespace passes.
proof fn trim_bounds(s: Seq<char>, test: spec_fn(char) -> bool) -> (r: (int, int))
    requires
        forall|c: char| crate::text::is_whitespace(c) ==> #[trigger] test(c),
    ensures
        0 <= r.0 <= r.1 <= s.len(),
        trimmed(s) == s.subrange(r.0, r.1),
        forall|i: int| 0 <= i < r.0 || r.1 <= i < s.len() ==> test(#[trigger] s[i]),
    decreases s.len(),
{
    if s.len() > 0 && crate::text::is_whitespace(s.first()) {
        let rest = s.drop_first();
        let (from, to) = trim_bounds(rest, test);
        assert(rest.subrange(from, to) =~= s.subrange(from + 1, to + 1));
        assert(test(s[0]));
        assert forall|i: int| 0 <= i < from + 1 || to + 1 <= i < s.len() implies test(
            #[trigger] s[i],
        ) by {
            if i > 0 {
                assert(rest[i - 1] == s[i]);
            }
        }
        (from + 1, to + 1)
    } else if s.len() > 0 && crate::text::is_whitespace(s.last()) {
        let rest = s.drop_last();
        let (from, to) = trim_bounds(rest, test);
        assert(rest.subrange(from, to) =~= s.subrange(from, to));
        assert(test(s[s.len() - 1]));
        assert forall|i: int| 0 <= i < from || to <= i < s.len() implies test(#[trigger] s[i]) by {
            if i < s.len() - 1 {
                assert(rest[i] == s[i]);
            }
        }
        (from, to)
    } else {
        assert(s.subrange(0, s.len() as int) =~= s);
        (0, s.len() as int)
    }
}

proof fn trimmed_ends(s: Seq<char>, test: spec_fn(char) -> bool)
    requires
        forall|c: char| #[trigger] test(c) ==> crate::text::is_whitespace(c),
    ensures
        trimmed(s).len() > 0 ==> !test(trimmed(s).first()) && !test(trimmed(s).last()),
    decreases s.len(),
{
    if s.len() > 0 && crate::text::is_whitespace(s.first()) {
        trimmed_ends(s.drop_first(), test);
    } else if s.len() > 0 && crate::text::is_whitespace(s.last()) {
        trimmed_ends(s.drop_last(), test);
    }
}

/// Trimming takes off whitespace at both ends, all of it, and nothing else.
pub proof fn trimming_takes_off_whitespace_only(s: Seq<char>)
    ensures
        exists|from: int, to: int|
            {
                &&& 0 <= from <= to <= s.len()
                &&& trimmed(s) == #[trigger] s.subrange(from, to)
                &&& forall|i: int| 0 <= i < from || to <= i < s.len() ==> white(#[trigger] s[i])
            },
        trimmed(s).len() > 0 ==> !white(trimmed(s).first()) && !white(trimmed(s).last()),
{
    let test = |c: char| white(c);
    let (from, to) = trim_bounds(s, test);
    trimmed_ends(s, test);
    assert forall|i: int| 0 <= i < from || to <= i < s.len() implies white(#[trigger] s[i]) by {
        assert(test(s[i]));
    }
    assert(trimmed(s) == s.subrange(from, to));
    assert(trimmed(s).len() > 0 ==> !test(trimmed(s).first()) && !test(trimmed(s).last()));
}

// ---------------------------------------------------------------------------
// The status page
// ---------------------------------------------------------------------------

/// A capital letter `A` to `Z` or a digit `0` to `9`.
pub open spec fn capital_or_digit(c: char) -> bool {
    65 <= c as int <= 90 || 48 <= c as int <= 57
}

/// Any three capital letters or digits in brackets at the end of a name are read
/// as a code; nothing else is.
pub proof fn codes_are_three_capitals_or_digits(name: Seq<char>)
    ensures
        code_and_base(name) is Some <==> {
            &&& name.len() >= 5
            &&& name[name.len() - 5] == '('
            &&& capital_or_digit(name[name.len() - 4])
            &&& capital_or_digit(name[name.len() - 3])
            &&& capital_or_digit(name[name.len() - 2])
            &&& name[name.len() - 1] == ')'
        },
        code_and_base(name) matches Some((code, base)) ==> code == seq![
            name[name.len() - 4],
            name[name.len() - 3],
            name[name.len() - 2],
        ],
{
    let n = name.len() as int;
    if n >= 5 {
        let code = name.subrange(n - 4, n - 1);
        assert(code[0] == name[n - 4] && code[1] == name[n - 3] && code[2] == name[n - 2]);
        assert(code =~= seq![name[n - 4], name[n - 3], name[n - 2]]);
    }
}

/// What stands before the last ` - ` of a name with a code is the place.
pub proof fn place_stands_before_the_last_mark(name: Seq<char>, i: int)
    requires
        code_and_base(name) is Some,
        0 <= i <= name.len() - 3,
        name[i] == ' ' && name[i + 1] == '-' && name[i + 2] == ' ',
        forall|j: int|
            i < j <= name.len() - 3 ==> !(#[trigger] name[j] == ' ' && name[j + 1] == '-' && name[j + 2]
                == ' '),
    ensures
        (code_and_base(name)->0).1 == name.subrange(0, i),
{
    assert(crate::components::dash_at(name, i));
    assert(name.take(i) =~= name.subrange(0, i));
    crate::components::last_dash(name, i, name.len() as int);
}

/// Without a ` - `, what stands before the code in its brackets is the place.
pub proof fn place_stands_before_the_code(name: Seq<char>)
    requires
        code_and_base(name) is Some,
        forall|j: int|
            0 <= j <= name.len() - 3 ==> !(#[trigger] name[j] == ' ' && name[j + 1] == '-' && name[j + 2]
                == ' '),
    ensures
        (code_and_base(name)->0).1 == name.subrange(0, name.len() - 5),
{
    assert(name.take(name.len() - 5) =~= name.subrange(0, name.len() - 5));
    crate::components::no_dash(name, name.len() as int);
}

/// A place, the mark and any code in brackets are read back.
pub proof fn any_code_is_read_back(base: Seq<char>, a: char, b: char, c: char)
    requires
        capital_or_digit(a),
        capital_or_digit(b),
        capital_or_digit(c),
    ensures
        code_and_base(base + seq![' ', '-', ' ', '(', a, b, c, ')']) == Some((seq![a, b, c], base)),
{
    let name = base + seq![' ', '-', ' ', '(', a, b, c, ')'];
    codes_are_three_capitals_or_digits(name);
    place_stands_before_the_last_mark(name, base.len() as int);
    assert(name.subrange(0, base.len() as int) =~= base);
}

/// The seven groups of the status page have the names of their regions, and every
/// other group has none.
pub proof fn groups_have_their_names(id: Seq<char>)
    ensures
        id == "00gpj4s37mz4"@ ==> group_name(id) == "Africa"@,
        id == "77867vxkttgw"@ ==> group_name(id) == "Asia"@,
        id == "zqxhg7y54vy8"@ ==> group_name(id) == "Europe"@,
        id == "91blz4ztt7dm"@ ==> group_name(id) == "LatinAmericaCaribbean"@,
        id == "m3639x4txd08"@ ==> group_name(id) == "MiddleEast"@,
        id == "4l01sk5cdn5c"@ ==> group_name(id) == "NorthAmerica"@,
        id == "q6qm6fvkst4h"@ ==> group_name(id) == "Oceania"@,
        id != "00gpj4s37mz4"@ && id != "77867vxkttgw"@ && id != "zqxhg7y54vy8"@ && id
            != "91blz4ztt7dm"@ && id != "m3639x4txd08"@ && id != "4l01sk5cdn5c"@ && id
            != "q6qm6fvkst4h"@ ==> group_name(id) == "Unknown"@,
{
    reveal_strlit("00gpj4s37mz4");
    reveal_strlit("77867vxkttgw");
    reveal_strlit("zqxhg7y54vy8");
    reveal_strlit("91blz4ztt7dm");
    reveal_strlit("m3639x4txd08");
    reveal_strlit("4l01sk5cdn5c");
    reveal_strlit("q6qm6fvkst4h");
    assert("00gpj4s37mz4"@[0] == '0');
    assert("77867vxkttgw"@[0] == '7');
    assert("zqxhg7y54vy8"@[0] == 'z');
    assert("91blz4ztt7dm"@[0] == '9');
    assert("m3639x4txd08"@[0] == 'm');
    assert("4l01sk5cdn5c"@[0] == '4');
    assert("q6qm6fvkst4h"@[0] == 'q');
}

/// An empty page lists no colo. A component added at the end of the page adds one
/// colo at the end of the list, if it is no group, belongs to a group and has a
/// code in its name; else it adds none.
pub proof fn a_component_adds_its_colo(items: Seq<ItemView>, item: ItemView)
    ensures
        colos_of_components(Seq::empty()) == Seq::<ColoView>::empty(),
        item.group || item.group_id is None || code_and_base(item.name) is None
            ==> colos_of_components(items.push(item)) == colos_of_components(items),
        !item.group && item.group_id is Some && code_and_base(item.name) is Some
            ==> colos_of_components(items.push(item)) == colos_of_components(items).push(
            ColoView {
                code: (code_and_base(item.name)->0).0,
                name: trimmed((code_and_base(item.name)->0).1),
                cf_region: group_name(item.group_id->0),
                nearest_region: None,
                regions: Map::empty(),
            },
        ),
{
    let f = |item: ItemView| crate::components::colo_of_component(item);
    let all = items.push(item);
    let n = items.len() as int;
    all.lemma_filter_map_take_succ(f, n);
    assert(all.take(n + 1) =~= all);
    assert(all.take(n) =~= items);
    assert(Seq::<ItemView>::empty().filter_map(f) =~= Seq::<ColoView>::empty());
}

// ---------------------------------------------------------------------------
// The merge
// ---------------------------------------------------------------------------

/// One latency is a number and no higher than another, or the other is no number.
pub open spec fn no_higher(a: Reading, b: Reading) -> bool {
    match (a, b) {
        (Reading::NotANumber, _) => false,
        (_, Reading::NotANumber) => true,
        (Reading::MinusInfinity, _) => true,
        (_, Reading::PlusInfinity) => true,
        (Reading::Finite(x), Reading::Finite(y)) => x <= y,
        _ => false,
    }
}

/// Region `n` has a latency that is no higher than any other.
pub open spec fn none_is_faster(regions: Map<Seq<char>, Latency>, n: Seq<char>) -> bool {
    &&& regions.dom().contains(n)
    &&& forall|k: Seq<char>| #[trigger]
        regions.dom().contains(k) ==> no_higher(regions[n].reading(), regions[k].reading())
}

/// Where any latency is a number, however high, the region that a colo gets is one
/// than which none is faster: the named one if that is such, else the first such.
/// Where none is a number, the named one stands.
pub proof fn the_fastest_region_wins(m: MeasuredView)
    requires
        m.regions.dom().finite(),
    ensures
        forall|k: Seq<char>| #[trigger]
            m.regions.dom().contains(k) && m.regions[k].reading() !is NotANumber ==> winner(m) is Some
                && none_is_faster(m.regions, winner(m)->0),
        m.nearest_region is Some && none_is_faster(m.regions, m.nearest_region->0) ==> winner(m)
            == m.nearest_region,
        forall|k: Seq<char>| #[trigger]
            none_is_faster(m.regions, k) && winner(m) != m.nearest_region && winner(m) != Some(k)
                ==> text_lt(winner(m)->0, k),
        (forall|k: Seq<char>| #[trigger]
            m.regions.dom().contains(k) ==> m.regions[k].reading() is NotANumber) ==> winner(m)
            == m.nearest_region,
{
    winner_is_lowest(m);
    assert forall|n: Seq<char>| #[trigger] none_is_faster(m.regions, n) implies crate::merge::is_lowest(
        m.regions,
        n,
    ) by {
        assert(no_higher(m.regions[n].reading(), m.regions[n].reading()));
        assert forall|k: Seq<char>| #[trigger] m.regions.dom().contains(k) implies
            !crate::latency::reads_below(m.regions[k].reading(), m.regions[n].reading()) by {
            assert(no_higher(m.regions[n].reading(), m.regions[k].reading()));
        }
    }
    assert forall|k: Seq<char>| #[trigger]
        m.regions.dom().contains(k) && m.regions[k].reading() !is NotANumber implies winner(m) is Some
        && none_is_faster(m.regions, winner(m)->0) by {
        assert(crate::merge::is_timed(m.regions, k));
    }
    if exists|k: Seq<char>| crate::merge::is_timed(m.regions, k) {
        crate::merge::first_lowest_exists(m.regions);
    }
}

/// What the merge makes of one code. The measurements, and the region that they
/// give, go to the last listed colo with the code, and all else of it and of the
/// others stays; where none is listed, they make a colo that is named by its code.
/// The merge stands in the order of the codes.
pub proof fn the_merge_code_by_code(
    listed: Seq<ColoView>,
    measured: Map<Seq<char>, MeasuredView>,
    merged: Seq<ColoView>,
    code: Seq<char>,
)
    requires
        is_merge(listed, measured, merged),
    ensures
        ({
            let before = listed.filter(|c: ColoView| c.code == code);
            let after = merged.filter(|c: ColoView| c.code == code);
            let m = measured[code];
            if !measured.dom().contains(code) {
                after == before
            } else if before.len() == 0 {
                after == seq![
                    ColoView {
                        code,
                        name: code,
                        cf_region: "Unknown"@,
                        nearest_region: winner(m),
                        regions: m.regions,
                    },
                ]
            } else {
                &&& after.len() == before.len()
                &&& forall|i: int|
                    0 <= i < before.len() - 1 ==> #[trigger] after[i] == before[i]
                &&& after.last().code == before.last().code
                &&& after.last().name == before.last().name
                &&& after.last().cf_region == before.last().cf_region
                &&& after.last().nearest_region == winner(m)
                &&& after.last().regions == m.regions
            }
        }),
        forall|i: int, j: int|
            0 <= i < j < merged.len() ==> !text_lt(
                (#[trigger] merged[j]).code,
                (#[trigger] merged[i]).code,
            ),
{
    assert(with_code(merged, code) == crate::merge::merged_for(
        with_code(listed, code),
        code,
        measured,
    ));
}

/// Whatever is a merge of a list with measurements is the merge of them; and the
/// merge of the colos of the status page with the measurements is what a refresh
/// starts from.
pub proof fn a_refresh_starts_from_the_merge(
    items: Seq<ItemView>,
    listed: Seq<ColoView>,
    measured: Map<Seq<char>, MeasuredView>,
    merged: Seq<ColoView>,
)
    requires
        is_merge(listed, measured, merged),
    ensures
        merge_of(listed, measured) == merged,
        listed == colos_of_components(items) ==> upstream(items, measured) == merged,
{
    merge_is_determined(listed, measured, merge_of(listed, measured), merged);
}

/// In the merge of a list without repeated codes, a colo from which anything was
/// measured, however slow, has its measurements and a region than which none is
/// faster.
pub proof fn the_merge_gives_the_fastest_region(
    listed: Seq<ColoView>,
    measured: Map<Seq<char>, MeasuredView>,
    merged: Seq<ColoView>,
    i: int,
    k: Seq<char>,
)
    requires
        is_merge(listed, measured, merged),
        forall|a: int, b: int|
            0 <= a < b < listed.len() ==> (#[trigger] listed[a]).code != (#[trigger] listed[b]).code,
        0 <= i < merged.len(),
        measured.dom().contains(merged[i].code),
        measured[merged[i].code].regions.dom().finite(),
        measured[merged[i].code].regions.dom().contains(k),
        measured[merged[i].code].regions[k].reading() !is NotANumber,
    ensures
        merged[i].regions == measured[merged[i].code].regions,
        merged[i].nearest_region is Some,
        none_is_faster(merged[i].regions, merged[i].nearest_region->0),
{
    assert(distinct_codes(listed));
    merge_takes_measurements(listed, measured, merged, i);
    the_fastest_region_wins(measured[merged[i].code]);
}

/// The last place of a code is a place of it, after which it does not stand again.
pub proof fn last_places_are_last(colos: Seq<ColoView>, code: Seq<char>, j: int, n: int)
    requires
        n <= colos.len(),
    ensures
        is_last(colos, code, j, n) <==> is_last_entry(colos.take(n), code, j) && n >= 0,
{
    if n >= 0 {
        assert forall|l: int| 0 <= l < n implies #[trigger] colos.take(n)[l] == colos[l] by {}
        if is_last(colos, code, j, n) {
            assert forall|l: int| j < l < n implies (#[trigger] colos.take(n)[l]).code != code by {
                assert(colos[l].code != code);
            }
        }
        if is_last_entry(colos.take(n), code, j) {
            assert forall|l: int| j < l < n implies (#[trigger] colos[l]).code != code by {
                assert(colos.take(n)[l].code != code);
            }
        }
    }
}

// ---------------------------------------------------------------------------
// Damping
// ---------------------------------------------------------------------------

/// Entry `j` is the last one with a given code.
pub open spec fn is_last_entry(colos: Seq<ColoView>, code: Seq<char>, j: int) -> bool {
    &&& 0 <= j < colos.len()
    &&& colos[j].code == code
    &&& forall|l: int| j < l < colos.len() ==> (#[trigger] colos[l]).code != code
}

/// The previous table has region `p` in its last entry for a colo; or it has no
/// such entry, or there is no previous table, and `p` is none.
pub open spec fn had_region(
    previous: Option<SnapshotView>,
    code: Seq<char>,
    p: Option<Seq<char>>,
) -> bool {
    match previous {
        None => p is None,
        Some(s) => {
            ||| exists|j: int| #[trigger]
                is_last_entry(s.colos, code, j) && s.colos[j].nearest_region == p
            ||| p is None && forall|j: int|
                0 <= j < s.colos.len() ==> (#[trigger] s.colos[j]).code != code
        },
    }
}

/// The region that a colo had is the one in its last entry in the previous table,
/// whatever was measured then; it had none only if that entry has none, or there
/// is no such entry.
pub proof fn the_previous_region_is_remembered(
    previous: Option<SnapshotView>,
    code: Seq<char>,
    p: Option<Seq<char>>,
)
    ensures
        had_region(previous, code, p) <==> previous_region(previous, code) == p,
{
    if let Some(s) = previous {
        if exists|j: int| 0 <= j < s.colos.len() && (#[trigger] s.colos[j]).code == code {
            let i = choose|j: int| 0 <= j < s.colos.len() && (#[trigger] s.colos[j]).code == code;
            last_with_code_is_last(s.colos, code, i);
            let j = choose|j: int|
                i <= j && #[trigger] is_last(s.colos, code, j, s.colos.len() as int)
                    && crate::hysteresis::last_with_code(s.colos, code) == Some(s.colos[j]);
            assert(is_last_entry(s.colos, code, j));
            if had_region(previous, code, p) {
                let k = choose|k: int| #[trigger]
                    is_last_entry(s.colos, code, k) && s.colos[k].nearest_region == p;
                assert(k == j);
            }
        } else {
            last_with_code_absent(s.colos, code);
        }
    }
}

/// In a previous table without repeated codes every entry is remembered.
pub proof fn every_previous_entry_is_remembered(s: SnapshotView, i: int)
    requires
        0 <= i < s.colos.len(),
        forall|a: int, b: int|
            0 <= a < b < s.colos.len() ==> (#[trigger] s.colos[a]).code != (#[trigger] s.colos[b]).code,
    ensures
        previous_region(Some(s), s.colos[i].code) == s.colos[i].nearest_region,
{
    assert(is_last_entry(s.colos, s.colos[i].code, i));
    the_previous_region_is_remembered(Some(s), s.colos[i].code, s.colos[i].nearest_region);
}

/// A colo that had region `p` gets another one only if both were measured now and
/// the other clears the margin; otherwise `p` stays. A colo that had none, or has
/// none now, is left as it is. Nothing but the region changes.
pub proof fn a_region_gives_way_only_past_the_margin(
    colos: Seq<ColoView>,
    previous: Option<SnapshotView>,
    i: int,
    p: Option<Seq<char>>,
)
    requires
        0 <= i < colos.len(),
        had_region(previous, colos[i].code, p),
    ensures
        damped_all(colos, previous).len() == colos.len(),
        damped_all(colos, previous)[i].code == colos[i].code,
        damped_all(colos, previous)[i].name == colos[i].name,
        damped_all(colos, previous)[i].cf_region == colos[i].cf_region,
        damped_all(colos, previous)[i].regions == colos[i].regions,
        match (p, colos[i].nearest_region) {
            (Some(old_region), Some(new_region)) => damped_all(colos, previous)[i].nearest_region == Some(
                if colos[i].regions.dom().contains(new_region) && colos[i].regions.dom().contains(
                    old_region,
                ) && clears(
                    colos[i].regions[old_region].reading(),
                    colos[i].regions[new_region].reading(),
                ) {
                    new_region
                } else {
                    old_region
                },
            ),
            _ => damped_all(colos, previous)[i].nearest_region == colos[i].nearest_region,
        },
{
    the_previous_region_is_remembered(previous, colos[i].code, p);
}

/// A colo that had a region has another one now.
pub open spec fn has_moved(
    previous: Option<SnapshotView>,
    code: Seq<char>,
    region: Option<Seq<char>>,
) -> bool {
    exists|p: Seq<char>| #[trigger]
        had_region(previous, code, Some(p)) && region is Some && region != Some(p)
}

/// The places below `n` at which something holds.
pub open spec fn places(n: int, holds: spec_fn(int) -> bool) -> Set<int> {
    Set::new(|i: int| 0 <= i < n && holds(i))
}

/// As many elements of a sequence pass a test as there are places at which one
/// passes it.
proof fn filter_counts_places<A>(s: Seq<A>, test: spec_fn(A) -> bool, holds: spec_fn(int) -> bool)
    requires
        forall|i: int| 0 <= i < s.len() ==> #[trigger] holds(i) == test(s[i]),
    ensures
        places(s.len() as int, holds).finite(),
        s.filter(test).len() == places(s.len() as int, holds).len(),
    decreases s.len(),
{
    let n = s.len() as int;
    let all = places(n, holds);
    if n == 0 {
        s.lemma_filter_len(test);
        assert(all =~= Set::empty());
    } else {
        let rest = s.drop_last();
        filter_counts_places(rest, test, holds);
        assert(s =~= rest.push(s.last()));
        rest.lemma_filter_push(s.last(), test);
        let fewer = places(n - 1, holds);
        assert(holds(n - 1) == test(s[n - 1]));
        if holds(n - 1) {
            assert(all =~= fewer.insert(n - 1));
        } else {
            assert(all =~= fewer);
        }
    }
}

/// The counts: as flipped count the colos that had a region and now have another
/// one; as kept, those whose region is not the one that came in; as bootstrapped,
/// those that had none.
pub proof fn outcomes_are_counted(colos: Seq<ColoView>, previous: Option<SnapshotView>)
    ensures
        with_outcome(colos, previous, Outcome::Flipped).len() == places(
            colos.len() as int,
            |i: int|
                has_moved(previous, colos[i].code, damped_all(colos, previous)[i].nearest_region),
        ).len(),
        with_outcome(colos, previous, Outcome::Kept).len() == places(
            colos.len() as int,
            |i: int| damped_all(colos, previous)[i].nearest_region != colos[i].nearest_region,
        ).len(),
        with_outcome(colos, previous, Outcome::Bootstrapped).len() == places(
            colos.len() as int,
            |i: int| had_region(previous, colos[i].code, None),
        ).len(),
{
    let moved = |i: int|
        has_moved(previous, colos[i].code, damped_all(colos, previous)[i].nearest_region);
    let held = |i: int| damped_all(colos, previous)[i].nearest_region != colos[i].nearest_region;
    let fresh = |i: int| had_region(previous, colos[i].code, None);
    let flips = |c: ColoView|
        outcome(c, previous_region(previous, c.code)) == Outcome::Flipped;
    let keeps = |c: ColoView| outcome(c, previous_region(previous, c.code)) == Outcome::Kept;
    let starts = |c: ColoView|
        outcome(c, previous_region(previous, c.code)) == Outcome::Bootstrapped;
    assert forall|i: int| 0 <= i < colos.len() implies #[trigger] moved(i) == flips(colos[i]) by {
        let code = colos[i].code;
        let now = damped_all(colos, previous)[i].nearest_region;
        if moved(i) {
            let p = choose|p: Seq<char>| #[trigger]
                had_region(previous, code, Some(p)) && now is Some && now != Some(p);
            the_previous_region_is_remembered(previous, code, Some(p));
        }
        if flips(colos[i]) {
            let p = previous_region(previous, code)->0;
            the_previous_region_is_remembered(previous, code, Some(p));
            assert(had_region(previous, code, Some(p)));
        }
    }
    assert forall|i: int| 0 <= i < colos.len() implies #[trigger] held(i) == keeps(colos[i]) by {
    }
    assert forall|i: int| 0 <= i < colos.len() implies #[trigger] fresh(i) == starts(colos[i]) by {
        the_previous_region_is_remembered(previous, colos[i].code, None);
    }
    filter_counts_places(colos, flips, moved);
    filter_counts_places(colos, keeps, held);
    filter_counts_places(colos, starts, fresh);
}

// ---------------------------------------------------------------------------
// What is published
// ---------------------------------------------------------------------------

/// The nine regions have their hints, and nothing else has one.
pub proof fn regions_have_their_hints(region: Option<Seq<char>>)
    ensures
        hint_of(region) == LocationHint::Wnam <==> region == Some("wnam"@),
        hint_of(region) == LocationHint::Enam <==> region == Some("enam"@),
        hint_of(region) == LocationHint::Sam <==> region == Some("sam"@),
        hint_of(region) == LocationHint::Weur <==> region == Some("weur"@),
        hint_of(region) == LocationHint::Eeur <==> region == Some("eeur"@),
        hint_of(region) == LocationHint::Apac <==> region == Some("apac"@),
        hint_of(region) == LocationHint::Oc <==> region == Some("oc"@),
        hint_of(region) == LocationHint::Afr <==> region == Some("afr"@),
        hint_of(region) == LocationHint::Me <==> region == Some("me"@),
{
    reveal_strlit("wnam");
    reveal_strlit("enam");
    reveal_strlit("sam");
    reveal_strlit("weur");
    reveal_strlit("eeur");
    reveal_strlit("apac");
    reveal_strlit("oc");
    reveal_strlit("afr");
    reveal_strlit("me");
    assert("wnam"@.len() == 4 && "wnam"@[0] == 'w' && "wnam"@[1] == 'n');
    assert("enam"@.len() == 4 && "enam"@[0] == 'e' && "enam"@[1] == 'n');
    assert("sam"@.len() == 3 && "sam"@[0] == 's');
    assert("weur"@.len() == 4 && "weur"@[0] == 'w' && "weur"@[1] == 'e');
    assert("eeur"@.len() == 4 && "eeur"@[0] == 'e' && "eeur"@[1] == 'e');
    assert("apac"@.len() == 4 && "apac"@[0] == 'a');
    assert("oc"@.len() == 2 && "oc"@[0] == 'o');
    assert("afr"@.len() == 3 && "afr"@[0] == 'a');
    assert("me"@.len() == 2 && "me"@[0] == 'm');
}

/// A colo is published under its own code, name and region of the status page,
/// whether or not it has a hint, and with the hint for its region.
pub proof fn a_colo_is_published_as_it_is(c: ColoView)
    ensures
        published(c).code == c.code,
        published(c).name == c.name,
        published(c).cf_region == c.cf_region,
        published(c).hint == hint_of(c.nearest_region),
{
}

/// The summary has the date of the table, counts every colo, and counts as hinted
/// the places at which a colo with a region stands, whatever was measured there.
pub proof fn the_summary_counts_places(s: SnapshotView)
    requires
        s.colos.len() <= i32::MAX,
    ensures
        summary(s).version == s.version,
        summary(s).total_colos == s.colos.len(),
        summary(s).colos_with_hint == places(
            s.colos.len() as int,
            |i: int| s.colos[i].nearest_region is Some,
        ).len(),
        hinted(s.colos).len() == summary(s).colos_with_hint,
{
    let test = |c: ColoView| c.nearest_region is Some;
    let holds = |i: int| s.colos[i].nearest_region is Some;
    filter_counts_places(s.colos, test, holds);
    s.colos.lemma_filter_len(test);
}

/// A colo added to a table of any size raises the number of hinted ones by one if
/// it has a region, and by none otherwise; a table without colos has none.
pub proof fn a_colo_with_a_region_counts_once(colos: Seq<ColoView>, c: ColoView)
    ensures
        hinted(Seq::empty()).len() == 0,
        c.nearest_region is Some ==> hinted(colos.push(c)).len() == hinted(colos).len() + 1,
        c.nearest_region is None ==> hinted(colos.push(c)).len() == hinted(colos).len(),
{
    let test = |c: ColoView| c.nearest_region is Some;
    colos.lemma_filter_push(c, test);
    Seq::<ColoView>::empty().lemma_filter_len(test);
}

/// A table of any size is summed up by its date and by the low 32 bits of its
/// numbers.
pub proof fn the_summary_is_cut_to_32_bits(s: SnapshotView)
    ensures
        summary(s).version == s.version,
        summary(s).total_colos == s.colos.len() as i32,
        summary(s).colos_with_hint == hinted(s.colos).len() as i32,
{
}

// ---------------------------------------------------------------------------
// The answers
// ---------------------------------------------------------------------------

/// A colo of the table is answered from the first entry with its code: it is
/// known, and its hint, code, name and region are those of that entry.
pub proof fn a_known_colo_is_answered_from_its_entry(s: SnapshotView, colo: Seq<char>, i: int)
    requires
        0 <= i < s.colos.len(),
        s.colos[i].code == colo,
        forall|j: int| 0 <= j < i ==> (#[trigger] s.colos[j]).code != colo,
    ensures
        first_with_code(s.colos, colo) == Some(s.colos[i]),
        knows(s, colo),
        hint_for(s, colo) == hint_of(s.colos[i].nearest_region),
        info_for(s, colo) is Some,
        info_for(s, colo)->0.code == colo,
        info_for(s, colo)->0.name == s.colos[i].name,
        info_for(s, colo)->0.cf_region == s.colos[i].cf_region,
        info_for(s, colo)->0.hint == hint_of(s.colos[i].nearest_region),
{
    first_with_code_is_first(s.colos, colo);
    match first_with_code(s.colos, colo) {
        Some(c) => {
            let k = choose|k: int|
                {
                    &&& 0 <= k < s.colos.len()
                    &&& #[trigger] s.colos[k] == c
                    &&& c.code == colo
                    &&& forall|j: int| 0 <= j < k ==> (#[trigger] s.colos[j]).code != colo
                };
            assert(k == i);
        },
        None => {},
    }
}

/// A colo of which the table has no entry is not known, and has neither a hint nor
/// anything published.
pub proof fn an_unknown_colo_is_answered_with_nothing(s: SnapshotView, colo: Seq<char>)
    requires
        forall|j: int| 0 <= j < s.colos.len() ==> (#[trigger] s.colos[j]).code != colo,
    ensures
        first_with_code(s.colos, colo) is None,
        !knows(s, colo),
        hint_for(s, colo) == LocationHint::Unspecified,
        info_for(s, colo) is None,
{
    first_with_code_is_first(s.colos, colo);
}

/// The listing has, place by place, every entry of the table under its own code,
/// name and region, with the hint for its region.
pub proof fn the_listing_is_the_table(s: SnapshotView)
    ensures
        listing(s).len() == s.colos.len(),
        forall|i: int|
            0 <= i < s.colos.len() ==> #[trigger] listing(s)[i] == (ColoPbView {
                code: s.colos[i].code,
                name: s.colos[i].name,
                cf_region: s.colos[i].cf_region,
                hint: hint_of(s.colos[i].nearest_region),
            }),
{
}

/// A table is served exactly if the store gave one. A store that failed is answered
/// with an internal error that names the cause, and a store without a table with
/// the advice that there is none yet.
pub proof fn errors_say_what_the_store_said(
    read: Result<Option<Snapshot>, String>,
    e: ServiceError,
)
    ensures
        read matches Ok(Some(s)) ==> table(read) == Some(s@) && !is_load_error(read, e),
        read matches Ok(None) ==> table(read) is None && (is_load_error(read, e) <==> (e matches
            ServiceError::Unavailable(message) && message@
            == "snapshot not yet populated; cron has not run"@)),
        read matches Err(cause) ==> table(read) is None && (is_load_error(read, e) <==> (e matches
            ServiceError::Internal(message) && message@ == "kv read: "@ + cause@)),
{
}

/// Three paths are answered without the RPC service, and every other goes to it.
pub proof fn paths_lead_where_they_should(path: Seq<char>)
    ensures
        route_of(path) == Route::Landing <==> path == "/"@,
        route_of(path) == Route::Health <==> path == "/healthz"@,
        route_of(path) == Route::Refresh <==> path == "/__refresh"@,
{
    reveal_strlit("/");
    reveal_strlit("/healthz");
    reveal_strlit("/__refresh");
    assert("/"@.len() == 1);
    assert("/healthz"@.len() == 8);
    assert("/__refresh"@.len() == 10);
}

} // verus!
