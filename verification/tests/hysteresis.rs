use cf_do_locator::hysteresis::{apply_hysteresis, HysteresisStats};
use cf_do_locator::latency::Latency;
use cf_do_locator::snapshot::{ColoEntry, Snapshot};
use cf_do_locator::textmap::TextMap;

fn colo(code: &str, nearest: Option<&str>, regions: &[(&str, f64)]) -> ColoEntry {
    let mut map = TextMap::new();
    for (region, ms) in regions {
        map.insert(region.to_string(), Latency { bits: ms.to_bits() });
    }
    ColoEntry {
        code: code.into(),
        name: "Test".into(),
        cf_region: "X".into(),
        nearest_region: nearest.map(|r| r.to_string()),
        regions: map,
    }
}

fn table(colos: Vec<ColoEntry>) -> Snapshot {
    Snapshot { version: "2026-01-01".into(), colos }
}

fn counts(s: &HysteresisStats) -> (usize, usize, usize) {
    (s.flipped, s.kept, s.bootstrapped)
}

#[test]
fn hysteresis_keeps_marginal_flips() {
    let colos = vec![colo("TST", Some("enam"), &[("enam", 40.0), ("sam", 38.0)])];
    let prev = table(vec![colo("TST", Some("sam"), &[])]);
    // new=enam (40ms) vs prev=sam (38ms): new is SLOWER, must keep sam.
    let (result, _) = apply_hysteresis(colos, Some(&prev));
    assert_eq!(result[0].nearest_region.as_deref(), Some("sam"));
}

#[test]
fn hysteresis_accepts_clear_wins() {
    let colos = vec![colo("TST", Some("enam"), &[("enam", 20.0), ("sam", 100.0)])];
    let prev = table(vec![colo("TST", Some("sam"), &[])]);
    // 80ms faster, well past the max(15ms, 20%) margin.
    let (result, _) = apply_hysteresis(colos, Some(&prev));
    assert_eq!(result[0].nearest_region.as_deref(), Some("enam"));
}

#[test]
fn each_outcome_is_counted() {
    let colos = vec![
        colo("AAA", Some("enam"), &[("enam", 20.0), ("sam", 100.0)]),
        colo("BBB", Some("enam"), &[("enam", 90.0), ("sam", 100.0)]),
        colo("CCC", Some("enam"), &[("enam", 20.0)]),
        colo("DDD", Some("enam"), &[("sam", 20.0)]),
        colo("EEE", Some("sam"), &[("enam", 20.0), ("sam", 100.0)]),
        colo("FFF", None, &[("enam", 20.0), ("sam", 100.0)]),
        colo("GGG", Some("enam"), &[("enam", 20.0), ("sam", 100.0)]),
        colo("HHH", Some("enam"), &[]),
    ];
    let prev = table(vec![
        colo("AAA", Some("sam"), &[]),
        colo("BBB", Some("sam"), &[]),
        colo("CCC", Some("sam"), &[]),
        colo("DDD", Some("sam"), &[]),
        colo("EEE", Some("sam"), &[]),
        colo("FFF", Some("sam"), &[]),
        colo("GGG", None, &[]),
    ]);
    let (result, stats) = apply_hysteresis(colos, Some(&prev));
    let got: Vec<Option<&str>> = result.iter().map(|c| c.nearest_region.as_deref()).collect();
    assert_eq!(
        got,
        vec![
            Some("enam"),
            Some("sam"),
            Some("sam"),
            Some("sam"),
            Some("sam"),
            None,
            Some("enam"),
            Some("enam"),
        ]
    );
    assert_eq!(counts(&stats), (1, 3, 2));
    assert_eq!(result[1].name, "Test");
    assert_eq!(result[1].cf_region, "X");
    assert_eq!(result[1].regions.len(), 2);
}

#[test]
fn first_table_is_taken_as_it_is() {
    let colos = vec![colo("AAA", Some("enam"), &[("enam", 90.0)]), colo("BBB", None, &[])];
    let (result, stats) = apply_hysteresis(colos, None);
    assert_eq!(result[0].nearest_region.as_deref(), Some("enam"));
    assert_eq!(result[1].nearest_region, None);
    assert_eq!(counts(&stats), (0, 0, 2));
    assert_eq!(counts(&HysteresisStats::default()), (0, 0, 0));
}

#[test]
fn last_previous_entry_counts() {
    let colos = vec![colo("AAA", Some("oc"), &[("oc", 50.0), ("sam", 51.0), ("enam", 52.0)])];
    let prev = table(vec![colo("AAA", Some("sam"), &[]), colo("AAA", Some("enam"), &[])]);
    let (result, stats) = apply_hysteresis(colos, Some(&prev));
    assert_eq!(result[0].nearest_region.as_deref(), Some("enam"));
    assert_eq!(counts(&stats), (0, 1, 0));
}

#[test]
fn damping_twice_is_damping_once() {
    let fresh = || {
        vec![
            colo("AAA", Some("enam"), &[("enam", 20.0), ("sam", 100.0)]),
            colo("BBB", Some("enam"), &[("enam", 90.0), ("sam", 100.0)]),
            colo("CCC", None, &[]),
        ]
    };
    let prev = table(vec![colo("AAA", Some("sam"), &[]), colo("BBB", Some("sam"), &[])]);
    let (first, _) = apply_hysteresis(fresh(), Some(&prev));
    let first = table(first);
    let (second, stats) = apply_hysteresis(fresh(), Some(&first));
    for (a, b) in first.colos.iter().zip(second.iter()) {
        assert_eq!(a.nearest_region, b.nearest_region);
    }
    assert_eq!(counts(&stats), (0, 1, 1));
}
