use cf_do_locator::components::{ComponentItem, ComponentsResponse};
use cf_do_locator::latency::Latency;
use cf_do_locator::merge::{last_places, merge_do_data, DoColoEntry, DoResponse};
use cf_do_locator::refresh::{run, snapshot_key, COMPONENTS_URL, DO_DATA_URL};
use cf_do_locator::service::get_location_hint;
use cf_do_locator::snapshot::{ColoEntry, LocationHint, Snapshot};
use cf_do_locator::textmap::TextMap;

fn latencies(regions: &[(&str, f64)]) -> TextMap<Latency> {
    let mut map = TextMap::new();
    for (region, ms) in regions {
        map.insert(region.to_string(), Latency { bits: ms.to_bits() });
    }
    map
}

fn listed(code: &str, name: &str) -> ColoEntry {
    ColoEntry {
        code: code.into(),
        name: name.into(),
        cf_region: "Europe".into(),
        nearest_region: None,
        regions: TextMap::new(),
    }
}

fn measured(colos: &[(&str, Option<&str>, &[(&str, f64)])]) -> DoResponse {
    let mut map = TextMap::new();
    for (code, nearest, regions) in colos {
        map.insert(
            code.to_string(),
            DoColoEntry {
                nearest_region: nearest.map(|r| r.to_string()),
                regions: latencies(regions),
            },
        );
    }
    DoResponse { colos: map }
}

fn page(names: &[&str]) -> ComponentsResponse {
    ComponentsResponse {
        components: names
            .iter()
            .map(|n| ComponentItem {
                name: n.to_string(),
                group: false,
                group_id: Some("zqxhg7y54vy8".to_string()),
            })
            .collect(),
    }
}

fn rows(colos: &[ColoEntry]) -> Vec<(&str, &str, &str, Option<&str>)> {
    colos
        .iter()
        .map(|c| {
            (c.code.as_str(), c.name.as_str(), c.cf_region.as_str(), c.nearest_region.as_deref())
        })
        .collect()
}

#[test]
fn merge_updates_adds_and_orders() {
    let base = vec![
        listed("SYD", "Sydney"),
        listed("FRA", "Frankfurt"),
        listed("AMS", "Amsterdam"),
    ];
    let data = measured(&[
        ("SYD", Some("oc"), &[("oc", 5.0), ("apac", 90.0)]),
        ("LAX", Some("wnam"), &[("wnam", 2.0)]),
        ("FRA", None, &[]),
    ]);
    let merged = merge_do_data(base, &data);
    assert_eq!(
        rows(&merged),
        vec![
            ("AMS", "Amsterdam", "Europe", None),
            ("FRA", "Frankfurt", "Europe", None),
            ("LAX", "LAX", "Unknown", Some("wnam")),
            ("SYD", "Sydney", "Europe", Some("oc")),
        ]
    );
    assert_eq!(merged[3].regions.get("apac"), Some(&Latency { bits: 90.0f64.to_bits() }));
    assert_eq!(merged[0].regions.len(), 0);
}

#[test]
fn merge_of_repeated_codes() {
    let base = vec![
        listed("FRA", "first"),
        listed("AMS", "other"),
        listed("FRA", "second"),
        listed("FRA", "third"),
    ];
    let places = last_places(&base);
    assert_eq!(places.get("FRA"), Some(&3));
    assert_eq!(places.get("AMS"), Some(&1));
    assert_eq!(places.get("SYD"), None);
    let merged = merge_do_data(base, &measured(&[("FRA", Some("weur"), &[("weur", 1.0)])]));
    assert_eq!(
        rows(&merged),
        vec![
            ("AMS", "other", "Europe", None),
            ("FRA", "first", "Europe", None),
            ("FRA", "second", "Europe", None),
            ("FRA", "third", "Europe", Some("weur")),
        ]
    );
}

#[test]
fn merge_of_nothing() {
    assert!(merge_do_data(Vec::new(), &measured(&[])).is_empty());
    let merged = merge_do_data(vec![listed("FRA", "x")], &measured(&[]));
    assert_eq!(rows(&merged), vec![("FRA", "x", "Europe", None)]);
}

#[test]
fn table_from_upstream_data() {
    let components = page(&["Sydney - (SYD)", "Frankfurt - (FRA)", "Amsterdam - (AMS)"]);
    let data = measured(&[
        ("SYD", Some("oc"), &[("oc", 5.0), ("apac", 90.0)]),
        ("FRA", Some("eeur"), &[("weur", 20.0), ("eeur", 12.0)]),
        ("JNB", Some("afr"), &[("afr", 8.0)]),
    ]);
    let previous = Snapshot {
        version: "2026-05-23".into(),
        colos: vec![
            ColoEntry { nearest_region: Some("apac".into()), ..listed("SYD", "Sydney") },
            ColoEntry { nearest_region: Some("weur".into()), ..listed("FRA", "Frankfurt") },
        ],
    };
    let (table, stats) = run(&components, &data, Some(&previous), 1_780_099_200_000);
    assert_eq!(table.version, "2026-05-30");
    assert_eq!(
        rows(&table.colos),
        vec![
            ("AMS", "Amsterdam", "Europe", None),
            ("FRA", "Frankfurt", "Europe", Some("weur")),
            ("JNB", "JNB", "Unknown", Some("afr")),
            ("SYD", "Sydney", "Europe", Some("oc")),
        ]
    );
    assert_eq!((stats.flipped, stats.kept, stats.bootstrapped), (1, 1, 2));

    // The same upstream data against the new table changes nothing.
    let (again, stats) = run(&components, &data, Some(&table), 1_780_099_200_000);
    assert_eq!(rows(&again.colos), rows(&table.colos));
    assert_eq!((stats.flipped, stats.kept, stats.bootstrapped), (0, 1, 1));

    let (first, stats) = run(&components, &data, None, 0);
    assert_eq!(first.version, "1970-01-01");
    assert_eq!(first.colos[1].nearest_region.as_deref(), Some("eeur"));
    assert_eq!((stats.flipped, stats.kept, stats.bootstrapped), (0, 0, 4));
}

#[test]
fn key_of_the_table() {
    assert_eq!(snapshot_key(None), "snapshot");
    assert_eq!(snapshot_key(Some("other".to_string())), "other");
    assert_eq!(COMPONENTS_URL, "https://www.cloudflarestatus.com/api/v2/components.json");
    assert_eq!(DO_DATA_URL, "https://where.durableobjects.live/api/v3/data.json");
}

#[test]
fn measured_colos_are_answered_after_a_refresh() {
    let components = page(&["Sydney - (SYD)", "Frankfurt - (FRA)"]);
    let data = measured(&[
        ("SYD", Some("oc"), &[("oc", 5.0), ("apac", 90.0)]),
        ("FRA", Some("eeur"), &[("weur", 20.0), ("eeur", 12.0)]),
        ("JNB", Some("afr"), &[("afr", 8.0)]),
    ]);
    let previous = Snapshot {
        version: "2026-05-23".into(),
        colos: vec![
            ColoEntry { nearest_region: Some("apac".into()), ..listed("SYD", "Sydney") },
            ColoEntry { nearest_region: Some("weur".into()), ..listed("FRA", "Frankfurt") },
        ],
    };
    let (table, _) = run(&components, &data, Some(&previous), 1_780_099_200_000);
    let hint = |colo: &str| {
        let answer = get_location_hint(Ok(Some(table.clone())), colo).unwrap();
        (answer.hint, answer.known)
    };
    assert_eq!(hint("SYD"), (LocationHint::Oc, true));
    assert_eq!(hint("FRA"), (LocationHint::Weur, true));
    assert_eq!(hint("JNB"), (LocationHint::Afr, true));
    assert_eq!(hint("LAX"), (LocationHint::Unspecified, false));
}

fn region_of(nearest: Option<&str>, regions: &[(&str, f64)]) -> Option<String> {
    let data = measured(&[("TST", nearest, regions)]);
    let merged = merge_do_data(Vec::new(), &data);
    let put_in = merge_do_data(vec![listed("TST", "Test")], &data);
    assert_eq!(merged.len(), 1);
    assert_eq!(put_in.len(), 1);
    assert_eq!(merged[0].nearest_region, put_in[0].nearest_region);
    merged[0].nearest_region.clone()
}

#[test]
fn the_lowest_latency_wins() {
    // The data name a region that is not the fastest.
    assert_eq!(region_of(Some("enam"), &[("enam", 40.0), ("sam", 38.0)]).as_deref(), Some("sam"));
    // They name none, or one that was not measured.
    assert_eq!(region_of(None, &[("enam", 40.0), ("sam", 38.0)]).as_deref(), Some("sam"));
    assert_eq!(region_of(Some("oc"), &[("enam", 40.0), ("sam", 38.0)]).as_deref(), Some("sam"));
    // Of two that are equally fast, the named one or else the first.
    let tied = [("weur", 12.0), ("eeur", 12.0), ("me", 30.0)];
    assert_eq!(region_of(Some("weur"), &tied).as_deref(), Some("weur"));
    assert_eq!(region_of(Some("eeur"), &tied).as_deref(), Some("eeur"));
    assert_eq!(region_of(Some("me"), &tied).as_deref(), Some("eeur"));
    assert_eq!(region_of(None, &tied).as_deref(), Some("eeur"));
    assert_eq!(region_of(Some("weur"), &[("weur", 0.0), ("eeur", -0.0)]).as_deref(), Some("weur"));
    // What is not a number is no measurement.
    let nan = f64::NAN;
    assert_eq!(region_of(None, &[("apac", nan), ("oc", 10.0)]).as_deref(), Some("oc"));
    assert_eq!(region_of(Some("apac"), &[("apac", nan), ("oc", 10.0)]).as_deref(), Some("oc"));
    assert_eq!(region_of(None, &[("apac", 9.0), ("me", nan), ("oc", 5.0)]).as_deref(), Some("oc"));
    assert_eq!(region_of(None, &[("apac", nan), ("oc", f64::INFINITY)]).as_deref(), Some("oc"));
    assert_eq!(region_of(Some("oc"), &[("apac", nan), ("oc", -nan)]).as_deref(), Some("oc"));
    assert_eq!(region_of(None, &[("apac", nan), ("oc", nan)]), None);
    // Nothing was measured.
    assert_eq!(region_of(Some("afr"), &[]).as_deref(), Some("afr"));
    assert_eq!(region_of(None, &[]), None);
}

#[test]
fn the_lowest_latency_wins_in_a_first_refresh() {
    let data = measured(&[("SYD", Some("enam"), &[("enam", 40.0), ("sam", 38.0), ("oc", 5.0)])]);
    let (table, stats) = run(&page(&["Sydney (SYD)"]), &data, None, 0);
    assert_eq!(rows(&table.colos), vec![("SYD", "Sydney", "Europe", Some("oc"))]);
    assert_eq!((stats.flipped, stats.kept, stats.bootstrapped), (0, 0, 1));
    let answer = get_location_hint(Ok(Some(table)), "SYD").unwrap();
    assert_eq!((answer.hint, answer.known), (LocationHint::Oc, true));
}
