use cf_do_locator::routes::{
    health_reply, landing_reply, refresh_reply, route, Route, LANDING_HTML,
};
use cf_do_locator::service::{
    get_colo_info, get_location_hint, get_snapshot, list_colos, load_snapshot, ServiceError,
};
use cf_do_locator::snapshot::{
    entry_to_pb, hint_str_to_pb, snapshot_to_pb, ColoEntry, LocationHint, Snapshot,
};
use cf_do_locator::textmap::TextMap;

fn colo(code: &str, name: &str, nearest: Option<&str>) -> ColoEntry {
    ColoEntry {
        code: code.into(),
        name: name.into(),
        cf_region: "Oceania".into(),
        nearest_region: nearest.map(|r| r.to_string()),
        regions: TextMap::new(),
    }
}

fn table() -> Snapshot {
    Snapshot {
        version: "2026-05-30".into(),
        colos: vec![
            colo("AKL", "Auckland", None),
            colo("SYD", "Sydney", Some("oc")),
            colo("SYD", "Sydney again", Some("apac")),
            colo("XYZ", "Nowhere", Some("mars")),
        ],
    }
}

#[test]
fn hints_of_regions() {
    let pairs = [
        ("wnam", LocationHint::Wnam),
        ("enam", LocationHint::Enam),
        ("sam", LocationHint::Sam),
        ("weur", LocationHint::Weur),
        ("eeur", LocationHint::Eeur),
        ("apac", LocationHint::Apac),
        ("oc", LocationHint::Oc),
        ("afr", LocationHint::Afr),
        ("me", LocationHint::Me),
        ("", LocationHint::Unspecified),
        ("OC", LocationHint::Unspecified),
        ("mars", LocationHint::Unspecified),
    ];
    for (region, hint) in pairs {
        assert_eq!(hint_str_to_pb(Some(region)), hint);
    }
    assert_eq!(hint_str_to_pb(None), LocationHint::Unspecified);
}

#[test]
fn first_entry_is_found() {
    let t = table();
    assert_eq!(t.find("SYD").unwrap().name, "Sydney");
    assert_eq!(t.find("AKL").unwrap().name, "Auckland");
    assert!(t.find("syd").is_none());
    assert!(t.find("").is_none());
    assert_eq!(t.with_hint_count(), 3);
}

#[test]
fn published_messages() {
    let t = table();
    let c = entry_to_pb(&t.colos[1]);
    assert_eq!((c.code.as_str(), c.name.as_str()), ("SYD", "Sydney"));
    assert_eq!((c.cf_region.as_str(), c.hint), ("Oceania", LocationHint::Oc));
    assert_eq!(entry_to_pb(&t.colos[0]).hint, LocationHint::Unspecified);
    let s = snapshot_to_pb(&t);
    assert_eq!((s.version.as_str(), s.total_colos, s.colos_with_hint), ("2026-05-30", 4, 3));
}

#[test]
fn hint_for_a_colo() {
    let r = get_location_hint(Ok(Some(table())), "SYD").unwrap();
    assert_eq!((r.hint, r.known), (LocationHint::Oc, true));
    let r = get_location_hint(Ok(Some(table())), "AKL").unwrap();
    assert_eq!((r.hint, r.known), (LocationHint::Unspecified, true));
    let r = get_location_hint(Ok(Some(table())), "XXX").unwrap();
    assert_eq!((r.hint, r.known), (LocationHint::Unspecified, false));
}

#[test]
fn info_for_a_colo() {
    let r = get_colo_info(Ok(Some(table())), "SYD").unwrap();
    let c = r.colo.unwrap();
    assert!(r.known);
    assert_eq!((c.name.as_str(), c.hint), ("Sydney", LocationHint::Oc));
    let r = get_colo_info(Ok(Some(table())), "XXX").unwrap();
    assert!(r.colo.is_none());
    assert!(!r.known);
}

#[test]
fn listing_agrees_with_single_answers() {
    let r = list_colos(Ok(Some(table()))).unwrap();
    assert_eq!(r.snapshot.total_colos, 4);
    let codes: Vec<&str> = r.colos.iter().map(|c| c.code.as_str()).collect();
    assert_eq!(codes, vec!["AKL", "SYD", "SYD", "XYZ"]);
    for code in ["AKL", "SYD", "XYZ", "XXX"] {
        let listed = r.colos.iter().find(|c| c.code == code);
        let single = get_location_hint(Ok(Some(table())), code).unwrap();
        assert_eq!(listed.is_some(), single.known);
        if let Some(c) = listed {
            assert_eq!(c.hint, single.hint);
        }
    }
    let s = get_snapshot(Ok(Some(table()))).unwrap().snapshot;
    assert_eq!((s.version.as_str(), s.total_colos, s.colos_with_hint), ("2026-05-30", 4, 3));
}

fn is_unavailable(e: ServiceError) -> bool {
    matches!(e, ServiceError::Unavailable(m) if m == "snapshot not yet populated; cron has not run")
}

fn is_internal(e: ServiceError) -> bool {
    matches!(e, ServiceError::Internal(m) if m == "kv read: boom")
}

#[test]
fn no_table_is_an_error() {
    assert_eq!(load_snapshot(Ok(Some(table()))).unwrap().version, "2026-05-30");
    assert!(is_unavailable(load_snapshot(Ok(None)).unwrap_err()));
    assert!(is_unavailable(get_location_hint(Ok(None), "SYD").unwrap_err()));
    assert!(is_unavailable(get_colo_info(Ok(None), "SYD").unwrap_err()));
    assert!(is_unavailable(list_colos(Ok(None)).unwrap_err()));
    assert!(is_unavailable(get_snapshot(Ok(None)).unwrap_err()));
}

#[test]
fn failing_store_is_an_error() {
    let boom = || Err("boom".to_string());
    assert!(is_internal(load_snapshot(boom()).unwrap_err()));
    assert!(is_internal(get_location_hint(boom(), "SYD").unwrap_err()));
    assert!(is_internal(get_colo_info(boom(), "SYD").unwrap_err()));
    assert!(is_internal(list_colos(boom()).unwrap_err()));
    assert!(is_internal(get_snapshot(boom()).unwrap_err()));
}

#[test]
fn paths() {
    assert_eq!(route("/"), Route::Landing);
    assert_eq!(route("/healthz"), Route::Health);
    assert_eq!(route("/__refresh"), Route::Refresh);
    assert_eq!(route("/locator.v1.LocatorService/ListColos"), Route::Rpc);
    assert_eq!(route(""), Route::Rpc);
    assert_eq!(route("/healthz/"), Route::Rpc);
}

#[test]
fn plain_replies() {
    let r = landing_reply();
    assert_eq!((r.status, r.content_type), (200, "text/html; charset=utf-8"));
    assert_eq!(r.body, LANDING_HTML);
    assert!(r.body.starts_with("<!doctype html>\n"));
    assert!(r.body.contains("<code>{\"hint\":\"LOCATION_HINT_OC\",\"known\":true}</code>"));
    let r = health_reply();
    assert_eq!((r.status, r.content_type, r.body), (200, "text/plain; charset=utf-8", "ok"));
    let r = refresh_reply(Ok(())).unwrap();
    assert_eq!((r.status, r.content_type, r.body), (200, "text/plain; charset=utf-8", "refreshed"));
    assert_eq!(refresh_reply(Err("boom".to_string())).unwrap_err(), "refresh failed: boom");
}
