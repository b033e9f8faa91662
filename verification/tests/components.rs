use cf_do_locator::components::{
    cf_group_name, extract_from_components, parse_iata_suffix, ComponentItem, ComponentsResponse,
};

fn item(name: &str, group: bool, group_id: Option<&str>) -> ComponentItem {
    ComponentItem { name: name.to_string(), group, group_id: group_id.map(|g| g.to_string()) }
}

#[test]
fn parses_iata_suffix() {
    let (code, base) = parse_iata_suffix("Sydney, NSW, Australia - (SYD)").unwrap();
    assert_eq!(code, "SYD");
    assert_eq!(base, "Sydney, NSW, Australia");
}

#[test]
fn rejects_non_iata() {
    assert!(parse_iata_suffix("Some Service (running)").is_none());
    assert!(parse_iata_suffix("Bare name").is_none());
}

#[test]
fn suffix_edge_cases() {
    assert_eq!(parse_iata_suffix("(SYD)"), Some(("SYD", "")));
    assert_eq!(parse_iata_suffix("Foo (1A9)"), Some(("1A9", "Foo ")));
    assert_eq!(parse_iata_suffix("Sydney (SYD)"), Some(("SYD", "Sydney ")));
    assert_eq!(parse_iata_suffix("東京(NRT)"), Some(("NRT", "東京")));
    assert_eq!(parse_iata_suffix("a - b (SYD)"), Some(("SYD", "a")));
    assert_eq!(parse_iata_suffix("a -(SYD)"), Some(("SYD", "a -")));
    assert_eq!(parse_iata_suffix("a - b - (SYD)"), Some(("SYD", "a - b")));
    assert_eq!(parse_iata_suffix("x - - (SYD)"), Some(("SYD", "x -")));
    assert_eq!(parse_iata_suffix(" - (SYD)"), Some(("SYD", "")));
    assert_eq!(parse_iata_suffix("São Paulo, Brazil - (GRU)"), Some(("GRU", "São Paulo, Brazil")));
    assert_eq!(parse_iata_suffix("((SYD)"), Some(("SYD", "(")));
    assert_eq!(parse_iata_suffix(""), None);
    assert_eq!(parse_iata_suffix("SYD)"), None);
    assert_eq!(parse_iata_suffix("(SYD) "), None);
    assert_eq!(parse_iata_suffix("(SyD)"), None);
    assert_eq!(parse_iata_suffix("(SY)"), None);
    assert_eq!(parse_iata_suffix("(SYDN)"), None);
    assert_eq!(parse_iata_suffix("(A(B)"), None);
    assert_eq!(parse_iata_suffix("ééé)"), None);
    assert_eq!(parse_iata_suffix("(éA)"), None);
    assert_eq!(parse_iata_suffix("Sydney [SYD)"), None);
}

#[test]
fn suffix_reads_back_place_and_code() {
    for base in ["", "Sydney", "a - b", "x -", " ", "日本 - 東京", "(AAA)"] {
        for code in ["SYD", "000", "Z9A"] {
            let name = format!("{base} - ({code})");
            assert_eq!(parse_iata_suffix(&name), Some((code, base)));
        }
    }
}

#[test]
fn group_names() {
    assert_eq!(cf_group_name("00gpj4s37mz4"), "Africa");
    assert_eq!(cf_group_name("77867vxkttgw"), "Asia");
    assert_eq!(cf_group_name("zqxhg7y54vy8"), "Europe");
    assert_eq!(cf_group_name("91blz4ztt7dm"), "LatinAmericaCaribbean");
    assert_eq!(cf_group_name("m3639x4txd08"), "MiddleEast");
    assert_eq!(cf_group_name("4l01sk5cdn5c"), "NorthAmerica");
    assert_eq!(cf_group_name("q6qm6fvkst4h"), "Oceania");
    assert_eq!(cf_group_name("q6qm6fvkst4"), "Unknown");
    assert_eq!(cf_group_name(""), "Unknown");
}

#[test]
fn extraction_keeps_colos_in_order() {
    let c = ComponentsResponse {
        components: vec![
            item("Oceania", true, None),
            item("Sydney, NSW, Australia - (SYD)", false, Some("q6qm6fvkst4h")),
            item("Grouped twice - (GRP)", true, Some("q6qm6fvkst4h")),
            item("No group - (NOG)", false, None),
            item("Workers", false, Some("zqxhg7y54vy8")),
            item("  Frankfurt \u{a0} - (FRA)", false, Some("zqxhg7y54vy8")),
            item("Nowhere - (NOW)", false, Some("?")),
            item("Perth (PER)", false, Some("q6qm6fvkst4h")),
        ],
    };
    let colos = extract_from_components(&c);
    let got: Vec<(&str, &str, &str)> = colos
        .iter()
        .map(|c| (c.code.as_str(), c.name.as_str(), c.cf_region.as_str()))
        .collect();
    assert_eq!(
        got,
        vec![
            ("SYD", "Sydney, NSW, Australia", "Oceania"),
            ("FRA", "Frankfurt", "Europe"),
            ("NOW", "Nowhere", "Unknown"),
            ("PER", "Perth", "Oceania"),
        ]
    );
    for colo in &colos {
        assert!(colo.nearest_region.is_none());
        assert_eq!(colo.regions.len(), 0);
    }
}
