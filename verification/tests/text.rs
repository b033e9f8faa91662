use cf_do_locator::text::{rank, same, trim, whitespace, Rank};
use cf_do_locator::textmap::TextMap;

const SAMPLES: [&str; 12] =
    ["", "a", "aa", "ab", "b", "A", "é", "日本", "日", "\u{10000}", "\u{ffff}", "AAB"];

#[test]
fn strings_are_ranked_by_bytes() {
    for a in SAMPLES {
        for b in SAMPLES {
            let want = if a < b {
                Rank::Before
            } else if a == b {
                Rank::Same
            } else {
                Rank::After
            };
            assert_eq!(rank(a, b), want);
            assert_eq!(same(a, b), a == b);
        }
    }
}

#[test]
fn whitespace_is_that_of_unicode() {
    for n in 0..=0x10ffffu32 {
        if let Some(c) = char::from_u32(n) {
            assert_eq!(whitespace(c), c.is_whitespace(), "{n:x}");
        }
    }
}

#[test]
fn strings_are_trimmed() {
    for s in ["", " ", "  a b  ", "a", "\t\n x\u{3000}", "\u{2003}日 本\u{a0}", "x  ", "  x"] {
        assert_eq!(trim(s), s.trim());
    }
}

#[test]
fn maps_keep_the_last_value_in_the_order_of_keys() {
    let mut map: TextMap<u32> = TextMap::new();
    let mut model = std::collections::BTreeMap::new();
    let keys = ["m", "a", "z", "é", "a", "", "zz", "m", "A", "日"];
    for (i, key) in keys.iter().enumerate() {
        map.insert(key.to_string(), i as u32);
        model.insert(key.to_string(), i as u32);
    }
    assert_eq!(map.len(), model.len());
    for (i, (key, value)) in model.iter().enumerate() {
        let (k, v) = map.entry(i);
        assert_eq!(k, key);
        assert_eq!(v, value);
        assert_eq!(map.get(key), Some(value));
    }
    assert_eq!(map.get("b"), None);
    assert_eq!(map.get("zzz"), None);
    let copy = map.clone();
    map.insert("b".to_string(), 99);
    assert_eq!(map.get("b"), Some(&99));
    assert_eq!(copy.get("b"), None);
    assert_eq!(copy.get("m"), Some(&7));
}
