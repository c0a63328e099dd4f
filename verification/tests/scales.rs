use cgrade::{available_scales, convert, from_de, is_pass, is_supported, scale, to_de};

#[test]
fn tables_schema() {
    let ids = available_scales();
    assert_eq!(ids.len(), 7, "seven country scales");
    for id in ["at", "ch", "de", "es", "fr", "it", "us"] {
        assert!(ids.contains(&id), "missing scale {id:?}");
        assert!(is_supported(id), "unsupported scale {id:?}");
    }
    let supported = ids.iter().filter(|id| is_supported(id)).count();
    assert_eq!(supported, ids.len());
    for id in &ids {
        let entry = scale(id).expect("listed scale exists");
        assert_eq!(*id, id.to_ascii_lowercase(), "scale ID must be lowercase: {id:?}");
        assert_eq!(entry.id, *id);
        assert_ne!(entry.best, entry.pass, "degenerate scale: {id:?}");
        assert_eq!(
            entry.higher_is_better,
            entry.best > entry.pass,
            "orientation flag contradicts bounds: {id:?}"
        );
        assert!(!entry.step.is_empty(), "step hint must not be empty: {id:?}");
        let lower = entry.best.min(entry.worst);
        let upper = entry.best.max(entry.worst);
        assert!(
            entry.pass >= lower && entry.pass <= upper,
            "pass must lie inside [worst .. best]: {id:?}"
        );
    }
    let ch = scale("ch").unwrap();
    assert_eq!((ch.best, ch.worst, ch.pass), (6000, 1000, 4000));
    let de = scale("de").unwrap();
    assert_eq!((de.best, de.worst, de.pass), (1000, 6000, 4000));
}

#[test]
fn available_scales_are_sorted_and_unique() {
    let ids = available_scales();
    for pair in ids.windows(2) {
        assert!(pair[0] < pair[1]);
    }
    assert_eq!(ids, vec!["at", "ch", "de", "es", "fr", "it", "us"]);
}

#[test]
fn scale_names_ignore_ascii_case() {
    assert!(is_supported("CH"));
    assert!(is_supported("Ch"));
    assert!(!is_supported("xx"));
    assert!(!is_supported(""));
    assert!(!is_supported("ch "));
    assert!(!is_supported("ÇH"));
    assert_eq!(scale("DE"), scale("de"));
    assert_ne!(scale("DE"), scale("ch"));
    let upper = scale("DE").unwrap();
    assert_eq!(upper.id, "de");
    assert_eq!(upper.step, scale("de").unwrap().step);
    assert!(scale("xx").is_none());
    assert_eq!(to_de("CH", 5500), to_de("ch", 5500));
}

#[test]
fn truncation_never_rounds_up() {
    // Exact 1.75 must stay 1.7, exact 1.29 must stay 1.2.
    assert_eq!(to_de("ch", 5500), Some(17));
    assert_eq!(to_de("us", 3710), Some(12));
    // Exact tenths survive integer truncation.
    assert_eq!(to_de("us", 2700), Some(23));
    assert_eq!(to_de("de", 2300), Some(23));
    assert_eq!(from_de("fr", 3400), Some(1200));
}

#[test]
fn lower_is_better_scales_truncate_too() {
    // 1 + 3 * 1.35 / 3 = 2.35 on the German scale itself stays 2.3.
    assert_eq!(to_de("de", 2350), Some(23));
    // Austrian 2.5 gives 1 + 3 * 1.5 / 3 = 2.5 exactly.
    assert_eq!(to_de("at", 2500), Some(25));
    assert_eq!(to_de("at", 2490), Some(24));
}

#[test]
fn pass_and_best_are_the_german_endpoints() {
    for id in available_scales() {
        let s = scale(id).unwrap();
        assert_eq!(to_de(id, s.best), Some(10), "{id}");
        assert_eq!(to_de(id, s.pass), Some(40), "{id}");
        assert_eq!(from_de(id, 1000), Some(s.best / 10), "{id}");
        assert_eq!(from_de(id, 4000), Some(s.pass / 10), "{id}");
    }
}

#[test]
fn is_pass_follows_orientation() {
    assert_eq!(is_pass("ch", 4000), Some(true));
    assert_eq!(is_pass("ch", 3990), Some(false));
    assert_eq!(is_pass("ch", 6000), Some(true));
    assert_eq!(is_pass("ch", 1000), Some(false));
    assert_eq!(is_pass("ch", 6010), None);
    assert_eq!(is_pass("ch", 990), None);
    assert_eq!(is_pass("de", 4000), Some(true));
    assert_eq!(is_pass("de", 4100), Some(false));
    assert_eq!(is_pass("de", 1000), Some(true));
    assert_eq!(is_pass("de", 6000), Some(false));
    assert_eq!(is_pass("de", 6001), None);
    assert_eq!(is_pass("xx", 4000), None);
}

#[test]
fn to_de_only_converts_passing_grades() {
    assert_eq!(to_de("ch", 3900), None);
    assert_eq!(to_de("ch", 6100), None);
    assert_eq!(to_de("de", 4100), None);
    assert_eq!(to_de("xx", 5000), None);
    assert_eq!(from_de("ch", 999), None);
    assert_eq!(from_de("ch", 4001), None);
    assert_eq!(from_de("xx", 2000), None);
    for id in available_scales() {
        let s = scale(id).unwrap();
        let lo = s.best.min(s.worst);
        let hi = s.best.max(s.worst);
        let mut v = lo;
        while v <= hi {
            assert_eq!(to_de(id, v).is_some(), is_pass(id, v) == Some(true), "{id} {v}");
            if let Some(t) = to_de(id, v) {
                assert!((10..=40).contains(&t));
            }
            v += 10;
        }
    }
}

#[test]
fn convert_pivots_through_german() {
    // Same-system conversion is not the identity: 5.5 -> 1.7 -> 5.53.
    assert_eq!(convert("ch", "ch", 5500), Some(553));
    assert_eq!(convert("fr", "de", 20000), Some(100));
    assert_eq!(convert("ch", "fr", 4000), Some(1000));
    assert_eq!(convert("ch", "xx", 5000), None);
    assert_eq!(convert("xx", "ch", 5000), None);
    assert_eq!(convert("ch", "fr", 3000), None);
}

#[test]
fn round_trip_stays_close() {
    for id in available_scales() {
        let s = scale(id).unwrap();
        let span = (s.best - s.pass).abs();
        let (lo, hi) = (s.best.min(s.pass), s.best.max(s.pass));
        let mut v = lo;
        while v <= hi {
            let h = convert(id, id, v).unwrap();
            if s.higher_is_better {
                assert!(v - 10 < 10 * h && 300 * h < 30 * v + span + 300, "{id} {v} {h}");
            } else {
                assert!(10 * h < v + 10 && 300 * h > 30 * v - span - 300, "{id} {v} {h}");
            }
            v += 1;
        }
    }
}
