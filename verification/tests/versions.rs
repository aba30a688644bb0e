use avm_android::versions::{newest_platform_levels, nums, platform_levels, sort_newest_first};

#[test]
fn parses_stable_levels_only() {
    assert_eq!(nums("37", 2), Some(vec![37, 0]));
    assert_eq!(nums("36.0.1", 2), None);
    assert_eq!(nums("37.2-beta3", 2), None);
    let xml = r#"<p path="platforms;android-36"/><p path="platforms;android-37.2"/><p path="platforms;android-CANARY"/><p path="platforms;android-36"/>"#;
    let levels = sort_newest_first(platform_levels(xml));
    let raws: Vec<_> = levels.iter().map(|l| l.raw.as_str()).collect();
    assert_eq!(raws, ["37.2", "36"]);
}

#[test]
fn nums_pads_and_rejects() {
    assert_eq!(nums("36.1", 3), Some(vec![36, 1, 0]));
    assert_eq!(nums("+7", 1), Some(vec![7]));
    assert_eq!(nums("", 2), None);
    assert_eq!(nums("36.", 2), None);
    assert_eq!(nums("-1", 2), None);
    assert_eq!(nums("18446744073709551615", 1), Some(vec![u64::MAX]));
    assert_eq!(nums("18446744073709551616", 1), None);
    assert_eq!(nums("1.2.3.4", 3), None);
}

#[test]
fn platform_levels_keep_index_order_and_first_occurrence() {
    let xml = "platforms;android-35\" platforms;android-36.1\" platforms;android-35\" platforms;android-37.2-beta3\"";
    let levels = platform_levels(xml);
    let got: Vec<(u64, u64, &str)> = levels.iter().map(|l| (l.major, l.minor, l.raw.as_str())).collect();
    assert_eq!(got, [(35, 0, "35"), (36, 1, "36.1")]);
}

#[test]
fn platform_scan_stops_without_closing_quote() {
    let xml = "platforms;android-34\" platforms;android-35";
    let raws: Vec<String> = platform_levels(xml).into_iter().map(|l| l.raw).collect();
    assert_eq!(raws, ["34"]);
}

#[test]
fn newest_first_breaks_ties_by_raw_id() {
    let xml = "platforms;android-36\" platforms;android-36.0\" platforms;android-9\" platforms;android-36.1\"";
    let levels = newest_platform_levels(xml);
    let raws: Vec<&str> = levels.iter().map(|l| l.raw.as_str()).collect();
    assert_eq!(raws, ["36.1", "36.0", "36", "9"]);
    assert_eq!(levels[0].label(), "API 36.1");
}
