use dsi::order::Order;
use dsi::version::{channel_of, feature_band, order_version_keys, version_key};

#[test]
fn stable_sorts_above_its_prereleases() {
    assert!(version_key("11.0.100") > version_key("11.0.100-rc.1.26450.107"));
}

#[test]
fn later_preview_sorts_above_earlier_preview() {
    assert!(
        version_key("11.0.100-preview.5.26302.115")
            > version_key("11.0.100-preview.4.26230.115")
    );
    assert!(
        version_key("11.0.100-rc.1.26450.107") > version_key("11.0.100-preview.5.26302.115")
    );
}

#[test]
fn numeric_patch_comparison_still_wins() {
    assert!(version_key("10.0.301") > version_key("10.0.300"));
    assert!(version_key("10.0.300") > version_key("9.0.315"));
}

#[test]
fn key_of_a_plain_version() {
    let (nums, stable, pre) = version_key("9.0.312");
    assert_eq!(nums, vec![9, 0, 312]);
    assert!(stable);
    assert!(pre.is_empty());
}

#[test]
fn key_of_a_prerelease() {
    let (nums, stable, pre) = version_key("10.0.100-rc.2");
    assert_eq!(nums, vec![10, 0, 100]);
    assert!(!stable);
    assert_eq!(pre.len(), 2);
    // A numeric identifier sorts below a text one.
    assert!(pre[1] < pre[0]);
}

#[test]
fn unparseable_fields_count_as_zero() {
    let (nums, _, _) = version_key("9.x.12");
    assert_eq!(nums, vec![9, 0, 12]);
    let (nums, _, pre) = version_key("+9.0.1-+7..a");
    assert_eq!(nums, vec![9, 0, 1]);
    assert_eq!(pre.len(), 2);
}

#[test]
fn numeric_identifiers_sort_below_text_ones() {
    assert!(version_key("1.0.0-alpha.1") < version_key("1.0.0-alpha.beta"));
    assert!(version_key("1.0.0-alpha.2") < version_key("1.0.0-alpha.10"));
}

#[test]
fn key_order_agrees_with_tuple_order() {
    let pairs = [
        ("11.0.100", "11.0.100-rc.1.26450.107"),
        ("10.0.301", "10.0.300"),
        ("9.0.315", "10.0.300"),
        ("1.0.0-alpha.1", "1.0.0-alpha.beta"),
        ("8.0.404", "8.0.404"),
        ("1.0", "1.0.0"),
    ];
    for (a, b) in pairs {
        let ka = version_key(a);
        let kb = version_key(b);
        let expected = if ka < kb {
            Order::Less
        } else if ka == kb {
            Order::Equal
        } else {
            Order::Greater
        };
        assert_eq!(order_version_keys(&ka, &kb), expected, "{} vs {}", a, b);
    }
}

#[test]
fn release_sorts_above_any_of_its_prereleases() {
    let release = version_key("8.0.100");
    for suffix in ["rc.1", "preview.7.23375.6", "alpha", "0"] {
        let pre = format!("8.0.100-{}", suffix);
        assert_eq!(order_version_keys(&release, &version_key(&pre)), Order::Greater);
    }
}

#[test]
fn channel_of_takes_major_and_minor() {
    assert_eq!(channel_of("9.0.312"), "9.0");
    assert_eq!(channel_of("10.0.100-rc.1.25451.107"), "10.0");
    assert_eq!(channel_of("9.0"), "9.0");
    assert_eq!(channel_of("10"), "10");
    assert_eq!(channel_of(""), "");
}

#[test]
fn feature_band_rounds_the_patch_down_to_hundreds() {
    assert_eq!(feature_band("9.0.312"), "9.0.3xx");
    assert_eq!(feature_band("8.0.100"), "8.0.1xx");
    assert_eq!(feature_band("8.0.99"), "8.0.0xx");
    assert_eq!(feature_band("10.0.100-rc.1.25451.107"), "10.0.1xx");
    assert_eq!(feature_band("9.0.1200"), "9.0.12xx");
}

#[test]
fn feature_band_of_an_odd_version_is_the_version() {
    assert_eq!(feature_band("9.0"), "9.0");
    assert_eq!(feature_band("9.0.abc"), "9.0.abc");
    assert_eq!(feature_band("weird"), "weird");
}

#[test]
fn feature_band_keeps_the_channel() {
    for v in ["9.0.312", "10.0.100-rc.1.25451.107", "8.0.99", "9.0", "x.y.z"] {
        assert_eq!(channel_of(&feature_band(v)), channel_of(v));
    }
}
