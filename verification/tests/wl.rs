use wano::scale::Scale;
use wano::wl::{
    logical_size, quantized_scale, rotated, transform_from_name, transform_name, Head, HeadId, Mode, ModeSpec,
    OutputSetting, SettingError, Snapshot, Transform, TRANSFORMS,
};

fn scale(x: f64) -> Scale {
    Scale { bits: x.to_bits() }
}

fn value(s: Scale) -> f64 {
    f64::from_bits(s.bits)
}

fn parse(s: &str) -> Result<ModeSpec, SettingError> {
    ModeSpec::from_str(s)
}

#[test]
fn mode_spec_round_trip() {
    let spec: ModeSpec = parse("3840x2160@60.000").unwrap();
    assert_eq!(spec, ModeSpec { width: 3840, height: 2160, refresh: Some(60_000) });
    assert_eq!(spec.to_string(), "3840x2160@60.000");

    let spec: ModeSpec = parse("1920x1080").unwrap();
    assert_eq!(spec, ModeSpec { width: 1920, height: 1080, refresh: None });
    assert_eq!(spec.to_string(), "1920x1080");

    assert_eq!(parse("2560x1440@59.951Hz").unwrap().refresh, Some(59_951));
    assert!(parse("nonsense").is_err());
}

#[test]
fn transform_names_round_trip() {
    for t in TRANSFORMS {
        assert_eq!(transform_from_name(transform_name(t)).unwrap(), t);
    }
}

#[test]
fn logical_size_accounts_for_scale_and_rotation() {
    let head = Head {
        id: HeadId::default(),
        description: String::new(),
        modes: vec![],
        enabled: true,
        current_mode: Some(Mode { width: 3840, height: 2160, refresh: 60_000, preferred: true }),
        position: (0, 0),
        scale: scale(1.6),
        transform: Transform::Normal,
    };
    assert_eq!(head.logical_size(), (2400, 1350));

    let rotated = Head { transform: Transform::_270, scale: scale(1.0), ..head };
    assert_eq!(rotated.logical_size(), (2160, 3840));
}

/// Measured against sway: the scale is snapped to 120ths and the division
/// truncated, so a screen 3px narrower than the compositor thinks, which is what
/// `round(px / scale)` gives for 3840 at 1.6 over the wire, would make the next
/// screen overlap it.
#[test]
fn logical_size_matches_the_compositor() {
    assert_eq!(logical_size(1280, 720, scale(1.45)), (882, 496));
    assert_eq!(logical_size(1280, 720, scale(1.3)), (984, 553));
    assert_eq!(logical_size(1280, 720, scale(1.7)), (752, 423));
    assert_eq!(logical_size(3840, 2160, scale(1.6)), (2400, 1350));
    // wl_fixed reports a configured 1.6 as 1.6015625; same output.
    assert_eq!(logical_size(3840, 2160, scale(1.6015625)), (2400, 1350));
    assert_eq!(quantized_scale(scale(1.6015625)), scale(1.6));
}

#[test]
fn scales_snap_to_120ths() {
    for (given, kept) in [(1.0, 1.0), (2.0, 2.0), (1.5, 1.5), (1.0041, 1.0), (1.0042, 121.0 / 120.0), (0.001, 1.0 / 120.0)] {
        assert_eq!(value(quantized_scale(scale(given))), kept);
    }
    for given in [0.0, -0.0, -1.5, f64::NAN, f64::NEG_INFINITY] {
        assert_eq!(value(quantized_scale(scale(given))), 1.0);
    }
    assert_eq!(value(quantized_scale(scale(f64::INFINITY))), f64::INFINITY);
    assert_eq!(value(quantized_scale(scale(5e-324))), 1.0 / 120.0);
}

#[test]
fn every_step_up_to_ten_is_kept_as_it_is() {
    for steps in 1..1200u32 {
        let s = scale(steps as f64 / 120.0);
        assert_eq!(quantized_scale(s), s);
        assert_eq!(s.step_count(), steps as u64);
        // What a profile keeps is applied as the very same scale.
        assert_eq!(quantized_scale(s.to_thousandths()), s);
    }
}

#[test]
fn scales_round_as_doubles_do() {
    let mut x: f64 = 0.000123;
    while x < 1e300 {
        let steps = (x * 120.0).round().max(1.0);
        assert_eq!(value(quantized_scale(scale(x))), steps / 120.0);
        assert_eq!(value(scale(x).to_thousandths()), (x * 1000.0).round() / 1000.0);
        assert_eq!(value(scale(-x).to_thousandths()), (-x * 1000.0).round() / 1000.0);
        x *= 1.0173;
    }
    for x in [0.0005, 0.5005, 1.0005, 2.6665, 0.00049999999999999999, f64::MAX, f64::MIN_POSITIVE, 1e-320] {
        assert_eq!(value(scale(x).to_thousandths()), (x * 1000.0).round() / 1000.0);
    }
    assert!(value(scale(f64::NAN).to_thousandths()).is_nan());
}

#[test]
fn rates_are_read_as_doubles_are() {
    for text in [
        "59.951", "60", "60.", ".5", "0.5005", "0.5015", "1.0005", "2.0005", "59.9405", "143.9985", "1e2", "1E+2",
        "12.5e-1", "0.000499999999999999999999999", "0.0005", "0.00049999999999999994", "1.00049999999999999999",
        "1e-9", "1e-400", "0e99999999999999999999999", "1e99999999999999999999999", "1e-99999999999999999999999",
        "2147483.647", "2147483.6475", "2147484", "4294967295", "99999999999999999999", "0.0000000000001", "-59.951",
        "+59.951", "-2147483.648", "-2147484", "inf", "-inf", "Infinity", "+INF", "nan", "-NaN", "00000060.0000000000",
        "0.000009999999999", "0.00001", "123456.78949999999999999999999999999999999999999999999999999999999",
        "123456.7895", "1048575.9995", "0.1234999999999999999999999999999999999999999999999999999999999999999999999",
    ] {
        let hz: f64 = text.parse().unwrap();
        let expected = (hz * 1000.0).round() as i32;
        assert_eq!(parse(&format!("1x1@{text}")).unwrap().refresh, Some(expected), "{text}");
    }
    for text in ["", ".", "e5", "1e", "1e+", "1.2.3", "1,5", "0x10", "++1", "1_0", "infinit", "Hz", "1e5.0", "- 1"] {
        assert!(text.parse::<f64>().is_err());
        assert!(matches!(parse(&format!("1x1@{text}")), Err(SettingError::BadRate(_))), "{text}");
    }
}

#[test]
fn ties_between_thousandths_round_as_doubles_do() {
    for k in 0..5000u32 {
        let text = format!("{}.{:03}5", k / 1000 * 7, k % 1000);
        let hz: f64 = text.parse().unwrap();
        assert_eq!(parse(&format!("1x1@{text}")).unwrap().refresh, Some((hz * 1000.0).round() as i32), "{text}");
    }
}

#[test]
fn a_mode_is_read_around_its_blanks_and_units() {
    assert_eq!(parse(" 800 x 600 @ 60 Hz").unwrap(), ModeSpec { width: 800, height: 600, refresh: Some(60_000) });
    assert_eq!(parse("800x600@60HzHzhz").unwrap_err(), SettingError::BadRate("60HzHz".into()));
    assert_eq!(parse("800x600@60hzHz").unwrap().refresh, Some(60_000));
    assert_eq!(parse("+800x-600").unwrap(), ModeSpec { width: 800, height: -600, refresh: None });
    assert_eq!(parse("2147483648x1").unwrap_err(), SettingError::BadWidth("2147483648x1".into()));
    assert_eq!(parse("1x-2147483648").unwrap().height, i32::MIN);
    assert_eq!(parse("1x2x3").unwrap_err(), SettingError::BadHeight("1x2x3".into()));
    assert_eq!(parse("1@2@3").unwrap_err(), SettingError::BadRate("2@3".into()));
    // A rate that cannot be read is reported before a size that cannot be.
    assert_eq!(parse("1@fast").unwrap_err(), SettingError::BadRate("fast".into()));
    assert_eq!(parse("x@1").unwrap_err(), SettingError::BadWidth("x@1".into()));
}

#[test]
fn modes_are_written_with_three_decimals() {
    let text = |refresh: i32| ModeSpec { width: 1, height: 2, refresh: Some(refresh) }.to_string();
    for mhz in [0, 1, 999, 1000, 59_951, -1, -1000, i32::MAX, i32::MIN] {
        assert_eq!(text(mhz), format!("1x2@{:.3}", mhz as f64 / 1000.0));
        assert_eq!(parse(&text(mhz)).unwrap().refresh, Some(mhz));
    }
    let mode = Mode { width: 3840, height: 2160, refresh: 59_997, preferred: true };
    assert_eq!(mode.to_string(), "3840x2160@59.997");
    assert_eq!(ModeSpec::from(mode), ModeSpec { width: 3840, height: 2160, refresh: Some(59_997) });
}

#[test]
fn transforms_are_told_by_name() {
    assert_eq!(transform_from_name("0").unwrap(), Transform::Normal);
    assert_eq!(transform_from_name("flipped-180").unwrap(), Transform::Flipped180);
    assert_eq!(transform_from_name("Normal").unwrap_err(), SettingError::UnknownTransform("Normal".into()));
    assert_eq!(TRANSFORMS.map(rotated), [false, true, false, true, false, true, false, true]);
}

#[test]
fn an_output_in_no_mode_is_as_large_as_its_preferred_one() {
    let mut head = Head {
        id: HeadId::default(),
        description: String::new(),
        modes: vec![
            Mode { width: 800, height: 600, refresh: 60_000, preferred: false },
            Mode { width: 1024, height: 768, refresh: 60_000, preferred: true },
        ],
        enabled: false,
        current_mode: None,
        position: (3, 4),
        scale: scale(2.0),
        transform: Transform::Flipped90,
    };
    assert_eq!(head.logical_size(), (384, 512));
    assert_eq!(head.best_mode().unwrap().width, 1024);
    head.modes = vec![];
    assert_eq!(head.logical_size(), (540, 960));
    let setting = OutputSetting::from_head(&head);
    assert_eq!((setting.position, setting.mode, setting.enabled), (Some((3, 4)), None, false));
    assert_eq!((setting.scale, setting.transform), (Some(scale(2.0)), Some(Transform::Flipped90)));
}

#[test]
fn a_length_is_truncated_towards_nought() {
    assert_eq!(logical_size(100, -100, scale(1.5)), (66, -66));
    assert_eq!(logical_size(123, 124, scale(123.0 / 120.0)), (120, 120));
    assert_eq!(logical_size(1920, 1080, scale(0.0)), (1920, 1080));
    assert_eq!(logical_size(1920, 1080, scale(f64::INFINITY)), (0, 0));
}

#[test]
fn identities_read_and_are_found() {
    let id = |c: &str| HeadId { connector: c.into(), make: "Dell".into(), model: "P27".into(), serial: "7".into() };
    assert_eq!(id("DP-1").to_string(), "DP-1 (Dell P27 7)");
    assert!(id("DP-1").same(&id("DP-1")) && !id("DP-1").same(&id("DP-2")));
    assert!(id("DP-1").not_after(&id("DP-2")) && !id("DP-2").not_after(&id("DP-1")));
    assert!(id("DP-1").not_after(&id("DP-1")));
    let head = |c: &str| Head {
        id: id(c),
        description: c.into(),
        modes: vec![],
        enabled: true,
        current_mode: None,
        position: (0, 0),
        scale: scale(1.0),
        transform: Transform::Normal,
    };
    let snapshot = Snapshot { serial: 1, heads: vec![head("DP-1"), head("DP-2")] };
    assert_eq!(snapshot.head(&id("DP-2")).unwrap().description, "DP-2");
    assert!(snapshot.head(&id("DP-3")).is_none());
}

#[test]
fn every_scale_that_is_carried_survives_being_saved() {
    for fixed in (1..2_000_000u32).step_by(97) {
        let s = scale(fixed as f64 / 256.0);
        let snapped = quantized_scale(s);
        assert!(value(snapped) > 0.0);
        assert_eq!(quantized_scale(snapped), snapped);
        let saved = snapped.to_thousandths();
        assert_eq!(value(saved), (value(saved) * 1000.0).round() / 1000.0);
        assert_eq!(quantized_scale(saved), snapped);
    }
    for x in [f64::MIN_POSITIVE, 100.0, 1e6, 8388607.99609375] {
        let snapped = quantized_scale(scale(x));
        assert_eq!(value(snapped), (x * 120.0).round().max(1.0) / 120.0);
        assert_eq!(quantized_scale(snapped.to_thousandths()), snapped);
    }
}
