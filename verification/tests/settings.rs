use hpvcd::{DecodeError, DecodeThreads, HeicSettings, ParseLimits};

#[test]
fn defaults_accept_reasonable_and_reject_huge() {
    let l = ParseLimits::default();
    assert!(l.check_image(4032, 3024).is_ok());
    assert!(l.check_image(0, 3024).is_err());
    assert!(l.check_image(17_000, 10).is_err());
    assert!(l.check_image(16_000, 16_000).is_err());
}

#[test]
fn custom_limits_are_honoured() {
    let l = ParseLimits { max_dimension: 1000, max_pixels: 500_000, ..ParseLimits::default() };
    assert!(l.check_image(800, 600).is_ok());
    assert!(l.check_image(1001, 1).is_err());
    assert!(l.check_image(900, 900).is_err());
}

#[test]
fn limit_errors_name_the_quantity() {
    let l = ParseLimits { max_dimension: 1000, max_pixels: 500_000, ..ParseLimits::new() };
    assert!(matches!(l.check_image(0, 7), Err(DecodeError::BadDimensions { w: 0, h: 7 })));
    assert!(matches!(
        l.check_image(1001, 1),
        Err(DecodeError::LimitExceeded { what: "image width", value: 1001, limit: 1000 })
    ));
    assert!(matches!(
        l.check_image(1, 1002),
        Err(DecodeError::LimitExceeded { what: "image height", value: 1002, limit: 1000 })
    ));
    assert!(matches!(
        l.check_image(900, 900),
        Err(DecodeError::LimitExceeded { what: "image pixels", value: 810_000, limit: 500_000 })
    ));
}

#[test]
fn raising_limits_keeps_images_accepted() {
    let small = ParseLimits { max_dimension: 1000, max_pixels: 500_000, ..ParseLimits::new() };
    assert!(small.check_image(800, 600).is_ok());
    assert!(ParseLimits::new().check_image(800, 600).is_ok());
    assert!(small.check_image(799, 1).is_ok());
}

#[test]
fn defaults_preserve_auxiliary_decoding() {
    let settings = HeicSettings::default();
    assert_eq!(settings.threads, DecodeThreads::Available);
    assert!(settings.decode_alpha);
    assert!(settings.decode_gain_map);
}

#[test]
fn primary_only_disables_auxiliary_payloads() {
    let settings = HeicSettings::new().primary_only();
    assert!(!settings.decode_alpha);
    assert!(!settings.decode_gain_map);
}

#[test]
fn fixed_zero_is_resolved_to_one_worker() {
    assert_eq!(DecodeThreads::Fixed(0).worker_count(None), 1);
    assert_eq!(DecodeThreads::Fixed(0).worker_count(Some(8)), 1);
}

#[test]
fn worker_count_follows_the_policy() {
    assert_eq!(DecodeThreads::Fixed(5).worker_count(Some(8)), 5);
    assert_eq!(DecodeThreads::default().worker_count(Some(8)), 8);
    assert_eq!(DecodeThreads::Available.worker_count(None), 1);
}

#[test]
fn builders_change_one_setting() {
    let limits = ParseLimits { max_tiles: 3, ..ParseLimits::new() };
    let s = HeicSettings::new()
        .with_threads(2)
        .with_limits(limits)
        .with_decode_alpha(false)
        .with_decode_gain_map(true);
    assert_eq!(s.threads, DecodeThreads::Fixed(2));
    assert_eq!(s.limits.max_tiles, 3);
    assert!(!s.decode_alpha);
    assert!(s.decode_gain_map);
}
