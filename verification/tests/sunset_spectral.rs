use lau_bridge_pattern_math::sunset_spectral::SunsetMode;

#[test]
fn test_mode_names() {
    assert_eq!(SunsetMode::Ethos.name(), "ethos");
    assert_eq!(SunsetMode::Pathos.name(), "pathos");
    assert_eq!(SunsetMode::Logos.name(), "logos");
}

#[test]
fn all_modes_in_order() {
    assert_eq!(SunsetMode::all(), &[SunsetMode::Ethos, SunsetMode::Pathos, SunsetMode::Logos]);
}
