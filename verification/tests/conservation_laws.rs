use lau_bridge_pattern_math::conservation_laws::noether_laws;

#[test]
fn conservation_laws_test_noether_laws() {
    let laws = noether_laws();
    assert_eq!(laws.len(), 5);
    assert_eq!(laws[0].conserved_quantity, "Energy");
}

#[test]
fn noether_laws_pair_symmetries_with_quantities() {
    let laws = noether_laws();
    let pairs: Vec<(&str, &str)> =
        laws.iter().map(|l| (l.symmetry.as_str(), l.conserved_quantity.as_str())).collect();
    assert_eq!(
        pairs,
        vec![
            ("Time translation", "Energy"),
            ("Venue permutation", "Total mass"),
            ("Spatial translation", "Momentum"),
            ("Phase rotation", "Vibe amplitude"),
            ("Scale invariance", "Fibonacci ratio"),
        ]
    );
    assert_eq!(laws[0].description, "Invariance under time shifts → total energy is conserved");
}
