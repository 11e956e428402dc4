use attofab_core::materials::Dopant;

#[test]
fn only_boron_is_p_type() {
    assert!(Dopant::Boron.is_p_type());
    assert!(!Dopant::Phosphorus.is_p_type());
    assert!(!Dopant::Arsenic.is_p_type());
    assert!(!Dopant::Antimony.is_p_type());
}

#[test]
fn dopant_names_round_trip() {
    for d in [Dopant::Boron, Dopant::Phosphorus, Dopant::Arsenic, Dopant::Antimony] {
        assert_eq!(Dopant::from_name(d.name()), Some(d));
        assert_eq!(d.name_static(), d.name());
    }
    assert_eq!(Dopant::Phosphorus.name(), "Phosphorus");
    assert_eq!(Dopant::from_name("Gallium"), None);
    assert_eq!(Dopant::from_name("boron"), None);
}
