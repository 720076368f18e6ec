use fossil::kind::SyntaxKind;

#[test]
fn syntax_kind_round_trip_for_all_variants() {
    for raw in 0..(SyntaxKind::__LAST as u16) {
        let kind = SyntaxKind::from_raw_value(raw);
        assert_eq!(kind as u16, raw, "round-trip failed at raw={raw}");
    }
}

#[test]
fn the_raw_value_of_a_kind_is_its_position() {
    assert_eq!(SyntaxKind::WHITESPACE.to_raw(), 0);
    assert_eq!(SyntaxKind::IDENT.to_raw(), 3);
    assert_eq!(SyntaxKind::from_raw_value(3), SyntaxKind::IDENT);
    assert_eq!(SyntaxKind::NULL.to_raw(), 68);
}

#[test]
fn rowan_language_round_trips_every_kind() {
    for raw in 0..(SyntaxKind::__LAST as u16) {
        let kind = SyntaxKind::from_raw_value(raw);
        let back = kind.to_raw();
        assert_eq!(back, raw);
    }
}
