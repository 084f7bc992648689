use drumentor::midi_input::parse_note_on;

#[test]
fn note_on_with_velocity_is_a_hit() {
    assert_eq!(parse_note_on(&[0x99, 38, 100]), Some((9, 38, 100)));
    assert_eq!(parse_note_on(&[0x90, 36, 1, 0]), Some((0, 36, 1)));
}

#[test]
fn other_messages_are_not_hits() {
    // Velocity 0 means note-off.
    assert_eq!(parse_note_on(&[0x99, 38, 0]), None);
    assert_eq!(parse_note_on(&[0x89, 38, 64]), None);
    assert_eq!(parse_note_on(&[0xB0, 7, 100]), None);
    assert_eq!(parse_note_on(&[0x99, 38]), None);
    assert_eq!(parse_note_on(&[]), None);
}
