use gorst::board::IntersectionState;
use gorst::gamecommand::GameCommand;

#[test]
pub fn parse_undo_words() {
    assert_eq!(
        GameCommand::try_from_string(String::from("undo")),
        Some(GameCommand::Undo)
    );
    assert_eq!(
        GameCommand::try_from_string(String::from("u")),
        Some(GameCommand::Undo)
    );
    assert_eq!(
        GameCommand::try_from_string(String::from("UNDO")),
        Some(GameCommand::Undo)
    );
}

#[test]
pub fn parse_place_commands() {
    assert_eq!(
        GameCommand::try_from_string(String::from("w;A;5")),
        Some(GameCommand::Place(0, 4, IntersectionState::White))
    );
    assert_eq!(
        GameCommand::try_from_string(String::from("b;b;6")),
        Some(GameCommand::Place(1, 5, IntersectionState::Black))
    );
    assert_eq!(
        GameCommand::try_from_string(String::from("black;c;1")),
        Some(GameCommand::Place(2, 0, IntersectionState::Black))
    );
    assert_eq!(
        GameCommand::try_from_string(String::from("WHITE;Z;26")),
        Some(GameCommand::Place(25, 25, IntersectionState::White))
    );
    // Spaces are stripped before the pieces are read.
    assert_eq!(
        GameCommand::try_from_string(String::from("w; a ; 5")),
        Some(GameCommand::Place(0, 4, IntersectionState::White))
    );
    // The standard number parser accepts a leading plus sign.
    assert_eq!(
        GameCommand::try_from_string(String::from("w;a;+5")),
        Some(GameCommand::Place(0, 4, IntersectionState::White))
    );
}

#[test]
pub fn parse_rejects_malformed_input() {
    assert_eq!(GameCommand::try_from_string(String::from("")), None);
    assert_eq!(GameCommand::try_from_string(String::from("xyz")), None);
    assert_eq!(GameCommand::try_from_string(String::from("w")), None);
    assert_eq!(GameCommand::try_from_string(String::from("w;a")), None);
    assert_eq!(GameCommand::try_from_string(String::from("w;;5")), None);
    assert_eq!(GameCommand::try_from_string(String::from("w;1;5")), None);
    assert_eq!(GameCommand::try_from_string(String::from("grey;a;5")), None);
    // Row numbers are 1-indexed in the text syntax.
    assert_eq!(GameCommand::try_from_string(String::from("w;a;0")), None);
    assert_eq!(GameCommand::try_from_string(String::from("w;a;nine")), None);
    // A value beyond the machine word is rejected, not wrapped.
    assert_eq!(
        GameCommand::try_from_string(String::from("w;a;99999999999999999999999999")),
        None
    );
    // Undo words are matched against the whole line.
    assert_eq!(GameCommand::try_from_string(String::from("undo ")), None);
}
