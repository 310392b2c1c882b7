use creative_zone::game::Move;
use creative_zone::window::{wide, Key};

#[test]
fn letters_and_arrows_press_the_same_keys() {
    assert_eq!(Key::from_virtual_key(0x41), Some(Key::Left));
    assert_eq!(Key::from_virtual_key(0x25), Some(Key::Left));
    assert_eq!(Key::from_virtual_key(0x44), Some(Key::Right));
    assert_eq!(Key::from_virtual_key(0x27), Some(Key::Right));
    assert_eq!(Key::from_virtual_key(0x57), Some(Key::Up));
    assert_eq!(Key::from_virtual_key(0x26), Some(Key::Up));
    assert_eq!(Key::from_virtual_key(0x53), Some(Key::Down));
    assert_eq!(Key::from_virtual_key(0x28), Some(Key::Down));
    assert_eq!(Key::from_virtual_key(0x20), Some(Key::Pause));
    assert_eq!(Key::from_virtual_key(0x52), Some(Key::Reset));
    assert_eq!(Key::from_virtual_key(0x1B), None);
    assert_eq!(Key::from_virtual_key(0x42), None);
}

#[test]
fn every_code_of_a_key_maps_back_to_it() {
    for key in [Key::Left, Key::Right, Key::Up, Key::Down, Key::Pause, Key::Reset] {
        let codes = key.virtual_keys();
        assert!(!codes.is_empty());
        for code in codes {
            assert_eq!(Key::from_virtual_key(code), Some(key));
        }
    }
}

#[test]
fn keys_ask_for_moves() {
    assert_eq!(Key::Left.direction(), Some(Move::Left));
    assert_eq!(Key::Right.direction(), Some(Move::Right));
    assert_eq!(Key::Up.direction(), Some(Move::Forward));
    assert_eq!(Key::Down.direction(), Some(Move::Backward));
    assert_eq!(Key::Pause.direction(), None);
    assert_eq!(Key::Reset.direction(), None);
}

#[test]
fn wide_text_ends_with_a_zero_unit() {
    assert_eq!(wide("Creative Zone"), {
        let mut units: Vec<u16> = "Creative Zone".encode_utf16().collect();
        units.push(0);
        units
    });
    assert_eq!(wide(""), vec![0u16]);
}

#[test]
fn wide_text_splits_characters_beyond_the_basic_plane() {
    assert_eq!(wide("a\u{e9}\u{1F600}"), vec![0x61, 0xE9, 0xD83D, 0xDE00, 0]);
}
