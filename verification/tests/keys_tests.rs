use life_tui::input::KeyCode;
use life_tui::keys::canonical_key_name;

#[test]
fn latin_letters_are_upper_cased() {
    assert_eq!(canonical_key_name(KeyCode::Char('l')), "L");
    assert_eq!(canonical_key_name(KeyCode::Char('L')), "L");
    assert_eq!(canonical_key_name(KeyCode::Char('+')), "+");
    assert_eq!(canonical_key_name(KeyCode::Char('7')), "7");
}

#[test]
fn non_ascii_letters_use_full_upper_case() {
    assert_eq!(canonical_key_name(KeyCode::Char('ß')), "SS");
    assert_eq!(canonical_key_name(KeyCode::Char('é')), "É");
    // a capital Russian letter is not in the layout table
    assert_eq!(canonical_key_name(KeyCode::Char('Й')), "Й");
}

#[test]
fn russian_letters_name_the_latin_key() {
    assert_eq!(canonical_key_name(KeyCode::Char('й')), "Q");
    assert_eq!(canonical_key_name(KeyCode::Char('д')), "L");
    assert_eq!(canonical_key_name(KeyCode::Char('о')), "J");
    assert_eq!(canonical_key_name(KeyCode::Char('е')), "T");
    assert_eq!(canonical_key_name(KeyCode::Char('х')), "{");
    assert_eq!(canonical_key_name(KeyCode::Char('ж')), ":");
    assert_eq!(canonical_key_name(KeyCode::Char('э')), "'");
    assert_eq!(canonical_key_name(KeyCode::Char('ё')), "~");
    assert_eq!(canonical_key_name(KeyCode::Char('я')), "Z");
}

#[test]
fn space_and_special_keys() {
    assert_eq!(canonical_key_name(KeyCode::Char(' ')), "Space");
    assert_eq!(canonical_key_name(KeyCode::Enter), "Enter");
    assert_eq!(canonical_key_name(KeyCode::Left), "Left");
    assert_eq!(canonical_key_name(KeyCode::Right), "Right");
    assert_eq!(canonical_key_name(KeyCode::Up), "Up");
    assert_eq!(canonical_key_name(KeyCode::Down), "Down");
    assert_eq!(canonical_key_name(KeyCode::Backspace), "Backspace");
    assert_eq!(canonical_key_name(KeyCode::Tab), "Tab");
    assert_eq!(canonical_key_name(KeyCode::Esc), "Esc");
    assert_eq!(canonical_key_name(KeyCode::Delete), "Delete");
    assert_eq!(canonical_key_name(KeyCode::Home), "Home");
    assert_eq!(canonical_key_name(KeyCode::End), "End");
    assert_eq!(canonical_key_name(KeyCode::PageUp), "PageUp");
    assert_eq!(canonical_key_name(KeyCode::PageDown), "PageDown");
    assert_eq!(canonical_key_name(KeyCode::Insert), "Insert");
    assert_eq!(canonical_key_name(KeyCode::Other), "?");
}

#[test]
fn both_layouts_name_letter_keys_alike() {
    let pairs = [
        ('й', 'q'), ('ц', 'w'), ('у', 'e'), ('к', 'r'), ('е', 't'), ('н', 'y'), ('г', 'u'),
        ('ш', 'i'), ('щ', 'o'), ('з', 'p'), ('ф', 'a'), ('ы', 's'), ('в', 'd'), ('а', 'f'),
        ('п', 'g'), ('р', 'h'), ('о', 'j'), ('л', 'k'), ('д', 'l'), ('я', 'z'), ('ч', 'x'),
        ('с', 'c'), ('м', 'v'), ('и', 'b'), ('т', 'n'), ('ь', 'm'),
    ];
    for (ru, latin) in pairs {
        assert_eq!(canonical_key_name(KeyCode::Char(ru)), canonical_key_name(KeyCode::Char(latin)));
    }
}
