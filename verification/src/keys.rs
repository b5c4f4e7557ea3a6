//! Names of keys, the same for the Latin and the Russian keyboard layout.

use vstd::prelude::*;

use crate::input::KeyCode;

verus! {

broadcast use vstd::string::group_string_axioms;

/// What `char::to_uppercase` gives for `c`, as a string.
pub uninterp spec fn uppercase_of(c: char) -> Seq<char>;

/// `char::to_uppercase`, collected into a string: the Unicode upper case of
/// `c`, which may be more than one character (`ß` gives `SS`). Of it, only
/// the ASCII case is stated: a small Latin letter gives its capital, any
/// other ASCII character gives itself.
#[verifier::external_body]
fn to_uppercase_string(c: char) -> (s: String)
    ensures
        s@ == uppercase_of(c),
        'a' <= c <= 'z' ==> s@ == seq![(c as int - 32) as char],
        (c as int) < 128 && !('a' <= c <= 'z') ==> s@ == seq![c],
{
    c.to_uppercase().to_string()
}

/// The upper case of `c`: the capital of a small Latin letter, any other
/// ASCII character itself, and what `char::to_uppercase` gives otherwise.
pub open spec fn upper_name(c: char) -> Seq<char> {
    if 'a' <= c <= 'z' {
        seq![(c as int - 32) as char]
    } else if (c as int) < 128 {
        seq![c]
    } else {
        uppercase_of(c)
    }
}

/// The key of the Latin layout that sits where the Russian letter `c` is.
pub open spec fn russian_key_spec(c: char) -> Option<Seq<char>> {
    match c {
        'й' => Some("Q"@),
        'ц' => Some("W"@),
        'у' => Some("E"@),
        'к' => Some("R"@),
        'е' => Some("T"@),
        'н' => Some("Y"@),
        'г' => Some("U"@),
        'ш' => Some("I"@),
        'щ' => Some("O"@),
        'з' => Some("P"@),
        'х' => Some("{"@),
        'ъ' => Some("}"@),
        'ф' => Some("A"@),
        'ы' => Some("S"@),
        'в' => Some("D"@),
        'а' => Some("F"@),
        'п' => Some("G"@),
        'р' => Some("H"@),
        'о' => Some("J"@),
        'л' => Some("K"@),
        'д' => Some("L"@),
        'ж' => Some(":"@),
        'э' => Some("'"@),
        'я' => Some("Z"@),
        'ч' => Some("X"@),
        'с' => Some("C"@),
        'м' => Some("V"@),
        'и' => Some("B"@),
        'т' => Some("N"@),
        'ь' => Some("M"@),
        'б' => Some("<"@),
        'ю' => Some(">"@),
        'ё' => Some("~"@),
        _ => None,
    }
}

/// Whether `c` is a lower-case Russian letter.
pub open spec fn is_russian_lower(c: char) -> bool {
    ('а' <= c && c <= 'я') || c == 'ё'
}

/// The name of a key: a Russian letter is named by the key of the Latin
/// layout in its place, the space bar is `Space`, another character is
/// upper-cased, and the other keys have fixed names (`?` for one without a
/// name).
pub open spec fn key_name_spec(key: KeyCode) -> Seq<char> {
    match key {
        KeyCode::Char(c) => if is_russian_lower(c) {
            match russian_key_spec(c) {
                Some(s) => s,
                None => upper_name(c),
            }
        } else if c == ' ' {
            "Space"@
        } else {
            upper_name(c)
        },
        KeyCode::Enter => "Enter"@,
        KeyCode::Left => "Left"@,
        KeyCode::Right => "Right"@,
        KeyCode::Up => "Up"@,
        KeyCode::Down => "Down"@,
        KeyCode::Backspace => "Backspace"@,
        KeyCode::Tab => "Tab"@,
        KeyCode::Esc => "Esc"@,
        KeyCode::Delete => "Delete"@,
        KeyCode::Home => "Home"@,
        KeyCode::End => "End"@,
        KeyCode::PageUp => "PageUp"@,
        KeyCode::PageDown => "PageDown"@,
        KeyCode::Insert => "Insert"@,
        KeyCode::Other => "?"@,
    }
}

/// The key of the Latin layout that sits where the Russian letter `c` is.
fn russian_key(c: char) -> (r: Option<String>)
    ensures
        match r {
            Some(s) => russian_key_spec(c) == Some(s@),
            None => russian_key_spec(c) is None,
        },
{
    match c {
        'й' => Some("Q".to_string()),
        'ц' => Some("W".to_string()),
        'у' => Some("E".to_string()),
        'к' => Some("R".to_string()),
        'е' => Some("T".to_string()),
        'н' => Some("Y".to_string()),
        'г' => Some("U".to_string()),
        'ш' => Some("I".to_string()),
        'щ' => Some("O".to_string()),
        'з' => Some("P".to_string()),
        'х' => Some("{".to_string()),
        'ъ' => Some("}".to_string()),
        'ф' => Some("A".to_string()),
        'ы' => Some("S".to_string()),
        'в' => Some("D".to_string()),
        'а' => Some("F".to_string()),
        'п' => Some("G".to_string()),
        'р' => Some("H".to_string()),
        'о' => Some("J".to_string()),
        'л' => Some("K".to_string()),
        'д' => Some("L".to_string()),
        'ж' => Some(":".to_string()),
        'э' => Some("'".to_string()),
        'я' => Some("Z".to_string()),
        'ч' => Some("X".to_string()),
        'с' => Some("C".to_string()),
        'м' => Some("V".to_string()),
        'и' => Some("B".to_string()),
        'т' => Some("N".to_string()),
        'ь' => Some("M".to_string()),
        'б' => Some("<".to_string()),
        'ю' => Some(">".to_string()),
        'ё' => Some("~".to_string()),
        _ => None,
    }
}

/// The name of a key, the same for both keyboard layouts.
pub fn canonical_key_name(key: KeyCode) -> (name: String)
    ensures
        name@ == key_name_spec(key),
{
    match key {
        KeyCode::Char(c) => {
            if ('а' <= c && c <= 'я') || c == 'ё' {
                match russian_key(c) {
                    Some(s) => s,
                    None => to_uppercase_string(c),
                }
            } else if c == ' ' {
                "Space".to_string()
            } else {
                to_uppercase_string(c)
            }
        },
        KeyCode::Enter => "Enter".to_string(),
        KeyCode::Left => "Left".to_string(),
        KeyCode::Right => "Right".to_string(),
        KeyCode::Up => "Up".to_string(),
        KeyCode::Down => "Down".to_string(),
        KeyCode::Backspace => "Backspace".to_string(),
        KeyCode::Tab => "Tab".to_string(),
        KeyCode::Esc => "Esc".to_string(),
        KeyCode::Delete => "Delete".to_string(),
        KeyCode::Home => "Home".to_string(),
        KeyCode::End => "End".to_string(),
        KeyCode::PageUp => "PageUp".to_string(),
        KeyCode::PageDown => "PageDown".to_string(),
        KeyCode::Insert => "Insert".to_string(),
        KeyCode::Other => "?".to_string(),
    }
}

/// A Russian letter whose key carries a Latin letter has the name of that
/// Latin letter typed in lower case: both layouts bind the same actions.
pub proof fn lemma_layouts_agree(c: char, latin: char)
    requires
        is_russian_lower(c),
        russian_key_spec(c) == Some(seq![latin]),
        'A' <= latin <= 'Z',
    ensures
        key_name_spec(KeyCode::Char(c)) == key_name_spec(KeyCode::Char((latin as int + 32) as char)),
{
    let small = (latin as int + 32) as char;
    assert('a' <= small <= 'z');
    assert((small as int - 32) as char == latin);
    assert(key_name_spec(KeyCode::Char(small)) =~= seq![latin]);
}

/// The Russian letters along the rows of the keyboard, and what the keys in
/// the same places are named on the Latin layout (the shifted sign on a
/// punctuation key, except the apostrophe key).
pub open spec fn russian_layout() -> Seq<char> {
    "йцукенгшщзхъфывапролджэячсмитьбюё"@
}

/// The names of the keys of the Latin layout in the places of the letters of
/// `russian_layout`, in the same order.
pub open spec fn latin_layout() -> Seq<char> {
    "QWERTYUIOP{}ASDFGHJKL:'ZXCVBNM<>~"@
}

/// A Russian letter is named after the key in the same place on the Latin
/// layout, so a binding made on one layout fires on the other.
pub proof fn lemma_russian_layout()
    ensures
        russian_layout().len() == 33,
        latin_layout().len() == 33,
        forall|i: int|
            0 <= i < 33 ==> key_name_spec(KeyCode::Char(#[trigger] russian_layout()[i])) == seq![
                latin_layout()[i],
            ],
{
    reveal_strlit("йцукенгшщзхъфывапролджэячсмитьбюё");
    reveal_strlit("Q");
    reveal_strlit("W");
    reveal_strlit("E");
    reveal_strlit("R");
    reveal_strlit("T");
    reveal_strlit("Y");
    reveal_strlit("U");
    reveal_strlit("I");
    reveal_strlit("O");
    reveal_strlit("P");
    reveal_strlit("{");
    reveal_strlit("}");
    reveal_strlit("A");
    reveal_strlit("S");
    reveal_strlit("D");
    reveal_strlit("F");
    reveal_strlit("G");
    reveal_strlit("H");
    reveal_strlit("J");
    reveal_strlit("K");
    reveal_strlit("L");
    reveal_strlit(":");
    reveal_strlit("'");
    reveal_strlit("Z");
    reveal_strlit("X");
    reveal_strlit("C");
    reveal_strlit("V");
    reveal_strlit("B");
    reveal_strlit("N");
    reveal_strlit("M");
    reveal_strlit("<");
    reveal_strlit(">");
    reveal_strlit("~");
    reveal_strlit("QWERTYUIOP{}ASDFGHJKL:'ZXCVBNM<>~");
    assert(russian_layout()[0] == 'й' && latin_layout()[0] == 'Q');
    assert(russian_layout()[1] == 'ц' && latin_layout()[1] == 'W');
    assert(russian_layout()[2] == 'у' && latin_layout()[2] == 'E');
    assert(russian_layout()[3] == 'к' && latin_layout()[3] == 'R');
    assert(russian_layout()[4] == 'е' && latin_layout()[4] == 'T');
    assert(russian_layout()[5] == 'н' && latin_layout()[5] == 'Y');
    assert(russian_layout()[6] == 'г' && latin_layout()[6] == 'U');
    assert(russian_layout()[7] == 'ш' && latin_layout()[7] == 'I');
    assert(russian_layout()[8] == 'щ' && latin_layout()[8] == 'O');
    assert(russian_layout()[9] == 'з' && latin_layout()[9] == 'P');
    assert(russian_layout()[10] == 'х' && latin_layout()[10] == '{');
    assert(russian_layout()[11] == 'ъ' && latin_layout()[11] == '}');
    assert(russian_layout()[12] == 'ф' && latin_layout()[12] == 'A');
    assert(russian_layout()[13] == 'ы' && latin_layout()[13] == 'S');
    assert(russian_layout()[14] == 'в' && latin_layout()[14] == 'D');
    assert(russian_layout()[15] == 'а' && latin_layout()[15] == 'F');
    assert(russian_layout()[16] == 'п' && latin_layout()[16] == 'G');
    assert(russian_layout()[17] == 'р' && latin_layout()[17] == 'H');
    assert(russian_layout()[18] == 'о' && latin_layout()[18] == 'J');
    assert(russian_layout()[19] == 'л' && latin_layout()[19] == 'K');
    assert(russian_layout()[20] == 'д' && latin_layout()[20] == 'L');
    assert(russian_layout()[21] == 'ж' && latin_layout()[21] == ':');
    assert(russian_layout()[22] == 'э' && latin_layout()[22] == '\'');
    assert(russian_layout()[23] == 'я' && latin_layout()[23] == 'Z');
    assert(russian_layout()[24] == 'ч' && latin_layout()[24] == 'X');
    assert(russian_layout()[25] == 'с' && latin_layout()[25] == 'C');
    assert(russian_layout()[26] == 'м' && latin_layout()[26] == 'V');
    assert(russian_layout()[27] == 'и' && latin_layout()[27] == 'B');
    assert(russian_layout()[28] == 'т' && latin_layout()[28] == 'N');
    assert(russian_layout()[29] == 'ь' && latin_layout()[29] == 'M');
    assert(russian_layout()[30] == 'б' && latin_layout()[30] == '<');
    assert(russian_layout()[31] == 'ю' && latin_layout()[31] == '>');
    assert(russian_layout()[32] == 'ё' && latin_layout()[32] == '~');
    assert forall|i: int|
        0 <= i < 33 implies key_name_spec(KeyCode::Char(#[trigger] russian_layout()[i])) == seq![
            latin_layout()[i],
        ] by {
        if i == 0 {
            assert(key_name_spec(KeyCode::Char(russian_layout()[0])) =~= seq![latin_layout()[0]]);
        } else if i == 1 {
            assert(key_name_spec(KeyCode::Char(russian_layout()[1])) =~= seq![latin_layout()[1]]);
        } else if i == 2 {
            assert(key_name_spec(KeyCode::Char(russian_layout()[2])) =~= seq![latin_layout()[2]]);
        } else if i == 3 {
            assert(key_name_spec(KeyCode::Char(russian_layout()[3])) =~= seq![latin_layout()[3]]);
        } else if i == 4 {
            assert(key_name_spec(KeyCode::Char(russian_layout()[4])) =~= seq![latin_layout()[4]]);
        } else if i == 5 {
            assert(key_name_spec(KeyCode::Char(russian_layout()[5])) =~= seq![latin_layout()[5]]);
        } else if i == 6 {
            assert(key_name_spec(KeyCode::Char(russian_layout()[6])) =~= seq![latin_layout()[6]]);
        } else if i == 7 {
            assert(key_name_spec(KeyCode::Char(russian_layout()[7])) =~= seq![latin_layout()[7]]);
        } else if i == 8 {
            assert(key_name_spec(KeyCode::Char(russian_layout()[8])) =~= seq![latin_layout()[8]]);
        } else if i == 9 {
            assert(key_name_spec(KeyCode::Char(russian_layout()[9])) =~= seq![latin_layout()[9]]);
        } else if i == 10 {
            assert(key_name_spec(KeyCode::Char(russian_layout()[10])) =~= seq![latin_layout()[10]]);
        } else if i == 11 {
            assert(key_name_spec(KeyCode::Char(russian_layout()[11])) =~= seq![latin_layout()[11]]);
        } else if i == 12 {
            assert(key_name_spec(KeyCode::Char(russian_layout()[12])) =~= seq![latin_layout()[12]]);
        } else if i == 13 {
            assert(key_name_spec(KeyCode::Char(russian_layout()[13])) =~= seq![latin_layout()[13]]);
        } else if i == 14 {
            assert(key_name_spec(KeyCode::Char(russian_layout()[14])) =~= seq![latin_layout()[14]]);
        } else if i == 15 {
            assert(key_name_spec(KeyCode::Char(russian_layout()[15])) =~= seq![latin_layout()[15]]);
        } else if i == 16 {
            assert(key_name_spec(KeyCode::Char(russian_layout()[16])) =~= seq![latin_layout()[16]]);
        } else if i == 17 {
            assert(key_name_spec(KeyCode::Char(russian_layout()[17])) =~= seq![latin_layout()[17]]);
        } else if i == 18 {
            assert(key_name_spec(KeyCode::Char(russian_layout()[18])) =~= seq![latin_layout()[18]]);
        } else if i == 19 {
            assert(key_name_spec(KeyCode::Char(russian_layout()[19])) =~= seq![latin_layout()[19]]);
        } else if i == 20 {
            assert(key_name_spec(KeyCode::Char(russian_layout()[20])) =~= seq![latin_layout()[20]]);
        } else if i == 21 {
            assert(key_name_spec(KeyCode::Char(russian_layout()[21])) =~= seq![latin_layout()[21]]);
        } else if i == 22 {
            assert(key_name_spec(KeyCode::Char(russian_layout()[22])) =~= seq![latin_layout()[22]]);
        } else if i == 23 {
            assert(key_name_spec(KeyCode::Char(russian_layout()[23])) =~= seq![latin_layout()[23]]);
        } else if i == 24 {
            assert(key_name_spec(KeyCode::Char(russian_layout()[24])) =~= seq![latin_layout()[24]]);
        } else if i == 25 {
            assert(key_name_spec(KeyCode::Char(russian_layout()[25])) =~= seq![latin_layout()[25]]);
        } else if i == 26 {
            assert(key_name_spec(KeyCode::Char(russian_layout()[26])) =~= seq![latin_layout()[26]]);
        } else if i == 27 {
            assert(key_name_spec(KeyCode::Char(russian_layout()[27])) =~= seq![latin_layout()[27]]);
        } else if i == 28 {
            assert(key_name_spec(KeyCode::Char(russian_layout()[28])) =~= seq![latin_layout()[28]]);
        } else if i == 29 {
            assert(key_name_spec(KeyCode::Char(russian_layout()[29])) =~= seq![latin_layout()[29]]);
        } else if i == 30 {
            assert(key_name_spec(KeyCode::Char(russian_layout()[30])) =~= seq![latin_layout()[30]]);
        } else if i == 31 {
            assert(key_name_spec(KeyCode::Char(russian_layout()[31])) =~= seq![latin_layout()[31]]);
        } else if i == 32 {
            assert(key_name_spec(KeyCode::Char(russian_layout()[32])) =~= seq![latin_layout()[32]]);
        }
    }
}

} // verus!
