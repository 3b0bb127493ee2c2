use unit_calc::names::{is_valid_var_name, letter, name_char, valid_chars};

#[test]
fn names_start_with_a_letter() {
    assert!(!is_valid_var_name(&"1abc".to_string()));
    assert!(is_valid_var_name(&"a_1".to_string()));
    assert!(!is_valid_var_name(&"".to_string()));
}

#[test]
fn names_of_either_case() {
    assert!(is_valid_var_name(&"x".to_string()));
    assert!(is_valid_var_name(&"X".to_string()));
    assert!(is_valid_var_name(&"Speed_of_Light2".to_string()));
    assert!(is_valid_var_name(&"z9".to_string()));
    assert!(is_valid_var_name(&"A_".to_string()));
}

#[test]
fn names_hold_no_other_character() {
    assert!(!is_valid_var_name(&"_a".to_string()));
    assert!(!is_valid_var_name(&"a b".to_string()));
    assert!(!is_valid_var_name(&" a".to_string()));
    assert!(!is_valid_var_name(&"a-b".to_string()));
    assert!(!is_valid_var_name(&"a.b".to_string()));
    assert!(!is_valid_var_name(&"né".to_string()));
    assert!(!is_valid_var_name(&"éa".to_string()));
    assert!(!is_valid_var_name(&"a=".to_string()));
    assert!(!is_valid_var_name(&"9".to_string()));
}

#[test]
fn only_ascii_letters_are_letters() {
    // The Kelvin sign is a letter whose lower case is the ASCII `k`.
    assert!(!is_valid_var_name(&"\u{212a}".to_string()));
    assert!(!is_valid_var_name(&"a\u{212a}".to_string()));
    assert!(!letter('\u{212a}'));
    assert!(!name_char('\u{212a}'));
}

#[test]
fn letters_and_name_characters() {
    for c in ['a', 'z', 'A', 'Z', 'm'] {
        assert!(letter(c));
        assert!(name_char(c));
    }
    for c in ['0', '9', '_'] {
        assert!(!letter(c));
        assert!(name_char(c));
    }
    for c in ['@', '[', '`', '{', '/', ':', ' ', '-'] {
        assert!(!letter(c));
        assert!(!name_char(c));
    }
}

#[test]
fn names_as_characters() {
    assert!(valid_chars(&vec!['a', '_', '1']));
    assert!(!valid_chars(&vec!['1', 'a']));
    assert!(!valid_chars(&vec![]));
}
