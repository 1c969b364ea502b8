use nl_core::ident::derive_identifier;

#[test]
fn derives_lowercase_with_underscores() {
    assert_eq!(derive_identifier("Test Game"), "test_game");
}

#[test]
fn derives_mixed_case() {
    assert_eq!(derive_identifier("FooBar Baz QUX"), "foobar_baz_qux");
}

#[test]
fn derives_already_normalized() {
    assert_eq!(derive_identifier("test_game"), "test_game");
}

#[test]
fn derivation_is_idempotent_on_its_result() {
    let once = derive_identifier("Some Long Name");
    let twice = derive_identifier(&once);
    assert_eq!(once, twice);
}

#[test]
fn derives_accented_name() {
    assert_eq!(derive_identifier("Épée Duel"), "épée_duel");
}

#[test]
fn keeps_non_space_punctuation() {
    assert_eq!(derive_identifier("Half-Life 3"), "half-life_3");
}

#[test]
fn derives_empty_name() {
    assert_eq!(derive_identifier(""), "");
}

#[test]
fn derives_only_spaces() {
    assert_eq!(derive_identifier("  "), "__");
}
