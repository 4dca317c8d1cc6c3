use vest_db::names::{dependent_binding_name, is_valid_identifier_text, reference_name_text};

#[test]
fn dependent_binding_name_uses_base_binding() {
    assert_eq!(dependent_binding_name("@header.len"), Some("header"));
    assert_eq!(dependent_binding_name("@len"), Some("len"));
}

#[test]
fn valid_identifier_text_rejects_reserved_words() {
    for reserved in [
        "enum",
        "choose",
        "wrap",
        "Option",
        "Vec",
        "Tail",
        "btc_varint",
        "uleb128",
        "u8",
        "i64",
    ] {
        assert!(!is_valid_identifier_text(reserved), "{reserved} should be reserved");
    }
    assert!(is_valid_identifier_text("enum_tag"));
    assert!(is_valid_identifier_text("u8_value"));
}

#[test]
fn reference_name_text_rejects_wildcard_variants() {
    assert_eq!(reference_name_text("variant_id", "_"), None);
    assert_eq!(reference_name_text("identifier", "packet"), Some("packet"));
}

#[test]
fn dependent_binding_name_trims_and_rejects_empty_bindings() {
    assert_eq!(dependent_binding_name("  @len  "), Some("len"));
    assert_eq!(dependent_binding_name("plain"), Some("plain"));
    assert_eq!(dependent_binding_name("@"), None);
    assert_eq!(dependent_binding_name("@.len"), None);
    assert_eq!(dependent_binding_name(""), None);
}

#[test]
fn identifier_rules_cover_first_character_and_digits() {
    assert!(!is_valid_identifier_text(""));
    assert!(!is_valid_identifier_text("9bad"));
    assert!(!is_valid_identifier_text("has-dash"));
    assert!(is_valid_identifier_text("_x9"));
    assert!(!is_valid_identifier_text("const"));
}

#[test]
fn reference_name_text_by_node_kind() {
    assert_eq!(reference_name_text("depend_id", "@hdr.len"), Some("hdr"));
    assert_eq!(reference_name_text("var_id", ""), None);
    assert_eq!(reference_name_text("variant_id", "A"), Some("A"));
    assert_eq!(reference_name_text("number", "12"), None);
}
