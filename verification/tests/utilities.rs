use vest_db::check::{clone_host_type, ConstraintInterval, HostType};
use vest_db::db::Database;
use vest_db::input::SourceFile;
use vest_db::names::is_reserved_word;
use vest_db::parse::has_error;
use vest_db::syntax::SyntaxNode;
use vest_db::text::{
    byte_slice, is_white_space_char, owned, push_str, str_chars, str_eq, take_chars, trim_end_str, trim_str, u64_text,
    usize_text,
};
use vest_db::types::{int_type_debug_name, int_type_keyword, IntType, Span, SymbolId};

const ALL_INT_TYPES: [IntType; 12] = [
    IntType::U8,
    IntType::U16,
    IntType::U24,
    IntType::U32,
    IntType::U64,
    IntType::I8,
    IntType::I16,
    IntType::I24,
    IntType::I32,
    IntType::I64,
    IntType::BtcVarint,
    IntType::Uleb128,
];

#[test]
fn text_equality_and_copies() {
    assert!(str_eq("abc", "abc"));
    assert!(!str_eq("abc", "abd"));
    assert!(!str_eq("abc", "ab"));
    assert_eq!(owned("héllo"), "héllo".to_string());
    let mut out = owned("ab");
    push_str(&mut out, "cd");
    assert_eq!(out, "abcd");
    assert_eq!(str_chars("añb"), vec!['a', 'ñ', 'b']);
}

#[test]
fn decimal_text_of_numbers() {
    assert_eq!(u64_text(0), "0");
    assert_eq!(u64_text(1234), "1234");
    assert_eq!(u64_text(u64::MAX), "18446744073709551615");
    assert_eq!(usize_text(42), "42");
}

#[test]
fn trimming_follows_unicode_white_space() {
    assert!(is_white_space_char(' '));
    assert!(is_white_space_char('\t'));
    assert!(is_white_space_char('\n'));
    assert!(is_white_space_char('\u{3000}'));
    assert!(!is_white_space_char('x'));
    assert_eq!(trim_str("  a b \n"), "a b");
    assert_eq!(trim_str(" \t "), "");
    assert_eq!(trim_end_str("  a b \n"), "  a b");
    assert_eq!(take_chars("héllo", 2), "hé");
    assert_eq!(take_chars("hé", 10), "hé");
}

#[test]
fn byte_slices_respect_character_boundaries() {
    assert_eq!(byte_slice("héllo", 0, 1), Some("h"));
    assert_eq!(byte_slice("héllo", 1, 3), Some("é"));
    assert_eq!(byte_slice("héllo", 1, 2), None);
    assert_eq!(byte_slice("héllo", 3, 2), None);
    assert_eq!(byte_slice("héllo", 0, 7), None);
    assert_eq!(byte_slice("héllo", 6, 6), Some(""));
}

#[test]
fn reserved_words() {
    for w in ["const", "enum", "choose", "wrap", "Vec", "Option", "Tail", "u8", "i64", "btc_varint", "uleb128"] {
        assert!(is_reserved_word(w), "{w}");
    }
    for w in ["consts", "tail", "u128", "x", ""] {
        assert!(!is_reserved_word(w), "{w}");
    }
}

#[test]
fn int_type_keywords_round_trip() {
    for t in ALL_INT_TYPES {
        assert_eq!(IntType::from_keyword(int_type_keyword(t)), Some(t));
        assert_eq!(int_type_debug_name(t), format!("{t:?}"));
    }
    assert_eq!(IntType::from_keyword("u128"), None);
    assert_eq!(int_type_keyword(IntType::BtcVarint), "btc_varint");
}

#[test]
fn int_type_bit_widths() {
    assert_eq!(IntType::U8.bit_width(), Some(8));
    assert_eq!(IntType::I16.bit_width(), Some(16));
    assert_eq!(IntType::U24.bit_width(), Some(24));
    assert_eq!(IntType::I32.bit_width(), Some(32));
    assert_eq!(IntType::U64.bit_width(), Some(64));
    assert_eq!(IntType::Uleb128.bit_width(), None);
    assert_eq!(IntType::BtcVarint.bit_width(), None);
}

#[test]
fn symbol_ids_describe_their_rename_text() {
    let mut db = Database::new();
    let owner = db.intern("packet");
    let len = db.intern("len");
    let decl = Span::new(10, 14);
    let param = SymbolId::Param { owner, name: len, declaration: decl };
    let field = SymbolId::Field { owner, name: len, declaration: decl, is_dependent: false };
    let dep_field = SymbolId::Field { owner, name: len, declaration: decl, is_dependent: true };
    let top = SymbolId::TopLevel { name: owner, declaration: Span::new(0, 6) };

    assert!(param.is_sigiled());
    assert!(dep_field.is_sigiled());
    assert!(!field.is_sigiled());
    assert!(!top.is_sigiled());
    assert_eq!(param.declaration_span(), decl);
    assert_eq!(top.declaration_span(), Span::new(0, 6));
    assert_eq!(param.name(), len);
    assert_eq!(top.name(), owner);

    assert_eq!(param.prepare_rename_span(Span::new(20, 24)), Span::new(21, 24));
    assert_eq!(param.prepare_rename_span(Span::new(20, 20)), Span::new(20, 20));
    assert_eq!(field.prepare_rename_span(Span::new(20, 24)), Span::new(20, 24));

    assert_eq!(param.normalize_rename_input("@size"), "size");
    assert_eq!(param.normalize_rename_input("size"), "size");
    assert_eq!(field.normalize_rename_input("@size"), "@size");
    assert_eq!(param.rename_text("size"), "@size");
    assert_eq!(top.rename_text("frame"), "frame");
}

#[test]
fn interning_and_lookup_agree() {
    let mut db = Database::new();
    let a = db.intern("alpha");
    let b = db.intern("beta");
    assert_ne!(a, b);
    assert_eq!(db.lookup("alpha"), a);
    assert_eq!(db.lookup("beta"), b);
    assert_eq!(db.intern("alpha"), a);
}

#[test]
fn constraint_intervals_overlap_when_they_share_a_value() {
    let five = ConstraintInterval::singleton(5);
    assert_eq!((five.start, five.end), (5, 5));
    assert!(five.overlaps(ConstraintInterval { start: 0, end: 5 }));
    assert!(five.overlaps(ConstraintInterval { start: 5, end: 9 }));
    assert!(!five.overlaps(ConstraintInterval { start: 6, end: 9 }));
    assert!(!five.overlaps(ConstraintInterval { start: 0, end: 4 }));
}

#[test]
fn host_type_copies_keep_their_shape() {
    let t = HostType::Array(Box::new(HostType::Vec(Box::new(HostType::Prim(IntType::U16)))), 4);
    match clone_host_type(&t) {
        HostType::Array(inner, 4) => match *inner {
            HostType::Vec(e) => assert!(matches!(*e, HostType::Prim(IntType::U16))),
            _ => panic!("expected a vector"),
        },
        _ => panic!("expected an array of four"),
    }
}

fn leaf(kind: &str, error: bool, missing: bool) -> SyntaxNode {
    SyntaxNode { kind: kind.to_string(), is_error: error, is_missing: missing, start_byte: 0, end_byte: 0, children: Vec::new() }
}

#[test]
fn error_nodes_are_found_at_any_depth() {
    let clean = SyntaxNode {
        kind: "source_file".to_string(),
        is_error: false,
        is_missing: false,
        start_byte: 0,
        end_byte: 0,
        children: vec![leaf("definition", false, false)],
    };
    assert!(!has_error(&clean));
    let deep = SyntaxNode {
        kind: "source_file".to_string(),
        is_error: false,
        is_missing: false,
        start_byte: 0,
        end_byte: 0,
        children: vec![SyntaxNode {
            kind: "definition".to_string(),
            is_error: false,
            is_missing: false,
            start_byte: 0,
            end_byte: 0,
            children: vec![leaf("ERROR", true, false)],
        }],
    };
    assert!(has_error(&deep));
    assert!(has_error(&leaf("var_id", false, true)));
}

#[test]
fn source_file_copies_keep_all_fields() {
    let f = SourceFile::new("file:///a.vest".to_string(), 3, "x = u8\n".to_string());
    let g = f.duplicate();
    assert_eq!(g.uri(), "file:///a.vest");
    assert_eq!(g.version(), 3);
    assert_eq!(g.text(), "x = u8\n");
}
