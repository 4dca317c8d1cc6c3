use vest_db::db::{Database, Name};
use vest_db::hover::{
    combine_bounds, compute_wire_length, hover_info_in_hir, Bounds, HoverKind, WireExpr, WireLength,
    WireOp,
};
use vest_db::types::{
    ArrayCombinator, ChoiceArm, ChoiceCombinator, ChoicePattern, Combinator, ConstValue,
    ConstraintElement, Definition, DefinitionKind, EnumDef, EnumVariant, Field, FileHir, IntConstraint,
    IntType, LengthAtom, LengthExpr, LengthOp, LengthTerm, NameRef, Param, SizeTarget, Span,
    StructCombinator, Visibility,
};

fn sp(start: usize, end: usize) -> Span {
    Span::new(start, end)
}

fn definition(name: Name, name_span: Span, span: Span, kind: DefinitionKind) -> Definition {
    Definition { name, visibility: Visibility::Default, kind, name_span, span }
}

fn format_def(name: Name, name_span: Span, span: Span, params: Vec<Param>, body: Combinator) -> Definition {
    definition(name, name_span, span, DefinitionKind::Combinator { params, body })
}

fn field(name: Name, span: Span, full_span: Span, is_dependent: bool, ty: Combinator) -> Field {
    Field { name, is_dependent, is_const: false, ty, const_value: None, span, full_span }
}

fn reference(name: Name, span: Span) -> Combinator {
    Combinator::Reference { name, args: Vec::new(), span }
}

fn atom_expr(atom: LengthAtom) -> LengthExpr {
    LengthExpr { terms: vec![LengthTerm { atoms: vec![atom], ops: Vec::new() }], ops: Vec::new() }
}

fn hir(definitions: Vec<Definition>) -> FileHir {
    FileHir { definitions, diagnostics: Vec::new() }
}

#[test]
fn division_bounds_with_unbounded_divisor_has_zero_min() {
    let bounds = combine_bounds(Bounds { min: 10, max: Some(100) }, WireOp::Div, Bounds { min: 2, max: None });

    assert_eq!(bounds.min, 0);
    assert_eq!(bounds.max, Some(50));
}

#[test]
fn binary_simplification_folds_constants_and_keeps_value() {
    // msg = [u8; 2 * 3 + 4]
    let mut db = Database::new();
    let msg = db.intern("msg");
    let length = LengthExpr {
        terms: vec![
            LengthTerm { atoms: vec![LengthAtom::Const(2), LengthAtom::Const(3)], ops: vec![LengthOp::Mul] },
            LengthTerm { atoms: vec![LengthAtom::Const(4)], ops: Vec::new() },
        ],
        ops: vec![LengthOp::Add],
    };
    let body = Combinator::Array(ArrayCombinator { element: Box::new(Combinator::Int(IntType::U16)), length });
    let file = hir(vec![format_def(msg, sp(0, 3), sp(0, 21), Vec::new(), body)]);

    let wire = compute_wire_length(&db, &file, msg).unwrap();
    assert_eq!(wire.exact, Some(WireExpr::Const(20)));
    assert_eq!(wire.min, 20);
    assert_eq!(wire.max, Some(20));
    assert_eq!(wire.markdown(&db), "**Wire length:** `20`");
}

#[test]
fn markdown_shows_bounds_when_they_differ() {
    let mut db = Database::new();
    let len = db.intern("len");
    let wire = WireLength {
        exact: Some(WireExpr::Binary {
            op: WireOp::Add,
            lhs: Box::new(WireExpr::Const(1)),
            rhs: Box::new(WireExpr::Var(vest_db::hover::WireVar { base: len, fields: Vec::new() })),
        }),
        min: 1,
        max: None,
    };
    assert_eq!(
        wire.markdown(&db),
        "**Wire length:** `1 + @len`\n**Min wire length:** `1`\n**Max wire length:** `unbounded`"
    );
    let unknown = WireLength { exact: None, min: 3, max: Some(9) };
    assert_eq!(unknown.markdown(&db), "**Min wire length:** `3`\n**Max wire length:** `9`");
}

#[test]
fn render_parenthesizes_by_precedence() {
    let mut db = Database::new();
    let a = db.intern("a");
    let b = db.intern("b");
    let var = |n: Name| WireExpr::Var(vest_db::hover::WireVar { base: n, fields: Vec::new() });
    let sum = WireExpr::Binary { op: WireOp::Add, lhs: Box::new(var(a)), rhs: Box::new(var(b)) };
    let product = WireExpr::Binary { op: WireOp::Mul, lhs: Box::new(sum), rhs: Box::new(WireExpr::Const(4)) };
    assert_eq!(product.render(&db), "(@a + @b) * 4");
    let diff = WireExpr::Binary {
        op: WireOp::Sub,
        lhs: Box::new(var(a)),
        rhs: Box::new(WireExpr::Binary { op: WireOp::Sub, lhs: Box::new(var(b)), rhs: Box::new(WireExpr::Const(1)) }),
    };
    assert_eq!(diff.render(&db), "@a - (@b - 1)");
}

#[test]
fn enum_reference_uses_carrier_size_and_variant_hover() {
    // kind = enum { A = 1, B = 300, }
    // msg = kind
    let mut db = Database::new();
    let kind = db.intern("kind");
    let msg = db.intern("msg");
    let a = db.intern("A");
    let b = db.intern("B");
    let enum_def = EnumDef {
        variants: vec![
            EnumVariant { name: a, value: ConstValue::Int(1), repr_type: None, span: sp(16, 17), full_span: sp(16, 21) },
            EnumVariant { name: b, value: ConstValue::Int(300), repr_type: None, span: sp(23, 24), full_span: sp(23, 30) },
        ],
        is_exhaustive: true,
        repr_type: None,
    };
    let file = hir(vec![
        definition(kind, sp(0, 4), sp(0, 33), DefinitionKind::Enum(enum_def)),
        format_def(msg, sp(34, 37), sp(34, 44), Vec::new(), reference(kind, sp(40, 44))),
    ]);
    let wire = compute_wire_length(&db, &file, msg).unwrap();
    assert_eq!(wire.exact, Some(WireExpr::Const(2)));

    let hover = hover_info_in_hir(&db, &file, 16).expect("variant hover");
    assert_eq!(hover.kind, HoverKind::EnumVariant);
    assert_eq!(hover.snippet_span, sp(16, 21));
    assert_eq!(hover.wire_length.unwrap().max, Some(2));
}

#[test]
fn size_of_named_format_and_unknown_names() {
    // hdr = u32
    // msg = [u8; |hdr|]
    let mut db = Database::new();
    let hdr = db.intern("hdr");
    let msg = db.intern("msg");
    let missing = db.intern("missing");
    let body = Combinator::Array(ArrayCombinator {
        element: Box::new(Combinator::Int(IntType::U8)),
        length: atom_expr(LengthAtom::SizeOf(SizeTarget::Named(NameRef::new(hdr, sp(22, 25))))),
    });
    let file = hir(vec![
        format_def(hdr, sp(0, 3), sp(0, 9), Vec::new(), Combinator::Int(IntType::U32)),
        format_def(msg, sp(10, 13), sp(10, 27), Vec::new(), body),
    ]);
    let wire = compute_wire_length(&db, &file, msg).unwrap();
    assert_eq!(wire.exact, Some(WireExpr::Const(4)));
    assert!(compute_wire_length(&db, &file, missing).is_none());
}

#[test]
fn self_reference_is_unknown() {
    // msg = { next: msg, }
    let mut db = Database::new();
    let msg = db.intern("msg");
    let next = db.intern("next");
    let body = Combinator::Struct(StructCombinator {
        fields: vec![field(next, sp(8, 12), sp(8, 17), false, reference(msg, sp(14, 17)))],
    });
    let file = hir(vec![format_def(msg, sp(0, 3), sp(0, 20), Vec::new(), body)]);
    let wire = compute_wire_length(&db, &file, msg).unwrap();
    assert_eq!(wire.exact, None);
    assert_eq!(wire.min, 0);
    assert_eq!(wire.max, None);
}

#[test]
fn bounds_arithmetic_saturates_and_checks() {
    let sub = combine_bounds(Bounds { min: 5, max: Some(10) }, WireOp::Sub, Bounds { min: 3, max: Some(20) });
    assert_eq!(sub, Bounds { min: 0, max: Some(7) });
    let add = combine_bounds(Bounds { min: u64::MAX, max: Some(u64::MAX) }, WireOp::Add, Bounds { min: 1, max: Some(1) });
    assert_eq!(add, Bounds { min: u64::MAX, max: None });
    let mul = combine_bounds(Bounds { min: 2, max: Some(3) }, WireOp::Mul, Bounds { min: 4, max: Some(5) });
    assert_eq!(mul, Bounds { min: 8, max: Some(15) });
    let div_zero = combine_bounds(Bounds { min: 2, max: Some(3) }, WireOp::Div, Bounds { min: 0, max: Some(5) });
    assert_eq!(div_zero, Bounds { min: 0, max: None });
}

#[test]
fn hover_labels() {
    assert_eq!(HoverKind::EnumVariant.label(), "enum variant");
    assert_eq!(HoverKind::Format.label(), "format");
    assert_eq!(HoverKind::Endianness.label(), "endianness");
}

#[test]
fn a_repeated_name_takes_the_wire_length_of_its_last_definition() {
    // msg = u8; msg = u16; outer = msg
    let mut db = Database::new();
    let msg = db.intern("msg");
    let outer = db.intern("outer");
    let file = hir(vec![
        format_def(msg, sp(0, 3), sp(0, 8), Vec::new(), Combinator::Int(IntType::U8)),
        format_def(msg, sp(9, 12), sp(9, 18), Vec::new(), Combinator::Int(IntType::U16)),
        format_def(outer, sp(19, 24), sp(19, 30), Vec::new(), reference(msg, sp(27, 30))),
    ]);

    let direct = compute_wire_length(&db, &file, msg).unwrap();
    assert_eq!(direct.exact, Some(WireExpr::Const(2)));
    assert_eq!((direct.min, direct.max), (2, Some(2)));

    let through_reference = compute_wire_length(&db, &file, outer).unwrap();
    assert_eq!(through_reference.exact, Some(WireExpr::Const(2)));
    assert_eq!((through_reference.min, through_reference.max), (2, Some(2)));
}
