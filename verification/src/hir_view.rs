//! The HIR as mathematical values: every vector of the HIR becomes a
//! sequence, so that specifications can build and compare HIR values.
use vstd::prelude::*;

use crate::db::Name;
use crate::types::{
    ChoiceArm, ChoicePattern, Combinator, ConstValue, ConstraintElement, Definition, DefinitionKind, EnumDef,
    EnumVariant, Endianness, Field, IntConstraint, IntType, LengthAtom, LengthExpr, LengthOp, LengthTerm, NameRef,
    Param, SizeTarget, Span, Visibility, WrapArg,
};

verus! {

/// A constant value.
pub enum ConstValueV {
    Int(u64),
    String(NameRef),
    ByteString(NameRef),
    Array(Seq<ConstValueV>),
}

/// An element of an integer constraint.
pub enum ElementV {
    Single { value: ConstValueV, span: Span },
    Range { start: Option<ConstValueV>, end: Option<ConstValueV>, span: Span },
}

/// An integer constraint.
pub struct IntConstraintV {
    pub elements: Seq<ElementV>,
    pub negated: bool,
}

/// A length atom.
pub enum AtomV {
    Const(u64),
    Param(NameRef),
    ProjectedParam { base: NameRef, fields: Seq<Name> },
    SizeOf(SizeTarget),
    Paren(Box<LengthExprV>),
}

/// Atoms joined by multiplicative operators.
pub struct TermV {
    pub atoms: Seq<AtomV>,
    pub ops: Seq<LengthOp>,
}

/// Terms joined by additive operators.
pub struct LengthExprV {
    pub terms: Seq<TermV>,
    pub ops: Seq<LengthOp>,
}

/// A choice pattern.
pub enum PatternV {
    Variant(NameRef),
    Wildcard,
    Constraint(ElementV),
    Array(Seq<ConstValueV>),
}

/// A combinator.
pub enum CombinatorV {
    Int(IntType),
    ConstrainedInt { int_type: IntType, constraint: IntConstraintV },
    Reference { name: Name, args: Seq<NameRef>, span: Span },
    ConstrainedReference { name: Name, constraint: Seq<NameRef>, negated: bool, span: Span },
    Struct(Seq<FieldV>),
    Choice { discriminant: Option<NameRef>, arms: Seq<ArmV> },
    Array { element: Box<CombinatorV>, length: LengthExprV },
    Vec(Box<CombinatorV>),
    Option(Box<CombinatorV>),
    Wrap(Seq<WrapArgV>),
    Tail,
    Bind { inner: Box<CombinatorV>, target: Box<CombinatorV>, span: Span },
    Error,
}

/// A struct field.
pub struct FieldV {
    pub name: Name,
    pub is_dependent: bool,
    pub is_const: bool,
    pub ty: CombinatorV,
    pub const_value: Option<ConstValueV>,
    pub span: Span,
    pub full_span: Span,
}

/// A choice arm.
pub struct ArmV {
    pub pattern: PatternV,
    pub body: CombinatorV,
    pub span: Span,
}

/// An argument of `wrap`.
pub enum WrapArgV {
    Combinator(CombinatorV),
    ConstInt { ty: IntType, value: ConstValueV },
    ConstEnum { ty: NameRef, variant: NameRef },
    ConstBytes { element_ty: IntType, length: u64, values: Seq<ConstValueV> },
}

/// An enum variant.
pub struct VariantV {
    pub name: Name,
    pub value: ConstValueV,
    pub repr_type: Option<IntType>,
    pub span: Span,
    pub full_span: Span,
}

/// An enum definition.
pub struct EnumDefV {
    pub variants: Seq<VariantV>,
    pub is_exhaustive: bool,
    pub repr_type: Option<IntType>,
}

/// A parameter of a combinator definition.
pub struct ParamV {
    pub name: Name,
    pub ty: CombinatorV,
    pub span: Span,
    pub full_span: Span,
}

/// The kind of a definition.
pub enum DefinitionKindV {
    Combinator { params: Seq<ParamV>, body: CombinatorV },
    Enum(EnumDefV),
    Const { ty: CombinatorV, value: ConstValueV },
    Endianness(Endianness),
}

/// A top-level definition.
pub struct DefinitionV {
    pub name: Name,
    pub visibility: Visibility,
    pub kind: DefinitionKindV,
    pub name_span: Span,
    pub span: Span,
}

pub open spec fn const_v(c: ConstValue) -> ConstValueV
    decreases c,
{
    match c {
        ConstValue::Int(v) => ConstValueV::Int(v),
        ConstValue::String(r) => ConstValueV::String(r),
        ConstValue::ByteString(r) => ConstValueV::ByteString(r),
        ConstValue::Array(vs) => ConstValueV::Array(consts_v(vs@)),
    }
}

pub open spec fn consts_v(s: Seq<ConstValue>) -> Seq<ConstValueV>
    decreases s,
{
    if s.len() == 0 {
        Seq::empty()
    } else {
        consts_v(s.drop_last()).push(const_v(s.last()))
    }
}

pub open spec fn opt_const_v(c: Option<ConstValue>) -> Option<ConstValueV> {
    match c {
        Some(v) => Some(const_v(v)),
        None => None,
    }
}

pub open spec fn element_v(e: ConstraintElement) -> ElementV {
    match e {
        ConstraintElement::Single { value, span } => ElementV::Single { value: const_v(value), span },
        ConstraintElement::Range { start, end, span } => ElementV::Range {
            start: opt_const_v(start),
            end: opt_const_v(end),
            span,
        },
    }
}

pub open spec fn elements_v(s: Seq<ConstraintElement>) -> Seq<ElementV> {
    Seq::new(s.len(), |i: int| element_v(s[i]))
}

pub open spec fn int_constraint_v(c: IntConstraint) -> IntConstraintV {
    IntConstraintV { elements: elements_v(c.elements@), negated: c.negated }
}

pub open spec fn length_v(e: LengthExpr) -> LengthExprV
    decreases e,
{
    LengthExprV { terms: terms_v(e.terms@), ops: e.ops@ }
}

pub open spec fn terms_v(s: Seq<LengthTerm>) -> Seq<TermV>
    decreases s,
{
    if s.len() == 0 {
        Seq::empty()
    } else {
        terms_v(s.drop_last()).push(term_v(s.last()))
    }
}

pub open spec fn term_v(t: LengthTerm) -> TermV
    decreases t,
{
    TermV { atoms: atoms_v(t.atoms@), ops: t.ops@ }
}

pub open spec fn atoms_v(s: Seq<LengthAtom>) -> Seq<AtomV>
    decreases s,
{
    if s.len() == 0 {
        Seq::empty()
    } else {
        atoms_v(s.drop_last()).push(atom_v(s.last()))
    }
}

pub open spec fn atom_v(a: LengthAtom) -> AtomV
    decreases a,
{
    match a {
        LengthAtom::Const(v) => AtomV::Const(v),
        LengthAtom::Param(r) => AtomV::Param(r),
        LengthAtom::ProjectedParam { base, fields } => AtomV::ProjectedParam { base, fields: fields@ },
        LengthAtom::SizeOf(t) => AtomV::SizeOf(t),
        LengthAtom::Paren(e) => AtomV::Paren(Box::new(length_v(*e))),
    }
}

pub open spec fn pattern_v(p: ChoicePattern) -> PatternV {
    match p {
        ChoicePattern::Variant(r) => PatternV::Variant(r),
        ChoicePattern::Wildcard => PatternV::Wildcard,
        ChoicePattern::Constraint(e) => PatternV::Constraint(element_v(e)),
        ChoicePattern::Array(vs) => PatternV::Array(consts_v(vs@)),
    }
}

pub open spec fn comb_v(c: Combinator) -> CombinatorV
    decreases c,
{
    match c {
        Combinator::Int(t) => CombinatorV::Int(t),
        Combinator::ConstrainedInt { int_type, constraint } => CombinatorV::ConstrainedInt {
            int_type,
            constraint: int_constraint_v(constraint),
        },
        Combinator::Reference { name, args, span } => CombinatorV::Reference { name, args: args@, span },
        Combinator::ConstrainedReference { name, constraint, negated, span } => CombinatorV::ConstrainedReference {
            name,
            constraint: constraint@,
            negated,
            span,
        },
        Combinator::Struct(s) => CombinatorV::Struct(fields_v(s.fields@)),
        Combinator::Choice(ch) => CombinatorV::Choice { discriminant: ch.discriminant, arms: arms_v(ch.arms@) },
        Combinator::Array(a) => CombinatorV::Array {
            element: Box::new(comb_v(*a.element)),
            length: length_v(a.length),
        },
        Combinator::Vec(v) => CombinatorV::Vec(Box::new(comb_v(*v.element))),
        Combinator::Option(o) => CombinatorV::Option(Box::new(comb_v(*o.element))),
        Combinator::Wrap(w) => CombinatorV::Wrap(wrap_args_v(w.args@)),
        Combinator::Tail => CombinatorV::Tail,
        Combinator::Bind { inner, target, span } => CombinatorV::Bind {
            inner: Box::new(comb_v(*inner)),
            target: Box::new(comb_v(*target)),
            span,
        },
        Combinator::Error => CombinatorV::Error,
    }
}

pub open spec fn field_v(f: Field) -> FieldV
    decreases f,
{
    FieldV {
        name: f.name,
        is_dependent: f.is_dependent,
        is_const: f.is_const,
        ty: comb_v(f.ty),
        const_value: opt_const_v(f.const_value),
        span: f.span,
        full_span: f.full_span,
    }
}

pub open spec fn fields_v(s: Seq<Field>) -> Seq<FieldV>
    decreases s,
{
    if s.len() == 0 {
        Seq::empty()
    } else {
        fields_v(s.drop_last()).push(field_v(s.last()))
    }
}

pub open spec fn arm_v(a: ChoiceArm) -> ArmV
    decreases a,
{
    ArmV { pattern: pattern_v(a.pattern), body: comb_v(a.body), span: a.span }
}

pub open spec fn arms_v(s: Seq<ChoiceArm>) -> Seq<ArmV>
    decreases s,
{
    if s.len() == 0 {
        Seq::empty()
    } else {
        arms_v(s.drop_last()).push(arm_v(s.last()))
    }
}

pub open spec fn wrap_arg_v(a: WrapArg) -> WrapArgV
    decreases a,
{
    match a {
        WrapArg::Combinator(c) => WrapArgV::Combinator(comb_v(c)),
        WrapArg::ConstInt { ty, value } => WrapArgV::ConstInt { ty, value: const_v(value) },
        WrapArg::ConstEnum { ty, variant } => WrapArgV::ConstEnum { ty, variant },
        WrapArg::ConstBytes { element_ty, length, values } => WrapArgV::ConstBytes {
            element_ty,
            length,
            values: consts_v(values@),
        },
    }
}

pub open spec fn wrap_args_v(s: Seq<WrapArg>) -> Seq<WrapArgV>
    decreases s,
{
    if s.len() == 0 {
        Seq::empty()
    } else {
        wrap_args_v(s.drop_last()).push(wrap_arg_v(s.last()))
    }
}

pub open spec fn variant_v(v: EnumVariant) -> VariantV {
    VariantV {
        name: v.name,
        value: const_v(v.value),
        repr_type: v.repr_type,
        span: v.span,
        full_span: v.full_span,
    }
}

pub open spec fn variants_v(s: Seq<EnumVariant>) -> Seq<VariantV> {
    Seq::new(s.len(), |i: int| variant_v(s[i]))
}

pub open spec fn enum_def_v(e: EnumDef) -> EnumDefV {
    EnumDefV { variants: variants_v(e.variants@), is_exhaustive: e.is_exhaustive, repr_type: e.repr_type }
}

pub open spec fn param_v(p: Param) -> ParamV {
    ParamV { name: p.name, ty: comb_v(p.ty), span: p.span, full_span: p.full_span }
}

pub open spec fn params_v(s: Seq<Param>) -> Seq<ParamV> {
    Seq::new(s.len(), |i: int| param_v(s[i]))
}

pub open spec fn def_kind_v(k: DefinitionKind) -> DefinitionKindV {
    match k {
        DefinitionKind::Combinator { params, body } => DefinitionKindV::Combinator {
            params: params_v(params@),
            body: comb_v(body),
        },
        DefinitionKind::Enum(e) => DefinitionKindV::Enum(enum_def_v(e)),
        DefinitionKind::Const { ty, value } => DefinitionKindV::Const { ty: comb_v(ty), value: const_v(value) },
        DefinitionKind::Endianness(e) => DefinitionKindV::Endianness(e),
    }
}

pub open spec fn def_v(d: Definition) -> DefinitionV {
    DefinitionV {
        name: d.name,
        visibility: d.visibility,
        kind: def_kind_v(d.kind),
        name_span: d.name_span,
        span: d.span,
    }
}

pub open spec fn defs_v(s: Seq<Definition>) -> Seq<DefinitionV> {
    Seq::new(s.len(), |i: int| def_v(s[i]))
}

pub proof fn lemma_consts_v_push(s: Seq<ConstValue>, c: ConstValue)
    ensures
        consts_v(s.push(c)) == consts_v(s).push(const_v(c)),
{
    assert(s.push(c).drop_last() =~= s);
}

pub proof fn lemma_consts_v_append(a: Seq<ConstValue>, b: Seq<ConstValue>)
    ensures
        consts_v(a + b) == consts_v(a) + consts_v(b),
    decreases b.len(),
{
    if b.len() == 0 {
        assert(a + b =~= a);
        assert(consts_v(a) + consts_v(b) =~= consts_v(a));
    } else {
        lemma_consts_v_append(a, b.drop_last());
        assert((a + b).drop_last() =~= a + b.drop_last());
        assert(consts_v(a) + consts_v(b) =~= (consts_v(a) + consts_v(b.drop_last())).push(const_v(b.last())));
    }
}

pub proof fn lemma_consts_v_len(s: Seq<ConstValue>)
    ensures
        consts_v(s).len() == s.len(),
    decreases s.len(),
{
    if s.len() > 0 {
        lemma_consts_v_len(s.drop_last());
    }
}

pub proof fn lemma_fields_v_push(s: Seq<Field>, f: Field)
    ensures
        fields_v(s.push(f)) == fields_v(s).push(field_v(f)),
{
    assert(s.push(f).drop_last() =~= s);
}

pub proof fn lemma_arms_v_push(s: Seq<ChoiceArm>, a: ChoiceArm)
    ensures
        arms_v(s.push(a)) == arms_v(s).push(arm_v(a)),
{
    assert(s.push(a).drop_last() =~= s);
}

pub proof fn lemma_wrap_args_v_push(s: Seq<WrapArg>, a: WrapArg)
    ensures
        wrap_args_v(s.push(a)) == wrap_args_v(s).push(wrap_arg_v(a)),
{
    assert(s.push(a).drop_last() =~= s);
}

pub proof fn lemma_terms_v_push(s: Seq<LengthTerm>, t: LengthTerm)
    ensures
        terms_v(s.push(t)) == terms_v(s).push(term_v(t)),
{
    assert(s.push(t).drop_last() =~= s);
}

pub proof fn lemma_atoms_v_push(s: Seq<LengthAtom>, a: LengthAtom)
    ensures
        atoms_v(s.push(a)) == atoms_v(s).push(atom_v(a)),
{
    assert(s.push(a).drop_last() =~= s);
}

pub open spec fn opt_comb_v(c: Option<Combinator>) -> Option<CombinatorV> {
    match c {
        Some(x) => Some(comb_v(x)),
        None => None,
    }
}

pub proof fn lemma_variants_v_push(s: Seq<EnumVariant>, v: EnumVariant)
    ensures
        variants_v(s.push(v)) == variants_v(s).push(variant_v(v)),
{
    assert(variants_v(s.push(v)) =~= variants_v(s).push(variant_v(v)));
}

pub proof fn lemma_params_v_push(s: Seq<Param>, p: Param)
    ensures
        params_v(s.push(p)) == params_v(s).push(param_v(p)),
{
    assert(params_v(s.push(p)) =~= params_v(s).push(param_v(p)));
}

pub proof fn lemma_defs_v_append(a: Seq<Definition>, b: Seq<Definition>)
    ensures
        defs_v(a + b) == defs_v(a) + defs_v(b),
{
    assert(defs_v(a + b) =~= defs_v(a) + defs_v(b));
}

pub proof fn lemma_terms_v_index(s: Seq<LengthTerm>)
    ensures
        terms_v(s).len() == s.len(),
        forall|i: int| 0 <= i < s.len() ==> #[trigger] terms_v(s)[i] == term_v(s[i]),
    decreases s.len(),
{
    if s.len() > 0 {
        lemma_terms_v_index(s.drop_last());
    }
}

pub proof fn lemma_atoms_v_index(s: Seq<LengthAtom>)
    ensures
        atoms_v(s).len() == s.len(),
        forall|i: int| 0 <= i < s.len() ==> #[trigger] atoms_v(s)[i] == atom_v(s[i]),
    decreases s.len(),
{
    if s.len() > 0 {
        lemma_atoms_v_index(s.drop_last());
    }
}

} // verus!
