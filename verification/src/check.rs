//! Type checking and semantic validation: a global signature of definitions,
//! host-type inference for format expressions, and local validation checks.
use vstd::prelude::*;

use crate::db::{Database, Name};
use std::collections::HashMap;
use std::collections::HashSet;
use crate::hir_view::defs_v;
use crate::lower::{lowered_file, lower_to_hir_with_parse};
use crate::syntax::SyntaxNode;
use crate::text::{owned, push_str, spec_decimal, u64_text, usize_text};
use crate::types::{
    ArrayCombinator, ChoiceArm, ChoiceCombinator, ChoicePattern, Combinator, ConstValue,
    ConstraintElement, Definition, DefinitionKind, EnumDef, Field, FileHir, IntConstraint, IntType,
    LengthAtom, LengthExpr, LengthOp, LengthTerm, NameRef, Param, SizeTarget, Span,
    StructCombinator, WrapArg, WrapCombinator, int_type_debug_name, int_type_keyword, spec_int_max,
    spec_int_type_debug_name, spec_prim_byte_size, spec_value_fits,
};

verus! {

/// Host data type of a format.
pub enum HostType {
    /// Primitive integer type induced by a carrier
    Prim(IntType),
    /// Nominal enum type introduced by a source definition
    Enum(Name),
    /// Dynamically sized byte sequence
    Bytes,
    /// Fixed-size array [T; n]
    Array(Box<HostType>, u64),
    /// Variable-size vector Vec<T>
    Vec(Box<HostType>),
    /// Optional value Option<T>
    Option(Box<HostType>),
    /// Structural record type
    Struct(Vec<StructFieldType>),
    /// Choice type with discriminant class and branch types
    Choice(DiscriminantClass, Vec<HostType>),
    /// Placeholder for failed type inference
    Error,
}

pub struct StructFieldType {
    pub name: Name,
    pub ty: HostType,
    pub is_dependent: bool,
}

/// Discriminant class of a choice.
#[derive(Clone, Copy, PartialEq, Eq, Debug, Structural)]
pub enum DiscriminantClass {
    /// No discriminant (labeled choice)
    Labeled,
    /// Primitive integer discriminant
    Prim(IntType),
    /// Enum discriminant
    Enum(Name),
    /// Dynamic bytes discriminant
    Bytes,
    /// Fixed-size byte array discriminant
    ByteArray(u64),
}

/// Mathematical value of a host type.
pub enum HostTypeModel {
    Prim(IntType),
    Enum(Name),
    Bytes,
    Array(Box<HostTypeModel>, u64),
    Vec(Box<HostTypeModel>),
    Option(Box<HostTypeModel>),
    Struct(Seq<FieldTypeModel>),
    Choice(DiscriminantClass, Seq<HostTypeModel>),
    Error,
}

pub struct FieldTypeModel {
    pub name: Name,
    pub ty: HostTypeModel,
    pub is_dependent: bool,
}

pub open spec fn host_model(t: HostType) -> HostTypeModel
    decreases t,
{
    match t {
        HostType::Prim(k) => HostTypeModel::Prim(k),
        HostType::Enum(n) => HostTypeModel::Enum(n),
        HostType::Bytes => HostTypeModel::Bytes,
        HostType::Array(e, n) => HostTypeModel::Array(Box::new(host_model(*e)), n),
        HostType::Vec(e) => HostTypeModel::Vec(Box::new(host_model(*e))),
        HostType::Option(e) => HostTypeModel::Option(Box::new(host_model(*e))),
        HostType::Struct(fields) => HostTypeModel::Struct(fields_model(fields@)),
        HostType::Choice(d, branches) => HostTypeModel::Choice(d, hosts_model(branches@)),
        HostType::Error => HostTypeModel::Error,
    }
}

pub open spec fn fields_model(s: Seq<StructFieldType>) -> Seq<FieldTypeModel>
    decreases s,
{
    if s.len() == 0 {
        Seq::empty()
    } else {
        fields_model(s.drop_last()).push(
            FieldTypeModel {
                name: s.last().name,
                ty: host_model(s.last().ty),
                is_dependent: s.last().is_dependent,
            },
        )
    }
}

pub open spec fn hosts_model(s: Seq<HostType>) -> Seq<HostTypeModel>
    decreases s,
{
    if s.len() == 0 {
        Seq::empty()
    } else {
        hosts_model(s.drop_last()).push(host_model(s.last()))
    }
}

impl View for HostType {
    type V = HostTypeModel;

    open spec fn view(&self) -> HostTypeModel {
        host_model(*self)
    }
}

proof fn lemma_fields_model_len(s: Seq<StructFieldType>)
    ensures
        fields_model(s).len() == s.len(),
        forall|i: int|
            0 <= i < s.len() ==> #[trigger] fields_model(s)[i] == (FieldTypeModel {
                name: s[i].name,
                ty: host_model(s[i].ty),
                is_dependent: s[i].is_dependent,
            }),
    decreases s.len(),
{
    if s.len() > 0 {
        lemma_fields_model_len(s.drop_last());
    }
}

proof fn lemma_hosts_model_len(s: Seq<HostType>)
    ensures
        hosts_model(s).len() == s.len(),
        forall|i: int| 0 <= i < s.len() ==> #[trigger] hosts_model(s)[i] == host_model(s[i]),
    decreases s.len(),
{
    if s.len() > 0 {
        lemma_hosts_model_len(s.drop_last());
    }
}

proof fn lemma_fields_model_push(s: Seq<StructFieldType>, f: StructFieldType)
    ensures
        fields_model(s.push(f)) == fields_model(s).push(
            FieldTypeModel { name: f.name, ty: host_model(f.ty), is_dependent: f.is_dependent },
        ),
{
    assert(s.push(f).drop_last() =~= s);
}

proof fn lemma_hosts_model_push(s: Seq<HostType>, t: HostType)
    ensures
        hosts_model(s.push(t)) == hosts_model(s).push(host_model(t)),
{
    assert(s.push(t).drop_last() =~= s);
}

/// A copy of a host type with the same value.
#[verifier::loop_isolation(false)]
pub fn clone_host_type(t: &HostType) -> (r: HostType)
    ensures
        r@ == t@,
    decreases t,
{
    match t {
        HostType::Prim(k) => HostType::Prim(*k),
        HostType::Enum(n) => HostType::Enum(*n),
        HostType::Bytes => HostType::Bytes,
        HostType::Array(e, n) => HostType::Array(Box::new(clone_host_type(e)), *n),
        HostType::Vec(e) => HostType::Vec(Box::new(clone_host_type(e))),
        HostType::Option(e) => HostType::Option(Box::new(clone_host_type(e))),
        HostType::Struct(fields) => {
            let mut out: Vec<StructFieldType> = Vec::new();
            let mut i: usize = 0;
            while i < fields.len()
                invariant
                    i <= fields.len(),
                    fields_model(out@) == fields_model(fields@.take(i as int)),
                decreases fields.len() - i,
            {
                proof {
                    assert(decreases_to!(*t => fields@[i as int]));
                }
                let ty = clone_host_type(&fields[i].ty);
                let f = StructFieldType {
                    name: fields[i].name,
                    ty,
                    is_dependent: fields[i].is_dependent,
                };
                proof {
                    lemma_fields_model_push(out@, f);
                    lemma_fields_model_push(fields@.take(i as int), fields@[i as int]);
                    assert(fields@.take(i as int).push(fields@[i as int]) =~= fields@.take(
                        i + 1,
                    ));
                }
                out.push(f);
                i = i + 1;
            }
            assert(fields@.take(fields.len() as int) =~= fields@);
            HostType::Struct(out)
        },
        HostType::Choice(d, branches) => {
            let mut out: Vec<HostType> = Vec::new();
            let mut i: usize = 0;
            while i < branches.len()
                invariant
                    i <= branches.len(),
                    hosts_model(out@) == hosts_model(branches@.take(i as int)),
                decreases branches.len() - i,
            {
                proof {
                    assert(decreases_to!(*t => branches@[i as int]));
                }
                let b = clone_host_type(&branches[i]);
                proof {
                    lemma_hosts_model_push(out@, b);
                    lemma_hosts_model_push(branches@.take(i as int), branches@[i as int]);
                    assert(branches@.take(i as int).push(branches@[i as int]) =~= branches@.take(
                        i + 1,
                    ));
                }
                out.push(b);
                i = i + 1;
            }
            assert(branches@.take(branches.len() as int) =~= branches@);
            HostType::Choice(*d, out)
        },
        HostType::Error => HostType::Error,
    }
}

impl Clone for HostType {
    fn clone(&self) -> (r: Self)
        ensures
            r@ == self@,
    {
        clone_host_type(self)
    }
}

/// Signature entry for a top-level definition.
pub enum SignatureEntry {
    /// Format definition with parameter types and result type
    Format { params: Vec<(Name, HostType)>, result: HostType },
    /// Enum definition (distinct variant names in declaration order)
    Enum { repr: IntType, is_open: bool, variants: Vec<(Name, u64)> },
    /// Constant definition
    Const { ty: HostType },
}

/// Mathematical value of a signature entry.
pub enum SigEntryModel {
    Format { params: Seq<(Name, HostTypeModel)>, result: HostTypeModel },
    Enum { repr: IntType, is_open: bool, variants: Seq<(Name, u64)> },
    Const { ty: HostTypeModel },
}

pub open spec fn params_model(s: Seq<(Name, HostType)>) -> Seq<(Name, HostTypeModel)> {
    Seq::new(s.len(), |i: int| (s[i].0, host_model(s[i].1)))
}

pub open spec fn entry_model(e: SignatureEntry) -> SigEntryModel {
    match e {
        SignatureEntry::Format { params, result } => SigEntryModel::Format {
            params: params_model(params@),
            result: host_model(result),
        },
        SignatureEntry::Enum { repr, is_open, variants } => SigEntryModel::Enum {
            repr,
            is_open,
            variants: variants@,
        },
        SignatureEntry::Const { ty } => SigEntryModel::Const { ty: host_model(ty) },
    }
}

pub open spec fn opt_entry_model(e: Option<SignatureEntry>) -> Option<SigEntryModel> {
    match e {
        Some(e) => Some(entry_model(e)),
        None => None,
    }
}

fn clone_entry(e: &SignatureEntry) -> (r: SignatureEntry)
    ensures
        entry_model(r) == entry_model(*e),
{
    match e {
        SignatureEntry::Format { params, result } => {
            let mut out: Vec<(Name, HostType)> = Vec::new();
            let mut i: usize = 0;
            while i < params.len()
                invariant
                    i <= params.len(),
                    out@.len() == i,
                    forall|j: int|
                        0 <= j < i ==> (#[trigger] out@[j]).0 == params@[j].0 && host_model(
                            out@[j].1,
                        ) == host_model(params@[j].1),
                decreases params.len() - i,
            {
                let t = clone_host_type(&params[i].1);
                out.push((params[i].0, t));
                i = i + 1;
            }
            assert(params_model(out@) =~= params_model(params@));
            SignatureEntry::Format { params: out, result: clone_host_type(result) }
        },
        SignatureEntry::Enum { repr, is_open, variants } => {
            let mut out: Vec<(Name, u64)> = Vec::new();
            let mut i: usize = 0;
            while i < variants.len()
                invariant
                    i <= variants.len(),
                    out@ =~= variants@.take(i as int),
                decreases variants.len() - i,
            {
                out.push(variants[i]);
                i = i + 1;
            }
            assert(variants@.take(variants.len() as int) =~= variants@);
            SignatureEntry::Enum { repr: *repr, is_open: *is_open, variants: out }
        },
        SignatureEntry::Const { ty } => SignatureEntry::Const { ty: clone_host_type(ty) },
    }
}

/// Global signature: the entry of each definition, by definition index.
pub struct Signature {
    pub entries: Vec<Option<SignatureEntry>>,
}

/// Semantic diagnostic from type checking.
pub struct CheckDiagnostic {
    pub message: String,
    pub span: Span,
    pub kind: CheckDiagnosticKind,
}

/// Owned semantic diagnostic payload.
pub struct SemanticDiagnostic {
    pub message: String,
    pub span: Span,
}

/// The kind of check diagnostic.
pub enum CheckDiagnosticKind {
    DuplicateDefinition(Name),
    UndefinedSymbol(Name),
    UndefinedEnumVariant { variant: Name, enum_name: Name },
    IntLiteralOutOfRange { value: u64, int_type: IntType },
    ConstTypeMismatch,
    ConstLengthMismatch { expected: u64, actual: u64 },
    ConstValueOutOfRange { value: u64, int_type: IntType },
    DuplicateField(Name),
    DuplicateEnumVariant(Name),
    DuplicateEnumValue(u64),
    EnumTypeSuffixMismatch,
    EnumTypeSuffixOutOfRange { value: u64, int_type: IntType },
    ChoiceDiscriminantNotDependent,
    ChoiceDiscriminantUndefined(Name),
    ChoiceDiscriminantTypeMismatch { expected: String, actual: String },
    ChoicePatternTypeMismatch,
    ChoicePatternLengthMismatch { expected: u64, actual: u64 },
    ChoicePatternDuplicate,
    ChoicePatternUndefinedVariant { variant: Name, enum_name: Name },
    ChoiceNonExhaustive { missing: Vec<Name> },
    ChoiceWildcardWithExhaustive,
    ChoicePatternOverlap,
    InvocationArgCountMismatch { expected: usize, actual: usize },
    InvocationArgTypeMismatch { param: Name, expected: String, actual: String },
    InvocationArgUndefined(Name),
    LengthExprTypeError { expected: String, actual: String },
    LengthExprUndefined(Name),
    SizeExprUndefined(Name),
    SizeExprNotStatic(Name),
    SizeExprParameterized(Name),
    BindSourceNotRaw,
    ConstraintOnNonEnum,
    InvalidIntConstraint,
}

/// Local context: dependent bindings in scope, newest last, with the
/// position of the newest binding of each name by the name's id.
struct LocalContext {
    bindings: Vec<(Name, HostType)>,
    newest: HashMap<usize, usize>,
}

pub open spec fn ctx_lookup(ctx: Seq<(Name, HostTypeModel)>, name: Name) -> Option<HostTypeModel>
    decreases ctx.len(),
{
    if ctx.len() == 0 {
        None
    } else if ctx.last().0 == name {
        Some(ctx.last().1)
    } else {
        ctx_lookup(ctx.drop_last(), name)
    }
}

/// Position of the newest binding of `name`.
pub open spec fn newest_binding(ctx: Seq<(Name, HostTypeModel)>, name: Name) -> Option<int>
    decreases ctx.len(),
{
    if ctx.len() == 0 {
        None
    } else if ctx.last().0 == name {
        Some(ctx.len() - 1)
    } else {
        newest_binding(ctx.drop_last(), name)
    }
}

proof fn lemma_newest_binding(ctx: Seq<(Name, HostTypeModel)>, name: Name)
    ensures
        match newest_binding(ctx, name) {
            Some(i) => 0 <= i < ctx.len() && ctx[i].0 == name && ctx_lookup(ctx, name) == Some(ctx[i].1),
            None => ctx_lookup(ctx, name) is None,
        },
    decreases ctx.len(),
{
    if ctx.len() > 0 && ctx.last().0 != name {
        lemma_newest_binding(ctx.drop_last(), name);
    }
}

pub open spec fn opt_ref_model(r: Option<&HostType>) -> Option<HostTypeModel> {
    match r {
        Some(t) => Some(host_model(*t)),
        None => None,
    }
}

impl LocalContext {
    spec fn view(&self) -> Seq<(Name, HostTypeModel)> {
        params_model(self.bindings@)
    }

    #[verifier::type_invariant]
    spec fn newest_exact(self) -> bool {
        forall|n: Name|
            #[trigger] newest_binding(params_model(self.bindings@), n) == (if self.newest@.contains_key(n.id) {
                Some(self.newest@[n.id] as int)
            } else {
                None
            })
    }

    fn empty() -> (c: LocalContext)
        ensures
            c.view() == Seq::<(Name, HostTypeModel)>::empty(),
    {
        broadcast use vstd::std_specs::hash::group_hash_axioms;

        let c = LocalContext { bindings: Vec::new(), newest: HashMap::new() };
        assert(c.view() =~= Seq::<(Name, HostTypeModel)>::empty());
        c
    }

    fn extend(&mut self, name: Name, ty: HostType)
        ensures
            final(self).view() == old(self).view().push((name, host_model(ty))),
    {
        broadcast use vstd::std_specs::hash::group_hash_axioms;

        let mut cur = LocalContext::empty();
        std::mem::swap(&mut cur, self);
        proof {
            use_type_invariant(&cur);
        }
        let ghost v0 = cur.view();
        let ghost m0 = cur.newest@;
        let LocalContext { mut bindings, mut newest } = cur;
        let pos = bindings.len();
        bindings.push((name, ty));
        newest.insert(name.id, pos);
        proof {
            let v = params_model(bindings@);
            assert(v =~= v0.push((name, host_model(ty))));
            assert(v.drop_last() =~= v0);
            assert forall|n: Name| #[trigger] newest_binding(v, n) == (if newest@.contains_key(n.id) {
                Some(newest@[n.id] as int)
            } else {
                None
            }) by {
                if n.id == name.id {
                    assert(n == name);
                } else {
                    assert(newest_binding(v0, n) == (if m0.contains_key(n.id) {
                        Some(m0[n.id] as int)
                    } else {
                        None
                    }));
                }
            }
        }
        *self = LocalContext { bindings, newest };
    }

    fn lookup(&self, name: Name) -> (r: Option<&HostType>)
        ensures
            opt_ref_model(r) == ctx_lookup(self.view(), name),
    {
        broadcast use vstd::std_specs::hash::group_hash_axioms;

        proof {
            use_type_invariant(self);
            lemma_newest_binding(self.view(), name);
            assert(newest_binding(self.view(), name) == (if self.newest@.contains_key(name.id) {
                Some(self.newest@[name.id] as int)
            } else {
                None
            }));
        }
        match self.newest.get(&name.id) {
            Some(i) => Some(&self.bindings[*i].1),
            None => None,
        }
    }

    fn duplicate(&self) -> (c: LocalContext)
        ensures
            c.view() == self.view(),
    {
        let mut out = LocalContext::empty();
        let mut i: usize = 0;
        while i < self.bindings.len()
            invariant
                i <= self.bindings.len(),
                out.view() == self.view().take(i as int),
            decreases self.bindings.len() - i,
        {
            let t = clone_host_type(&self.bindings[i].1);
            out.extend(self.bindings[i].0, t);
            proof {
                assert(self.view().take(i + 1) =~= self.view().take(i as int).push(self.view()[i as int]));
            }
            i = i + 1;
        }
        assert(self.view().take(self.bindings.len() as int) =~= self.view());
        out
    }
}

/// Closed integer interval of values matched by a constraint element.
#[derive(Clone, Copy, PartialEq, Eq, Debug, Structural)]
pub struct ConstraintInterval {
    pub start: u64,
    pub end: u64,
}

impl ConstraintInterval {
    pub open spec fn spec_overlaps(self, other: Self) -> bool {
        self.start <= other.end && other.start <= self.end
    }

    pub fn singleton(value: u64) -> (r: Self)
        ensures
            r.start == value,
            r.end == value,
    {
        Self { start: value, end: value }
    }

    pub fn overlaps(self, other: Self) -> (r: bool)
        ensures
            r == self.spec_overlaps(other),
    {
        self.start <= other.end && other.start <= self.end
    }
}

/// The integer value of an optional constant, if it is an integer.
pub open spec fn opt_int(c: Option<ConstValue>) -> Option<u64> {
    match c {
        Some(v) => v.spec_as_int(),
        None => None,
    }
}

fn opt_int_exec(c: &Option<ConstValue>) -> (r: Option<u64>)
    ensures
        r == opt_int(*c),
{
    match c {
        Some(v) => v.as_int(),
        None => None,
    }
}

/// The interval of values matched by a constraint element under a carrier,
/// when the element is valid for it.
pub open spec fn spec_constraint_interval(elem: ConstraintElement, t: IntType) -> Option<ConstraintInterval> {
    match elem {
        ConstraintElement::Single { value, .. } => match value {
            ConstValue::Int(v) => if spec_value_fits(v, t) {
                Some(ConstraintInterval { start: v, end: v })
            } else {
                None
            },
            _ => None,
        },
        ConstraintElement::Range { start, end, .. } => {
            let s = opt_int(start);
            let e = opt_int(end);
            if s is None && e is None {
                None
            } else if (s matches Some(v) && !spec_value_fits(v, t)) || (e matches Some(v)
                && !spec_value_fits(v, t)) {
                None
            } else {
                let lo = match s {
                    Some(v) => v,
                    None => 0,
                };
                let hi = match e {
                    Some(v) => v,
                    None => spec_int_max(t),
                };
                if lo > hi {
                    None
                } else {
                    Some(ConstraintInterval { start: lo, end: hi })
                }
            }
        },
    }
}

/// Whether a host type is raw bytes (dynamic bytes or a byte array).
pub open spec fn spec_is_raw(t: HostTypeModel) -> bool {
    match t {
        HostTypeModel::Bytes => true,
        HostTypeModel::Array(e, _) => *e == HostTypeModel::Prim(IntType::U8),
        _ => false,
    }
}

/// Argument/parameter compatibility of host types.
pub open spec fn spec_types_compatible(actual: HostTypeModel, expected: HostTypeModel) -> bool
    decreases actual,
{
    match (actual, expected) {
        (HostTypeModel::Prim(a), HostTypeModel::Prim(b)) => a == b,
        (HostTypeModel::Enum(a), HostTypeModel::Enum(b)) => a == b,
        (HostTypeModel::Bytes, HostTypeModel::Bytes) => true,
        (HostTypeModel::Array(a, n), HostTypeModel::Array(b, m)) => n == m
            && spec_types_compatible(*a, *b),
        (HostTypeModel::Vec(a), HostTypeModel::Vec(b)) => spec_types_compatible(*a, *b),
        (HostTypeModel::Option(a), HostTypeModel::Option(b)) => spec_types_compatible(*a, *b),
        _ => false,
    }
}

/// The first definition carrying `name` (later duplicates are ignored).
pub open spec fn is_first_def(defs: Seq<Definition>, name: Name, i: int) -> bool {
    &&& 0 <= i < defs.len()
    &&& defs[i].name == name
    &&& forall|j: int| 0 <= j < i ==> #[trigger] defs[j].name != name
}

pub open spec fn def_index(defs: Seq<Definition>, name: Name) -> Option<int> {
    if exists|i: int| is_first_def(defs, name, i) {
        Some(choose|i: int| is_first_def(defs, name, i))
    } else {
        None
    }
}

proof fn lemma_first_def_unique_range(defs: Seq<Definition>, name: Name)
    ensures
        def_index(defs, name) matches Some(i) ==> is_first_def(defs, name, i),
{
}

proof fn lemma_first_def_unique(defs: Seq<Definition>, name: Name, i: int)
    requires
        is_first_def(defs, name, i),
    ensures
        def_index(defs, name) == Some(i),
{
    let k = choose|k: int| is_first_def(defs, name, k);
    if k < i {
        assert(defs[k].name != name);
    }
    if i < k {
        assert(defs[i].name != name);
    }
}

/// The table of `positions_exact` for `defs`.
fn first_positions(defs: &Vec<Definition>) -> (m: HashMap<usize, usize>)
    ensures
        positions_exact(defs@, m@),
{
    broadcast use vstd::std_specs::hash::group_hash_axioms;

    let mut m: HashMap<usize, usize> = HashMap::new();
    let mut i: usize = 0;
    while i < defs.len()
        invariant
            i <= defs@.len(),
            forall|n: Name|
                #[trigger] m@.contains_key(n.id) <==> exists|j: int| 0 <= j < i && defs@[j].name == n,
            forall|n: Name| #[trigger] m@.contains_key(n.id) ==> is_first_def(defs@, n, m@[n.id] as int),
        decreases defs.len() - i,
    {
        let id = defs[i].name.id;
        let ghost m0 = m@;
        if !m.contains_key(&id) {
            m.insert(id, i);
            proof {
                assert forall|n: Name| #[trigger] m@.contains_key(n.id) implies is_first_def(
                    defs@,
                    n,
                    m@[n.id] as int,
                ) by {
                    if n.id == id {
                        assert(n == defs@[i as int].name);
                        assert forall|j: int| 0 <= j < i implies #[trigger] defs@[j].name != n by {
                            if defs@[j].name == n {
                                assert(m0.contains_key(n.id));
                            }
                        }
                    } else {
                        assert(m0.contains_key(n.id));
                    }
                }
            }
        }
        proof {
            assert forall|n: Name| #[trigger] m@.contains_key(n.id) <==> exists|j: int|
                0 <= j < i + 1 && defs@[j].name == n by {
                if m@.contains_key(n.id) && !m0.contains_key(n.id) {
                    assert(n == defs@[i as int].name);
                }
                if exists|j: int| 0 <= j < i + 1 && defs@[j].name == n {
                    let j = choose|j: int| 0 <= j < i + 1 && defs@[j].name == n;
                    if j == i {
                        assert(n.id == id);
                    }
                }
            }
        }
        i = i + 1;
    }
    assert forall|n: Name| #[trigger] def_index(defs@, n) == (if m@.contains_key(n.id) {
        Some(m@[n.id] as int)
    } else {
        None
    }) by {
        if m@.contains_key(n.id) {
            lemma_first_def_unique(defs@, n, m@[n.id] as int);
        } else {
            if exists|k: int| is_first_def(defs@, n, k) {
                let k = choose|k: int| is_first_def(defs@, n, k);
                assert(defs@[k].name == n);
            }
        }
    }
    m
}

/// Index of the first definition named `name`.
pub(crate) fn find_def(defs: &Vec<Definition>, name: Name) -> (r: Option<usize>)
    ensures
        r matches Some(i) ==> def_index(defs@, name) == Some(i as int),
        r is None ==> def_index(defs@, name) is None,
{
    let mut i: usize = 0;
    while i < defs.len()
        invariant
            i <= defs@.len(),
            forall|j: int| 0 <= j < i ==> #[trigger] defs@[j].name != name,
        decreases defs.len() - i,
    {
        if defs[i].name == name {
            proof {
                lemma_first_def_unique(defs@, name, i as int);
            }
            return Some(i);
        }
        i = i + 1;
    }
    None
}

/// A table from name ids to positions holds, for every name, the position
/// of its first definition, and no entry for a name without one.
pub open spec fn positions_exact(defs: Seq<Definition>, m: Map<usize, usize>) -> bool {
    forall|n: Name|
        #[trigger] def_index(defs, n) == (if m.contains_key(n.id) {
            Some(m[n.id] as int)
        } else {
            None
        })
}

/// The signature entry of `name` in a state of the signature.
pub open spec fn sig_lookup(
    defs: Seq<Definition>,
    entries: Seq<Option<SigEntryModel>>,
    name: Name,
) -> Option<SigEntryModel> {
    match def_index(defs, name) {
        Some(i) => entries[i],
        None => None,
    }
}

/// State of the lazily built signature.
pub struct SigState {
    pub entries: Seq<Option<SigEntryModel>>,
    pub in_progress: Seq<bool>,
}

/// Entries exist only for first definitions that are neither in progress nor
/// endianness directives.
pub open spec fn state_wf(defs: Seq<Definition>, s: SigState) -> bool {
    &&& s.entries.len() == defs.len()
    &&& s.in_progress.len() == defs.len()
    &&& forall|i: int|
        0 <= i < defs.len() && #[trigger] s.entries[i] is Some ==> {
            &&& def_index(defs, defs[i].name) == Some(i)
            &&& !s.in_progress[i]
            &&& !(defs[i].kind is Endianness)
        }
    &&& forall|i: int|
        0 <= i < defs.len() && #[trigger] s.in_progress[i] ==> def_index(defs, defs[i].name)
            == Some(i)
}

/// `t` extends `s`: the same definitions are in progress and every entry of
/// `s` is kept.
pub open spec fn extends(defs: Seq<Definition>, s: SigState, t: SigState) -> bool {
    &&& state_wf(defs, s)
    &&& state_wf(defs, t)
    &&& t.in_progress == s.in_progress
    &&& forall|i: int| 0 <= i < defs.len() && #[trigger] s.entries[i] is Some ==> t.entries[i] == s.entries[i]
}

/// The lookup of `name` can no longer change in any extension of `s`.
pub open spec fn settled(defs: Seq<Definition>, s: SigState, name: Name) -> bool {
    match def_index(defs, name) {
        None => true,
        Some(i) => s.entries[i] is Some || s.in_progress[i] || defs[i].kind is Endianness,
    }
}

proof fn lemma_extends_refl(defs: Seq<Definition>, s: SigState)
    requires
        state_wf(defs, s),
    ensures
        extends(defs, s, s),
{
}

proof fn lemma_extends_trans(defs: Seq<Definition>, s: SigState, t: SigState, u: SigState)
    requires
        extends(defs, s, t),
        extends(defs, t, u),
    ensures
        extends(defs, s, u),
{
    assert forall|i: int| 0 <= i < defs.len() && #[trigger] s.entries[i] is Some implies u.entries[i]
        == s.entries[i] by {
        assert(t.entries[i] == s.entries[i]);
    }
}

proof fn lemma_settled_stable(defs: Seq<Definition>, s: SigState, t: SigState, name: Name)
    requires
        extends(defs, s, t),
        settled(defs, s, name),
    ensures
        sig_lookup(defs, t.entries, name) == sig_lookup(defs, s.entries, name),
        settled(defs, t, name),
{
    match def_index(defs, name) {
        None => {},
        Some(i) => {
            let k = choose|k: int| is_first_def(defs, name, k);
            assert(is_first_def(defs, name, k));
            if s.entries[i] is Some {
            } else if s.in_progress[i] {
                assert(t.in_progress[i]);
                if t.entries[i] is Some {
                    assert(!t.in_progress[i]);
                }
            } else {
                if t.entries[i] is Some {
                    assert(!(defs[i].kind is Endianness));
                }
            }
        },
    }
}

/// `lhs op rhs` on exact lengths, `None` on overflow, underflow, division by
/// zero or a division that leaves a remainder.
pub open spec fn spec_apply_op(op: LengthOp, lhs: u64, rhs: u64) -> Option<u64> {
    match op {
        LengthOp::Add => if lhs + rhs <= u64::MAX {
            Some((lhs + rhs) as u64)
        } else {
            None
        },
        LengthOp::Sub => if lhs >= rhs {
            Some((lhs - rhs) as u64)
        } else {
            None
        },
        LengthOp::Mul => if lhs * rhs <= u64::MAX {
            Some((lhs * rhs) as u64)
        } else {
            None
        },
        LengthOp::Div => if rhs == 0 || lhs % rhs != 0 {
            None
        } else {
            Some((lhs / rhs) as u64)
        },
    }
}

/// Exact static byte size of a host type (Size-Prim, Size-Enum, Size-Array,
/// Size-Struct), `None` when it has none or it exceeds `u64`.
pub open spec fn spec_static_size(
    defs: Seq<Definition>,
    entries: Seq<Option<SigEntryModel>>,
    t: HostTypeModel,
) -> Option<u64>
    decreases t,
{
    match t {
        HostTypeModel::Prim(k) => spec_prim_byte_size(k),
        HostTypeModel::Enum(n) => match sig_lookup(defs, entries, n) {
            Some(SigEntryModel::Enum { repr, .. }) => spec_prim_byte_size(repr),
            _ => None,
        },
        HostTypeModel::Array(e, len) => match spec_static_size(defs, entries, *e) {
            Some(size) => spec_apply_op(LengthOp::Mul, size, len),
            None => None,
        },
        HostTypeModel::Struct(fields) => spec_fields_size(defs, entries, fields),
        _ => None,
    }
}

/// The static size of an array type is its length times the static size of
/// its element (Size-Array): none when the element has none or the product
/// exceeds `u64`.
pub proof fn lemma_array_static_size(
    defs: Seq<Definition>,
    entries: Seq<Option<SigEntryModel>>,
    element: HostTypeModel,
    len: u64,
)
    ensures
        spec_static_size(defs, entries, HostTypeModel::Array(Box::new(element), len)) == match spec_static_size(
            defs,
            entries,
            element,
        ) {
            Some(s) => if s * len <= u64::MAX {
                Some((s * len) as u64)
            } else {
                None
            },
            None => None,
        },
{
}

/// The static size of a record is the sum of its fields' (Size-Struct): an
/// empty record has size 0, and one more field adds that field's size; none
/// when a field has none or the sum exceeds `u64`.
pub proof fn lemma_struct_static_size(
    defs: Seq<Definition>,
    entries: Seq<Option<SigEntryModel>>,
    fields: Seq<FieldTypeModel>,
    last: FieldTypeModel,
)
    ensures
        spec_static_size(defs, entries, HostTypeModel::Struct(Seq::empty())) == Some(0u64),
        spec_static_size(defs, entries, HostTypeModel::Struct(fields.push(last))) == match (
            spec_static_size(defs, entries, HostTypeModel::Struct(fields)),
            spec_static_size(defs, entries, last.ty),
        ) {
            (Some(a), Some(b)) => if a + b <= u64::MAX {
                Some((a + b) as u64)
            } else {
                None
            },
            _ => None,
        },
{
    let all = fields.push(last);
    assert(all.drop_last() =~= fields);
    assert(all.last() == last);
    assert(spec_static_size(defs, entries, HostTypeModel::Struct(Seq::empty())) == spec_fields_size(
        defs,
        entries,
        Seq::empty(),
    ));
    assert(spec_static_size(defs, entries, HostTypeModel::Struct(all)) == spec_fields_size(defs, entries, all));
    assert(spec_static_size(defs, entries, HostTypeModel::Struct(fields)) == spec_fields_size(defs, entries, fields));
}

pub open spec fn spec_fields_size(
    defs: Seq<Definition>,
    entries: Seq<Option<SigEntryModel>>,
    fields: Seq<FieldTypeModel>,
) -> Option<u64>
    decreases fields,
{
    if fields.len() == 0 {
        Some(0)
    } else {
        match spec_fields_size(defs, entries, fields.drop_last()) {
            Some(total) => match spec_static_size(defs, entries, fields.last().ty) {
                Some(size) => spec_apply_op(LengthOp::Add, total, size),
                None => None,
            },
            None => None,
        }
    }
}

/// The static size named by a signature entry (`|F|`).
pub open spec fn spec_entry_size(
    defs: Seq<Definition>,
    entries: Seq<Option<SigEntryModel>>,
    entry: SigEntryModel,
) -> Option<u64> {
    match entry {
        SigEntryModel::Format { params, result } => if params.len() != 0 {
            None
        } else {
            spec_static_size(defs, entries, result)
        },
        SigEntryModel::Enum { repr, .. } => spec_prim_byte_size(repr),
        SigEntryModel::Const { ty } => spec_static_size(defs, entries, ty),
    }
}

/// Exact evaluation of a length expression (Eval-Lit, Eval-SizeOf, Eval-Add,
/// Eval-Sub, Eval-Mul, Eval-Div); paths have no static value.
pub open spec fn spec_eval_expr(
    defs: Seq<Definition>,
    entries: Seq<Option<SigEntryModel>>,
    e: LengthExpr,
) -> Option<u64>
    decreases e, 0nat,
{
    if e.terms@.len() == 0 {
        None
    } else {
        spec_eval_terms(defs, entries, e.terms@, e.ops@, e.ops@.len())
    }
}

pub open spec fn spec_eval_terms(
    defs: Seq<Definition>,
    entries: Seq<Option<SigEntryModel>>,
    terms: Seq<LengthTerm>,
    ops: Seq<LengthOp>,
    k: nat,
) -> Option<u64>
    decreases terms, k,
{
    if k >= terms.len() {
        None
    } else if k == 0 {
        spec_eval_term(defs, entries, terms[0])
    } else {
        match spec_eval_terms(defs, entries, terms, ops, (k - 1) as nat) {
            Some(acc) => match spec_eval_term(defs, entries, terms[k as int]) {
                Some(v) => spec_apply_op(ops[k - 1], acc, v),
                None => None,
            },
            None => None,
        }
    }
}

pub open spec fn spec_eval_term(
    defs: Seq<Definition>,
    entries: Seq<Option<SigEntryModel>>,
    t: LengthTerm,
) -> Option<u64>
    decreases t, 0nat,
{
    if t.atoms@.len() == 0 {
        None
    } else {
        spec_eval_atoms(defs, entries, t.atoms@, t.ops@, t.ops@.len())
    }
}

pub open spec fn spec_eval_atoms(
    defs: Seq<Definition>,
    entries: Seq<Option<SigEntryModel>>,
    atoms: Seq<LengthAtom>,
    ops: Seq<LengthOp>,
    k: nat,
) -> Option<u64>
    decreases atoms, k,
{
    if k >= atoms.len() {
        None
    } else if k == 0 {
        spec_eval_atom(defs, entries, atoms[0])
    } else {
        match spec_eval_atoms(defs, entries, atoms, ops, (k - 1) as nat) {
            Some(acc) => match spec_eval_atom(defs, entries, atoms[k as int]) {
                Some(v) => spec_apply_op(ops[k - 1], acc, v),
                None => None,
            },
            None => None,
        }
    }
}

pub open spec fn spec_eval_atom(
    defs: Seq<Definition>,
    entries: Seq<Option<SigEntryModel>>,
    a: LengthAtom,
) -> Option<u64>
    decreases a, 0nat,
{
    match a {
        LengthAtom::Const(n) => Some(n),
        LengthAtom::Param(_) => None,
        LengthAtom::ProjectedParam { .. } => None,
        LengthAtom::SizeOf(SizeTarget::Type(k)) => spec_prim_byte_size(k),
        LengthAtom::SizeOf(SizeTarget::Named(nr)) => match sig_lookup(defs, entries, nr.name) {
            Some(entry) => spec_entry_size(defs, entries, entry),
            None => None,
        },
        LengthAtom::Paren(inner) => spec_eval_expr(defs, entries, *inner),
    }
}

/// Discriminant class of a choice under a local context (D-None, D-Prim,
/// D-Enum, D-Bytes, D-ByteArray); any other discriminant has no class.
pub open spec fn spec_disc_class(
    ctx: Seq<(Name, HostTypeModel)>,
    d: Option<NameRef>,
) -> DiscriminantClass {
    match d {
        None => DiscriminantClass::Labeled,
        Some(d) => match ctx_lookup(ctx, d.name) {
            Some(HostTypeModel::Prim(k)) => DiscriminantClass::Prim(k),
            Some(HostTypeModel::Enum(n)) => DiscriminantClass::Enum(n),
            Some(HostTypeModel::Bytes) => DiscriminantClass::Bytes,
            Some(HostTypeModel::Array(e, n)) => if *e == HostTypeModel::Prim(IntType::U8) {
                DiscriminantClass::ByteArray(n)
            } else {
                DiscriminantClass::Labeled
            },
            _ => DiscriminantClass::Labeled,
        },
    }
}

/// Host type of a format under a signature state and a local context
/// (T-Prim, T-Ref, T-Call, T-Refine, T-ByteArray, T-Bytes, T-Array,
/// T-Vec-From-Array, T-Vec, T-Option, T-Struct, T-Choice, T-Wrap, T-Tail,
/// T-Bind); unresolved references give `Error`.
pub open spec fn spec_infer(
    defs: Seq<Definition>,
    entries: Seq<Option<SigEntryModel>>,
    ctx: Seq<(Name, HostTypeModel)>,
    c: Combinator,
) -> HostTypeModel
    decreases c, 0nat,
{
    match c {
        Combinator::Int(k) => HostTypeModel::Prim(k),
        Combinator::ConstrainedInt { int_type, .. } => HostTypeModel::Prim(int_type),
        Combinator::Reference { name, .. } => match sig_lookup(defs, entries, name) {
            Some(SigEntryModel::Format { result, .. }) => result,
            Some(SigEntryModel::Enum { .. }) => HostTypeModel::Enum(name),
            Some(SigEntryModel::Const { ty }) => ty,
            None => HostTypeModel::Error,
        },
        Combinator::ConstrainedReference { name, .. } => match sig_lookup(defs, entries, name) {
            Some(SigEntryModel::Enum { .. }) => HostTypeModel::Enum(name),
            _ => HostTypeModel::Error,
        },
        Combinator::Struct(s) => HostTypeModel::Struct(
            spec_struct_fields(defs, entries, ctx, s.fields@, s.fields@.len()).0,
        ),
        Combinator::Choice(ch) => HostTypeModel::Choice(
            spec_disc_class(ctx, ch.discriminant),
            spec_arm_types(defs, entries, ctx, ch.arms@, ch.arms@.len()),
        ),
        Combinator::Array(a) => {
            let e = spec_infer(defs, entries, ctx, *a.element);
            match spec_eval_expr(defs, entries, a.length) {
                Some(n) => HostTypeModel::Array(Box::new(e), n),
                None => if e == HostTypeModel::Prim(IntType::U8) {
                    HostTypeModel::Bytes
                } else {
                    HostTypeModel::Vec(Box::new(e))
                },
            }
        },
        Combinator::Vec(v) => HostTypeModel::Vec(Box::new(spec_infer(defs, entries, ctx, *v.element))),
        Combinator::Option(o) => HostTypeModel::Option(
            Box::new(spec_infer(defs, entries, ctx, *o.element)),
        ),
        Combinator::Wrap(w) => spec_wrap_payload(defs, entries, ctx, w.args@),
        Combinator::Tail => HostTypeModel::Bytes,
        Combinator::Bind { target, .. } => spec_infer(defs, entries, ctx, *target),
        Combinator::Error => HostTypeModel::Error,
    }
}

/// Field types of the first `k` fields and the context after them: each
/// field is typed in the context extended by the earlier dependent fields.
pub open spec fn spec_struct_fields(
    defs: Seq<Definition>,
    entries: Seq<Option<SigEntryModel>>,
    ctx: Seq<(Name, HostTypeModel)>,
    fields: Seq<Field>,
    k: nat,
) -> (Seq<FieldTypeModel>, Seq<(Name, HostTypeModel)>)
    decreases fields, k,
{
    if k == 0 || k > fields.len() {
        (Seq::empty(), ctx)
    } else {
        let prev = spec_struct_fields(defs, entries, ctx, fields, (k - 1) as nat);
        let f = fields[k - 1];
        let t = spec_infer(defs, entries, prev.1, f.ty);
        (
            prev.0.push(FieldTypeModel { name: f.name, ty: t, is_dependent: f.is_dependent }),
            if f.is_dependent {
                prev.1.push((f.name, t))
            } else {
                prev.1
            },
        )
    }
}

/// Body types of the first `k` arms.
pub open spec fn spec_arm_types(
    defs: Seq<Definition>,
    entries: Seq<Option<SigEntryModel>>,
    ctx: Seq<(Name, HostTypeModel)>,
    arms: Seq<ChoiceArm>,
    k: nat,
) -> Seq<HostTypeModel>
    decreases arms, k,
{
    if k == 0 || k > arms.len() {
        Seq::empty()
    } else {
        spec_arm_types(defs, entries, ctx, arms, (k - 1) as nat).push(
            spec_infer(defs, entries, ctx, arms[k - 1].body),
        )
    }
}

/// Type of the payload (first combinator argument) of a wrap.
pub open spec fn spec_wrap_payload(
    defs: Seq<Definition>,
    entries: Seq<Option<SigEntryModel>>,
    ctx: Seq<(Name, HostTypeModel)>,
    args: Seq<WrapArg>,
) -> HostTypeModel
    decreases args, 0nat,
{
    if args.len() == 0 {
        HostTypeModel::Error
    } else {
        match args[0] {
            WrapArg::Combinator(c) => spec_infer(defs, entries, ctx, c),
            _ => spec_wrap_payload(defs, entries, ctx, args.drop_first()),
        }
    }
}

/// The `k`-th format directly inside `c`: a field's, an arm's, an element's,
/// a wrapped format, or the two sides of a bind.
pub open spec fn child_comb(c: Combinator, k: nat) -> Option<Combinator> {
    match c {
        Combinator::Struct(sc) => if k < sc.fields@.len() {
            Some(sc.fields@[k as int].ty)
        } else {
            None
        },
        Combinator::Choice(ch) => if k < ch.arms@.len() {
            Some(ch.arms@[k as int].body)
        } else {
            None
        },
        Combinator::Array(a) => if k == 0 {
            Some(*a.element)
        } else {
            None
        },
        Combinator::Vec(v) => if k == 0 {
            Some(*v.element)
        } else {
            None
        },
        Combinator::Option(o) => if k == 0 {
            Some(*o.element)
        } else {
            None
        },
        Combinator::Wrap(w) => if k < w.args@.len() {
            match w.args@[k as int] {
                WrapArg::Combinator(x) => Some(x),
                _ => None,
            }
        } else {
            None
        },
        Combinator::Bind { inner, target, .. } => if k == 0 {
            Some(*inner)
        } else if k == 1 {
            Some(*target)
        } else {
            None
        },
        _ => None,
    }
}

/// The format reached from `root` by following the child positions of
/// `path`.
pub open spec fn reach(root: Combinator, path: Seq<nat>) -> Option<Combinator>
    decreases path.len(),
{
    if path.len() == 0 {
        Some(root)
    } else {
        match reach(root, path.drop_last()) {
            Some(c) => child_comb(c, path.last()),
            None => None,
        }
    }
}

/// The `j`-th top-level format of a definition: the body of a format (or
/// the type of a constant) at 0, the type of its `j`-th parameter at `j`.
pub open spec fn def_root(d: Definition, j: int) -> Option<Combinator> {
    match d.kind {
        DefinitionKind::Combinator { params, body } => if j == 0 {
            Some(body)
        } else if 1 <= j <= params@.len() {
            Some(params@[j - 1].ty)
        } else {
            None
        },
        DefinitionKind::Const { ty, .. } => if j == 0 {
            Some(ty)
        } else {
            None
        },
        _ => None,
    }
}

pub open spec fn reach_from(defs: Seq<Definition>, i: int, j: int, path: Seq<nat>) -> Option<Combinator> {
    if 0 <= i < defs.len() {
        match def_root(defs[i], j) {
            Some(r) => reach(r, path),
            None => None,
        }
    } else {
        None
    }
}

/// `c` occurs in the file: it is a top-level format of a definition or lies
/// inside one.
pub open spec fn in_file(defs: Seq<Definition>, c: Combinator) -> bool {
    exists|i: int, j: int, path: Seq<nat>| #[trigger] reach_from(defs, i, j, path) == Some(c)
}

proof fn lemma_root_in_file(defs: Seq<Definition>, i: int, j: int)
    requires
        0 <= i < defs.len(),
        def_root(defs[i], j) is Some,
    ensures
        in_file(defs, def_root(defs[i], j)->Some_0),
{
    assert(reach_from(defs, i, j, Seq::empty()) == def_root(defs[i], j));
}

proof fn lemma_child_in_file(defs: Seq<Definition>, c: Combinator, k: nat)
    requires
        in_file(defs, c),
        child_comb(c, k) is Some,
    ensures
        in_file(defs, child_comb(c, k)->Some_0),
{
    let (i, j, path) = choose|i: int, j: int, path: Seq<nat>| #[trigger] reach_from(defs, i, j, path) == Some(c);
    let p2 = path.push(k);
    assert(p2.drop_last() =~= path);
    assert(reach_from(defs, i, j, p2) == child_comb(c, k));
}

/// Number of parameters of the format first defined as `n`; none when it
/// is no format.
pub open spec fn def_param_count(defs: Seq<Definition>, n: Name) -> Option<nat> {
    match def_index(defs, n) {
        Some(i) => match defs[i].kind {
            DefinitionKind::Combinator { params, .. } => Some(params@.len()),
            _ => None,
        },
        None => None,
    }
}

/// The argument-count diagnostic owed to an invocation of `name` with
/// `nargs` arguments: one when `name` is a format taking another number of
/// parameters.
pub open spec fn arg_count_keys(defs: Seq<Definition>, name: Name, nargs: nat, span: Span) -> Seq<
    (CheckDiagnosticKind, Span),
> {
    match def_param_count(defs, name) {
        Some(k) => if k != nargs {
            seq![
                (
                    CheckDiagnosticKind::InvocationArgCountMismatch { expected: k as usize, actual: nargs as usize },
                    span,
                ),
            ]
        } else {
            Seq::empty()
        },
        None => Seq::empty(),
    }
}

/// The undefined-symbol diagnostic owed to a reference: one when no
/// definition has the name.
pub open spec fn ref_keys(defs: Seq<Definition>, name: Name, span: Span) -> Seq<(CheckDiagnosticKind, Span)> {
    if def_index(defs, name) is None {
        seq![(CheckDiagnosticKind::UndefinedSymbol(name), span)]
    } else {
        Seq::empty()
    }
}

/// The duplicate-field diagnostic owed to a field: one when an earlier
/// field has its name.
pub open spec fn field_dup_keys(f: Field, earlier: Seq<Field>) -> Seq<(CheckDiagnosticKind, Span)> {
    if exists|j: int| 0 <= j < earlier.len() && (#[trigger] earlier[j]).name == f.name {
        seq![(CheckDiagnosticKind::DuplicateField(f.name), f.span)]
    } else {
        Seq::empty()
    }
}

/// The duplicate-parameter diagnostic owed to a parameter: one when an
/// earlier parameter has its name.
pub open spec fn param_dup_keys(p: Param, earlier: Seq<Param>) -> Seq<(CheckDiagnosticKind, Span)> {
    if exists|j: int| 0 <= j < earlier.len() && (#[trigger] earlier[j]).name == p.name {
        seq![(CheckDiagnosticKind::DuplicateField(p.name), p.span)]
    } else {
        Seq::empty()
    }
}

/// The names bound in a local context.
pub open spec fn ctx_names(ctx: Seq<(Name, HostTypeModel)>) -> Seq<Name> {
    ctx.map_values(|b: (Name, HostTypeModel)| b.0)
}

/// The names of parameters.
pub open spec fn param_names(ps: Seq<Param>) -> Seq<Name> {
    ps.map_values(|p: Param| p.name)
}

/// The names of the dependent fields among `fs`, in order.
pub open spec fn dep_names(fs: Seq<Field>) -> Seq<Name>
    decreases fs.len(),
{
    if fs.len() == 0 {
        Seq::empty()
    } else {
        dep_names(fs.drop_last()) + if fs.last().is_dependent {
            seq![fs.last().name]
        } else {
            Seq::empty()
        }
    }
}

/// The undefined-discriminant diagnostic owed to a choice: one when its
/// discriminant is not bound in scope.
pub open spec fn disc_keys(scope: Seq<Name>, d: Option<NameRef>) -> Seq<(CheckDiagnosticKind, Span)> {
    match d {
        Some(d) => if !scope.contains(d.name) {
            seq![(CheckDiagnosticKind::ChoiceDiscriminantUndefined(d.name), d.span)]
        } else {
            Seq::empty()
        },
        None => Seq::empty(),
    }
}

/// Whether a choice is labeled whatever the signature holds: it has no
/// discriminant, or its discriminant is not in scope.
pub open spec fn labeled_in_scope(scope: Seq<Name>, d: Option<NameRef>) -> bool {
    match d {
        Some(d) => !scope.contains(d.name),
        None => true,
    }
}

/// The pattern diagnostic an arm owes whatever the signature holds, given the
/// arms before it: a wildcard after a wildcard is a duplicate; on a labeled
/// choice, a label after the same label is a duplicate and any pattern other
/// than a label or a wildcard is a type mismatch.
pub open spec fn arm_pattern_key(labeled: bool, arm: ChoiceArm, earlier: Seq<ChoiceArm>) -> Seq<
    (CheckDiagnosticKind, Span),
> {
    match arm.pattern {
        ChoicePattern::Wildcard => if exists|j: int|
            0 <= j < earlier.len() && (#[trigger] earlier[j]).pattern is Wildcard {
            seq![(CheckDiagnosticKind::ChoicePatternDuplicate, arm.span)]
        } else {
            Seq::empty()
        },
        ChoicePattern::Variant(l) => if labeled && exists|j: int|
            0 <= j < earlier.len() && ((#[trigger] earlier[j]).pattern matches ChoicePattern::Variant(e)
                && e.name == l.name) {
            seq![(CheckDiagnosticKind::ChoicePatternDuplicate, l.span)]
        } else {
            Seq::empty()
        },
        _ => if labeled {
            seq![(CheckDiagnosticKind::ChoicePatternTypeMismatch, arm.span)]
        } else {
            Seq::empty()
        },
    }
}

pub open spec fn arm_pattern_keys(labeled: bool, arms: Seq<ChoiceArm>) -> Seq<(CheckDiagnosticKind, Span)>
    decreases arms.len(),
{
    if arms.len() == 0 {
        Seq::empty()
    } else {
        arm_pattern_keys(labeled, arms.drop_last()) + arm_pattern_key(labeled, arms.last(), arms.drop_last())
    }
}

/// The undefined-variable diagnostic owed to a variable of a length
/// expression: one when it is not bound in scope.
pub open spec fn length_var_keys(scope: Seq<Name>, n: NameRef) -> Seq<(CheckDiagnosticKind, Span)> {
    if !scope.contains(n.name) {
        seq![(CheckDiagnosticKind::LengthExprUndefined(n.name), n.span)]
    } else {
        Seq::empty()
    }
}

/// The diagnostics that type inference of a combinator owes whatever the
/// signature holds, with the names of `scope` bound: an undefined symbol for
/// every reference it reaches to a name that no definition has, a duplicate
/// field for every repeated field name of a struct, an undefined
/// discriminant for every choice on a name not in scope, the diagnostics of
/// every integer constraint, and those of array lengths. Of a wrap,
/// inference reaches its payload only; the dependent fields of a struct are
/// in scope for the fields after them.
pub open spec fn required_keys(defs: Seq<Definition>, scope: Seq<Name>, c: Combinator) -> Seq<
    (CheckDiagnosticKind, Span),
>
    decreases c, 0nat,
{
    match c {
        Combinator::ConstrainedInt { int_type, constraint } => int_constraint_diags(constraint.elements@, int_type),
        Combinator::Reference { name, span, args } => ref_keys(defs, name, span) + arg_count_keys(
            defs,
            name,
            args@.len(),
            span,
        ),
        Combinator::ConstrainedReference { name, span, .. } => ref_keys(defs, name, span),
        Combinator::Struct(s) => fields_keys(defs, scope, s.fields@),
        Combinator::Choice(ch) => disc_keys(scope, ch.discriminant) + arms_keys(defs, scope, ch.arms@)
            + arm_pattern_keys(labeled_in_scope(scope, ch.discriminant), ch.arms@),
        Combinator::Array(a) => required_keys(defs, scope, *a.element) + expr_keys(defs, scope, a.length),
        Combinator::Vec(v) => required_keys(defs, scope, *v.element),
        Combinator::Option(o) => required_keys(defs, scope, *o.element),
        Combinator::Wrap(w) => payload_keys(defs, scope, w.args@),
        Combinator::Bind { inner, target, .. } => required_keys(defs, scope, *inner) + required_keys(
            defs,
            scope,
            *target,
        ),
        _ => Seq::empty(),
    }
}

pub open spec fn fields_keys(defs: Seq<Definition>, scope: Seq<Name>, fs: Seq<Field>) -> Seq<
    (CheckDiagnosticKind, Span),
>
    decreases fs, 0nat,
{
    if fs.len() == 0 {
        Seq::empty()
    } else {
        fields_keys(defs, scope, fs.drop_last()) + field_dup_keys(fs.last(), fs.drop_last()) + required_keys(
            defs,
            scope + dep_names(fs.drop_last()),
            fs.last().ty,
        )
    }
}

pub open spec fn arms_keys(defs: Seq<Definition>, scope: Seq<Name>, arms: Seq<ChoiceArm>) -> Seq<
    (CheckDiagnosticKind, Span),
>
    decreases arms, 0nat,
{
    if arms.len() == 0 {
        Seq::empty()
    } else {
        arms_keys(defs, scope, arms.drop_last()) + required_keys(defs, scope, arms.last().body)
    }
}

pub open spec fn payload_keys(defs: Seq<Definition>, scope: Seq<Name>, args: Seq<WrapArg>) -> Seq<
    (CheckDiagnosticKind, Span),
>
    decreases args, 0nat,
{
    if args.len() == 0 {
        Seq::empty()
    } else {
        match args[0] {
            WrapArg::Combinator(c) => required_keys(defs, scope, c),
            _ => payload_keys(defs, scope, args.drop_first()),
        }
    }
}

/// The diagnostics that checking the parameters of a format owes: repeated
/// parameter names, and those of each parameter's type with the earlier
/// parameters in scope.
pub open spec fn params_keys(defs: Seq<Definition>, ps: Seq<Param>) -> Seq<(CheckDiagnosticKind, Span)>
    decreases ps.len(),
{
    if ps.len() == 0 {
        Seq::empty()
    } else {
        params_keys(defs, ps.drop_last()) + param_dup_keys(ps.last(), ps.drop_last()) + required_keys(
            defs,
            param_names(ps.drop_last()),
            ps.last().ty,
        )
    }
}

/// The diagnostics that checking a length expression owes whatever the
/// signature holds: an undefined size target for every `|name|` whose name
/// no definition has, and an undefined variable for every variable not in
/// scope.
pub open spec fn expr_keys(defs: Seq<Definition>, scope: Seq<Name>, e: LengthExpr) -> Seq<
    (CheckDiagnosticKind, Span),
>
    decreases e, 0nat,
{
    terms_keys(defs, scope, e.terms@)
}

pub open spec fn terms_keys(defs: Seq<Definition>, scope: Seq<Name>, ts: Seq<LengthTerm>) -> Seq<
    (CheckDiagnosticKind, Span),
>
    decreases ts, 0nat,
{
    if ts.len() == 0 {
        Seq::empty()
    } else {
        terms_keys(defs, scope, ts.drop_last()) + term_keys(defs, scope, ts.last())
    }
}

pub open spec fn term_keys(defs: Seq<Definition>, scope: Seq<Name>, t: LengthTerm) -> Seq<
    (CheckDiagnosticKind, Span),
>
    decreases t, 0nat,
{
    atoms_keys(defs, scope, t.atoms@)
}

pub open spec fn atoms_keys(defs: Seq<Definition>, scope: Seq<Name>, ats: Seq<LengthAtom>) -> Seq<
    (CheckDiagnosticKind, Span),
>
    decreases ats, 0nat,
{
    if ats.len() == 0 {
        Seq::empty()
    } else {
        atoms_keys(defs, scope, ats.drop_last()) + atom_keys(defs, scope, ats.last())
    }
}

pub open spec fn atom_keys(defs: Seq<Definition>, scope: Seq<Name>, a: LengthAtom) -> Seq<
    (CheckDiagnosticKind, Span),
>
    decreases a, 0nat,
{
    match a {
        LengthAtom::Param(n) => length_var_keys(scope, n),
        LengthAtom::ProjectedParam { base, .. } => length_var_keys(scope, base),
        LengthAtom::SizeOf(SizeTarget::Named(n)) => if def_index(defs, n.name) is None {
            seq![(CheckDiagnosticKind::SizeExprUndefined(n.name), n.span)]
        } else if def_params_nonempty(defs, n.name) == Some(true) {
            seq![(CheckDiagnosticKind::SizeExprParameterized(n.name), n.span)]
        } else {
            Seq::empty()
        },
        LengthAtom::Paren(inner) => expr_keys(defs, scope, *inner),
        _ => Seq::empty(),
    }
}

/// The diagnostics that checking a definition owes whatever the signature
/// holds: those of a format's parameters and of its body with the
/// parameters in scope, of an enum, and of a constant's type.
pub open spec fn def_keys(defs: Seq<Definition>, d: Definition) -> Seq<(CheckDiagnosticKind, Span)> {
    match d.kind {
        DefinitionKind::Combinator { params, body } => params_keys(defs, params@) + required_keys(
            defs,
            param_names(params@),
            body,
        ),
        DefinitionKind::Enum(e) => enum_def_diags(e),
        DefinitionKind::Const { ty, .. } => required_keys(defs, Seq::empty(), ty),
        _ => Seq::empty(),
    }
}

proof fn lemma_ctx_lookup_none(ctx: Seq<(Name, HostTypeModel)>, n: Name)
    ensures
        ctx_lookup(ctx, n) is None <==> !ctx_names(ctx).contains(n),
    decreases ctx.len(),
{
    if ctx.len() > 0 {
        let c0 = ctx.drop_last();
        lemma_ctx_lookup_none(c0, n);
        let names = ctx_names(ctx);
        let names0 = ctx_names(c0);
        assert(names =~= names0.push(ctx.last().0));
        if ctx.last().0 == n {
            assert(names[names.len() - 1] == n);
        } else {
            if names.contains(n) {
                let k = choose|k: int| 0 <= k < names.len() && names[k] == n;
                assert(k < names0.len());
                assert(names0[k] == n);
            }
            if names0.contains(n) {
                let k = choose|k: int| 0 <= k < names0.len() && names0[k] == n;
                assert(names[k] == n);
            }
        }
    } else {
        assert(ctx_names(ctx).len() == 0);
    }
}

proof fn lemma_ctx_names_push(ctx: Seq<(Name, HostTypeModel)>, b: (Name, HostTypeModel))
    ensures
        ctx_names(ctx.push(b)) == ctx_names(ctx).push(b.0),
{
    assert(ctx_names(ctx.push(b)) =~= ctx_names(ctx).push(b.0));
}

/// Every key of `expected` is among `keys`.
pub open spec fn all_reported(keys: Seq<(CheckDiagnosticKind, Span)>, expected: Seq<(CheckDiagnosticKind, Span)>) -> bool {
    forall|k: int| 0 <= k < expected.len() ==> keys.contains(#[trigger] expected[k])
}

/// Every key of `k1` is a key of `k2`.
pub open spec fn keys_kept(k1: Seq<(CheckDiagnosticKind, Span)>, k2: Seq<(CheckDiagnosticKind, Span)>) -> bool {
    forall|x: (CheckDiagnosticKind, Span)| #[trigger] k1.contains(x) ==> k2.contains(x)
}

proof fn lemma_reported_kept(
    k1: Seq<(CheckDiagnosticKind, Span)>,
    k2: Seq<(CheckDiagnosticKind, Span)>,
    e: Seq<(CheckDiagnosticKind, Span)>,
)
    requires
        all_reported(k1, e),
        keys_kept(k1, k2),
    ensures
        all_reported(k2, e),
{
    assert forall|k: int| 0 <= k < e.len() implies k2.contains(#[trigger] e[k]) by {
        assert(k1.contains(e[k]));
    }
}

proof fn lemma_reported_concat(
    keys: Seq<(CheckDiagnosticKind, Span)>,
    a: Seq<(CheckDiagnosticKind, Span)>,
    b: Seq<(CheckDiagnosticKind, Span)>,
)
    requires
        all_reported(keys, a),
        all_reported(keys, b),
    ensures
        all_reported(keys, a + b),
{
    let ab = a + b;
    assert forall|k: int| 0 <= k < ab.len() implies keys.contains(#[trigger] ab[k]) by {
        if k < a.len() {
            assert(ab[k] == a[k]);
            assert(keys.contains(a[k]));
        } else {
            assert(ab[k] == b[k - a.len()]);
            assert(keys.contains(b[k - a.len()]));
        }
    }
}

/// Keys appended after `k0` are among the keys.
proof fn lemma_reported_suffix(k0: Seq<(CheckDiagnosticKind, Span)>, e: Seq<(CheckDiagnosticKind, Span)>)
    ensures
        all_reported(k0 + e, e),
{
    let ke = k0 + e;
    assert forall|k: int| 0 <= k < e.len() implies ke.contains(#[trigger] e[k]) by {
        assert(ke[k0.len() + k] == e[k]);
    }
}

proof fn lemma_payload_keys_skip(defs: Seq<Definition>, scope: Seq<Name>, args: Seq<WrapArg>, i: int)
    requires
        0 <= i < args.len(),
    ensures
        payload_keys(defs, scope, args.skip(i)) == match args[i] {
            WrapArg::Combinator(c) => required_keys(defs, scope, c),
            _ => payload_keys(defs, scope, args.skip(i + 1)),
        },
{
    assert(args.skip(i)[0] == args[i]);
    assert(args.skip(i).drop_first() =~= args.skip(i + 1));
}

/// Number of definitions not currently in progress.
pub open spec fn free_count(s: Seq<bool>) -> nat
    decreases s.len(),
{
    if s.len() == 0 {
        0
    } else {
        free_count(s.drop_last()) + if s.last() {
            0nat
        } else {
            1nat
        }
    }
}

proof fn lemma_free_count_take(s: Seq<bool>, i: int)
    requires
        0 <= i < s.len(),
        !s[i],
    ensures
        free_count(s.update(i, true)) + 1 == free_count(s),
    decreases s.len(),
{
    if i < s.len() - 1 {
        assert(s.update(i, true).drop_last() =~= s.drop_last().update(i, true));
        lemma_free_count_take(s.drop_last(), i);
    } else {
        assert(s.update(i, true).drop_last() =~= s.drop_last());
    }
}

/// A definition whose signature entry does not depend on the entries of
/// other definitions.
pub open spec fn entry_free(defs: Seq<Definition>, d: Definition) -> bool {
    forall|e1: Seq<Option<SigEntryModel>>, e2: Seq<Option<SigEntryModel>>|
        #[trigger] spec_def_entry(defs, e1, d) == #[trigger] spec_def_entry(defs, e2, d)
}

/// Every recorded entry of a definition that depends on no other entry is
/// the entry that definition determines.
#[verifier::opaque]
pub open spec fn free_entries_exact(defs: Seq<Definition>, entries: Seq<Option<SigEntryModel>>) -> bool {
    forall|j: int|
        0 <= j < defs.len() && #[trigger] entries[j] is Some && entry_free(defs, defs[j]) ==> entries[j]
            == spec_def_entry(defs, entries, defs[j])
}

/// The shape a definition gives its signature entry: a format entry has one
/// parameter per parameter of the format, an enum entry holds the variants
/// the enum gives values to, a constant has a constant entry.
pub open spec fn entry_shape(d: Definition, e: SigEntryModel) -> bool {
    match (d.kind, e) {
        (DefinitionKind::Combinator { params, .. }, SigEntryModel::Format { params: ps, .. }) => ps.len()
            == params@.len(),
        (DefinitionKind::Enum(ed), SigEntryModel::Enum { variants, .. }) => variants == variant_map(ed.variants@),
        (DefinitionKind::Const { .. }, SigEntryModel::Const { .. }) => true,
        _ => false,
    }
}

/// Every recorded entry has the shape of its definition.
#[verifier::opaque]
pub open spec fn entries_shaped(defs: Seq<Definition>, entries: Seq<Option<SigEntryModel>>) -> bool {
    forall|j: int|
        0 <= j < defs.len() ==> match #[trigger] entries[j] {
            Some(e) => entry_shape(defs[j], e),
            None => true,
        }
}

/// The lookup of `n`, if it finds an entry, finds one of the shape of the
/// first definition of `n`.
pub open spec fn lookup_shaped(defs: Seq<Definition>, entries: Seq<Option<SigEntryModel>>, n: Name) -> bool {
    match sig_lookup(defs, entries, n) {
        Some(e) => match def_index(defs, n) {
            Some(i) => entry_shape(defs[i], e),
            None => false,
        },
        None => true,
    }
}

proof fn lemma_param_types_len(
    defs: Seq<Definition>,
    entries: Seq<Option<SigEntryModel>>,
    params: Seq<Param>,
    k: nat,
)
    requires
        k <= params.len(),
    ensures
        spec_param_types(defs, entries, params, k).len() == k,
    decreases k,
{
    if k > 0 {
        lemma_param_types_len(defs, entries, params, (k - 1) as nat);
    }
}

proof fn lemma_def_entry_shape(defs: Seq<Definition>, entries: Seq<Option<SigEntryModel>>, d: Definition)
    ensures
        spec_def_entry(defs, entries, d) matches Some(e) ==> entry_shape(d, e),
{
    if let DefinitionKind::Combinator { params, .. } = d.kind {
        lemma_param_types_len(defs, entries, params@, params@.len());
    }
}

/// Every definition that has a signature entry has had the undefined names
/// it references reported.
#[verifier::opaque]
pub open spec fn settled_reported(
    defs: Seq<Definition>,
    entries: Seq<Option<SigEntryModel>>,
    keys: Seq<(CheckDiagnosticKind, Span)>,
) -> bool {
    forall|i: int|
        0 <= i < defs.len() && #[trigger] entries[i] is Some ==> all_reported(keys, def_keys(defs, defs[i]))
}

/// The diagnostics a constant owes against the type its signature entry
/// records: none for any other definition or entry.
pub open spec fn const_def_keys(db: Database, d: Definition, e: SigEntryModel) -> Seq<(CheckDiagnosticKind, Span)> {
    match (d.kind, e) {
        (DefinitionKind::Const { ty: tc, value }, SigEntryModel::Const { ty }) => const_value_diags(
            db,
            value,
            ty,
            tc,
            d.span,
        ),
        _ => Seq::empty(),
    }
}

/// Every constant that has a signature entry has had its value checked
/// against the type the entry records.
#[verifier::opaque]
pub open spec fn consts_reported(
    db: Database,
    defs: Seq<Definition>,
    entries: Seq<Option<SigEntryModel>>,
    keys: Seq<(CheckDiagnosticKind, Span)>,
) -> bool {
    forall|i: int|
        0 <= i < defs.len() && #[trigger] entries[i] is Some ==> all_reported(
            keys,
            const_def_keys(db, defs[i], entries[i]->Some_0),
        )
}

/// A state of the signature in which a check of `defs` ended with the
/// diagnostics `keys`: nothing is in progress, every first definition other
/// than an endianness declaration has its entry, every entry has the shape of
/// its definition, the entries of definitions that depend on no other entry
/// are the ones those definitions determine, and every constant's value has
/// been checked against the type its entry records.
pub open spec fn checked_state(
    db: Database,
    defs: Seq<Definition>,
    st: SigState,
    keys: Seq<(CheckDiagnosticKind, Span)>,
) -> bool {
    &&& state_wf(defs, st)
    &&& forall|j: int| 0 <= j < defs.len() ==> !(#[trigger] st.in_progress[j])
    &&& forall|j: int|
        0 <= j < defs.len() && def_index(defs, defs[j].name) == Some(j) && !(defs[j].kind is Endianness)
            ==> (#[trigger] st.entries[j]) is Some
    &&& free_entries_exact(defs, st.entries)
    &&& entries_shaped(defs, st.entries)
    &&& consts_reported(db, defs, st.entries, keys)
}

/// `m` begins with `a` and ends with `b`, which do not overlap.
pub open spec fn framed(m: Seq<char>, a: Seq<char>, b: Seq<char>) -> bool {
    &&& a.len() + b.len() <= m.len()
    &&& m.subrange(0, a.len() as int) == a
    &&& m.subrange(m.len() - b.len(), m.len() as int) == b
}

proof fn lemma_framed_prefix(a: Seq<char>, x: Seq<char>)
    ensures
        framed(a + x, a, Seq::empty()),
{
    let m = a + x;
    assert(m.subrange(0, a.len() as int) =~= a);
    assert(m.subrange(m.len() as int, m.len() as int) =~= Seq::<char>::empty());
}

proof fn lemma_framed(a: Seq<char>, x: Seq<char>, b: Seq<char>)
    ensures
        framed(a + x + b, a, b),
{
    let m = a + x + b;
    assert(m.subrange(0, a.len() as int) =~= a);
    assert(m.subrange(m.len() - b.len(), m.len() as int) =~= b);
}

/// The names of `ns` separated by commas.
pub open spec fn name_listing(db: Database, ns: Seq<Name>) -> Seq<char>
    decreases ns.len(),
{
    if ns.len() == 0 {
        Seq::empty()
    } else if ns.len() == 1 {
        db.text_of(ns[0])
    } else {
        name_listing(db, ns.drop_last()) + ", "@ + db.text_of(ns.last())
    }
}

/// The text of an integer that does not fit an integer type, after the
/// words that say which integer it is.
pub open spec fn out_of_range_text(lead: Seq<char>, v: u64, t: IntType) -> Seq<char> {
    lead + spec_decimal(v as nat) + " out of range for "@ + spec_int_type_debug_name(t)
}

/// The messages a diagnostic of kind `k` is reported with. Where the kind
/// holds every value the message names, the message is fixed; where the
/// message also names what the kind does not hold (a field, a pattern
/// value, an argument position), its fixed parts are.
pub open spec fn message_fits(db: Database, k: CheckDiagnosticKind, m: Seq<char>) -> bool {
    match k {
        CheckDiagnosticKind::DuplicateDefinition(n) => m == "duplicate definition `"@ + db.text_of(n) + "`"@,
        CheckDiagnosticKind::UndefinedSymbol(n) => m == "undefined type `"@ + db.text_of(n) + "`"@,
        CheckDiagnosticKind::UndefinedEnumVariant { variant, enum_name }
        | CheckDiagnosticKind::ChoicePatternUndefinedVariant { variant, enum_name } => m == "undefined variant `"@
            + db.text_of(variant) + "` for enum `"@ + db.text_of(enum_name) + "`"@,
        CheckDiagnosticKind::IntLiteralOutOfRange { value, int_type } => {
            ||| m == out_of_range_text("constraint value "@, value, int_type)
            ||| m == out_of_range_text("constraint range start "@, value, int_type)
            ||| m == out_of_range_text("constraint range end "@, value, int_type)
            ||| m == out_of_range_text("value "@, value, int_type)
            ||| m == out_of_range_text("range start "@, value, int_type)
            ||| m == out_of_range_text("range end "@, value, int_type)
        },
        CheckDiagnosticKind::ConstTypeMismatch => {
            ||| m == "nested array literal not allowed in array constant"@
            ||| m == "nested string literal not allowed in array constant"@
            ||| m == "string literal can only be used for byte arrays"@
            ||| framed(m, "array element type mismatch: expected "@, Seq::empty())
            ||| framed(m, "constant value does not match expected array type "@, Seq::empty())
        },
        CheckDiagnosticKind::ConstLengthMismatch { expected, actual } => {
            ||| m == "array literal length "@ + spec_decimal(actual as nat) + " does not match array length "@
                + spec_decimal(expected as nat)
            ||| m == "string literal length "@ + spec_decimal(actual as nat) + " does not match array length "@
                + spec_decimal(expected as nat)
        },
        CheckDiagnosticKind::ConstValueOutOfRange { value, int_type } => {
            ||| m == out_of_range_text("constant value "@, value, int_type)
            ||| int_type == IntType::U8 && m == "value "@ + spec_decimal(value as nat) + " out of range for u8"@
        },
        CheckDiagnosticKind::DuplicateField(n) => {
            ||| m == "duplicate field `"@ + db.text_of(n) + "`"@
            ||| m == "duplicate parameter `@"@ + db.text_of(n) + "`"@
        },
        CheckDiagnosticKind::DuplicateEnumVariant(n) => m == "duplicate enum variant `"@ + db.text_of(n) + "`"@,
        CheckDiagnosticKind::DuplicateEnumValue(x) => m == "duplicate enum value "@ + spec_decimal(x as nat),
        CheckDiagnosticKind::EnumTypeSuffixMismatch => framed(
            m,
            "enum variant `"@,
            "` uses a different integer type than previous variants"@,
        ),
        CheckDiagnosticKind::EnumTypeSuffixOutOfRange { value, int_type } => m == out_of_range_text(
            "enum value "@,
            value,
            int_type,
        ),
        CheckDiagnosticKind::ChoiceDiscriminantNotDependent => false,
        CheckDiagnosticKind::ChoiceDiscriminantUndefined(n) => m == "undefined discriminant `@"@ + db.text_of(n)
            + "`"@,
        CheckDiagnosticKind::ChoiceDiscriminantTypeMismatch { expected, actual } => expected@
            == "integer, enum, or byte array"@ && m == "choice discriminant must be integer, enum, or byte array, found "@
            + actual@,
        CheckDiagnosticKind::ChoicePatternTypeMismatch => {
            ||| m == "enum variant pattern not allowed for integer discriminant"@
            ||| m == "pattern type does not match discriminant"@
        },
        CheckDiagnosticKind::ChoicePatternLengthMismatch { expected, actual } => m == "pattern length "@
            + spec_decimal(actual as nat) + " does not match discriminant length "@ + spec_decimal(expected as nat),
        CheckDiagnosticKind::ChoicePatternDuplicate => {
            ||| m == "duplicate wildcard pattern"@
            ||| m == "duplicate byte-array pattern"@
            ||| framed(m, "duplicate pattern for variant `"@, "`"@)
            ||| framed(m, "duplicate labeled choice arm `"@, "`"@)
            ||| framed(m, "duplicate pattern for value "@, Seq::empty())
        },
        CheckDiagnosticKind::ChoiceNonExhaustive { missing } => if missing@.len() == 0 {
            m == "non-exhaustive choice: a wildcard `_` arm is required"@
        } else {
            m == "non-exhaustive choice: missing variant(s) "@ + name_listing(db, missing@)
        },
        CheckDiagnosticKind::ChoiceWildcardWithExhaustive => m == "wildcard pattern unnecessary: all variants are covered"@,
        CheckDiagnosticKind::ChoicePatternOverlap => {
            ||| m == "pattern range overlaps with previous pattern"@
            ||| framed(m, "pattern value "@, " overlaps with previous pattern"@)
        },
        CheckDiagnosticKind::InvocationArgCountMismatch { expected, actual } => m == "expected "@ + spec_decimal(
            expected as nat,
        ) + " argument(s), found "@ + spec_decimal(actual as nat),
        CheckDiagnosticKind::InvocationArgTypeMismatch { expected, actual, .. } => framed(
            m,
            "argument "@,
            " type mismatch: expected "@ + expected@ + ", found "@ + actual@,
        ),
        CheckDiagnosticKind::InvocationArgUndefined(n) => m == "undefined argument `@"@ + db.text_of(n) + "`"@,
        CheckDiagnosticKind::LengthExprTypeError { expected, actual } => {
            ||| expected@ == "integer"@ && m == "length expression requires integer type, found "@ + actual@
            ||| expected@ == "struct"@ && framed(m, "length expression cannot project field `"@, "` from "@ + actual@)
        },
        CheckDiagnosticKind::LengthExprUndefined(n) => {
            ||| m == "undefined variable `@"@ + db.text_of(n) + "` in length expression"@
            ||| m == "field `"@ + db.text_of(n) + "` is not dependent and cannot be referenced in a length expression"@
            ||| m == "undefined field `"@ + db.text_of(n) + "` in length expression path"@
        },
        CheckDiagnosticKind::SizeExprUndefined(n) => m == "undefined type `"@ + db.text_of(n) + "` in size expression"@,
        CheckDiagnosticKind::SizeExprNotStatic(n) => m == "size expression `|"@ + db.text_of(n)
            + "|` is invalid: format does not have a static size"@,
        CheckDiagnosticKind::SizeExprParameterized(n) => m == "size expression `|"@ + db.text_of(n)
            + "|` is invalid: format takes parameters"@,
        CheckDiagnosticKind::BindSourceNotRaw => m == "bind source must produce raw bytes (bytes or [u8; n])"@,
        CheckDiagnosticKind::ConstraintOnNonEnum => framed(m, "enum constraint applied to non-enum type `"@, "`"@),
        CheckDiagnosticKind::InvalidIntConstraint => {
            ||| m == "invalid integer constraint: range must have at least one endpoint"@
            ||| m == "invalid integer constraint: range start exceeds end"@
        },
    }
}

/// Every diagnostic of `ds` from position `from` on has a message its kind
/// is reported with.
pub open spec fn messages_fit_from(db: Database, ds: Seq<CheckDiagnostic>, from: int) -> bool {
    forall|j: int| from <= j < ds.len() ==> message_fits(db, (#[trigger] ds[j]).kind, ds[j].message@)
}

/// Type checker context.
pub struct CheckContext<'a> {
    db: &'a Database,
    defs: &'a Vec<Definition>,
    /// Position of the first definition of each name, by the name's id.
    positions: HashMap<usize, usize>,
    signature: Signature,
    in_progress: Vec<bool>,
    diagnostics: Vec<CheckDiagnostic>,
}

impl<'a> CheckContext<'a> {
    pub closed spec fn state(&self) -> SigState {
        SigState {
            entries: Seq::new(
                self.signature.entries@.len(),
                |i: int| opt_entry_model(self.signature.entries@[i]),
            ),
            in_progress: self.in_progress@,
        }
    }

    pub closed spec fn defs(&self) -> Seq<Definition> {
        self.defs@
    }

    pub closed spec fn diags(&self) -> Seq<CheckDiagnostic> {
        self.diagnostics@
    }

    /// Kinds and spans of the diagnostics emitted so far.
    pub closed spec fn keys(&self) -> Seq<(CheckDiagnosticKind, Span)> {
        self.diagnostics@.map_values(|d: CheckDiagnostic| diag_key(d))
    }

    pub closed spec fn inv(&self) -> bool {
        &&& state_wf(self.defs@, self.state())
        &&& self.signature.entries@.len() == self.defs@.len()
        &&& settled_reported(self.defs@, self.state().entries, self.keys())
        &&& free_entries_exact(self.defs@, self.state().entries)
        &&& keys_justified_from(self.defs@, self.keys(), 0)
        &&& positions_exact(self.defs@, self.positions@)
        &&& entries_shaped(self.defs@, self.state().entries)
        &&& consts_reported(*self.db, self.defs@, self.state().entries, self.keys())
        &&& messages_fit_from(*self.db, self.diagnostics@, 0)
    }

    /// `self` is a later state of the same check as `prior`.
    pub closed spec fn step(&self, prior: &Self) -> bool {
        &&& self.defs == prior.defs
        &&& self.db == prior.db
        &&& extends(self.defs@, prior.state(), self.state())
        &&& prior.diagnostics@.is_prefix_of(self.diagnostics@)
    }

    /// `self` differs from `prior` only by diagnostics appended.
    pub closed spec fn diag_step(&self, prior: &Self) -> bool {
        &&& self.defs == prior.defs
        &&& self.db == prior.db
        &&& self.signature == prior.signature
        &&& self.in_progress@ == prior.in_progress@
        &&& self.positions@ == prior.positions@
        &&& prior.diagnostics@.is_prefix_of(self.diagnostics@)
        &&& keys_justified_from(self.defs@, self.keys(), prior.keys().len() as int)
        &&& messages_fit_from(*self.db, self.diagnostics@, prior.diagnostics@.len() as int)
    }

    proof fn lemma_diag_step(&self, prior: &Self)
        requires
            prior.inv(),
            self.diag_step(prior),
        ensures
            self.inv(),
            self.step(prior),
            self.state() == prior.state(),
    {
        assert(self.state() =~= prior.state());
        self.lemma_keys_kept(prior);
        self.lemma_keys_prefix(prior);
        reveal(consts_reported);
        assert forall|i: int| 0 <= i < self.defs@.len() && #[trigger] self.state().entries[i] is Some implies all_reported(
            self.keys(),
            const_def_keys(*self.db, self.defs@[i], self.state().entries[i]->Some_0),
        ) by {
            lemma_reported_kept(prior.keys(), self.keys(), const_def_keys(*self.db, self.defs@[i], self.state().entries[i]->Some_0));
        }
        reveal(settled_reported);
        assert forall|i: int| 0 <= i < self.defs@.len() && #[trigger] self.state().entries[i] is Some implies all_reported(
            self.keys(),
            def_keys(self.defs@, self.defs@[i]),
        ) by {
            lemma_reported_kept(prior.keys(), self.keys(), def_keys(self.defs@, self.defs@[i]));
        }
    }

    /// The recorded entries of definitions that depend on no other entry are
    /// the entries those definitions determine.
    proof fn lemma_lookup_shaped(&self, n: Name)
        requires
            self.inv(),
        ensures
            lookup_shaped(self.defs(), self.state().entries, n),
    {
        reveal(entries_shaped);
        if let Some(i) = def_index(self.defs@, n) {
            lemma_first_def_unique_range(self.defs@, n);
            assert(match self.state().entries[i] {
                Some(e) => entry_shape(self.defs@[i], e),
                None => true,
            });
        }
    }

    proof fn lemma_free_entries(&self, dd: Seq<Definition>)
        requires
            self.inv(),
            dd == self.defs(),
        ensures
            forall|j: int|
                0 <= j < dd.len() && #[trigger] self.state().entries[j] is Some && entry_free(dd, dd[j])
                    ==> self.state().entries[j] == spec_def_entry(dd, self.state().entries, dd[j]),
    {
        reveal(free_entries_exact);
    }

    /// Diagnostics only appended keep every key at its position.
    proof fn lemma_keys_prefix(&self, prior: &Self)
        requires
            prior.diagnostics@.is_prefix_of(self.diagnostics@),
        ensures
            prior.keys().len() <= self.keys().len(),
            forall|j: int| 0 <= j < prior.keys().len() ==> #[trigger] self.keys()[j] == prior.keys()[j],
            forall|j: int| 0 <= j < prior.diagnostics@.len() ==> #[trigger] self.diagnostics@[j] == prior.diagnostics@[j],
    {
        assert forall|j: int| 0 <= j < prior.diagnostics@.len() implies #[trigger] self.diagnostics@[j]
            == prior.diagnostics@[j] by {
            assert(self.diagnostics@.subrange(0, prior.diagnostics@.len() as int)[j] == prior.diagnostics@[j]);
        }
        assert forall|j: int| 0 <= j < prior.keys().len() implies #[trigger] self.keys()[j] == prior.keys()[j] by {
            assert(self.diagnostics@.subrange(0, prior.diagnostics@.len() as int)[j] == prior.diagnostics@[j]);
        }
    }

    /// Diagnostics only appended keep every key.
    proof fn lemma_keys_kept(&self, prior: &Self)
        requires
            prior.diagnostics@.is_prefix_of(self.diagnostics@),
        ensures
            keys_kept(prior.keys(), self.keys()),
    {
        assert forall|x: (CheckDiagnosticKind, Span)| #[trigger] prior.keys().contains(x) implies self.keys().contains(
            x,
        ) by {
            let j = choose|j: int| 0 <= j < prior.keys().len() && prior.keys()[j] == x;
            assert(self.diagnostics@.subrange(0, prior.diagnostics@.len() as int)[j] == prior.diagnostics@[j]);
            assert(self.keys()[j] == x);
        }
    }

    proof fn lemma_step_trans(&self, mid: &Self, prior: &Self)
        requires
            mid.step(prior),
            self.step(mid),
        ensures
            self.step(prior),
    {
        lemma_extends_trans(self.defs@, prior.state(), mid.state(), self.state());
    }

    proof fn lemma_diag_step_trans(&self, mid: &Self, prior: &Self)
        requires
            mid.diag_step(prior),
            self.diag_step(mid),
        ensures
            self.diag_step(prior),
    {
        assert(self.diagnostics@.subrange(0, prior.diagnostics@.len() as int) =~= prior.diagnostics@) by {
            assert(self.diagnostics@.subrange(0, mid.diagnostics@.len() as int) =~= mid.diagnostics@);
            assert(mid.diagnostics@.subrange(0, prior.diagnostics@.len() as int) =~= prior.diagnostics@);
        }
        self.lemma_keys_prefix(mid);
        mid.lemma_keys_prefix(prior);
    }

    proof fn lemma_diag_step_refl(&self)
        ensures
            self.diag_step(self),
    {
        assert(self.diagnostics@.subrange(0, self.diagnostics@.len() as int) =~= self.diagnostics@);
    }

    proof fn lemma_step_refl(&self)
        requires
            self.inv(),
        ensures
            self.step(self),
    {
        assert(self.diagnostics@.is_prefix_of(self.diagnostics@)) by {
            assert(self.diagnostics@.subrange(0, self.diagnostics@.len() as int) =~= self.diagnostics@);
        }
    }

    fn new(db: &'a Database, defs: &'a Vec<Definition>) -> (ctx: Self)
        ensures
            ctx.inv(),
            ctx.db == db,
            ctx.defs() == defs@,
            ctx.diags() == Seq::<CheckDiagnostic>::empty(),
            forall|i: int| 0 <= i < defs@.len() ==> ctx.state().entries[i] is None && !ctx.state().in_progress[i],
    {
        let mut entries: Vec<Option<SignatureEntry>> = Vec::new();
        let mut in_progress: Vec<bool> = Vec::new();
        let mut i: usize = 0;
        while i < defs.len()
            invariant
                i <= defs@.len(),
                entries@.len() == i,
                in_progress@.len() == i,
                forall|j: int| 0 <= j < i ==> (#[trigger] entries@[j]) is None && !in_progress@[j],
            decreases defs.len() - i,
        {
            entries.push(None);
            in_progress.push(false);
            i = i + 1;
        }
        let positions = first_positions(defs);
        let ctx = CheckContext {
            db,
            defs,
            positions,
            signature: Signature { entries },
            in_progress,
            diagnostics: Vec::new(),
        };
        assert forall|j: int| 0 <= j < defs@.len() implies ctx.state().entries[j] is None
            && !ctx.state().in_progress[j] by {
            assert(ctx.state().entries[j] == opt_entry_model(ctx.signature.entries@[j]));
        }
        proof {
            reveal(settled_reported);
            reveal(free_entries_exact);
            reveal(entries_shaped);
            reveal(consts_reported);
        }
        ctx
    }

    fn emit(&mut self, kind: CheckDiagnosticKind, message: String, span: Span)
        requires
            old(self).inv(),
            key_justified(old(self).defs(), (kind, span)),
            message_fits(*old(self).db, kind, message@),
        ensures
            final(self).inv(),
            final(self).diag_step(old(self)),
            final(self).step(old(self)),
            final(self).diagnostics@ == old(self).diagnostics@.push(
                CheckDiagnostic { message, span, kind },
            ),
            final(self).keys() == old(self).keys().push((kind, span)),
    {
        self.diagnostics.push(CheckDiagnostic { message, span, kind });
        proof {
            assert(self.keys() =~= old(self).keys().push((kind, span)));
            assert(old(self).diagnostics@.is_prefix_of(self.diagnostics@)) by {
                assert(self.diagnostics@.subrange(0, old(self).diagnostics@.len() as int)
                    =~= old(self).diagnostics@);
            }
            self.lemma_diag_step(old(self));
        }
    }

    /// Position of the first definition named `name`.
    fn position(&self, name: Name) -> (r: Option<usize>)
        requires
            self.inv(),
        ensures
            r matches Some(i) ==> def_index(self.defs(), name) == Some(i as int),
            r is None ==> def_index(self.defs(), name) is None,
    {
        broadcast use vstd::std_specs::hash::group_hash_axioms;

        assert(def_index(self.defs@, name) == (if self.positions@.contains_key(name.id) {
            Some(self.positions@[name.id] as int)
        } else {
            None
        }));
        match self.positions.get(&name.id) {
            Some(i) => Some(*i),
            None => None,
        }
    }

    /// Whether `name` names nothing a reference can resolve to. A name whose
    /// entry is missing only because its definition is still being checked
    /// (a recursive reference) is not such a name.
    fn resolves_nothing(&self, name: Name) -> (r: bool)
        requires
            self.inv(),
        ensures
            r == unresolvable(self.defs(), name),
    {
        match self.position(name) {
            Some(i) => {
                proof {
                    lemma_first_def_unique_range(self.defs@, name);
                }
                matches!(self.defs[i].kind, DefinitionKind::Endianness(_))
            },
            None => true,
        }
    }

    /// The parameters of the format first defined as `name`, if it is a
    /// format.
    fn format_param_count(&self, name: Name) -> (r: Option<usize>)
        requires
            self.inv(),
        ensures
            match r {
                Some(k) => def_params_nonempty(self.defs(), name) == Some(k > 0) && def_param_count(
                    self.defs(),
                    name,
                ) == Some(k as nat),
                None => def_params_nonempty(self.defs(), name) is None && def_param_count(self.defs(), name) is None,
            },
    {
        match self.position(name) {
            Some(i) => {
                proof {
                    lemma_first_def_unique_range(self.defs@, name);
                }
                match &self.defs[i].kind {
                    DefinitionKind::Combinator { params, .. } => Some(params.len()),
                    _ => None,
                }
            },
            None => None,
        }
    }

    /// Check if an integer value fits the given integer type.
    fn value_fits_type(&self, value: u64, int_type: IntType) -> (r: bool)
        ensures
            r == spec_value_fits(value, int_type),
    {
        match int_type {
            IntType::U8 => value <= 0xff,
            IntType::U16 => value <= 0xffff,
            IntType::U24 => value <= 0xff_ffff,
            IntType::U32 => value <= 0xffff_ffff,
            IntType::U64 => true,
            IntType::I8 => value <= 0x7f,
            IntType::I16 => value <= 0x7fff,
            IntType::I24 => value <= 0x7f_ffff,
            IntType::I32 => value <= 0x7fff_ffff,
            IntType::I64 => value <= 0x7fff_ffff_ffff_ffff,
            IntType::BtcVarint | IntType::Uleb128 => true,
        }
    }

    /// Get the byte size of a primitive type.
    fn prim_byte_size(&self, int_type: IntType) -> (r: Option<u64>)
        ensures
            r == spec_prim_byte_size(int_type),
    {
        match int_type {
            IntType::U8 | IntType::I8 => Some(1),
            IntType::U16 | IntType::I16 => Some(2),
            IntType::U24 | IntType::I24 => Some(3),
            IntType::U32 | IntType::I32 => Some(4),
            IntType::U64 | IntType::I64 => Some(8),
            IntType::BtcVarint | IntType::Uleb128 => None,
        }
    }

    fn int_type_bounds(&self, int_type: IntType) -> (r: ConstraintInterval)
        ensures
            r.start == 0,
            r.end == spec_int_max(int_type),
    {
        let end = match int_type {
            IntType::U8 => 0xff,
            IntType::U16 => 0xffff,
            IntType::U24 => 0xff_ffff,
            IntType::U32 => 0xffff_ffff,
            IntType::U64 => 0xffff_ffff_ffff_ffff,
            IntType::I8 => 0x7f,
            IntType::I16 => 0x7fff,
            IntType::I24 => 0x7f_ffff,
            IntType::I32 => 0x7fff_ffff,
            IntType::I64 => 0x7fff_ffff_ffff_ffff,
            IntType::BtcVarint | IntType::Uleb128 => 0xffff_ffff_ffff_ffff,
        };
        ConstraintInterval { start: 0, end }
    }

    /// Where choice-level diagnostics are reported: the discriminant, else the
    /// first arm, else the start of the file.
    fn choice_anchor_span(&self, choice_comb: &ChoiceCombinator) -> (r: Span)
        ensures
            r == (match choice_comb.discriminant {
                Some(d) => d.span,
                None => if choice_comb.arms@.len() > 0 {
                    choice_comb.arms@[0].span
                } else {
                    Span { start_byte: 0, end_byte: 0 }
                },
            }),
    {
        match &choice_comb.discriminant {
            Some(d) => d.span,
            None => if choice_comb.arms.len() > 0 {
                choice_comb.arms[0].span
            } else {
                Span::new(0, 0)
            },
        }
    }

    fn constraint_interval(&self, elem: &ConstraintElement, int_type: IntType) -> (r: Option<
        ConstraintInterval,
    >)
        ensures
            r == spec_constraint_interval(*elem, int_type),
    {
        match elem {
            ConstraintElement::Single { value: ConstValue::Int(v), .. } => {
                if self.value_fits_type(*v, int_type) {
                    Some(ConstraintInterval::singleton(*v))
                } else {
                    None
                }
            },
            ConstraintElement::Range { start, end, .. } => {
                let start_val = opt_int_exec(start);
                let end_val = opt_int_exec(end);
                let bounds = self.int_type_bounds(int_type);
                if start_val.is_none() && end_val.is_none() {
                    return None;
                }
                let start_bad = match start_val {
                    Some(v) => !self.value_fits_type(v, int_type),
                    None => false,
                };
                let end_bad = match end_val {
                    Some(v) => !self.value_fits_type(v, int_type),
                    None => false,
                };
                if start_bad || end_bad {
                    return None;
                }
                let lo = match start_val {
                    Some(v) => v,
                    None => bounds.start,
                };
                let hi = match end_val {
                    Some(v) => v,
                    None => bounds.end,
                };
                if lo > hi {
                    return None;
                }
                Some(ConstraintInterval { start: lo, end: hi })
            },
            ConstraintElement::Single { .. } => None,
        }
    }

    /// Check if a type is raw bytes (bytes or byte array).
    fn is_raw_type(&self, ty: &HostType) -> (r: bool)
        ensures
            r == spec_is_raw(ty@),
    {
        proof {
            reveal_with_fuel(host_model, 2);
        }
        match ty {
            HostType::Bytes => true,
            HostType::Array(elem, _) => match &**elem {
                HostType::Prim(IntType::U8) => true,
                _ => false,
            },
            _ => false,
        }
    }

    fn types_compatible(&self, actual: &HostType, expected: &HostType) -> (r: bool)
        ensures
            r == spec_types_compatible(actual@, expected@),
        decreases actual,
    {
        match (actual, expected) {
            (HostType::Prim(a), HostType::Prim(b)) => *a == *b,
            (HostType::Enum(a), HostType::Enum(b)) => *a == *b,
            (HostType::Bytes, HostType::Bytes) => true,
            (HostType::Array(a_elem, a_len), HostType::Array(b_elem, b_len)) => *a_len == *b_len
                && self.types_compatible(a_elem, b_elem),
            (HostType::Vec(a), HostType::Vec(b)) => self.types_compatible(a, b),
            (HostType::Option(a), HostType::Option(b)) => self.types_compatible(a, b),
            _ => false,
        }
    }

    /// Human-readable description of a host type.
    fn type_description(&self, ty: &HostType) -> (r: String)
        ensures
            r@ == spec_type_description(*self.db, ty@),
        decreases ty,
    {
        proof {
            reveal_with_fuel(host_model, 2);
        }
        match ty {
            HostType::Prim(int_type) => owned(int_type_lower_debug(*int_type)),
            HostType::Enum(name) => text2("enum ", name.as_str(self.db)),
            HostType::Bytes => owned("bytes"),
            HostType::Array(elem, len) => {
                let inner = self.type_description(elem);
                let n = u64_text(*len);
                text5("[", inner.as_str(), "; ", n.as_str(), "]")
            },
            HostType::Vec(elem) => {
                let inner = self.type_description(elem);
                text3("Vec<", inner.as_str(), ">")
            },
            HostType::Option(elem) => {
                let inner = self.type_description(elem);
                text3("Option<", inner.as_str(), ">")
            },
            HostType::Struct(_) => owned("struct"),
            HostType::Choice(_, _) => owned("choice"),
            HostType::Error => owned("error"),
        }
    }
}

/// Lower-cased debug spelling of a carrier.
pub open spec fn spec_int_lower_debug(t: IntType) -> Seq<char> {
    match t {
        IntType::U8 => "u8"@,
        IntType::U16 => "u16"@,
        IntType::U24 => "u24"@,
        IntType::U32 => "u32"@,
        IntType::U64 => "u64"@,
        IntType::I8 => "i8"@,
        IntType::I16 => "i16"@,
        IntType::I24 => "i24"@,
        IntType::I32 => "i32"@,
        IntType::I64 => "i64"@,
        IntType::BtcVarint => "btcvarint"@,
        IntType::Uleb128 => "uleb128"@,
    }
}

/// Human-readable description of a host type: the carrier's spelling, `enum`
/// and the enum's name, `bytes`, an array, vector or option spelled around
/// its element, and `struct`, `choice` or `error`.
pub open spec fn spec_type_description(db: Database, t: HostTypeModel) -> Seq<char>
    decreases t,
{
    match t {
        HostTypeModel::Prim(k) => spec_int_lower_debug(k),
        HostTypeModel::Enum(n) => "enum "@ + db.text_of(n),
        HostTypeModel::Bytes => "bytes"@,
        HostTypeModel::Array(e, n) => "["@ + spec_type_description(db, *e) + "; "@ + spec_decimal(n as nat) + "]"@,
        HostTypeModel::Vec(e) => "Vec<"@ + spec_type_description(db, *e) + ">"@,
        HostTypeModel::Option(e) => "Option<"@ + spec_type_description(db, *e) + ">"@,
        HostTypeModel::Struct(_) => "struct"@,
        HostTypeModel::Choice(_, _) => "choice"@,
        HostTypeModel::Error => "error"@,
    }
}

/// Lower-cased debug spelling of a carrier.
fn int_type_lower_debug(t: IntType) -> (r: &'static str)
    ensures
        r@ == spec_int_lower_debug(t),
{
    match t {
        IntType::U8 => "u8",
        IntType::U16 => "u16",
        IntType::U24 => "u24",
        IntType::U32 => "u32",
        IntType::U64 => "u64",
        IntType::I8 => "i8",
        IntType::I16 => "i16",
        IntType::I24 => "i24",
        IntType::I32 => "i32",
        IntType::I64 => "i64",
        IntType::BtcVarint => "btcvarint",
        IntType::Uleb128 => "uleb128",
    }
}

fn text2(a: &str, b: &str) -> (r: String)
    ensures
        r@ == a@ + b@,
{
    let mut out = owned(a);
    push_str(&mut out, b);
    out
}

fn text3(a: &str, b: &str, c: &str) -> (r: String)
    ensures
        r@ == a@ + b@ + c@,
{
    let mut out = owned(a);
    push_str(&mut out, b);
    push_str(&mut out, c);
    out
}

fn text4(a: &str, b: &str, c: &str, d: &str) -> (r: String)
    ensures
        r@ == a@ + b@ + c@ + d@,
{
    let mut out = owned(a);
    push_str(&mut out, b);
    push_str(&mut out, c);
    push_str(&mut out, d);
    out
}

fn text5(a: &str, b: &str, c: &str, d: &str, e: &str) -> (r: String)
    ensures
        r@ == a@ + b@ + c@ + d@ + e@,
{
    let mut out = owned(a);
    push_str(&mut out, b);
    push_str(&mut out, c);
    push_str(&mut out, d);
    push_str(&mut out, e);
    out
}

/// Parameter types in order; each is typed in the context of the earlier ones
/// (Params).
pub open spec fn spec_param_types(
    defs: Seq<Definition>,
    entries: Seq<Option<SigEntryModel>>,
    params: Seq<Param>,
    k: nat,
) -> Seq<(Name, HostTypeModel)>
    decreases params, k,
{
    if k == 0 || k > params.len() {
        Seq::empty()
    } else {
        let prev = spec_param_types(defs, entries, params, (k - 1) as nat);
        prev.push((params[k - 1].name, spec_infer(defs, entries, prev, params[k - 1].ty)))
    }
}

/// The first explicit type suffix among the variants.
pub open spec fn first_suffix(vs: Seq<crate::types::EnumVariant>) -> Option<IntType>
    decreases vs.len(),
{
    if vs.len() == 0 {
        None
    } else {
        match first_suffix(vs.drop_last()) {
            Some(t) => Some(t),
            None => vs.last().repr_type,
        }
    }
}

/// Largest integer value among the variants (0 when there is none).
pub open spec fn max_int_value(vs: Seq<crate::types::EnumVariant>) -> u64
    decreases vs.len(),
{
    if vs.len() == 0 {
        0
    } else {
        let m = max_int_value(vs.drop_last());
        match vs.last().value {
            ConstValue::Int(v) => if v > m {
                v
            } else {
                m
            },
            _ => m,
        }
    }
}

/// Smallest unsigned carrier holding `m` (Enum-Repr).
pub open spec fn smallest_repr(m: u64) -> IntType {
    if m <= 0xff {
        IntType::U8
    } else if m <= 0xffff {
        IntType::U16
    } else if m <= 0xffff_ffff {
        IntType::U32
    } else {
        IntType::U64
    }
}

/// Representation of an enum: the first variant suffix, else the declared
/// representation, else the smallest carrier holding every value.
pub open spec fn spec_check_enum_repr(e: EnumDef) -> IntType {
    match first_suffix(e.variants@) {
        Some(t) => t,
        None => match e.repr_type {
            Some(t) => t,
            None => smallest_repr(max_int_value(e.variants@)),
        },
    }
}

/// Index of the first entry named `n`.
pub open spec fn first_name_index(m: Seq<(Name, u64)>, n: Name) -> Option<int>
    decreases m.len(),
{
    if m.len() == 0 {
        None
    } else if m[0].0 == n {
        Some(0)
    } else {
        match first_name_index(m.drop_first(), n) {
            Some(j) => Some(j + 1),
            None => None,
        }
    }
}

/// Map insertion: the value of an existing name is replaced in place, a new
/// name is added at the end.
pub open spec fn names_insert(m: Seq<(Name, u64)>, n: Name, v: u64) -> Seq<(Name, u64)> {
    match first_name_index(m, n) {
        Some(j) => m.update(j, (n, v)),
        None => m.push((n, v)),
    }
}

/// Distinct integer-valued variant names, in declaration order.
pub open spec fn variant_map(vs: Seq<crate::types::EnumVariant>) -> Seq<(Name, u64)>
    decreases vs.len(),
{
    if vs.len() == 0 {
        Seq::empty()
    } else {
        let m = variant_map(vs.drop_last());
        match vs.last().value {
            ConstValue::Int(v) => names_insert(m, vs.last().name, v),
            _ => m,
        }
    }
}

/// Signature entry induced by a definition (Def-Fmt-Nullary, Def-Fmt-Param,
/// Def-Const, Def-Enum).
pub open spec fn spec_def_entry(
    defs: Seq<Definition>,
    entries: Seq<Option<SigEntryModel>>,
    d: Definition,
) -> Option<SigEntryModel> {
    match d.kind {
        DefinitionKind::Combinator { params, body } => {
            let ps = spec_param_types(defs, entries, params@, params@.len());
            Some(SigEntryModel::Format { params: ps, result: spec_infer(defs, entries, ps, body) })
        },
        DefinitionKind::Enum(e) => Some(
            SigEntryModel::Enum {
                repr: spec_check_enum_repr(e),
                is_open: !e.is_exhaustive,
                variants: variant_map(e.variants@),
            },
        ),
        DefinitionKind::Const { ty, .. } => Some(
            SigEntryModel::Const { ty: spec_infer(defs, entries, Seq::empty(), ty) },
        ),
        DefinitionKind::Endianness(_) => None,
    }
}

/// `st` with definition `i` put back in progress and its entry removed.
pub open spec fn reopened(st: SigState, i: int) -> SigState {
    SigState { entries: st.entries.update(i, None), in_progress: st.in_progress.update(i, true) }
}

/// Exact evaluation of one length operator.
fn apply_length_op(op: LengthOp, lhs: u64, rhs: u64) -> (r: Option<u64>)
    ensures
        r == spec_apply_op(op, lhs, rhs),
{
    match op {
        LengthOp::Add => lhs.checked_add(rhs),
        LengthOp::Sub => lhs.checked_sub(rhs),
        LengthOp::Mul => lhs.checked_mul(rhs),
        LengthOp::Div => {
            if rhs == 0 || lhs % rhs != 0 {
                None
            } else {
                Some(lhs / rhs)
            }
        },
    }
}

proof fn lemma_eval_terms_none(
    defs: Seq<Definition>,
    entries: Seq<Option<SigEntryModel>>,
    terms: Seq<LengthTerm>,
    ops: Seq<LengthOp>,
    k: nat,
    m: nat,
)
    requires
        k <= m < terms.len(),
        spec_eval_terms(defs, entries, terms, ops, k) is None,
    ensures
        spec_eval_terms(defs, entries, terms, ops, m) is None,
    decreases m - k,
{
    if k < m {
        lemma_eval_terms_none(defs, entries, terms, ops, k, (m - 1) as nat);
    }
}

proof fn lemma_eval_atoms_none(
    defs: Seq<Definition>,
    entries: Seq<Option<SigEntryModel>>,
    atoms: Seq<LengthAtom>,
    ops: Seq<LengthOp>,
    k: nat,
    m: nat,
)
    requires
        k <= m < atoms.len(),
        spec_eval_atoms(defs, entries, atoms, ops, k) is None,
    ensures
        spec_eval_atoms(defs, entries, atoms, ops, m) is None,
    decreases m - k,
{
    if k < m {
        lemma_eval_atoms_none(defs, entries, atoms, ops, k, (m - 1) as nat);
    }
}

proof fn lemma_fields_size_none(
    defs: Seq<Definition>,
    entries: Seq<Option<SigEntryModel>>,
    fields: Seq<FieldTypeModel>,
    k: int,
)
    requires
        0 <= k <= fields.len(),
        spec_fields_size(defs, entries, fields.take(k)) is None,
    ensures
        spec_fields_size(defs, entries, fields) is None,
    decreases fields.len() - k,
{
    if k < fields.len() {
        assert(fields.take(k + 1).drop_last() =~= fields.take(k));
        lemma_fields_size_none(defs, entries, fields, k + 1);
    } else {
        assert(fields.take(k) =~= fields);
    }
}

/// First member of a record type with the given name.
pub open spec fn find_member(ms: Seq<FieldTypeModel>, n: Name) -> Option<FieldTypeModel>
    decreases ms.len(),
{
    if ms.len() == 0 {
        None
    } else if ms[0].name == n {
        Some(ms[0])
    } else {
        find_member(ms.drop_first(), n)
    }
}

/// Type of the path `@x.f1...fk` (P-Var, P-Proj): every projected field must
/// be a dependent field of a record type.
pub open spec fn spec_project(t: Option<HostTypeModel>, fields: Seq<Name>) -> Option<HostTypeModel>
    decreases fields.len(),
{
    if fields.len() == 0 {
        t
    } else {
        match spec_project(t, fields.drop_last()) {
            Some(HostTypeModel::Struct(ms)) => match find_member(ms, fields.last()) {
                Some(m) => if m.is_dependent {
                    Some(m.ty)
                } else {
                    None
                },
                None => None,
            },
            _ => None,
        }
    }
}

proof fn lemma_project_none(t: Option<HostTypeModel>, fields: Seq<Name>, k: int)
    requires
        0 <= k <= fields.len(),
        spec_project(t, fields.take(k)) is None,
    ensures
        spec_project(t, fields) is None,
    decreases fields.len() - k,
{
    if k < fields.len() {
        assert(fields.take(k + 1).drop_last() =~= fields.take(k));
        lemma_project_none(t, fields, k + 1);
    } else {
        assert(fields.take(k) =~= fields);
    }
}

impl<'a> CheckContext<'a> {
    /// Computes and records the signature entry of `name` unless it is
    /// recorded, in progress, undefined, or an endianness directive.
    fn ensure_signature(&mut self, name: Name)
        requires
            old(self).inv(),
        ensures
            final(self).inv(),
            final(self).step(old(self)),
            settled(final(self).defs(), final(self).state(), name),
            def_index(final(self).defs(), name) matches Some(i) ==> (
            old(self).state().entries[i] is None && !old(self).state().in_progress[i] ==> forall|
                s: SigState,
            |
                extends(final(self).defs(), reopened(final(self).state(), i), s)
                    ==> #[trigger] spec_def_entry(final(self).defs(), s.entries, final(self).defs()[i])
                    == final(self).state().entries[i]),
        decreases free_count(old(self).in_progress@), 0nat, 0nat, 0nat,
    {
        let defs = self.defs;
        let idx = self.position(name);
        let i = match idx {
            None => {
                proof {
                    self.lemma_step_refl();
                }
                return ;
            },
            Some(i) => i,
        };
        if self.signature.entries[i].is_some() || self.in_progress[i] {
            proof {
                self.lemma_step_refl();
            }
            return ;
        }
        let ghost st0 = self.state();
        let ghost st0_keys = self.keys();
        let ghost dd = defs@;
        proof {
            assert(st0.entries[i as int] == opt_entry_model(self.signature.entries@[i as int]));
            lemma_free_count_take(self.in_progress@, i as int);
        }
        let def = &defs[i];
        let entry = match &def.kind {
            DefinitionKind::Endianness(_) => {
                proof {
                    self.lemma_step_refl();
                    let fs = self.state();
                    assert forall|s: SigState|
                        extends(dd, reopened(fs, i as int), s) implies #[trigger] spec_def_entry(
                        dd,
                        s.entries,
                        dd[i as int],
                    ) == fs.entries[i as int] by {}
                }
                return ;
            },
            DefinitionKind::Combinator { params, body } => {
                self.in_progress.set(i, true);
                proof {
                    assert(self.state().entries =~= st0.entries);
                    assert(state_wf(dd, self.state()));
                }
                self.check_combinator_def(def.name, params, body, def.span, Ghost(def))
            },
            DefinitionKind::Enum(enum_def) => {
                self.in_progress.set(i, true);
                proof {
                    assert(self.state().entries =~= st0.entries);
                    assert(state_wf(dd, self.state()));
                }
                let e = self.check_enum_def(def.name, enum_def, def.span, Ghost(def));
                proof {
                    lemma_reported_suffix(st0_keys, enum_def_diags(*enum_def));
                }
                e
            },
            DefinitionKind::Const { ty, value } => {
                self.in_progress.set(i, true);
                proof {
                    assert(self.state().entries =~= st0.entries);
                    assert(state_wf(dd, self.state()));
                }
                self.check_const_def(def.name, ty, value, def.span, Ghost(def))
            },
        };
        let ghost st1 = self.state();
        let ghost k1 = self.keys();
        proof {
            reveal(settled_reported);
            assert(settled_reported(dd, st1.entries, k1));
            assert(all_reported(k1, def_keys(dd, dd[i as int])));
        }
        self.in_progress.set(i, false);
        self.signature.entries.set(i, Some(entry));
        proof {
            let fs = self.state();
            assert(self.keys() == k1);
            assert forall|j: int| 0 <= j < dd.len() && #[trigger] fs.entries[j] is Some implies all_reported(
                k1,
                def_keys(dd, dd[j]),
            ) by {
                if j != i {
                    assert(fs.entries[j] == st1.entries[j]);
                }
            }
            assert(fs.entries =~= st1.entries.update(i as int, Some(entry_model(entry))));
            assert(fs.in_progress =~= st0.in_progress);
            assert(st1.entries[i as int] is None);
            assert(reopened(fs, i as int).entries =~= st1.entries);
            assert(reopened(fs, i as int).in_progress =~= st1.in_progress);
            assert(state_wf(dd, fs));
            assert(extends(dd, st0, fs));
            assert(old(self).diagnostics@.is_prefix_of(self.diagnostics@));
            reveal(free_entries_exact);
            assert(free_entries_exact(dd, st1.entries));
            lemma_extends_refl(dd, st1);
            reveal(consts_reported);
            assert(consts_reported(*self.db, dd, st1.entries, k1));
            assert(all_reported(k1, const_def_keys(*self.db, dd[i as int], entry_model(entry))));
            assert forall|j: int| 0 <= j < dd.len() && #[trigger] fs.entries[j] is Some implies all_reported(
                k1,
                const_def_keys(*self.db, dd[j], fs.entries[j]->Some_0),
            ) by {
                if j != i {
                    assert(fs.entries[j] == st1.entries[j]);
                }
            }
            reveal(entries_shaped);
            assert(reopened(fs, i as int) =~= st1);
            assert(spec_def_entry(dd, st1.entries, dd[i as int]) == fs.entries[i as int]);
            lemma_def_entry_shape(dd, st1.entries, dd[i as int]);
            assert forall|j: int| 0 <= j < dd.len() implies match #[trigger] fs.entries[j] {
                Some(e) => entry_shape(dd[j], e),
                None => true,
            } by {
                if j != i {
                    assert(fs.entries[j] == st1.entries[j]);
                }
            }
            assert forall|j: int|
                0 <= j < dd.len() && #[trigger] fs.entries[j] is Some && entry_free(dd, dd[j]) implies fs.entries[j]
                == spec_def_entry(dd, fs.entries, dd[j]) by {
                if j != i {
                    assert(fs.entries[j] == st1.entries[j]);
                    assert(spec_def_entry(dd, fs.entries, dd[j]) == spec_def_entry(dd, st1.entries, dd[j]));
                } else {
                    assert(reopened(fs, i as int) =~= st1);
                    assert(spec_def_entry(dd, st1.entries, dd[j]) == fs.entries[j]);
                    assert(spec_def_entry(dd, fs.entries, dd[j]) == spec_def_entry(dd, st1.entries, dd[j]));
                }
            }
        }
    }

    /// The signature entry of `name`, computing it on first use.
    fn get_signature_entry(&mut self, name: Name) -> (r: Option<SignatureEntry>)
        requires
            old(self).inv(),
        ensures
            final(self).inv(),
            final(self).step(old(self)),
            settled(final(self).defs(), final(self).state(), name),
            match r {
                Some(e) => sig_lookup(final(self).defs(), final(self).state().entries, name)
                    == Some(entry_model(e)),
                None => sig_lookup(final(self).defs(), final(self).state().entries, name) is None,
            },
            def_index(final(self).defs(), name) matches Some(i) ==> (
            old(self).state().entries[i] is None && !old(self).state().in_progress[i] ==> forall|
                s: SigState,
            |
                extends(final(self).defs(), reopened(final(self).state(), i), s)
                    ==> #[trigger] spec_def_entry(final(self).defs(), s.entries, final(self).defs()[i])
                    == final(self).state().entries[i]),
        decreases free_count(old(self).in_progress@), 0nat, 1nat, 0nat,
    {
        if let Some(i) = self.position(name) {
            if let Some(e) = &self.signature.entries[i] {
                proof {
                    self.lemma_step_refl();
                    assert(self.state().entries[i as int] == opt_entry_model(self.signature.entries@[i as int]));
                }
                return Some(clone_entry(e));
            }
        }
        self.ensure_signature(name);
        match self.position(name) {
            Some(i) => {
                proof {
                    assert(self.state().entries[i as int] == opt_entry_model(self.signature.entries@[i as int]));
                }
                match &self.signature.entries[i] {
                    Some(e) => Some(clone_entry(e)),
                    None => None,
                }
            },
            None => None,
        }
    }

    /// Exact static byte size of a host type.
    fn compute_static_size(&mut self, ty: &HostType) -> (r: Option<u64>)
        requires
            old(self).inv(),
        ensures
            final(self).inv(),
            final(self).step(old(self)),
            forall|s: SigState|
                extends(final(self).defs(), final(self).state(), s) ==> #[trigger] spec_static_size(
                    final(self).defs(),
                    s.entries,
                    ty@,
                ) == r,
        decreases free_count(old(self).in_progress@), 0nat, 2nat, host_size(*ty),
    {
        let ghost dd = self.defs@;
        match ty {
            HostType::Prim(int_type) => {
                proof {
                    self.lemma_step_refl();
                }
                self.prim_byte_size(*int_type)
            },
            HostType::Enum(name) => {
                let entry = self.get_signature_entry(*name);
                let r = match entry {
                    Some(SignatureEntry::Enum { repr, .. }) => self.prim_byte_size(repr),
                    _ => None,
                };
                proof {
                    assert forall|s: SigState| extends(dd, self.state(), s) implies #[trigger] spec_static_size(
                        dd,
                        s.entries,
                        ty@,
                    ) == r by {
                        lemma_settled_stable(dd, self.state(), s, *name);
                    }
                }
                r
            },
            HostType::Array(elem, len) => {
                let size = self.compute_static_size(elem);
                let r = match size {
                    Some(sz) => sz.checked_mul(*len),
                    None => None,
                };
                proof {
                    assert forall|s: SigState| extends(dd, self.state(), s) implies #[trigger] spec_static_size(
                        dd,
                        s.entries,
                        ty@,
                    ) == r by {
                        assert(spec_static_size(dd, s.entries, elem@) == size);
                    }
                }
                r
            },
            HostType::Struct(fields) => {
                let ghost st0 = self.state();
                let ghost fm = fields_model(fields@);
                proof {
                    self.lemma_step_refl();
                    lemma_fields_model_len(fields@);
                }
                let mut total: u64 = 0;
                let mut i: usize = 0;
                while i < fields.len()
                    invariant
                        i <= fields.len(),
                        self.inv(),
                        self.step(old(self)),
                        dd == self.defs@,
                        *ty == HostType::Struct(*fields),
                        fm == fields_model(fields@),
                        fm.len() == fields@.len(),
                        forall|s: SigState|
                            extends(dd, self.state(), s) ==> #[trigger] spec_fields_size(
                                dd,
                                s.entries,
                                fm.take(i as int),
                            ) == Some(total),
                    decreases fields.len() - i,
                {
                    let ghost st_before = self.state();
                    proof {
                        lemma_host_fields_sz(fields@, i as int);
                    }
                    let sz = self.compute_static_size(&fields[i].ty);
                    proof {
                        lemma_fields_model_len(fields@);
                        assert(fm.take(i + 1).drop_last() =~= fm.take(i as int));
                        assert(fm.take(i + 1).last() == fm[i as int]);
                        assert forall|s: SigState| extends(dd, self.state(), s) implies extends(
                            dd,
                            st_before,
                            s,
                        ) by {
                            lemma_extends_trans(dd, st_before, self.state(), s);
                        }
                    }
                    match sz {
                        Some(v) => {
                            match total.checked_add(v) {
                                Some(t) => {
                                    proof {
                                        assert forall|s: SigState| extends(dd, self.state(), s) implies #[trigger] spec_fields_size(
                                            dd,
                                            s.entries,
                                            fm.take(i + 1),
                                        ) == Some(t) by {
                                            assert(spec_fields_size(dd, s.entries, fm.take(i as int)) == Some(total));
                                            assert(spec_static_size(dd, s.entries, fm[i as int].ty) == sz);
                                        }
                                    }
                                    total = t;
                                },
                                None => {
                                    proof {
                                        assert forall|s: SigState|
                                            extends(dd, self.state(), s) implies #[trigger] spec_static_size(
                                            dd,
                                            s.entries,
                                            ty@,
                                        ) == None::<u64> by {
                                            assert(spec_fields_size(dd, s.entries, fm.take(i as int)) == Some(total));
                                            assert(spec_static_size(dd, s.entries, fm[i as int].ty) == sz);
                                            assert(spec_fields_size(dd, s.entries, fm.take(i + 1)) is None);
                                            lemma_fields_size_none(dd, s.entries, fm, i + 1);
                                        }
                                    }
                                    return None;
                                },
                            }
                        },
                        None => {
                            proof {
                                assert forall|s: SigState|
                                    extends(dd, self.state(), s) implies #[trigger] spec_static_size(
                                    dd,
                                    s.entries,
                                    ty@,
                                ) == None::<u64> by {
                                    assert(spec_static_size(dd, s.entries, fm[i as int].ty) == sz);
                                    assert(spec_fields_size(dd, s.entries, fm.take(i + 1)) is None);
                                    lemma_fields_size_none(dd, s.entries, fm, i + 1);
                                }
                            }
                            return None;
                        },
                    }
                    i = i + 1;
                }
                proof {
                    assert(fm.take(fields@.len() as int) =~= fm);
                    assert forall|s: SigState| extends(dd, self.state(), s) implies #[trigger] spec_static_size(
                        dd,
                        s.entries,
                        ty@,
                    ) == Some(total) by {
                        assert(spec_fields_size(dd, s.entries, fm.take(fields@.len() as int)) == Some(total));
                    }
                }
                Some(total)
            },
            _ => {
                proof {
                    self.lemma_step_refl();
                }
                None
            },
        }
    }
}

impl<'a> CheckContext<'a> {
    /// Try to evaluate a length expression to a static value.
    fn eval_length_expr(&mut self, expr: &LengthExpr, local_ctx: &LocalContext) -> (r: Option<u64>)
        requires
            old(self).inv(),
        ensures
            final(self).inv(),
            final(self).step(old(self)),
            forall|s: SigState|
                extends(final(self).defs(), final(self).state(), s) ==> #[trigger] spec_eval_expr(
                    final(self).defs(),
                    s.entries,
                    *expr,
                ) == r,
        decreases free_count(old(self).in_progress@), expr_size(*expr), 3nat, 0nat,
    {
        let ghost dd = self.defs@;
        if expr.terms.len() == 0 || expr.ops.len() >= expr.terms.len() {
            proof {
                self.lemma_step_refl();
            }
            return None;
        }
        proof {
            lemma_terms_sz(expr.terms@, 0);
        }
        let first = self.eval_length_term(&expr.terms[0], local_ctx);
        let mut result = match first {
            Some(v) => v,
            None => {
                proof {
                    assert forall|s: SigState| extends(dd, self.state(), s) implies #[trigger] spec_eval_expr(
                        dd,
                        s.entries,
                        *expr,
                    ) == None::<u64> by {
                        assert(spec_eval_term(dd, s.entries, expr.terms@[0]) is None);
                        lemma_eval_terms_none(dd, s.entries, expr.terms@, expr.ops@, 0, expr.ops@.len());
                    }
                }
                return None;
            },
        };
        proof {
            assert forall|s: SigState| extends(dd, self.state(), s) implies #[trigger] spec_eval_terms(
                dd,
                s.entries,
                expr.terms@,
                expr.ops@,
                0,
            ) == Some(result) by {
                assert(spec_eval_term(dd, s.entries, expr.terms@[0]) == Some(result));
            }
        }
        let mut i: usize = 0;
        while i < expr.ops.len()
            invariant
                i <= expr.ops@.len(),
                expr.ops@.len() < expr.terms@.len(),
                self.inv(),
                self.step(old(self)),
                dd == self.defs@,
                forall|s: SigState|
                    extends(dd, self.state(), s) ==> #[trigger] spec_eval_terms(
                        dd,
                        s.entries,
                        expr.terms@,
                        expr.ops@,
                        i as nat,
                    ) == Some(result),
            decreases expr.ops.len() - i,
        {
            let ghost st_before = self.state();
            proof {
                lemma_terms_sz(expr.terms@, i + 1);
            }
            let term_val = self.eval_length_term(&expr.terms[i + 1], local_ctx);
            proof {
                assert forall|s: SigState| extends(dd, self.state(), s) implies extends(
                    dd,
                    st_before,
                    s,
                ) by {
                    lemma_extends_trans(dd, st_before, self.state(), s);
                }
            }
            let v = match term_val {
                Some(v) => v,
                None => {
                    proof {
                        assert forall|s: SigState| extends(dd, self.state(), s) implies #[trigger] spec_eval_expr(
                            dd,
                            s.entries,
                            *expr,
                        ) == None::<u64> by {
                            assert(spec_eval_terms(dd, s.entries, expr.terms@, expr.ops@, i as nat) == Some(result));
                            assert(spec_eval_term(dd, s.entries, expr.terms@[i + 1]) == term_val);
                            lemma_eval_terms_none(
                                dd,
                                s.entries,
                                expr.terms@,
                                expr.ops@,
                                (i + 1) as nat,
                                expr.ops@.len(),
                            );
                        }
                    }
                    return None;
                },
            };
            match apply_length_op(expr.ops[i], result, v) {
                Some(next) => {
                    proof {
                        assert forall|s: SigState| extends(dd, self.state(), s) implies #[trigger] spec_eval_terms(
                            dd,
                            s.entries,
                            expr.terms@,
                            expr.ops@,
                            (i + 1) as nat,
                        ) == Some(next) by {
                            assert(spec_eval_terms(dd, s.entries, expr.terms@, expr.ops@, i as nat) == Some(result));
                            assert(spec_eval_term(dd, s.entries, expr.terms@[i + 1]) == Some(v));
                        }
                    }
                    result = next;
                },
                None => {
                    proof {
                        assert forall|s: SigState| extends(dd, self.state(), s) implies #[trigger] spec_eval_expr(
                            dd,
                            s.entries,
                            *expr,
                        ) == None::<u64> by {
                            assert(spec_eval_terms(dd, s.entries, expr.terms@, expr.ops@, i as nat) == Some(result));
                            assert(spec_eval_term(dd, s.entries, expr.terms@[i + 1]) == term_val);
                            lemma_eval_terms_none(
                                dd,
                                s.entries,
                                expr.terms@,
                                expr.ops@,
                                (i + 1) as nat,
                                expr.ops@.len(),
                            );
                        }
                    }
                    return None;
                },
            }
            i = i + 1;
        }
        proof {
            assert forall|s: SigState| extends(dd, self.state(), s) implies #[trigger] spec_eval_expr(
                dd,
                s.entries,
                *expr,
            ) == Some(result) by {
                assert(spec_eval_terms(dd, s.entries, expr.terms@, expr.ops@, expr.ops@.len()) == Some(result));
            }
        }
        Some(result)
    }

    fn eval_length_term(&mut self, term: &LengthTerm, local_ctx: &LocalContext) -> (r: Option<u64>)
        requires
            old(self).inv(),
        ensures
            final(self).inv(),
            final(self).step(old(self)),
            forall|s: SigState|
                extends(final(self).defs(), final(self).state(), s) ==> #[trigger] spec_eval_term(
                    final(self).defs(),
                    s.entries,
                    *term,
                ) == r,
        decreases free_count(old(self).in_progress@), term_size(*term), 3nat, 0nat,
    {
        let ghost dd = self.defs@;
        if term.atoms.len() == 0 || term.ops.len() >= term.atoms.len() {
            proof {
                self.lemma_step_refl();
            }
            return None;
        }
        proof {
            lemma_atoms_sz(term.atoms@, 0);
        }
        let first = self.eval_length_atom(&term.atoms[0], local_ctx);
        let mut result = match first {
            Some(v) => v,
            None => {
                proof {
                    assert forall|s: SigState| extends(dd, self.state(), s) implies #[trigger] spec_eval_term(
                        dd,
                        s.entries,
                        *term,
                    ) == None::<u64> by {
                        assert(spec_eval_atom(dd, s.entries, term.atoms@[0]) is None);
                        lemma_eval_atoms_none(dd, s.entries, term.atoms@, term.ops@, 0, term.ops@.len());
                    }
                }
                return None;
            },
        };
        proof {
            assert forall|s: SigState| extends(dd, self.state(), s) implies #[trigger] spec_eval_atoms(
                dd,
                s.entries,
                term.atoms@,
                term.ops@,
                0,
            ) == Some(result) by {
                assert(spec_eval_atom(dd, s.entries, term.atoms@[0]) == Some(result));
            }
        }
        let mut i: usize = 0;
        while i < term.ops.len()
            invariant
                i <= term.ops@.len(),
                term.ops@.len() < term.atoms@.len(),
                self.inv(),
                self.step(old(self)),
                dd == self.defs@,
                forall|s: SigState|
                    extends(dd, self.state(), s) ==> #[trigger] spec_eval_atoms(
                        dd,
                        s.entries,
                        term.atoms@,
                        term.ops@,
                        i as nat,
                    ) == Some(result),
            decreases term.ops.len() - i,
        {
            let ghost st_before = self.state();
            proof {
                lemma_atoms_sz(term.atoms@, i + 1);
            }
            let atom_val = self.eval_length_atom(&term.atoms[i + 1], local_ctx);
            proof {
                assert forall|s: SigState| extends(dd, self.state(), s) implies extends(
                    dd,
                    st_before,
                    s,
                ) by {
                    lemma_extends_trans(dd, st_before, self.state(), s);
                }
            }
            let v = match atom_val {
                Some(v) => v,
                None => {
                    proof {
                        assert forall|s: SigState| extends(dd, self.state(), s) implies #[trigger] spec_eval_term(
                            dd,
                            s.entries,
                            *term,
                        ) == None::<u64> by {
                            assert(spec_eval_atoms(dd, s.entries, term.atoms@, term.ops@, i as nat) == Some(result));
                            assert(spec_eval_atom(dd, s.entries, term.atoms@[i + 1]) == atom_val);
                            lemma_eval_atoms_none(
                                dd,
                                s.entries,
                                term.atoms@,
                                term.ops@,
                                (i + 1) as nat,
                                term.ops@.len(),
                            );
                        }
                    }
                    return None;
                },
            };
            match apply_length_op(term.ops[i], result, v) {
                Some(next) => {
                    proof {
                        assert forall|s: SigState| extends(dd, self.state(), s) implies #[trigger] spec_eval_atoms(
                            dd,
                            s.entries,
                            term.atoms@,
                            term.ops@,
                            (i + 1) as nat,
                        ) == Some(next) by {
                            assert(spec_eval_atoms(dd, s.entries, term.atoms@, term.ops@, i as nat) == Some(result));
                            assert(spec_eval_atom(dd, s.entries, term.atoms@[i + 1]) == Some(v));
                        }
                    }
                    result = next;
                },
                None => {
                    proof {
                        assert forall|s: SigState| extends(dd, self.state(), s) implies #[trigger] spec_eval_term(
                            dd,
                            s.entries,
                            *term,
                        ) == None::<u64> by {
                            assert(spec_eval_atoms(dd, s.entries, term.atoms@, term.ops@, i as nat) == Some(result));
                            assert(spec_eval_atom(dd, s.entries, term.atoms@[i + 1]) == atom_val);
                            lemma_eval_atoms_none(
                                dd,
                                s.entries,
                                term.atoms@,
                                term.ops@,
                                (i + 1) as nat,
                                term.ops@.len(),
                            );
                        }
                    }
                    return None;
                },
            }
            i = i + 1;
        }
        proof {
            assert forall|s: SigState| extends(dd, self.state(), s) implies #[trigger] spec_eval_term(
                dd,
                s.entries,
                *term,
            ) == Some(result) by {
                assert(spec_eval_atoms(dd, s.entries, term.atoms@, term.ops@, term.ops@.len()) == Some(result));
            }
        }
        Some(result)
    }

    fn eval_length_atom(&mut self, atom: &LengthAtom, local_ctx: &LocalContext) -> (r: Option<u64>)
        requires
            old(self).inv(),
        ensures
            final(self).inv(),
            final(self).step(old(self)),
            forall|s: SigState|
                extends(final(self).defs(), final(self).state(), s) ==> #[trigger] spec_eval_atom(
                    final(self).defs(),
                    s.entries,
                    *atom,
                ) == r,
        decreases free_count(old(self).in_progress@), atom_size(*atom), 3nat, 0nat,
    {
        let ghost dd = self.defs@;
        match atom {
            LengthAtom::Const(n) => {
                proof {
                    self.lemma_step_refl();
                }
                Some(*n)
            },
            LengthAtom::Param(_) => {
                proof {
                    self.lemma_step_refl();
                }
                None
            },
            LengthAtom::ProjectedParam { .. } => {
                proof {
                    self.lemma_step_refl();
                }
                None
            },
            LengthAtom::SizeOf(SizeTarget::Type(int_type)) => {
                proof {
                    self.lemma_step_refl();
                }
                self.prim_byte_size(*int_type)
            },
            LengthAtom::SizeOf(SizeTarget::Named(name_ref)) => {
                let entry = self.get_signature_entry(name_ref.name);
                let ghost st1 = self.state();
                match entry {
                    Some(SignatureEntry::Format { params, result }) => {
                        if params.len() != 0 {
                            proof {
                                self.lemma_step_refl();
                                assert forall|s: SigState| extends(dd, self.state(), s) implies #[trigger] spec_eval_atom(
                                    dd,
                                    s.entries,
                                    *atom,
                                ) == None::<u64> by {
                                    lemma_settled_stable(dd, st1, s, name_ref.name);
                                }
                            }
                            None
                        } else {
                            let r = self.compute_static_size(&result);
                            proof {
                                assert forall|s: SigState| extends(dd, self.state(), s) implies #[trigger] spec_eval_atom(
                                    dd,
                                    s.entries,
                                    *atom,
                                ) == r by {
                                    lemma_extends_trans(dd, st1, self.state(), s);
                                    lemma_settled_stable(dd, st1, s, name_ref.name);
                                }
                            }
                            r
                        }
                    },
                    Some(SignatureEntry::Enum { repr, .. }) => {
                        proof {
                            self.lemma_step_refl();
                            assert forall|s: SigState| extends(dd, self.state(), s) implies #[trigger] spec_eval_atom(
                                dd,
                                s.entries,
                                *atom,
                            ) == spec_prim_byte_size(repr) by {
                                lemma_settled_stable(dd, st1, s, name_ref.name);
                            }
                        }
                        self.prim_byte_size(repr)
                    },
                    Some(SignatureEntry::Const { ty }) => {
                        let r = self.compute_static_size(&ty);
                        proof {
                            assert forall|s: SigState| extends(dd, self.state(), s) implies #[trigger] spec_eval_atom(
                                dd,
                                s.entries,
                                *atom,
                            ) == r by {
                                lemma_extends_trans(dd, st1, self.state(), s);
                                lemma_settled_stable(dd, st1, s, name_ref.name);
                            }
                        }
                        r
                    },
                    None => {
                        proof {
                            self.lemma_step_refl();
                            assert forall|s: SigState| extends(dd, self.state(), s) implies #[trigger] spec_eval_atom(
                                dd,
                                s.entries,
                                *atom,
                            ) == None::<u64> by {
                                lemma_settled_stable(dd, st1, s, name_ref.name);
                            }
                        }
                        None
                    },
                }
            },
            LengthAtom::Paren(inner) => {
                let r = self.eval_length_expr(inner, local_ctx);
                proof {
                    assert forall|s: SigState| extends(dd, self.state(), s) implies #[trigger] spec_eval_atom(
                        dd,
                        s.entries,
                        *atom,
                    ) == r by {
                        assert(spec_eval_expr(dd, s.entries, **inner) == r);
                    }
                }
                r
            },
        }
    }
}

/// What a diagnostic claims of the file holds, for every kind of
/// diagnostic: a duplicate definition, enum variant or enum value is at a
/// definition or variant repeating an earlier one; an undefined type or size
/// target names nothing a reference resolves to; a size target said to take
/// parameters, or not to be static, names a format with, or without, them; an
/// undefined variant is missing from the enum it names; a value out of range
/// does not fit its type; a count mismatch has two different counts; a
/// duplicate field or parameter repeats an earlier one of a record or format
/// of the file; a pattern diagnostic is at an arm of a choice of the file; a
/// non-exhaustive choice (or one with a needless wildcard) is a choice of the
/// file without (or with) a wildcard arm; a discriminant, bind, argument or
/// enum-constraint diagnostic is at such a place of the file (an enum
/// constraint on a format or constant); a constant mismatch is at a constant;
/// an invalid range is a range of the file with no endpoint or a start above
/// its end; a length-expression diagnostic is at a variable of a length
/// expression of the file (naming the variable or field it reports).
pub open spec fn key_justified(defs: Seq<Definition>, k: (CheckDiagnosticKind, Span)) -> bool {
    match k.0 {
        CheckDiagnosticKind::DuplicateDefinition(n) => exists|i: int|
            0 <= i < defs.len() && (#[trigger] defs[i]).name == n && defs[i].name_span == k.1 && def_index(
                defs,
                n,
            ) != Some(i),
        CheckDiagnosticKind::DuplicateEnumVariant(_)
        | CheckDiagnosticKind::DuplicateEnumValue(_)
        | CheckDiagnosticKind::EnumTypeSuffixMismatch => exists|d: int|
            0 <= d < defs.len() && enum_dup_at(#[trigger] defs[d], k),
        CheckDiagnosticKind::UndefinedSymbol(n) => unresolvable(defs, n),
        CheckDiagnosticKind::SizeExprUndefined(n) => unresolvable(defs, n),
        CheckDiagnosticKind::SizeExprParameterized(n) => def_params_nonempty(defs, n) == Some(true),
        CheckDiagnosticKind::SizeExprNotStatic(n) => def_params_nonempty(defs, n) == Some(false),
        CheckDiagnosticKind::UndefinedEnumVariant { variant, enum_name } => enum_lacks(defs, enum_name, variant),
        CheckDiagnosticKind::ChoicePatternUndefinedVariant { variant, enum_name } => enum_lacks(
            defs,
            enum_name,
            variant,
        ),
        CheckDiagnosticKind::ConstValueOutOfRange { value, int_type } => !spec_value_fits(value, int_type),
        CheckDiagnosticKind::IntLiteralOutOfRange { value, int_type } => !spec_value_fits(value, int_type),
        CheckDiagnosticKind::EnumTypeSuffixOutOfRange { value, int_type } => !spec_value_fits(value, int_type),
        CheckDiagnosticKind::ConstLengthMismatch { expected, actual } => expected != actual,
        CheckDiagnosticKind::ChoicePatternLengthMismatch { expected, actual } => expected != actual,
        CheckDiagnosticKind::InvocationArgCountMismatch { expected, actual } => expected != actual,
        CheckDiagnosticKind::DuplicateField(n) => (exists|c: Combinator|
            #[trigger] in_file(defs, c) && struct_dup_field_at(c, n, k.1)) || (exists|i: int|
            0 <= i < defs.len() && param_dup_at(#[trigger] defs[i], n, k.1)),
        CheckDiagnosticKind::ChoicePatternDuplicate
        | CheckDiagnosticKind::ChoicePatternTypeMismatch
        | CheckDiagnosticKind::ChoicePatternOverlap => exists|c: Combinator| #[trigger]
            in_file(defs, c) && choice_site(c, k.1),
        CheckDiagnosticKind::ChoiceNonExhaustive { .. } => exists|c: Combinator| #[trigger]
            in_file(defs, c) && choice_anchored(c, k.1, false),
        CheckDiagnosticKind::ChoiceWildcardWithExhaustive => exists|c: Combinator| #[trigger]
            in_file(defs, c) && choice_anchored(c, k.1, true),
        CheckDiagnosticKind::ChoiceDiscriminantUndefined(n) => exists|c: Combinator| #[trigger]
            in_file(defs, c) && disc_at(c, Some(n), k.1),
        CheckDiagnosticKind::ChoiceDiscriminantTypeMismatch { .. } => exists|c: Combinator| #[trigger]
            in_file(defs, c) && disc_at(c, None, k.1),
        CheckDiagnosticKind::ChoiceDiscriminantNotDependent => false,
        CheckDiagnosticKind::BindSourceNotRaw => exists|c: Combinator| #[trigger] in_file(defs, c) && bind_at(c, k.1),
        CheckDiagnosticKind::ConstraintOnNonEnum => exists|c: Combinator| #[trigger]
            in_file(defs, c) && non_enum_constraint_at(defs, c, k.1),
        CheckDiagnosticKind::InvocationArgUndefined(n) => exists|c: Combinator| #[trigger]
            in_file(defs, c) && arg_named_at(c, n, k.1),
        CheckDiagnosticKind::InvocationArgTypeMismatch { .. } => exists|c: Combinator| #[trigger]
            in_file(defs, c) && arg_at(c, k.1),
        CheckDiagnosticKind::ConstTypeMismatch => const_site(defs, k.1),
        CheckDiagnosticKind::InvalidIntConstraint => exists|e: ConstraintElement| #[trigger]
            elem_in_file(defs, e) && invalid_range_at(e, k.1),
        CheckDiagnosticKind::LengthExprUndefined(n) => length_var_at(defs, n, k.1),
        CheckDiagnosticKind::LengthExprTypeError { .. } => length_atom_at(defs, k.1),
    }
}

/// The parenthesized expression at atom `k` of term `j` of `e`.
pub open spec fn paren_child(e: LengthExpr, step: (nat, nat)) -> Option<LengthExpr> {
    if step.0 < e.terms@.len() && step.1 < e.terms@[step.0 as int].atoms@.len() {
        match e.terms@[step.0 as int].atoms@[step.1 as int] {
            LengthAtom::Paren(inner) => Some(*inner),
            _ => None,
        }
    } else {
        None
    }
}

/// The expression reached from `root` through the parentheses of `path`.
pub open spec fn reach_expr(root: LengthExpr, path: Seq<(nat, nat)>) -> Option<LengthExpr>
    decreases path.len(),
{
    if path.len() == 0 {
        Some(root)
    } else {
        match reach_expr(root, path.drop_last()) {
            Some(e) => paren_child(e, path.last()),
            None => None,
        }
    }
}

pub open spec fn array_length(c: Combinator) -> Option<LengthExpr> {
    match c {
        Combinator::Array(a) => Some(a.length),
        _ => None,
    }
}

/// `e` is the length of an array of the file or lies inside one.
pub open spec fn expr_in_file(defs: Seq<Definition>, e: LengthExpr) -> bool {
    exists|c: Combinator, path: Seq<(nat, nat)>|
        #[trigger] in_file(defs, c) && array_length(c) is Some && #[trigger] reach_expr(array_length(c)->Some_0, path)
            == Some(e)
}

/// `t` is a term of a length expression of the file.
pub open spec fn term_in_file(defs: Seq<Definition>, t: LengthTerm) -> bool {
    exists|e: LengthExpr, j: int|
        #![trigger expr_in_file(defs, e), e.terms@[j]]
        expr_in_file(defs, e) && 0 <= j < e.terms@.len() && e.terms@[j] == t
}

/// `a` is an atom of a length expression of the file.
pub open spec fn atom_in_file(defs: Seq<Definition>, a: LengthAtom) -> bool {
    exists|t: LengthTerm, k: int|
        #![trigger term_in_file(defs, t), t.atoms@[k]]
        term_in_file(defs, t) && 0 <= k < t.atoms@.len() && t.atoms@[k] == a
}

/// `a` refers to the binding `nr` through the fields `fs`.
pub open spec fn atom_binds(a: LengthAtom, nr: NameRef, fs: Seq<Name>) -> bool {
    match a {
        LengthAtom::Param(x) => x == nr && fs.len() == 0,
        LengthAtom::ProjectedParam { base, fields } => base == nr && fields@ == fs,
        _ => false,
    }
}

/// A variable atom of the file is at `s` and names `n` as its binding or as
/// one of its fields.
pub open spec fn length_var_at(defs: Seq<Definition>, n: Name, s: Span) -> bool {
    exists|a: LengthAtom| #[trigger]
        atom_in_file(defs, a) && match a {
            LengthAtom::Param(x) => x.span == s && x.name == n,
            LengthAtom::ProjectedParam { base, fields } => base.span == s && (base.name == n || fields@.contains(n)),
            _ => false,
        }
}

/// A variable atom of the file is at `s`.
pub open spec fn length_atom_at(defs: Seq<Definition>, s: Span) -> bool {
    exists|a: LengthAtom| #[trigger]
        atom_in_file(defs, a) && match a {
            LengthAtom::Param(x) => x.span == s,
            LengthAtom::ProjectedParam { base, .. } => base.span == s,
            _ => false,
        }
}

proof fn lemma_paren_in_file(defs: Seq<Definition>, inner: LengthExpr)
    requires
        atom_in_file(defs, LengthAtom::Paren(Box::new(inner))),
    ensures
        expr_in_file(defs, inner),
{
    let (t, k) = choose|t: LengthTerm, k: int|
        #![trigger term_in_file(defs, t), t.atoms@[k]]
        term_in_file(defs, t) && 0 <= k < t.atoms@.len() && t.atoms@[k] == LengthAtom::Paren(Box::new(inner));
    let (e, j) = choose|e: LengthExpr, j: int|
        #![trigger expr_in_file(defs, e), e.terms@[j]]
        expr_in_file(defs, e) && 0 <= j < e.terms@.len() && e.terms@[j] == t;
    let (c, path) = choose|c: Combinator, path: Seq<(nat, nat)>|
        #[trigger] in_file(defs, c) && array_length(c) is Some && #[trigger] reach_expr(array_length(c)->Some_0, path)
            == Some(e);
    let p2 = path.push((j as nat, k as nat));
    assert(p2.drop_last() =~= path);
    assert(reach_expr(array_length(c)->Some_0, p2) == Some(inner));
}

/// `c` is a record whose field named `n` at `s` repeats an earlier field's
/// name.
pub open spec fn struct_dup_field_at(c: Combinator, n: Name, s: Span) -> bool {
    match c {
        Combinator::Struct(sc) => exists|j: int|
            0 <= j < sc.fields@.len() && (#[trigger] sc.fields@[j]).name == n && sc.fields@[j].span == s && exists|
                q: int,
            | 0 <= q < j && (#[trigger] sc.fields@[q]).name == n,
        _ => false,
    }
}

/// `d` is a format whose parameter named `n` at `s` repeats an earlier
/// parameter's name.
pub open spec fn param_dup_at(d: Definition, n: Name, s: Span) -> bool {
    match d.kind {
        DefinitionKind::Combinator { params, .. } => exists|j: int|
            0 <= j < params@.len() && (#[trigger] params@[j]).name == n && params@[j].span == s && exists|q: int|
                0 <= q < j && (#[trigger] params@[q]).name == n,
        _ => false,
    }
}

/// `s` is the span of an arm, of the variant or label it names, or of its
/// integer pattern.
pub open spec fn arm_site(arm: ChoiceArm, s: Span) -> bool {
    arm.span == s || match arm.pattern {
        ChoicePattern::Variant(v) => v.span == s,
        ChoicePattern::Constraint(e) => e.spec_span() == s,
        _ => false,
    }
}

/// `c` is a choice with an arm site at `s`.
pub open spec fn choice_site(c: Combinator, s: Span) -> bool {
    match c {
        Combinator::Choice(ch) => exists|j: int| 0 <= j < ch.arms@.len() && arm_site(#[trigger] ch.arms@[j], s),
        _ => false,
    }
}

pub open spec fn has_wildcard_arm(ch: ChoiceCombinator) -> bool {
    exists|j: int| 0 <= j < ch.arms@.len() && (#[trigger] ch.arms@[j]).pattern is Wildcard
}

/// `c` is a choice reported at `s`, with a wildcard arm or without.
pub open spec fn choice_anchored(c: Combinator, s: Span, wild: bool) -> bool {
    match c {
        Combinator::Choice(ch) => spec_choice_anchor(ch) == s && has_wildcard_arm(ch) == wild,
        _ => false,
    }
}

/// `c` is a choice whose discriminant is at `s`, and named `n` if given.
pub open spec fn disc_at(c: Combinator, n: Option<Name>, s: Span) -> bool {
    match c {
        Combinator::Choice(ch) => match ch.discriminant {
            Some(d) => d.span == s && (n matches Some(m) ==> d.name == m),
            None => false,
        },
        _ => false,
    }
}

/// `c` is a bind at `s`.
pub open spec fn bind_at(c: Combinator, s: Span) -> bool {
    match c {
        Combinator::Bind { span, .. } => span == s,
        _ => false,
    }
}

/// `c` is an enum constraint at `s` on a name first defined as a format or a
/// constant.
pub open spec fn non_enum_constraint_at(defs: Seq<Definition>, c: Combinator, s: Span) -> bool {
    match c {
        Combinator::ConstrainedReference { name, span, .. } => span == s && match def_index(defs, name) {
            Some(i) => defs[i].kind is Combinator || defs[i].kind is Const,
            None => false,
        },
        _ => false,
    }
}

/// `c` is an invocation with an argument at `s`.
pub open spec fn arg_at(c: Combinator, s: Span) -> bool {
    match c {
        Combinator::Reference { args, .. } => exists|k: int| 0 <= k < args@.len() && (#[trigger] args@[k]).span == s,
        _ => false,
    }
}

/// `c` is an invocation with an argument named `n` at `s`.
pub open spec fn arg_named_at(c: Combinator, n: Name, s: Span) -> bool {
    match c {
        Combinator::Reference { args, .. } => exists|k: int|
            0 <= k < args@.len() && (#[trigger] args@[k]).span == s && args@[k].name == n,
        _ => false,
    }
}

/// `s` is the span of a constant definition or of a constant field of a
/// record of the file.
pub open spec fn const_site(defs: Seq<Definition>, s: Span) -> bool {
    ||| exists|i: int| 0 <= i < defs.len() && (#[trigger] defs[i]).kind is Const && defs[i].span == s
    ||| exists|c: Combinator| #[trigger] in_file(defs, c) && const_field_at(c, s)
}

pub open spec fn const_field_at(c: Combinator, s: Span) -> bool {
    match c {
        Combinator::Struct(sc) => exists|j: int|
            0 <= j < sc.fields@.len() && (#[trigger] sc.fields@[j]).span == s && sc.fields@[j].const_value is Some,
        _ => false,
    }
}

/// `e` is an element of an integer constraint or an integer pattern of the
/// file.
pub open spec fn elem_in_file(defs: Seq<Definition>, e: ConstraintElement) -> bool {
    exists|c: Combinator| #[trigger] in_file(defs, c) && elem_of(c, e)
}

pub open spec fn elem_of(c: Combinator, e: ConstraintElement) -> bool {
    match c {
        Combinator::ConstrainedInt { constraint, .. } => constraint.elements@.contains(e),
        Combinator::Choice(ch) => exists|j: int|
            0 <= j < ch.arms@.len() && (#[trigger] ch.arms@[j]).pattern == ChoicePattern::Constraint(e),
        _ => false,
    }
}

/// `e` is a range at `s` with no integer endpoint, or whose start exceeds
/// its end.
pub open spec fn invalid_range_at(e: ConstraintElement, s: Span) -> bool {
    match e {
        ConstraintElement::Range { start, end, span } => span == s && ((opt_int(start) is None && opt_int(end) is None)
            || (opt_int(start) matches Some(a) && opt_int(end) matches Some(b) && a > b)),
        _ => false,
    }
}

/// Whether `n` names nothing a reference can resolve to: no definition, or
/// only an endianness declaration.
pub open spec fn unresolvable(defs: Seq<Definition>, n: Name) -> bool {
    match def_index(defs, n) {
        Some(i) => defs[i].kind is Endianness,
        None => true,
    }
}

/// Whether the first definition of `n` is a format that takes parameters;
/// none when it is no format.
pub open spec fn def_params_nonempty(defs: Seq<Definition>, n: Name) -> Option<bool> {
    match def_index(defs, n) {
        Some(i) => match defs[i].kind {
            DefinitionKind::Combinator { params, .. } => Some(params@.len() > 0),
            _ => None,
        },
        None => None,
    }
}

/// Whether the first definition of `en` is an enum whose table of variants
/// with values is `table`.
pub open spec fn enum_table_is(defs: Seq<Definition>, en: Name, table: Seq<(Name, u64)>) -> bool {
    match def_index(defs, en) {
        Some(i) => match defs[i].kind {
            DefinitionKind::Enum(ed) => variant_map(ed.variants@) == table,
            _ => false,
        },
        None => false,
    }
}

/// Whether the first definition of `en` is an enum that gives no value to a
/// variant named `v`.
pub open spec fn enum_lacks(defs: Seq<Definition>, en: Name, v: Name) -> bool {
    match def_index(defs, en) {
        Some(i) => match defs[i].kind {
            DefinitionKind::Enum(ed) => !(exists|k: int|
                0 <= k < variant_map(ed.variants@).len() && (#[trigger] variant_map(ed.variants@)[k]).0 == v),
            _ => false,
        },
        None => false,
    }
}

/// Whether `k` is a duplicate-variant, duplicate-value or suffix-mismatch
/// diagnostic at a variant of the enum defined by `d` that repeats the name
/// or the value of an earlier variant, or whose integer suffix differs from
/// the first suffix before it.
pub open spec fn enum_dup_at(d: Definition, k: (CheckDiagnosticKind, Span)) -> bool {
    match d.kind {
        DefinitionKind::Enum(ed) => exists|b: int|
            0 <= b < ed.variants@.len() && (#[trigger] ed.variants@[b]).span == k.1 && match k.0 {
                CheckDiagnosticKind::DuplicateEnumVariant(n) => ed.variants@[b].name == n && name_repeated(
                    ed.variants@,
                    b,
                ),
                CheckDiagnosticKind::DuplicateEnumValue(x) => ed.variants@[b].value == ConstValue::Int(x)
                    && value_repeated(ed.variants@, b, x),
                CheckDiagnosticKind::EnumTypeSuffixMismatch => match (
                    ed.variants@[b].repr_type,
                    first_suffix(ed.variants@.take(b)),
                ) {
                    (Some(r), Some(e)) => r != e,
                    _ => false,
                },
                _ => false,
            },
        _ => false,
    }
}

/// Every diagnostic of `keys` from position `from` on is justified.
pub open spec fn keys_justified_from(defs: Seq<Definition>, keys: Seq<(CheckDiagnosticKind, Span)>, from: int) -> bool {
    forall|j: int| from <= j < keys.len() ==> key_justified(defs, #[trigger] keys[j])
}

/// The kind and span of a diagnostic.
pub open spec fn diag_key(d: CheckDiagnostic) -> (CheckDiagnosticKind, Span) {
    (d.kind, d.span)
}

/// An out-of-range literal diagnostic when `v` does not fit `t`.
pub open spec fn oor_diag(v: u64, t: IntType, span: Span) -> Seq<(CheckDiagnosticKind, Span)> {
    if spec_value_fits(v, t) {
        Seq::empty()
    } else {
        seq![(CheckDiagnosticKind::IntLiteralOutOfRange { value: v, int_type: t }, span)]
    }
}

pub open spec fn opt_oor_diag(v: Option<u64>, t: IntType, span: Span) -> Seq<
    (CheckDiagnosticKind, Span),
> {
    match v {
        Some(v) => oor_diag(v, t, span),
        None => Seq::empty(),
    }
}

/// Whether both endpoints are given and the start exceeds the end.
pub open spec fn reversed_range(s: Option<u64>, e: Option<u64>) -> bool {
    match (s, e) {
        (Some(a), Some(b)) => a > b,
        _ => false,
    }
}

/// Diagnostics of one element of an integer refinement.
pub open spec fn int_elem_diags(elem: ConstraintElement, t: IntType) -> Seq<
    (CheckDiagnosticKind, Span),
> {
    match elem {
        ConstraintElement::Single { value, span } => match value {
            ConstValue::Int(v) => oor_diag(v, t, span),
            _ => Seq::empty(),
        },
        ConstraintElement::Range { start, end, span } => {
            let s = opt_int(start);
            let e = opt_int(end);
            if s is None && e is None {
                seq![(CheckDiagnosticKind::InvalidIntConstraint, span)]
            } else {
                let oor = opt_oor_diag(s, t, span) + opt_oor_diag(e, t, span);
                if reversed_range(s, e) {
                    oor.push((CheckDiagnosticKind::InvalidIntConstraint, span))
                } else {
                    oor
                }
            }
        },
    }
}

/// Diagnostics of an integer refinement, element by element.
pub open spec fn int_constraint_diags(elems: Seq<ConstraintElement>, t: IntType) -> Seq<
    (CheckDiagnosticKind, Span),
>
    decreases elems.len(),
{
    if elems.len() == 0 {
        Seq::empty()
    } else {
        int_constraint_diags(elems.drop_last(), t) + int_elem_diags(elems.last(), t)
    }
}

/// The first earlier interval overlapping `cur`.
pub open spec fn first_overlap(seen: Seq<ConstraintInterval>, cur: ConstraintInterval) -> Option<
    ConstraintInterval,
>
    decreases seen.len(),
{
    if seen.len() == 0 {
        None
    } else if seen[0].spec_overlaps(cur) {
        Some(seen[0])
    } else {
        first_overlap(seen.drop_first(), cur)
    }
}

/// Diagnostics of one integer choice pattern given the intervals of the
/// earlier patterns, and the interval it adds.
pub open spec fn pattern_elem_effect(
    elem: ConstraintElement,
    t: IntType,
    seen: Seq<ConstraintInterval>,
) -> (Seq<(CheckDiagnosticKind, Span)>, Option<ConstraintInterval>) {
    match elem {
        ConstraintElement::Single { value, span } => match value {
            ConstValue::Int(v) => if !spec_value_fits(v, t) {
                (
                    seq![(CheckDiagnosticKind::IntLiteralOutOfRange { value: v, int_type: t }, span)],
                    None,
                )
            } else {
                let cur = ConstraintInterval { start: v, end: v };
                (
                    match first_overlap(seen, cur) {
                        Some(p) => seq![
                            (
                                if p.start == v && p.end == v {
                                    CheckDiagnosticKind::ChoicePatternDuplicate
                                } else {
                                    CheckDiagnosticKind::ChoicePatternOverlap
                                },
                                span,
                            ),
                        ],
                        None => Seq::empty(),
                    },
                    Some(cur),
                )
            },
            _ => (Seq::empty(), None),
        },
        ConstraintElement::Range { start, end, span } => {
            let s = opt_int(start);
            let e = opt_int(end);
            if s is None && e is None {
                (seq![(CheckDiagnosticKind::InvalidIntConstraint, span)], None)
            } else {
                let oor = opt_oor_diag(s, t, span) + opt_oor_diag(e, t, span);
                if reversed_range(s, e) {
                    (oor.push((CheckDiagnosticKind::InvalidIntConstraint, span)), None)
                } else {
                    match spec_constraint_interval(elem, t) {
                        Some(cur) => (
                            if first_overlap(seen, cur) is Some {
                                oor.push((CheckDiagnosticKind::ChoicePatternOverlap, span))
                            } else {
                                oor
                            },
                            Some(cur),
                        ),
                        None => (oor, None),
                    }
                }
            }
        },
    }
}

/// Length in bytes of the UTF-8 encoding of an identifier's text.
pub open spec fn text_byte_len(db: Database, n: Name) -> u64 {
    (vstd::utf8::encode_utf8(db.text_of(n)).len() as usize) as u64
}

/// Diagnostics of the elements of an array constant.
pub open spec fn array_elem_diags(values: Seq<ConstValue>, elem: HostTypeModel, span: Span) -> Seq<
    (CheckDiagnosticKind, Span),
>
    decreases values.len(),
{
    if values.len() == 0 {
        Seq::empty()
    } else {
        array_elem_diags(values.drop_last(), elem, span) + match (values.last(), elem) {
            (ConstValue::Int(v), HostTypeModel::Prim(t)) => if spec_value_fits(v, t) {
                Seq::empty()
            } else {
                seq![(CheckDiagnosticKind::ConstValueOutOfRange { value: v, int_type: t }, span)]
            },
            _ => seq![(CheckDiagnosticKind::ConstTypeMismatch, span)],
        }
    }
}

/// Diagnostics of a string literal used for a byte array of length `n`.
pub open spec fn string_const_diags(
    db: Database,
    s: NameRef,
    elem: HostTypeModel,
    n: u64,
    span: Span,
) -> Seq<(CheckDiagnosticKind, Span)> {
    if elem == HostTypeModel::Prim(IntType::U8) {
        if text_byte_len(db, s.name) != n {
            seq![
                (
                    CheckDiagnosticKind::ConstLengthMismatch {
                        expected: n,
                        actual: text_byte_len(db, s.name),
                    },
                    span,
                ),
            ]
        } else {
            Seq::empty()
        }
    } else {
        seq![(CheckDiagnosticKind::ConstTypeMismatch, span)]
    }
}

/// Diagnostics of a constant against the type of its format (Const-Int,
/// Const-Array, Const-Bytes).
pub open spec fn const_value_diags(
    db: Database,
    c: ConstValue,
    ty: HostTypeModel,
    comb: Combinator,
    span: Span,
) -> Seq<(CheckDiagnosticKind, Span)> {
    match (c, ty) {
        (ConstValue::Int(v), HostTypeModel::Prim(t)) => if spec_value_fits(v, t) {
            Seq::empty()
        } else {
            seq![(CheckDiagnosticKind::ConstValueOutOfRange { value: v, int_type: t }, span)]
        },
        (ConstValue::Array(values), HostTypeModel::Array(elem, n)) => (if values@.len() != n {
            seq![
                (
                    CheckDiagnosticKind::ConstLengthMismatch {
                        expected: n,
                        actual: values@.len() as u64,
                    },
                    span,
                ),
            ]
        } else {
            Seq::empty()
        }) + array_elem_diags(values@, *elem, span),
        (ConstValue::ByteString(s), HostTypeModel::Array(elem, n)) => string_const_diags(
            db,
            s,
            *elem,
            n,
            span,
        ),
        (ConstValue::String(s), HostTypeModel::Array(elem, n)) => string_const_diags(
            db,
            s,
            *elem,
            n,
            span,
        ),
        _ => if comb is Array {
            seq![(CheckDiagnosticKind::ConstTypeMismatch, span)]
        } else {
            Seq::empty()
        },
    }
}

/// Whether variant `k` repeats the name of an earlier variant.
pub open spec fn name_repeated(vs: Seq<crate::types::EnumVariant>, k: int) -> bool {
    exists|j: int| 0 <= j < k && #[trigger] vs[j].name == vs[k].name
}

/// Whether an earlier variant has the integer value `v`.
pub open spec fn value_repeated(vs: Seq<crate::types::EnumVariant>, k: int, v: u64) -> bool {
    exists|j: int| 0 <= j < k && #[trigger] vs[j].value == ConstValue::Int(v)
}

/// Diagnostics of variant `k` in the first pass over an enum: a repeated
/// name, a repeated value, a suffix differing from the first one.
pub open spec fn variant_pass1(vs: Seq<crate::types::EnumVariant>, k: int) -> Seq<
    (CheckDiagnosticKind, Span),
> {
    let v = vs[k];
    (if name_repeated(vs, k) {
        seq![(CheckDiagnosticKind::DuplicateEnumVariant(v.name), v.span)]
    } else {
        Seq::empty()
    }) + (match v.value {
        ConstValue::Int(x) => if value_repeated(vs, k, x) {
            seq![(CheckDiagnosticKind::DuplicateEnumValue(x), v.span)]
        } else {
            Seq::empty()
        },
        _ => Seq::empty(),
    }) + (match (v.repr_type, first_suffix(vs.take(k))) {
        (Some(r), Some(ex)) => if ex != r {
            seq![(CheckDiagnosticKind::EnumTypeSuffixMismatch, v.span)]
        } else {
            Seq::empty()
        },
        _ => Seq::empty(),
    })
}

/// Diagnostics of variant `k` in the second pass: its value must fit the
/// representation of the enum and its own suffix.
pub open spec fn variant_pass2(v: crate::types::EnumVariant, repr: IntType) -> Seq<
    (CheckDiagnosticKind, Span),
> {
    match v.value {
        ConstValue::Int(x) => (if spec_value_fits(x, repr) {
            Seq::empty()
        } else {
            seq![(CheckDiagnosticKind::EnumTypeSuffixOutOfRange { value: x, int_type: repr }, v.span)]
        }) + (match v.repr_type {
            Some(r) => if spec_value_fits(x, r) {
                Seq::empty()
            } else {
                seq![(CheckDiagnosticKind::EnumTypeSuffixOutOfRange { value: x, int_type: r }, v.span)]
            },
            None => Seq::empty(),
        }),
        _ => Seq::empty(),
    }
}

pub open spec fn enum_pass1_diags(vs: Seq<crate::types::EnumVariant>, k: nat) -> Seq<
    (CheckDiagnosticKind, Span),
>
    decreases k,
{
    if k == 0 || k > vs.len() {
        Seq::empty()
    } else {
        enum_pass1_diags(vs, (k - 1) as nat) + variant_pass1(vs, k - 1)
    }
}

pub open spec fn enum_pass2_diags(vs: Seq<crate::types::EnumVariant>, repr: IntType, k: nat) -> Seq<
    (CheckDiagnosticKind, Span),
>
    decreases k,
{
    if k == 0 || k > vs.len() {
        Seq::empty()
    } else {
        enum_pass2_diags(vs, repr, (k - 1) as nat) + variant_pass2(vs[k - 1], repr)
    }
}

/// Diagnostics of an enum definition (Enum-Distinct, Enum-Suffix, Enum-Fits).
pub open spec fn enum_def_diags(e: EnumDef) -> Seq<(CheckDiagnosticKind, Span)> {
    enum_pass1_diags(e.variants@, e.variants@.len()) + enum_pass2_diags(
        e.variants@,
        spec_check_enum_repr(e),
        e.variants@.len(),
    )
}

/// Index of the earlier interval overlapping `cur`, if any.
fn find_overlap(seen: &Vec<ConstraintInterval>, cur: ConstraintInterval) -> (r: Option<
    ConstraintInterval,
>)
    ensures
        r == first_overlap(seen@, cur),
{
    let mut i: usize = 0;
    assert(seen@.skip(0) =~= seen@);
    while i < seen.len()
        invariant
            i <= seen@.len(),
            first_overlap(seen@, cur) == first_overlap(seen@.skip(i as int), cur),
        decreases seen.len() - i,
    {
        assert(seen@.skip(i as int).drop_first() =~= seen@.skip(i + 1));
        if seen[i].overlaps(cur) {
            return Some(seen[i]);
        }
        i = i + 1;
    }
    None
}

proof fn lemma_first_suffix_step(vs: Seq<crate::types::EnumVariant>, k: int)
    requires
        0 <= k < vs.len(),
    ensures
        first_suffix(vs.take(k + 1)) == match first_suffix(vs.take(k)) {
            Some(t) => Some(t),
            None => vs[k].repr_type,
        },
{
    assert(vs.take(k + 1).drop_last() =~= vs.take(k));
}

proof fn lemma_max_value_step(vs: Seq<crate::types::EnumVariant>, k: int)
    requires
        0 <= k < vs.len(),
    ensures
        max_int_value(vs.take(k + 1)) == match vs[k].value {
            ConstValue::Int(v) => if v > max_int_value(vs.take(k)) {
                v
            } else {
                max_int_value(vs.take(k))
            },
            _ => max_int_value(vs.take(k)),
        },
{
    assert(vs.take(k + 1).drop_last() =~= vs.take(k));
}

proof fn lemma_variant_map_step(vs: Seq<crate::types::EnumVariant>, k: int)
    requires
        0 <= k < vs.len(),
    ensures
        variant_map(vs.take(k + 1)) == match vs[k].value {
            ConstValue::Int(v) => names_insert(variant_map(vs.take(k)), vs[k].name, v),
            _ => variant_map(vs.take(k)),
        },
{
    assert(vs.take(k + 1).drop_last() =~= vs.take(k));
}

impl<'a> CheckContext<'a> {
    /// Diagnoses literals of an integer refinement that do not fit the carrier
    /// and ranges that are empty or have no endpoint.
    fn check_int_constraint(&mut self, constraint: &IntConstraint, int_type: IntType)
        requires
            old(self).inv(),
            in_file(old(self).defs(), Combinator::ConstrainedInt { int_type, constraint: *constraint }),
        ensures
            final(self).inv(),
            final(self).diag_step(old(self)),
            final(self).keys() == old(self).keys() + int_constraint_diags(
                constraint.elements@,
                int_type,
            ),
    {
        let ghost es = constraint.elements@;
        proof {
            self.lemma_diag_step_refl();
            assert(es.take(0) =~= Seq::<ConstraintElement>::empty());
            assert(self.keys() =~= old(self).keys() + int_constraint_diags(es.take(0), int_type));
        }
        let mut i: usize = 0;
        while i < constraint.elements.len()
            invariant
                i <= es.len(),
                es == constraint.elements@,
                self.inv(),
                self.diag_step(old(self)),
                in_file(self.defs(), Combinator::ConstrainedInt { int_type, constraint: *constraint }),
                self.keys() == old(self).keys() + int_constraint_diags(es.take(i as int), int_type),
            decreases es.len() - i,
        {
            let ghost k0 = self.keys();
            let ghost before = *self;
            proof {
                assert(es.take(i + 1).drop_last() =~= es.take(i as int));
            }
            match &constraint.elements[i] {
                ConstraintElement::Single { value: ConstValue::Int(v), span } => {
                    if !self.value_fits_type(*v, int_type) {
                        let n = u64_text(*v);
                        let msg = text4(
                            "constraint value ",
                            n.as_str(),
                            " out of range for ",
                            int_type_debug_name(int_type),
                        );
                        self.emit(
                            CheckDiagnosticKind::IntLiteralOutOfRange { value: *v, int_type },
                            msg,
                            *span,
                        );
                    }
                },
                ConstraintElement::Single { .. } => {},
                ConstraintElement::Range { start, end, span } => {
                    let start_val = opt_int_exec(start);
                    let end_val = opt_int_exec(end);
                    proof {
                        let c = Combinator::ConstrainedInt { int_type, constraint: *constraint };
                        assert(es[i as int] == constraint.elements[i as int]);
                        assert(elem_of(c, es[i as int]));
                        assert(elem_in_file(self.defs(), es[i as int]));
                    }
                    if start_val.is_none() && end_val.is_none() {
                        self.emit(
                            CheckDiagnosticKind::InvalidIntConstraint,
                            owned("invalid integer constraint: range must have at least one endpoint"),
                            *span,
                        );
                    } else {
                        let ghost k1 = self.keys();
                        let ghost b1 = *self;
                        if let Some(s) = start_val {
                            if !self.value_fits_type(s, int_type) {
                                let n = u64_text(s);
                                let msg = text4(
                                    "constraint range start ",
                                    n.as_str(),
                                    " out of range for ",
                                    int_type_debug_name(int_type),
                                );
                                self.emit(
                                    CheckDiagnosticKind::IntLiteralOutOfRange { value: s, int_type },
                                    msg,
                                    *span,
                                );
                            }
                        }
                        let ghost k2 = self.keys();
                        proof {
                            assert(k2 =~= k1 + opt_oor_diag(start_val, int_type, *span));
                            self.lemma_diag_step_refl();
                        }
                        let ghost b2 = *self;
                        if let Some(e) = end_val {
                            if !self.value_fits_type(e, int_type) {
                                let n = u64_text(e);
                                let msg = text4(
                                    "constraint range end ",
                                    n.as_str(),
                                    " out of range for ",
                                    int_type_debug_name(int_type),
                                );
                                self.emit(
                                    CheckDiagnosticKind::IntLiteralOutOfRange { value: e, int_type },
                                    msg,
                                    *span,
                                );
                            }
                        }
                        let ghost k3 = self.keys();
                        proof {
                            assert(k3 =~= k2 + opt_oor_diag(end_val, int_type, *span));
                            self.lemma_diag_step_refl();
                            b2.lemma_diag_step_refl();
                        }
                        let ghost b3 = *self;
                        let reversed = match (start_val, end_val) {
                            (Some(s), Some(e)) => s > e,
                            _ => false,
                        };
                        if reversed {
                            let msg = owned("invalid integer constraint: range start exceeds end");
                            self.emit(CheckDiagnosticKind::InvalidIntConstraint, msg, *span);
                        }
                        proof {
                            self.lemma_diag_step_refl();
                            assert(self.keys() =~= k1 + int_elem_diags(constraint.elements@[i as int], int_type));
                        }
                    }
                },
            }
            proof {
                assert(self.keys() =~= k0 + int_elem_diags(es[i as int], int_type));
                assert(self.keys() =~= old(self).keys() + int_constraint_diags(es.take(i + 1), int_type));
            }
            i = i + 1;
        }
        proof {
            assert(es.take(es.len() as int) =~= es);
        }
    }
}

proof fn lemma_first_name_index(m: Seq<(Name, u64)>, n: Name, j: int)
    requires
        0 <= j <= m.len(),
        forall|k: int| 0 <= k < j ==> (#[trigger] m[k]).0 != n,
        j < m.len() ==> m[j].0 == n,
    ensures
        j < m.len() ==> first_name_index(m, n) == Some(j),
        j == m.len() ==> first_name_index(m, n) is None,
    decreases m.len(),
{
    if m.len() > 0 && j > 0 {
        let t = m.drop_first();
        assert forall|k: int| 0 <= k < j - 1 implies (#[trigger] t[k]).0 != n by {
            assert(t[k] == m[k + 1]);
        }
        lemma_first_name_index(t, n, j - 1);
    }
}

/// Map insertion on a variant map (see `names_insert`).
fn insert_variant(m: &mut Vec<(Name, u64)>, n: Name, v: u64)
    ensures
        final(m)@ == names_insert(old(m)@, n, v),
{
    let mut j: usize = 0;
    while j < m.len()
        invariant
            j <= m@.len(),
            m@ == old(m)@,
            forall|k: int| 0 <= k < j ==> (#[trigger] m@[k]).0 != n,
        decreases m@.len() - j,
    {
        if m[j].0 == n {
            proof {
                lemma_first_name_index(m@, n, j as int);
            }
            m.set(j, (n, v));
            return ;
        }
        j = j + 1;
    }
    proof {
        lemma_first_name_index(m@, n, j as int);
    }
    m.push((n, v));
}

/// Smallest unsigned carrier holding `m`.
fn smallest_repr_exec(m: u64) -> (r: IntType)
    ensures
        r == smallest_repr(m),
{
    if m <= 0xff {
        IntType::U8
    } else if m <= 0xffff {
        IntType::U16
    } else if m <= 0xffff_ffff {
        IntType::U32
    } else {
        IntType::U64
    }
}

/// The variant map of an enum (see `variant_map`).
fn build_variant_map(vs: &Vec<crate::types::EnumVariant>) -> (r: Vec<(Name, u64)>)
    ensures
        r@ == variant_map(vs@),
{
    let ghost vsq = vs@;
    proof {
        assert(vsq.take(0) =~= Seq::<crate::types::EnumVariant>::empty());
    }
    let mut variants: Vec<(Name, u64)> = Vec::new();
    let mut i: usize = 0;
    while i < vs.len()
        invariant
            i <= vsq.len(),
            vsq == vs@,
            variants@ == variant_map(vsq.take(i as int)),
        decreases vsq.len() - i,
    {
        proof {
            lemma_variant_map_step(vsq, i as int);
        }
        match &vs[i].value {
            ConstValue::Int(x) => {
                insert_variant(&mut variants, vs[i].name, *x);
            },
            _ => {},
        }
        i = i + 1;
    }
    proof {
        assert(vsq.take(vsq.len() as int) =~= vsq);
    }
    variants
}

impl<'a> CheckContext<'a> {
    /// First pass over the variants of an enum: repeated names and values and
    /// suffix mismatches; returns the first suffix and the largest value.
    fn enum_variant_pass(&mut self, enum_def: &EnumDef) -> (r: (Option<IntType>, u64))
        requires
            old(self).inv(),
            exists|d: int|
                0 <= d < old(self).defs().len() && (#[trigger] old(self).defs()[d]).kind == DefinitionKind::Enum(
                    *enum_def,
                ),
        ensures
            final(self).inv(),
            final(self).diag_step(old(self)),
            final(self).keys() == old(self).keys() + enum_pass1_diags(
                enum_def.variants@,
                enum_def.variants@.len(),
            ),
            r.0 == first_suffix(enum_def.variants@),
            r.1 == max_int_value(enum_def.variants@),
    {
        let vs = &enum_def.variants;
        let ghost vsq = vs@;
        let ghost dw = choose|d: int|
            0 <= d < old(self).defs().len() && (#[trigger] old(self).defs()[d]).kind == DefinitionKind::Enum(*enum_def);
        proof {
            self.lemma_diag_step_refl();
            assert(self.keys() =~= old(self).keys() + enum_pass1_diags(vsq, 0));
            assert(vsq.take(0) =~= Seq::<crate::types::EnumVariant>::empty());
        }
        broadcast use vstd::std_specs::hash::group_hash_axioms;

        let mut type_suffix: Option<IntType> = None;
        let mut max_val: u64 = 0;
        let mut seen_names: HashSet<usize> = HashSet::new();
        let mut seen_values: HashSet<u64> = HashSet::new();
        let mut i: usize = 0;
        while i < vs.len()
            invariant
                i <= vsq.len(),
                vsq == vs@,
                self.inv(),
                self.diag_step(old(self)),
                0 <= dw < self.defs().len(),
                self.defs()[dw].kind == DefinitionKind::Enum(*enum_def),
                vsq == enum_def.variants@,
                self.keys() == old(self).keys() + enum_pass1_diags(vsq, i as nat),
                type_suffix == first_suffix(vsq.take(i as int)),
                max_val == max_int_value(vsq.take(i as int)),
                forall|n: Name| #[trigger] seen_names@.contains(n.id) <==> exists|j: int| 0 <= j < i && vsq[j].name == n,
                forall|x: u64|
                    #[trigger] seen_values@.contains(x) <==> exists|j: int|
                        0 <= j < i && vsq[j].value == ConstValue::Int(x),
            decreases vsq.len() - i,
        {
            let ghost k0 = self.keys();
            let v = &vs[i];
            proof {
                lemma_first_suffix_step(vsq, i as int);
                lemma_max_value_step(vsq, i as int);
            }
            let name_dup = seen_names.contains(&v.name.id);
            let value_dup = match &v.value {
                ConstValue::Int(x) => seen_values.contains(x),
                _ => false,
            };
            proof {
                assert(name_dup == name_repeated(vsq, i as int));
                if let ConstValue::Int(x) = v.value {
                    assert(value_dup == value_repeated(vsq, i as int, x));
                }
            }
            let ghost names0 = seen_names@;
            let ghost values0 = seen_values@;
            seen_names.insert(v.name.id);
            if let ConstValue::Int(x) = &v.value {
                seen_values.insert(*x);
            }
            proof {
                assert forall|n: Name| #[trigger] seen_names@.contains(n.id) <==> exists|j: int|
                    0 <= j < i + 1 && vsq[j].name == n by {
                    if seen_names@.contains(n.id) && !names0.contains(n.id) {
                        assert(n.id == v.name.id);
                        assert(n == v.name);
                        assert(vsq[i as int].name == n);
                    }
                    if exists|j: int| 0 <= j < i + 1 && vsq[j].name == n {
                        let j = choose|j: int| 0 <= j < i + 1 && vsq[j].name == n;
                        if j < i {
                            assert(names0.contains(n.id));
                        }
                    }
                }
                assert forall|x: u64| #[trigger] seen_values@.contains(x) <==> exists|j: int|
                    0 <= j < i + 1 && vsq[j].value == ConstValue::Int(x) by {
                    if seen_values@.contains(x) && !values0.contains(x) {
                        assert(vsq[i as int].value == ConstValue::Int(x));
                    }
                    if exists|j: int| 0 <= j < i + 1 && vsq[j].value == ConstValue::Int(x) {
                        let j = choose|j: int| 0 <= j < i + 1 && vsq[j].value == ConstValue::Int(x);
                        if j < i {
                            assert(values0.contains(x));
                        }
                    }
                }
            }
            let suffix_clash = match (v.repr_type, type_suffix) {
                (Some(r), Some(existing)) => existing != r,
                _ => false,
            };
            proof {
                assert(variant_pass1(vsq, i as int) =~= (if name_dup {
                    seq![(CheckDiagnosticKind::DuplicateEnumVariant(v.name), v.span)]
                } else {
                    Seq::empty()
                }) + (if value_dup {
                    seq![(CheckDiagnosticKind::DuplicateEnumValue(v.value->Int_0), v.span)]
                } else {
                    Seq::empty()
                }) + (if suffix_clash {
                    seq![(CheckDiagnosticKind::EnumTypeSuffixMismatch, v.span)]
                } else {
                    Seq::empty()
                }));
            }
            let ghost b0 = *self;
            if name_dup {
                let msg = text3("duplicate enum variant `", v.name.as_str(self.db), "`");
                proof {
                    assert(vsq[i as int] == *v);
                    assert(name_repeated(vsq, i as int));
                    assert(enum_def.variants@[i as int].span == v.span);
                    assert(enum_dup_at(self.defs()[dw], (CheckDiagnosticKind::DuplicateEnumVariant(v.name), v.span)));
                }
                self.emit(CheckDiagnosticKind::DuplicateEnumVariant(v.name), msg, v.span);
            }
            proof {
                self.lemma_diag_step_refl();
                b0.lemma_diag_step_refl();
            }
            let ghost b1 = *self;
            let ghost k1 = self.keys();
            match &v.value {
                ConstValue::Int(x) => {
                    if value_dup {
                        let n = u64_text(*x);
                        let msg = text2("duplicate enum value ", n.as_str());
                        proof {
                            assert(vsq[i as int] == *v);
                            assert(value_repeated(vsq, i as int, *x));
                            assert(enum_def.variants@[i as int].span == v.span);
                            assert(enum_dup_at(self.defs()[dw], (CheckDiagnosticKind::DuplicateEnumValue(*x), v.span)));
                        }
                        self.emit(CheckDiagnosticKind::DuplicateEnumValue(*x), msg, v.span);
                    }
                    if *x > max_val {
                        max_val = *x;
                    }
                },
                _ => {},
            }
            proof {
                self.lemma_diag_step_refl();
                b1.lemma_diag_step_refl();
            }
            let ghost b2 = *self;
            let ghost k2 = self.keys();
            if suffix_clash {
                let msg = text3(
                    "enum variant `",
                    v.name.as_str(self.db),
                    "` uses a different integer type than previous variants",
                );
                proof {
                    assert(vsq[i as int] == *v);
                    assert(enum_def.variants@[i as int].span == v.span);
                    assert(enum_dup_at(self.defs()[dw], (CheckDiagnosticKind::EnumTypeSuffixMismatch, v.span)));
                    lemma_framed(
                        "enum variant `"@,
                        self.db.text_of(v.name),
                        "` uses a different integer type than previous variants"@,
                    );
                }
                self.emit(CheckDiagnosticKind::EnumTypeSuffixMismatch, msg, v.span);
            }
            if type_suffix.is_none() {
                type_suffix = v.repr_type;
            }
            proof {
                self.lemma_diag_step_refl();
                b2.lemma_diag_step_refl();
                self.lemma_diag_step_trans(&b1, &b0);
                assert(self.keys() =~= k0 + variant_pass1(vsq, i as int));
                assert(self.keys() =~= old(self).keys() + enum_pass1_diags(vsq, (i + 1) as nat));
            }
            i = i + 1;
        }
        proof {
            assert(vsq.take(vsq.len() as int) =~= vsq);
        }
        (type_suffix, max_val)
    }

    /// Second pass over the variants of an enum: every value must fit the
    /// representation and the variant's own suffix.
    fn enum_range_pass(&mut self, enum_def: &EnumDef, repr: IntType)
        requires
            old(self).inv(),
        ensures
            final(self).inv(),
            final(self).diag_step(old(self)),
            final(self).keys() == old(self).keys() + enum_pass2_diags(
                enum_def.variants@,
                repr,
                enum_def.variants@.len(),
            ),
    {
        let vs = &enum_def.variants;
        let ghost vsq = vs@;
        proof {
            self.lemma_diag_step_refl();
            assert(self.keys() =~= old(self).keys() + enum_pass2_diags(vsq, repr, 0));
        }
        let mut i: usize = 0;
        while i < vs.len()
            invariant
                i <= vsq.len(),
                vsq == vs@,
                self.inv(),
                self.diag_step(old(self)),
                self.keys() == old(self).keys() + enum_pass2_diags(vsq, repr, i as nat),
            decreases vsq.len() - i,
        {
            let ghost k0 = self.keys();
            let ghost b0 = *self;
            let v = &vs[i];
            match &v.value {
                ConstValue::Int(x) => {
                    if !self.value_fits_type(*x, repr) {
                        let n = u64_text(*x);
                        let msg = text4("enum value ", n.as_str(), " out of range for ", int_type_debug_name(repr));
                        self.emit(
                            CheckDiagnosticKind::EnumTypeSuffixOutOfRange { value: *x, int_type: repr },
                            msg,
                            v.span,
                        );
                    }
                    proof {
                        self.lemma_diag_step_refl();
                        b0.lemma_diag_step_refl();
                    }
                    let ghost b1 = *self;
                    if let Some(variant_repr) = v.repr_type {
                        if !self.value_fits_type(*x, variant_repr) {
                            let n = u64_text(*x);
                            let msg = text4(
                                "enum value ",
                                n.as_str(),
                                " out of range for ",
                                int_type_debug_name(variant_repr),
                            );
                            self.emit(
                                CheckDiagnosticKind::EnumTypeSuffixOutOfRange { value: *x, int_type: variant_repr },
                                msg,
                                v.span,
                            );
                        }
                    }
                    proof {
                        self.lemma_diag_step_refl();
                        b1.lemma_diag_step_refl();
                        self.lemma_diag_step_trans(&b1, &b0);
                    }
                },
                _ => {
                    proof {
                        self.lemma_diag_step_refl();
                    }
                },
            }
            proof {
                assert(self.keys() =~= k0 + variant_pass2(vsq[i as int], repr));
                assert(self.keys() =~= old(self).keys() + enum_pass2_diags(vsq, repr, (i + 1) as nat));
            }
            i = i + 1;
        }
    }

    /// Checks an enum definition and returns its signature entry.
    fn check_enum_def(&mut self, name: Name, enum_def: &EnumDef, span: Span, anchor: Ghost<&Definition>) -> (r: SignatureEntry)
        requires
            old(self).inv(),
            anchor@.kind == DefinitionKind::Enum(*enum_def),
            old(self).defs().contains(*anchor@),
        ensures
            final(self).inv(),
            final(self).diag_step(old(self)),
            final(self).keys() == old(self).keys() + enum_def_diags(*enum_def),
            entry_model(r) == (SigEntryModel::Enum {
                repr: spec_check_enum_repr(*enum_def),
                is_open: !enum_def.is_exhaustive,
                variants: variant_map(enum_def.variants@),
            }),
            forall|s: SigState| #[trigger] spec_def_entry(final(self).defs(), s.entries, *anchor@) == Some(entry_model(r)),
    {
        let (type_suffix, max_val) = self.enum_variant_pass(enum_def);
        let ghost mid = *self;
        let inferred_repr = match enum_def.repr_type {
            Some(t) => t,
            None => smallest_repr_exec(max_val),
        };
        let repr = match type_suffix {
            Some(t) => t,
            None => inferred_repr,
        };
        self.enum_range_pass(enum_def, repr);
        proof {
            self.lemma_diag_step_trans(&mid, &old(self));
            assert(self.keys() =~= old(self).keys() + enum_def_diags(*enum_def));
        }
        let variants = build_variant_map(&enum_def.variants);
        SignatureEntry::Enum { repr, is_open: !enum_def.is_exhaustive, variants }
    }

    /// Checks a format definition and returns its signature entry.
    fn check_combinator_def(
        &mut self,
        name: Name,
        params: &Vec<Param>,
        body: &Combinator,
        span: Span,
        anchor: Ghost<&Definition>,
    ) -> (r: SignatureEntry)
        requires
            old(self).inv(),
            anchor@.kind == (DefinitionKind::Combinator { params: *params, body: *body }),
            old(self).defs().contains(*anchor@),
        ensures
            final(self).inv(),
            final(self).step(old(self)),
            forall|s: SigState|
                extends(final(self).defs(), final(self).state(), s) ==> #[trigger] spec_def_entry(
                    final(self).defs(),
                    s.entries,
                    *anchor@,
                ) == Some(entry_model(r)),
            all_reported(
                final(self).keys(),
                params_keys(final(self).defs(), params@) + required_keys(final(self).defs(), param_names(params@), *body),
            ),
        decreases free_count(old(self).in_progress@), 1 + params_sz(params@) + comb_size(*body), 0nat, 0nat,
    {
        let ghost dd = self.defs@;
        let ghost ps = params@;
        let mut local_ctx = LocalContext::empty();
        broadcast use vstd::std_specs::hash::group_hash_axioms;

        let mut param_types: Vec<(Name, HostType)> = Vec::new();
        let mut seen: HashSet<usize> = HashSet::new();
        proof {
            self.lemma_step_refl();
            assert(params_model(param_types@) =~= Seq::<(Name, HostTypeModel)>::empty());
            assert(ps.take(0) =~= Seq::<Param>::empty());
            assert(ctx_names(local_ctx.view()) =~= param_names(ps.take(0)));
        }
        let mut i: usize = 0;
        while i < params.len()
            invariant
                i <= ps.len(),
                ps == params@,
                anchor@.kind == (DefinitionKind::Combinator { params: *params, body: *body }),
                dd.contains(*anchor@),
                self.inv(),
                self.step(old(self)),
                dd == self.defs@,
                all_reported(self.keys(), params_keys(dd, ps.take(i as int))),
                ctx_names(local_ctx.view()) == param_names(ps.take(i as int)),
                forall|n: Name| #[trigger] seen@.contains(n.id) <==> exists|j: int| 0 <= j < i && ps[j].name == n,
                local_ctx.view() == params_model(param_types@),
                forall|s: SigState|
                    extends(dd, self.state(), s) ==> #[trigger] spec_param_types(
                        dd,
                        s.entries,
                        ps,
                        i as nat,
                    ) == params_model(param_types@),
            decreases ps.len() - i,
        {
            let ghost b0 = *self;
            let ghost st0 = self.state();
            let ghost pm0 = params_model(param_types@);
            let param = &params[i];
            let ghost seen0 = seen@;
            let ghost earlier = ps.take(i as int);
            proof {
                assert((exists|j: int| 0 <= j < earlier.len() && (#[trigger] earlier[j]).name == param.name) <==> seen0.contains(param.name.id)) by {
                    if seen0.contains(param.name.id) {
                        let j = choose|j: int| 0 <= j < i && ps[j].name == param.name;
                        assert(earlier[j] == ps[j]);
                    }
                    if exists|j: int| 0 <= j < earlier.len() && (#[trigger] earlier[j]).name == param.name {
                        let j = choose|j: int| 0 <= j < earlier.len() && (#[trigger] earlier[j]).name == param.name;
                        assert(earlier[j] == ps[j]);
                    }
                }
            }
            if seen.contains(&param.name.id) {
                let msg = text3("duplicate parameter `@", param.name.as_str(self.db), "`");
                self.emit(CheckDiagnosticKind::DuplicateField(param.name), msg, param.span);
                proof {
                    assert(self.keys()[self.keys().len() - 1] == (CheckDiagnosticKind::DuplicateField(param.name), param.span));
                }
            } else {
                seen.insert(param.name.id);
            }
            proof {
                self.lemma_diag_step_refl();
                b0.lemma_diag_step_refl();
                self.lemma_diag_step(&b0);
                lemma_params_sz(ps, i as int);
                assert(all_reported(self.keys(), param_dup_keys(ps[i as int], earlier)));
                assert forall|n: Name| #[trigger] seen@.contains(n.id) <==> exists|j: int| 0 <= j < i + 1 && ps[j].name == n by {
                    if seen@.contains(n.id) && !seen0.contains(n.id) {
                        assert(n.id == param.name.id);
                        assert(n == param.name);
                    }
                    if exists|j: int| 0 <= j < i + 1 && ps[j].name == n {
                        let j = choose|j: int| 0 <= j < i + 1 && ps[j].name == n;
                        if j < i {
                            assert(seen0.contains(n.id));
                        } else {
                            assert(n == param.name);
                        }
                    }
                }
            }
            let ghost b1 = *self;
            proof {
                let di = choose|di: int| 0 <= di < dd.len() && dd[di] == *anchor@;
                assert(def_root(dd[di], i + 1) == Some(ps[i as int].ty));
                lemma_root_in_file(dd, di, i + 1);
            }
            let param_ty = self.infer_combinator_type(&param.ty, &local_ctx);
            let ghost tm = host_model(param_ty);
            proof {
                self.lemma_step_trans(&b1, &b0);
                self.lemma_step_trans(&b0, &old(self));
                lemma_ext_chain(dd, st0, self.state());
                self.lemma_keys_kept(&b0);
                self.lemma_keys_kept(&b1);
                lemma_reported_kept(b0.keys(), self.keys(), params_keys(dd, earlier));
                lemma_reported_kept(b1.keys(), self.keys(), param_dup_keys(ps[i as int], earlier));
                lemma_reported_concat(self.keys(), params_keys(dd, earlier), param_dup_keys(ps[i as int], earlier));
                lemma_reported_concat(
                    self.keys(),
                    params_keys(dd, earlier) + param_dup_keys(ps[i as int], earlier),
                    required_keys(dd, param_names(earlier), ps[i as int].ty),
                );
                assert(ps.take(i + 1).drop_last() =~= earlier);
                assert(ps.take(i + 1).last() == ps[i as int]);
            }
            let ghost v0 = local_ctx.view();
            local_ctx.extend(param.name, clone_host_type(&param_ty));
            param_types.push((param.name, param_ty));
            proof {
                lemma_ctx_names_push(v0, (param.name, tm));
                assert(param_names(ps.take(i + 1)) =~= param_names(earlier).push(param.name));
                assert(params_model(param_types@) =~= pm0.push((param.name, tm)));
                let i1: nat = (i + 1) as nat;
                assert forall|s: SigState| extends(dd, self.state(), s) implies #[trigger] spec_param_types(
                    dd,
                    s.entries,
                    ps,
                    i1,
                ) == params_model(param_types@) by {
                    assert(spec_param_types(dd, s.entries, ps, i as nat) == pm0);
                    assert(spec_infer(dd, s.entries, pm0, ps[i as int].ty) == tm);
                }
            }
            i = i + 1;
        }
        proof {
        }
        let ghost b2 = *self;
        let ghost st2 = self.state();
        proof {
            let di = choose|di: int| 0 <= di < dd.len() && dd[di] == *anchor@;
            lemma_root_in_file(dd, di, 0);
        }
        let result = self.infer_combinator_type(body, &local_ctx);
        proof {
            assert(ps.take(ps.len() as int) =~= ps);
            self.lemma_keys_kept(&b2);
            lemma_reported_kept(b2.keys(), self.keys(), params_keys(dd, ps));
            lemma_reported_concat(self.keys(), params_keys(dd, ps), required_keys(dd, param_names(ps), *body));
            self.lemma_step_trans(&b2, &old(self));
            lemma_ext_chain(dd, st2, self.state());
        }
        let r = SignatureEntry::Format { params: param_types, result };
        proof {
            assert forall|s: SigState| extends(dd, self.state(), s) implies #[trigger] spec_def_entry(
                dd,
                s.entries,
                *anchor@,
            ) == Some(entry_model(r)) by {
                assert(spec_param_types(dd, s.entries, ps, ps.len()) == params_model(param_types@));
                assert(spec_infer(dd, s.entries, params_model(param_types@), *body) == host_model(result));
            }
        }
        r
    }

    /// Checks a constant definition and returns its signature entry.
    fn check_const_def(
        &mut self,
        name: Name,
        ty_comb: &Combinator,
        value: &ConstValue,
        span: Span,
        anchor: Ghost<&Definition>,
    ) -> (r: SignatureEntry)
        requires
            old(self).inv(),
            anchor@.kind == (DefinitionKind::Const { ty: *ty_comb, value: *value }),
            old(self).defs().contains(*anchor@),
            anchor@.span == span,
        ensures
            final(self).inv(),
            final(self).step(old(self)),
            all_reported(final(self).keys(), const_def_keys(*final(self).db, *anchor@, entry_model(r))),
            forall|s: SigState|
                extends(final(self).defs(), final(self).state(), s) ==> #[trigger] spec_def_entry(
                    final(self).defs(),
                    s.entries,
                    *anchor@,
                ) == Some(entry_model(r)),
            all_reported(final(self).keys(), required_keys(final(self).defs(), Seq::empty(), *ty_comb)),
        decreases free_count(old(self).in_progress@), 1 + comb_size(*ty_comb), 0nat, 0nat,
    {
        let ghost dd = self.defs@;
        let local_ctx = LocalContext::empty();
        proof {
            assert(ctx_names(local_ctx.view()) =~= Seq::<Name>::empty());
        }
        proof {
            let di = choose|di: int| 0 <= di < dd.len() && dd[di] == *anchor@;
            lemma_root_in_file(dd, di, 0);
        }
        let ty = self.infer_combinator_type(ty_comb, &local_ctx);
        let ghost b1 = *self;
        self.check_const_value(value, &ty, ty_comb, span);
        proof {
            self.lemma_diag_step(&b1);
            self.lemma_keys_kept(&b1);
            lemma_reported_kept(b1.keys(), self.keys(), required_keys(dd, Seq::empty(), *ty_comb));
            self.lemma_step_trans(&b1, &old(self));
        }
        let r = SignatureEntry::Const { ty };
        proof {
            lemma_reported_suffix(b1.keys(), const_value_diags(*self.db, *value, ty@, *ty_comb, span));
            assert(const_def_keys(*self.db, *anchor@, entry_model(r)) == const_value_diags(
                *self.db,
                *value,
                ty@,
                *ty_comb,
                span,
            ));
            assert forall|s: SigState| extends(dd, self.state(), s) implies #[trigger] spec_def_entry(
                dd,
                s.entries,
                *anchor@,
            ) == Some(entry_model(r)) by {
                assert(spec_infer(dd, s.entries, Seq::empty(), *ty_comb) == host_model(r->Const_ty));
            }
        }
        r
    }
}

/// Size of a combinator: its number of nodes, length expressions included.
pub open spec fn comb_size(c: Combinator) -> nat
    decreases c, 0nat,
{
    match c {
        Combinator::Struct(s) => 1 + fields_sz(s.fields@),
        Combinator::Choice(ch) => 1 + arms_sz(ch.arms@),
        Combinator::Array(a) => 2 + comb_size(*a.element) + expr_size(a.length),
        Combinator::Vec(v) => 1 + comb_size(*v.element),
        Combinator::Option(o) => 1 + comb_size(*o.element),
        Combinator::Wrap(w) => 1 + wrap_sz(w.args@),
        Combinator::Bind { inner, target, .. } => 1 + comb_size(*inner) + comb_size(*target),
        _ => 1,
    }
}

pub open spec fn fields_sz(fs: Seq<Field>) -> nat
    decreases fs, 0nat,
{
    if fs.len() == 0 {
        0
    } else {
        fields_sz(fs.drop_last()) + comb_size(fs.last().ty) + 1
    }
}

pub open spec fn arms_sz(arms: Seq<ChoiceArm>) -> nat
    decreases arms, 0nat,
{
    if arms.len() == 0 {
        0
    } else {
        arms_sz(arms.drop_last()) + comb_size(arms.last().body) + 1
    }
}

pub open spec fn wrap_sz(args: Seq<WrapArg>) -> nat
    decreases args, 0nat,
{
    if args.len() == 0 {
        0
    } else {
        wrap_sz(args.drop_last()) + match args.last() {
            WrapArg::Combinator(c) => comb_size(c) + 1,
            _ => 1,
        }
    }
}

pub open spec fn params_sz(ps: Seq<Param>) -> nat
    decreases ps.len(),
{
    if ps.len() == 0 {
        0
    } else {
        params_sz(ps.drop_last()) + comb_size(ps.last().ty) + 1
    }
}

/// Size of a length expression.
pub open spec fn expr_size(e: LengthExpr) -> nat
    decreases e, 0nat,
{
    1 + terms_sz(e.terms@)
}

pub open spec fn terms_sz(ts: Seq<LengthTerm>) -> nat
    decreases ts, 0nat,
{
    if ts.len() == 0 {
        0
    } else {
        terms_sz(ts.drop_last()) + term_size(ts.last())
    }
}

pub open spec fn term_size(t: LengthTerm) -> nat
    decreases t, 0nat,
{
    1 + atoms_sz(t.atoms@)
}

pub open spec fn atoms_sz(ats: Seq<LengthAtom>) -> nat
    decreases ats, 0nat,
{
    if ats.len() == 0 {
        0
    } else {
        atoms_sz(ats.drop_last()) + atom_size(ats.last())
    }
}

pub open spec fn atom_size(a: LengthAtom) -> nat
    decreases a, 0nat,
{
    match a {
        LengthAtom::Paren(inner) => 1 + expr_size(*inner),
        _ => 1,
    }
}

/// A part of a sequence is smaller than the whole.
pub proof fn lemma_fields_sz(fs: Seq<Field>, i: int)
    requires
        0 <= i < fs.len(),
    ensures
        comb_size(fs[i].ty) < fields_sz(fs),
    decreases fs.len(),
{
    if i < fs.len() - 1 {
        lemma_fields_sz(fs.drop_last(), i);
    }
}

/// A part of a sequence is smaller than the whole.
pub proof fn lemma_arms_sz(arms: Seq<ChoiceArm>, i: int)
    requires
        0 <= i < arms.len(),
    ensures
        comb_size(arms[i].body) < arms_sz(arms),
    decreases arms.len(),
{
    if i < arms.len() - 1 {
        lemma_arms_sz(arms.drop_last(), i);
    }
}

/// A part of a sequence is smaller than the whole.
pub proof fn lemma_wrap_sz(args: Seq<WrapArg>, i: int)
    requires
        0 <= i < args.len(),
    ensures
        args[i] matches WrapArg::Combinator(c) ==> comb_size(c) < wrap_sz(args),
    decreases args.len(),
{
    if i < args.len() - 1 {
        lemma_wrap_sz(args.drop_last(), i);
    }
}

/// A part of a sequence is smaller than the whole.
pub proof fn lemma_params_sz(ps: Seq<Param>, i: int)
    requires
        0 <= i < ps.len(),
    ensures
        comb_size(ps[i].ty) < params_sz(ps),
    decreases ps.len(),
{
    if i < ps.len() - 1 {
        lemma_params_sz(ps.drop_last(), i);
    }
}

/// A part of a sequence is smaller than the whole.
pub proof fn lemma_terms_sz(ts: Seq<LengthTerm>, i: int)
    requires
        0 <= i < ts.len(),
    ensures
        term_size(ts[i]) <= terms_sz(ts),
    decreases ts.len(),
{
    if i < ts.len() - 1 {
        lemma_terms_sz(ts.drop_last(), i);
    }
}

/// A part of a sequence is smaller than the whole.
pub proof fn lemma_atoms_sz(ats: Seq<LengthAtom>, i: int)
    requires
        0 <= i < ats.len(),
    ensures
        atom_size(ats[i]) <= atoms_sz(ats),
    decreases ats.len(),
{
    if i < ats.len() - 1 {
        lemma_atoms_sz(ats.drop_last(), i);
    }
}

/// A model of an optional host type.
pub open spec fn opt_host_model(t: Option<HostType>) -> Option<HostTypeModel> {
    match t {
        Some(t) => Some(host_model(t)),
        None => None,
    }
}

proof fn lemma_project_step(t: Option<HostTypeModel>, fields: Seq<Name>, i: int)
    requires
        0 <= i < fields.len(),
    ensures
        spec_project(t, fields.take(i + 1)) == match spec_project(t, fields.take(i)) {
            Some(HostTypeModel::Struct(ms)) => match find_member(ms, fields[i]) {
                Some(m) => if m.is_dependent {
                    Some(m.ty)
                } else {
                    None
                },
                None => None,
            },
            _ => None,
        },
{
    assert(fields.take(i + 1).drop_last() =~= fields.take(i));
}

proof fn lemma_find_member_prefix(ms: Seq<FieldTypeModel>, n: Name, j: int)
    requires
        0 <= j <= ms.len(),
        forall|k: int| 0 <= k < j ==> (#[trigger] ms[k]).name != n,
    ensures
        find_member(ms, n) == find_member(ms.skip(j), n),
    decreases j,
{
    if j > 0 {
        assert(ms.skip(1) =~= ms.drop_first());
        let t = ms.drop_first();
        assert forall|k: int| 0 <= k < j - 1 implies (#[trigger] t[k]).name != n by {
            assert(t[k] == ms[k + 1]);
        }
        lemma_find_member_prefix(t, n, j - 1);
        assert(t.skip(j - 1) =~= ms.skip(j));
    } else {
        assert(ms.skip(0) =~= ms);
    }
}

/// Index of the first member of a record type with the given name.
fn find_member_index(members: &Vec<StructFieldType>, n: Name) -> (r: Option<usize>)
    ensures
        match r {
            Some(j) => j < members@.len() && members@[j as int].name == n && find_member(
                fields_model(members@),
                n,
            ) == Some(fields_model(members@)[j as int]),
            None => find_member(fields_model(members@), n) is None,
        },
{
    let ghost ms = fields_model(members@);
    proof {
        lemma_fields_model_len(members@);
    }
    let mut j: usize = 0;
    while j < members.len()
        invariant
            j <= members@.len(),
            ms == fields_model(members@),
            ms.len() == members@.len(),
            forall|k: int| 0 <= k < ms.len() ==> (#[trigger] ms[k]).name == members@[k].name,
            forall|k: int| 0 <= k < j ==> (#[trigger] members@[k]).name != n,
        decreases members@.len() - j,
    {
        if members[j].name == n {
            proof {
                assert forall|k: int| 0 <= k < j implies (#[trigger] ms[k]).name != n by {
                    assert(ms[k].name == members@[k].name);
                }
                lemma_find_member_prefix(ms, n, j as int);
                assert(ms.skip(j as int)[0] == ms[j as int]);
            }
            return Some(j);
        }
        j = j + 1;
    }
    proof {
        assert forall|k: int| 0 <= k < j implies (#[trigger] ms[k]).name != n by {
            assert(ms[k].name == members@[k].name);
        }
        lemma_find_member_prefix(ms, n, j as int);
        assert(ms.skip(j as int).len() == 0);
    }
    None
}

impl<'a> CheckContext<'a> {
    /// Diagnoses a constant that does not match the type of its format.
    fn check_const_value(&mut self, const_val: &ConstValue, expected_ty: &HostType, comb: &Combinator, span: Span)
        requires
            old(self).inv(),
            true,
            const_site(old(self).defs(), span),
        ensures
            final(self).inv(),
            final(self).diag_step(old(self)),
            final(self).keys() == old(self).keys() + const_value_diags(
                *old(self).db,
                *const_val,
                expected_ty@,
                *comb,
                span,
            ),
    {
        proof {
            self.lemma_diag_step_refl();
            reveal_with_fuel(host_model, 2);
        }
        let ghost k0 = self.keys();
        match (const_val, expected_ty) {
            (ConstValue::Int(v), HostType::Prim(int_type)) => {
                if !self.value_fits_type(*v, *int_type) {
                    let n = u64_text(*v);
                    let msg = text4("constant value ", n.as_str(), " out of range for ", int_type_debug_name(*int_type));
                    self.emit(CheckDiagnosticKind::ConstValueOutOfRange { value: *v, int_type: *int_type }, msg, span);
                }
                proof {
                    self.lemma_diag_step_refl();
                    assert(self.keys() =~= k0 + const_value_diags(*old(self).db, *const_val, expected_ty@, *comb, span));
                }
            },
            (ConstValue::Array(values), HostType::Array(elem, expected_len)) => {
                let actual: u64 = values.len() as u64;
                if actual != *expected_len {
                    let a = usize_text(values.len());
                    let e = u64_text(*expected_len);
                    let msg = text4("array literal length ", a.as_str(), " does not match array length ", e.as_str());
                    self.emit(
                        CheckDiagnosticKind::ConstLengthMismatch { expected: *expected_len, actual },
                        msg,
                        span,
                    );
                }
                proof {
                    self.lemma_diag_step_refl();
                }
                let ghost mid = *self;
                let ghost k1 = self.keys();
                let ghost em = host_model(**elem);
                proof {
                    assert(values@.take(0) =~= Seq::<ConstValue>::empty());
                    assert(self.keys() =~= k1 + array_elem_diags(values@.take(0), em, span));
                }
                let mut i: usize = 0;
                while i < values.len()
                    invariant
                        const_site(self.defs(), span),
                        i <= values@.len(),
                        em == host_model(**elem),
                        self.inv(),
                        self.diag_step(&mid),
                        mid.diag_step(old(self)),
                        self.keys() == k1 + array_elem_diags(values@.take(i as int), em, span),
                    decreases values@.len() - i,
                {
                    let ghost kb = self.keys();
                    let ghost b0 = *self;
                    proof {
                        assert(values@.take(i + 1).drop_last() =~= values@.take(i as int));
                        reveal_with_fuel(host_model, 2);
                    }
                    match (&values[i], &**elem) {
                        (ConstValue::Int(v), HostType::Prim(int_type)) => {
                            if !self.value_fits_type(*v, *int_type) {
                                let n = u64_text(*v);
                                let msg = text4(
                                    "constant value ",
                                    n.as_str(),
                                    " out of range for ",
                                    int_type_debug_name(*int_type),
                                );
                                self.emit(
                                    CheckDiagnosticKind::ConstValueOutOfRange { value: *v, int_type: *int_type },
                                    msg,
                                    span,
                                );
                            }
                        },
                        (ConstValue::Array(_), _) => {
                            let msg = owned("nested array literal not allowed in array constant");
                            self.emit(CheckDiagnosticKind::ConstTypeMismatch, msg, span);
                        },
                        (ConstValue::String(_), HostType::Prim(IntType::U8)) => {
                            let msg = owned("nested string literal not allowed in array constant");
                            self.emit(CheckDiagnosticKind::ConstTypeMismatch, msg, span);
                        },
                        _ => {
                            let d = self.type_description(elem);
                            let msg = text2("array element type mismatch: expected ", d.as_str());
                            proof {
                                lemma_framed_prefix("array element type mismatch: expected "@, d@);
                            }
                            self.emit(CheckDiagnosticKind::ConstTypeMismatch, msg, span);
                        },
                    }
                    proof {
                        self.lemma_diag_step_refl();
                        b0.lemma_diag_step_refl();
                        self.lemma_diag_step_trans(&b0, &mid);
                        assert(self.keys() =~= k1 + array_elem_diags(values@.take(i + 1), em, span));
                    }
                    i = i + 1;
                }
                proof {
                    assert(values@.take(values@.len() as int) =~= values@);
                    self.lemma_diag_step_trans(&mid, &old(self));
                    assert(self.keys() =~= k0 + const_value_diags(*old(self).db, *const_val, expected_ty@, *comb, span));
                }
            },
            (ConstValue::ByteString(s), HostType::Array(elem, expected_len)) | (
                ConstValue::String(s),
                HostType::Array(elem, expected_len),
            ) => {
                let is_bytes = match &**elem {
                    HostType::Prim(IntType::U8) => true,
                    _ => false,
                };
                if is_bytes {
                    let text = s.name.as_str(self.db);
                    let actual: u64 = text.len() as u64;
                    if actual != *expected_len {
                        let a = u64_text(actual);
                        let e = u64_text(*expected_len);
                        let msg = text4(
                            "string literal length ",
                            a.as_str(),
                            " does not match array length ",
                            e.as_str(),
                        );
                        self.emit(
                            CheckDiagnosticKind::ConstLengthMismatch { expected: *expected_len, actual },
                            msg,
                            span,
                        );
                    }
                } else {
                    let msg = owned("string literal can only be used for byte arrays");
                    self.emit(CheckDiagnosticKind::ConstTypeMismatch, msg, span);
                }
                proof {
                    self.lemma_diag_step_refl();
                    assert(self.keys() =~= k0 + const_value_diags(*old(self).db, *const_val, expected_ty@, *comb, span));
                }
            },
            _ => {
                let is_array = match comb {
                    Combinator::Array(_) => true,
                    _ => false,
                };
                if is_array {
                    let d = self.type_description(expected_ty);
                    let msg = text2("constant value does not match expected array type ", d.as_str());
                    proof {
                        lemma_framed_prefix("constant value does not match expected array type "@, d@);
                    }
                    self.emit(CheckDiagnosticKind::ConstTypeMismatch, msg, span);
                }
                proof {
                    self.lemma_diag_step_refl();
                    assert(self.keys() =~= k0 + const_value_diags(*old(self).db, *const_val, expected_ty@, *comb, span));
                }
            },
        }
    }

    /// Diagnoses an integer choice pattern against its carrier and the
    /// intervals of the earlier patterns, recording its own interval.
    fn check_constraint_element(
        &mut self,
        elem: &ConstraintElement,
        int_type: IntType,
        seen: &mut Vec<ConstraintInterval>,
    )
        requires
            old(self).inv(),
            exists|c: Combinator| #[trigger] in_file(old(self).defs(), c) && elem_of(c, *elem) && c is Choice,
        ensures
            final(self).inv(),
            final(self).diag_step(old(self)),
            final(self).keys() == old(self).keys() + pattern_elem_effect(*elem, int_type, old(seen)@).0,
            final(seen)@ == match pattern_elem_effect(*elem, int_type, old(seen)@).1 {
                Some(c) => old(seen)@.push(c),
                None => old(seen)@,
            },
    {
        proof {
            self.lemma_diag_step_refl();
            let c0 = choose|c: Combinator| #[trigger] in_file(self.defs(), c) && elem_of(c, *elem) && c is Choice;
            if let Combinator::Choice(ch0) = c0 {
                let j = choose|j: int|
                    0 <= j < ch0.arms@.len() && (#[trigger] ch0.arms@[j]).pattern == ChoicePattern::Constraint(*elem);
                assert(arm_site(ch0.arms@[j], elem.spec_span()));
                assert(choice_site(c0, elem.spec_span()));
            }
            assert(elem_in_file(self.defs(), *elem));
        }
        let ghost k0 = self.keys();
        match elem {
            ConstraintElement::Single { value: ConstValue::Int(v), span } => {
                if !self.value_fits_type(*v, int_type) {
                    let n = u64_text(*v);
                    let msg = text4("value ", n.as_str(), " out of range for ", int_type_debug_name(int_type));
                    self.emit(CheckDiagnosticKind::IntLiteralOutOfRange { value: *v, int_type }, msg, *span);
                    return ;
                }
                let current = ConstraintInterval::singleton(*v);
                match find_overlap(seen, current) {
                    Some(previous) => {
                        let n = u64_text(*v);
                        if previous.start == *v && previous.end == *v {
                            let msg = text2("duplicate pattern for value ", n.as_str());
                            proof {
                                lemma_framed_prefix("duplicate pattern for value "@, n@);
                            }
                            self.emit(CheckDiagnosticKind::ChoicePatternDuplicate, msg, *span);
                        } else {
                            let msg = text3("pattern value ", n.as_str(), " overlaps with previous pattern");
                            proof {
                                lemma_framed("pattern value "@, n@, " overlaps with previous pattern"@);
                            }
                            self.emit(CheckDiagnosticKind::ChoicePatternOverlap, msg, *span);
                        }
                    },
                    None => {},
                }
                seen.push(current);
                proof {
                    self.lemma_diag_step_refl();
                    assert(self.keys() =~= k0 + pattern_elem_effect(*elem, int_type, old(seen)@).0);
                }
            },
            ConstraintElement::Single { .. } => {},
            ConstraintElement::Range { start, end, span } => {
                let start_val = opt_int_exec(start);
                let end_val = opt_int_exec(end);
                if start_val.is_none() && end_val.is_none() {
                    let msg = owned("invalid integer constraint: range must have at least one endpoint");
                    self.emit(CheckDiagnosticKind::InvalidIntConstraint, msg, *span);
                    return ;
                }
                let ghost b0 = *self;
                if let Some(s) = start_val {
                    if !self.value_fits_type(s, int_type) {
                        let n = u64_text(s);
                        let msg = text4("range start ", n.as_str(), " out of range for ", int_type_debug_name(int_type));
                        self.emit(CheckDiagnosticKind::IntLiteralOutOfRange { value: s, int_type }, msg, *span);
                    }
                }
                proof {
                    self.lemma_diag_step_refl();
                    b0.lemma_diag_step_refl();
                }
                let ghost b1 = *self;
                let ghost k1 = self.keys();
                if let Some(e) = end_val {
                    if !self.value_fits_type(e, int_type) {
                        let n = u64_text(e);
                        let msg = text4("range end ", n.as_str(), " out of range for ", int_type_debug_name(int_type));
                        self.emit(CheckDiagnosticKind::IntLiteralOutOfRange { value: e, int_type }, msg, *span);
                    }
                }
                proof {
                    self.lemma_diag_step_refl();
                    b1.lemma_diag_step_refl();
                    self.lemma_diag_step_trans(&b1, &b0);
                    assert(self.keys() =~= k0 + opt_oor_diag(start_val, int_type, *span) + opt_oor_diag(
                        end_val,
                        int_type,
                        *span,
                    ));
                }
                let ghost b2 = *self;
                let ghost k2 = self.keys();
                let reversed = match (start_val, end_val) {
                    (Some(s), Some(e)) => s > e,
                    _ => false,
                };
                if reversed {
                    let msg = owned("invalid integer constraint: range start exceeds end");
                    self.emit(CheckDiagnosticKind::InvalidIntConstraint, msg, *span);
                    proof {
                        self.lemma_diag_step_trans(&b2, &old(self));
                        assert(self.keys() =~= k0 + pattern_elem_effect(*elem, int_type, old(seen)@).0);
                    }
                    return ;
                }
                match self.constraint_interval(elem, int_type) {
                    Some(current) => {
                        if find_overlap(seen, current).is_some() {
                            let msg = owned("pattern range overlaps with previous pattern");
                            self.emit(CheckDiagnosticKind::ChoicePatternOverlap, msg, *span);
                        }
                        seen.push(current);
                    },
                    None => {},
                }
                proof {
                    self.lemma_diag_step_refl();
                    b2.lemma_diag_step_refl();
                    self.lemma_diag_step_trans(&b2, &old(self));
                    assert(self.keys() =~= k0 + pattern_elem_effect(*elem, int_type, old(seen)@).0);
                }
            },
        }
    }

    /// The type of the path `@x.f1...fk` in a length expression.
    fn resolve_length_binding_type(
        &mut self,
        name_ref: &NameRef,
        fields: &Vec<Name>,
        local_ctx: &LocalContext,
    ) -> (r: Option<HostType>)
        requires
            old(self).inv(),
            exists|a: LengthAtom| #[trigger] atom_in_file(old(self).defs(), a) && atom_binds(a, *name_ref, fields@),
        ensures
            final(self).inv(),
            final(self).diag_step(old(self)),
            opt_host_model(r) == spec_project(ctx_lookup(local_ctx.view(), name_ref.name), fields@),
            all_reported(final(self).keys(), length_var_keys(ctx_names(local_ctx.view()), *name_ref)),
    {
        proof {
            self.lemma_diag_step_refl();
            lemma_ctx_lookup_none(local_ctx.view(), name_ref.name);
        }
        let ghost base = ctx_lookup(local_ctx.view(), name_ref.name);
        let mut ty = match local_ctx.lookup(name_ref.name) {
            Some(t) => clone_host_type(t),
            None => {
                let msg = text3("undefined variable `@", name_ref.name.as_str(self.db), "` in length expression");
                self.emit(CheckDiagnosticKind::LengthExprUndefined(name_ref.name), msg, name_ref.span);
                proof {
                    assert(self.keys()[self.keys().len() - 1] == (
                        CheckDiagnosticKind::LengthExprUndefined(name_ref.name),
                        name_ref.span,
                    ));
                    lemma_project_none(base, fields@, 0);
                    assert(fields@.take(0) =~= Seq::<Name>::empty());
                }
                return None;
            },
        };
        proof {
            assert(fields@.take(0) =~= Seq::<Name>::empty());
        }
        let mut i: usize = 0;
        while i < fields.len()
            invariant
                exists|a: LengthAtom| #[trigger] atom_in_file(self.defs(), a) && atom_binds(a, *name_ref, fields@),
                i <= fields@.len(),
                self.inv(),
                self.diag_step(old(self)),
                base == ctx_lookup(local_ctx.view(), name_ref.name),
                ctx_names(local_ctx.view()).contains(name_ref.name),
                spec_project(base, fields@.take(i as int)) == Some(ty@),
            decreases fields@.len() - i,
        {
            proof {
                lemma_project_step(base, fields@, i as int);
            }
            let field = fields[i];
            let ghost b0 = *self;
            let ghost tym = ty@;
            let next = match &ty {
                HostType::Struct(members) => {
                    let found = find_member_index(members, field);
                    proof {
                        lemma_fields_model_len(members@);
                        assert(tym == HostTypeModel::Struct(fields_model(members@)));
                    }
                    match found {
                        Some(j) => {
                            proof {
                                assert(fields_model(members@)[j as int].is_dependent == members@[j as int].is_dependent);
                                assert(fields_model(members@)[j as int].ty == host_model(members@[j as int].ty));
                            }
                            if !members[j].is_dependent {
                                let msg = text3(
                                    "field `",
                                    field.as_str(self.db),
                                    "` is not dependent and cannot be referenced in a length expression",
                                );
                                self.emit(CheckDiagnosticKind::LengthExprUndefined(field), msg, name_ref.span);
                                None
                            } else {
                                Some(clone_host_type(&members[j].ty))
                            }
                        },
                        None => {
                            let msg = text3("undefined field `", field.as_str(self.db), "` in length expression path");
                            self.emit(CheckDiagnosticKind::LengthExprUndefined(field), msg, name_ref.span);
                            None
                        },
                    }
                },
                _ => {
                    proof {
                        assert(!(tym is Struct));
                    }
                    let d = self.type_description(&ty);
                    let msg = text4(
                        "length expression cannot project field `",
                        field.as_str(self.db),
                        "` from ",
                        d.as_str(),
                    );
                    let d2 = self.type_description(&ty);
                    proof {
                        assert(msg@ == "length expression cannot project field `"@ + self.db.text_of(field) + ("` from "@ + d2@));
                        lemma_framed("length expression cannot project field `"@, self.db.text_of(field), "` from "@ + d2@);
                    }
                    self.emit(
                        CheckDiagnosticKind::LengthExprTypeError { expected: owned("struct"), actual: d2 },
                        msg,
                        name_ref.span,
                    );
                    None
                },
            };
            proof {
                self.lemma_diag_step_refl();
                b0.lemma_diag_step_refl();
                assert(opt_host_model(next) == spec_project(base, fields@.take(i + 1)));
            }
            proof {
                self.lemma_diag_step_trans(&b0, &old(self));
            }
            match next {
                Some(t) => {
                    ty = t;
                },
                None => {
                    proof {
                        assert(spec_project(base, fields@.take(i + 1)) is None);
                        lemma_project_none(base, fields@, i + 1);
                        assert(spec_project(base, fields@) is None);
                    }
                    return None;
                },
            }
            i = i + 1;
        }
        proof {
            assert(fields@.take(fields@.len() as int) =~= fields@);
        }
        Some(ty)
    }

    /// Whether the path of a length expression names an integer.
    fn check_length_binding_type(
        &mut self,
        name_ref: &NameRef,
        fields: &Vec<Name>,
        local_ctx: &LocalContext,
    ) -> (r: bool)
        requires
            old(self).inv(),
            exists|a: LengthAtom| #[trigger] atom_in_file(old(self).defs(), a) && atom_binds(a, *name_ref, fields@),
        ensures
            final(self).inv(),
            final(self).diag_step(old(self)),
            r == (spec_project(ctx_lookup(local_ctx.view(), name_ref.name), fields@) matches Some(
                HostTypeModel::Prim(_),
            )),
            all_reported(final(self).keys(), length_var_keys(ctx_names(local_ctx.view()), *name_ref)),
    {
        let ty = match self.resolve_length_binding_type(name_ref, fields, local_ctx) {
            Some(t) => t,
            None => {
                return false;
            },
        };
        let ghost b0 = *self;
        match ty {
            HostType::Prim(_) => true,
            _ => {
                let d = self.type_description(&ty);
                let msg = text2("length expression requires integer type, found ", d.as_str());
                let d2 = self.type_description(&ty);
                self.emit(
                    CheckDiagnosticKind::LengthExprTypeError { expected: owned("integer"), actual: d2 },
                    msg,
                    name_ref.span,
                );
                proof {
                    self.lemma_keys_kept(&b0);
                    lemma_reported_kept(b0.keys(), self.keys(), length_var_keys(ctx_names(local_ctx.view()), *name_ref));
                    self.lemma_diag_step_trans(&b0, &old(self));
                }
                false
            },
        }
    }
}

impl<'a> CheckContext<'a> {
    /// Checks that a length expression refers only to integer paths and to
    /// formats with a static size.
    fn check_length_expr_validity(&mut self, expr: &LengthExpr, local_ctx: &LocalContext) -> (valid: bool)
        requires
            old(self).inv(),
            expr_in_file(old(self).defs(), *expr),
        ensures
            final(self).inv(),
            final(self).step(old(self)),
            all_reported(final(self).keys(), expr_keys(final(self).defs(), ctx_names(local_ctx.view()), *expr)),
        decreases free_count(old(self).in_progress@), expr_size(*expr), 3nat, 0nat,
    {
        proof {
            self.lemma_step_refl();
        }
        let ghost ts = expr.terms@;
        let ghost dd = self.defs@;
        let mut valid = true;
        let mut i: usize = 0;
        assert(ts.take(0) =~= Seq::<LengthTerm>::empty());
        while i < expr.terms.len()
            invariant
                expr_in_file(self.defs(), *expr),
                i <= expr.terms@.len(),
                ts == expr.terms@,
                dd == self.defs@,
                self.inv(),
                self.step(old(self)),
                all_reported(self.keys(), terms_keys(dd, ctx_names(local_ctx.view()), ts.take(i as int))),
            decreases expr.terms@.len() - i,
        {
            let ghost b0 = *self;
            proof {
                lemma_terms_sz(expr.terms@, i as int);
            }
            if !self.check_length_term_validity(&expr.terms[i], local_ctx) {
                valid = false;
            }
            proof {
                self.lemma_step_trans(&b0, &old(self));
                self.lemma_keys_kept(&b0);
                lemma_reported_kept(b0.keys(), self.keys(), terms_keys(dd, ctx_names(local_ctx.view()), ts.take(i as int)));
                lemma_reported_concat(self.keys(), terms_keys(dd, ctx_names(local_ctx.view()), ts.take(i as int)), term_keys(dd, ctx_names(local_ctx.view()), ts[i as int]));
                assert(ts.take(i + 1).drop_last() =~= ts.take(i as int));
                assert(ts.take(i + 1).last() == ts[i as int]);
            }
            i = i + 1;
        }
        assert(ts.take(ts.len() as int) =~= ts);
        valid
    }

    fn check_length_term_validity(&mut self, term: &LengthTerm, local_ctx: &LocalContext) -> (valid: bool)
        requires
            old(self).inv(),
            term_in_file(old(self).defs(), *term),
        ensures
            final(self).inv(),
            final(self).step(old(self)),
            all_reported(final(self).keys(), term_keys(final(self).defs(), ctx_names(local_ctx.view()), *term)),
        decreases free_count(old(self).in_progress@), term_size(*term), 3nat, 0nat,
    {
        proof {
            self.lemma_step_refl();
        }
        let ghost ats = term.atoms@;
        let ghost dd = self.defs@;
        let mut valid = true;
        let mut i: usize = 0;
        assert(ats.take(0) =~= Seq::<LengthAtom>::empty());
        while i < term.atoms.len()
            invariant
                term_in_file(self.defs(), *term),
                i <= term.atoms@.len(),
                ats == term.atoms@,
                dd == self.defs@,
                self.inv(),
                self.step(old(self)),
                all_reported(self.keys(), atoms_keys(dd, ctx_names(local_ctx.view()), ats.take(i as int))),
            decreases term.atoms@.len() - i,
        {
            let ghost b0 = *self;
            proof {
                lemma_atoms_sz(term.atoms@, i as int);
            }
            if !self.check_length_atom_validity(&term.atoms[i], local_ctx) {
                valid = false;
            }
            proof {
                self.lemma_step_trans(&b0, &old(self));
                self.lemma_keys_kept(&b0);
                lemma_reported_kept(b0.keys(), self.keys(), atoms_keys(dd, ctx_names(local_ctx.view()), ats.take(i as int)));
                lemma_reported_concat(self.keys(), atoms_keys(dd, ctx_names(local_ctx.view()), ats.take(i as int)), atom_keys(dd, ctx_names(local_ctx.view()), ats[i as int]));
                assert(ats.take(i + 1).drop_last() =~= ats.take(i as int));
                assert(ats.take(i + 1).last() == ats[i as int]);
            }
            i = i + 1;
        }
        assert(ats.take(ats.len() as int) =~= ats);
        valid
    }

    fn check_length_atom_validity(&mut self, atom: &LengthAtom, local_ctx: &LocalContext) -> (valid: bool)
        requires
            old(self).inv(),
            atom_in_file(old(self).defs(), *atom),
        ensures
            final(self).inv(),
            final(self).step(old(self)),
            all_reported(final(self).keys(), atom_keys(final(self).defs(), ctx_names(local_ctx.view()), *atom)),
        decreases free_count(old(self).in_progress@), atom_size(*atom), 3nat, 0nat,
    {
        match atom {
            LengthAtom::Const(_) => {
                proof {
                    self.lemma_step_refl();
                }
                true
            },
            LengthAtom::Param(name_ref) => {
                let empty: Vec<Name> = Vec::new();
                let r = self.check_length_binding_type(name_ref, &empty, local_ctx);
                proof {
                    self.lemma_diag_step(&old(self));
                }
                r
            },
            LengthAtom::ProjectedParam { base, fields } => {
                let r = self.check_length_binding_type(base, fields, local_ctx);
                proof {
                    self.lemma_diag_step(&old(self));
                }
                r
            },
            LengthAtom::SizeOf(SizeTarget::Type(_)) => {
                proof {
                    self.lemma_step_refl();
                }
                true
            },
            LengthAtom::SizeOf(SizeTarget::Named(name_ref)) => {
                let entry = self.get_signature_entry(name_ref.name);
                let ghost b0 = *self;
                proof {
                    b0.lemma_lookup_shaped(name_ref.name);
                }
                match entry {
                    Some(SignatureEntry::Format { params, result }) => {
                        proof {
                            assert(params_model(params@).len() == params@.len());
                            assert(def_params_nonempty(b0.defs(), name_ref.name) == Some(params@.len() > 0));
                        }
                        if params.len() != 0 {
                            let msg = text3(
                                "size expression `|",
                                name_ref.name.as_str(self.db),
                                "|` is invalid: format takes parameters",
                            );
                            self.emit(CheckDiagnosticKind::SizeExprParameterized(name_ref.name), msg, name_ref.span);
                            proof {
                                self.lemma_step_trans(&b0, &old(self));
                                assert(self.keys()[self.keys().len() - 1] == (
                                    CheckDiagnosticKind::SizeExprParameterized(name_ref.name),
                                    name_ref.span,
                                ));
                            }
                            false
                        } else {
                            let size = self.compute_static_size(&result);
                            proof {
                                self.lemma_step_trans(&b0, &old(self));
                            }
                            let ghost b1 = *self;
                            if size.is_none() {
                                let msg = text3(
                                    "size expression `|",
                                    name_ref.name.as_str(self.db),
                                    "|` is invalid: format does not have a static size",
                                );
                                self.emit(CheckDiagnosticKind::SizeExprNotStatic(name_ref.name), msg, name_ref.span);
                                proof {
                                    self.lemma_step_trans(&b1, &old(self));
                                }
                                false
                            } else {
                                true
                            }
                        }
                    },
                    Some(_) => true,
                    None => {
                        if self.resolves_nothing(name_ref.name) {
                            let msg = text3(
                                "undefined type `",
                                name_ref.name.as_str(self.db),
                                "` in size expression",
                            );
                            self.emit(CheckDiagnosticKind::SizeExprUndefined(name_ref.name), msg, name_ref.span);
                            proof {
                                self.lemma_step_trans(&b0, &old(self));
                                assert(self.keys()[self.keys().len() - 1] == (
                                    CheckDiagnosticKind::SizeExprUndefined(name_ref.name),
                                    name_ref.span,
                                ));
                            }
                        } else {
                            // The target is still being checked: its size depends on itself.
                            match self.format_param_count(name_ref.name) {
                                Some(k) => {
                                    if k > 0 {
                                        let msg = text3(
                                            "size expression `|",
                                            name_ref.name.as_str(self.db),
                                            "|` is invalid: format takes parameters",
                                        );
                                        self.emit(
                                            CheckDiagnosticKind::SizeExprParameterized(name_ref.name),
                                            msg,
                                            name_ref.span,
                                        );
                                        proof {
                                            assert(self.keys()[self.keys().len() - 1] == (
                                                CheckDiagnosticKind::SizeExprParameterized(name_ref.name),
                                                name_ref.span,
                                            ));
                                        }
                                    } else {
                                        let msg = text3(
                                            "size expression `|",
                                            name_ref.name.as_str(self.db),
                                            "|` is invalid: format does not have a static size",
                                        );
                                        self.emit(
                                            CheckDiagnosticKind::SizeExprNotStatic(name_ref.name),
                                            msg,
                                            name_ref.span,
                                        );
                                    }
                                },
                                None => {},
                            }
                            proof {
                                self.lemma_step_trans(&b0, &old(self));
                            }
                        }
                        false
                    },
                }
            },
            LengthAtom::Paren(inner) => {
                proof {
                    lemma_paren_in_file(self.defs(), **inner);
                }
                self.check_length_expr_validity(inner, local_ctx)
            },
        }
    }
}

/// Host type of a reference to a definition (T-Ref, T-Call).
pub open spec fn spec_ref_type(
    defs: Seq<Definition>,
    entries: Seq<Option<SigEntryModel>>,
    name: Name,
) -> HostTypeModel {
    match sig_lookup(defs, entries, name) {
        Some(SigEntryModel::Format { result, .. }) => result,
        Some(SigEntryModel::Enum { .. }) => HostTypeModel::Enum(name),
        Some(SigEntryModel::Const { ty }) => ty,
        None => HostTypeModel::Error,
    }
}

/// Every extension of `b` extends `a` when `b` extends `a`.
proof fn lemma_ext_chain(dd: Seq<Definition>, a: SigState, b: SigState)
    requires
        extends(dd, a, b),
    ensures
        forall|s: SigState| #[trigger] extends(dd, b, s) ==> extends(dd, a, s),
{
    assert forall|s: SigState| #[trigger] extends(dd, b, s) implies extends(dd, a, s) by {
        lemma_extends_trans(dd, a, b, s);
    }
}

proof fn lemma_wrap_skip(
    dd: Seq<Definition>,
    e: Seq<Option<SigEntryModel>>,
    ctx: Seq<(Name, HostTypeModel)>,
    args: Seq<WrapArg>,
    i: int,
)
    requires
        0 <= i < args.len(),
        !(args[i] is Combinator),
    ensures
        spec_wrap_payload(dd, e, ctx, args.skip(i)) == spec_wrap_payload(dd, e, ctx, args.skip(i + 1)),
{
    assert(args.skip(i).drop_first() =~= args.skip(i + 1));
    assert(args.skip(i)[0] == args[i]);
}

/// Whether `n` occurs in `v`.
fn contains_name(v: &Vec<Name>, n: Name) -> (r: bool)
    ensures
        r == v@.contains(n),
{
    let mut i: usize = 0;
    while i < v.len()
        invariant
            i <= v@.len(),
            forall|k: int| 0 <= k < i ==> v@[k] != n,
        decreases v@.len() - i,
    {
        if v[i] == n {
            assert(v@[i as int] == n);
            return true;
        }
        i = i + 1;
    }
    false
}

/// Whether a variant map has an entry named `n`.
fn has_variant(v: &Vec<(Name, u64)>, n: Name) -> (r: bool)
    ensures
        r == exists|k: int| 0 <= k < v@.len() && (#[trigger] v@[k]).0 == n,
{
    let mut i: usize = 0;
    while i < v.len()
        invariant
            i <= v@.len(),
            forall|k: int| 0 <= k < i ==> (#[trigger] v@[k]).0 != n,
        decreases v@.len() - i,
    {
        if v[i].0 == n {
            return true;
        }
        i = i + 1;
    }
    false
}

/// Element-wise equality of two byte patterns.
fn u64s_eq(a: &Vec<u64>, b: &Vec<u64>) -> (r: bool)
    ensures
        r == (a@ == b@),
{
    if a.len() != b.len() {
        return false;
    }
    let mut i: usize = 0;
    while i < a.len()
        invariant
            i <= a@.len(),
            a@.len() == b@.len(),
            forall|k: int| 0 <= k < i ==> a@[k] == b@[k],
        decreases a@.len() - i,
    {
        if a[i] != b[i] {
            return false;
        }
        i = i + 1;
    }
    assert(a@ =~= b@);
    true
}

/// Whether `p` is among the recorded byte patterns.
fn contains_pattern(ps: &Vec<Vec<u64>>, p: &Vec<u64>) -> (r: bool)
    ensures
        r == exists|k: int| 0 <= k < ps@.len() && (#[trigger] ps@[k])@ == p@,
{
    let mut i: usize = 0;
    while i < ps.len()
        invariant
            i <= ps@.len(),
            forall|k: int| 0 <= k < i ==> (#[trigger] ps@[k])@ != p@,
        decreases ps@.len() - i,
    {
        if u64s_eq(&ps[i], p) {
            return true;
        }
        i = i + 1;
    }
    false
}

/// What the arms of a choice have matched so far.
struct PatternState {
    intervals: Vec<ConstraintInterval>,
    variants: Vec<Name>,
    labels: Vec<Name>,
    arrays: Vec<Vec<u64>>,
    has_wildcard: bool,
}

/// The patterns of the earlier arms of a choice, as values.
pub struct PatternModel {
    pub intervals: Seq<ConstraintInterval>,
    pub variants: Seq<Name>,
    pub labels: Seq<Name>,
    pub arrays: Seq<Seq<u64>>,
    pub has_wildcard: bool,
}

impl PatternState {
    spec fn model(&self) -> PatternModel {
        PatternModel {
            intervals: self.intervals@,
            variants: self.variants@,
            labels: self.labels@,
            arrays: self.arrays@.map_values(|a: Vec<u64>| a@),
            has_wildcard: self.has_wildcard,
        }
    }
}

/// Out-of-range diagnostics of the values of a byte-array pattern: one for
/// each integer above 255.
pub open spec fn byte_value_keys(values: Seq<ConstValue>, span: Span) -> Seq<(CheckDiagnosticKind, Span)>
    decreases values.len(),
{
    if values.len() == 0 {
        Seq::empty()
    } else {
        byte_value_keys(values.drop_last(), span) + match values.last() {
            ConstValue::Int(v) => if v > 0xff {
                seq![(CheckDiagnosticKind::ConstValueOutOfRange { value: v, int_type: IntType::U8 }, span)]
            } else {
                Seq::empty()
            },
            _ => Seq::empty(),
        }
    }
}

/// The integers among `values`, in order.
pub open spec fn int_values(values: Seq<ConstValue>) -> Seq<u64>
    decreases values.len(),
{
    if values.len() == 0 {
        Seq::empty()
    } else {
        int_values(values.drop_last()) + match values.last() {
            ConstValue::Int(v) => seq![v],
            _ => Seq::empty(),
        }
    }
}

/// The diagnostics of one arm's pattern given the discriminant class and
/// the patterns of the earlier arms, and the patterns after it. An enum
/// variant is looked up in the enum's signature entry; a repeated wildcard,
/// variant, label or byte array is a duplicate; a byte array on a byte-array
/// discriminant must have its length, and on a byte-array or bytes
/// discriminant must hold bytes; an integer pattern is checked
/// against the earlier intervals; any other pairing is a type mismatch.
pub open spec fn pattern_effect(
    defs: Seq<Definition>,
    entries: Seq<Option<SigEntryModel>>,
    arm: ChoiceArm,
    class: DiscriminantClass,
    p: PatternModel,
) -> (Seq<(CheckDiagnosticKind, Span)>, PatternModel) {
    match (arm.pattern, class) {
        (ChoicePattern::Wildcard, _) => (
            if p.has_wildcard {
                seq![(CheckDiagnosticKind::ChoicePatternDuplicate, arm.span)]
            } else {
                Seq::empty()
            },
            PatternModel { has_wildcard: true, ..p },
        ),
        (ChoicePattern::Variant(v), DiscriminantClass::Enum(enum_name)) => match sig_lookup(defs, entries, enum_name) {
            Some(SigEntryModel::Enum { variants, .. }) => if !(exists|k: int|
                0 <= k < variants.len() && (#[trigger] variants[k]).0 == v.name) {
                (
                    seq![
                        (
                            CheckDiagnosticKind::ChoicePatternUndefinedVariant { variant: v.name, enum_name },
                            v.span,
                        ),
                    ],
                    p,
                )
            } else if p.variants.contains(v.name) {
                (seq![(CheckDiagnosticKind::ChoicePatternDuplicate, v.span)], p)
            } else {
                (Seq::empty(), PatternModel { variants: p.variants.push(v.name), ..p })
            },
            _ => (Seq::empty(), p),
        },
        (ChoicePattern::Constraint(elem), DiscriminantClass::Prim(t)) => {
            let e = pattern_elem_effect(elem, t, p.intervals);
            (
                e.0,
                PatternModel {
                    intervals: match e.1 {
                        Some(c) => p.intervals.push(c),
                        None => p.intervals,
                    },
                    ..p
                },
            )
        },
        (ChoicePattern::Array(values), DiscriminantClass::ByteArray(_))
        | (ChoicePattern::Array(values), DiscriminantClass::Bytes) => {
            let vs = values@;
            let len_keys = match class {
                DiscriminantClass::ByteArray(expected_len) => if vs.len() as u64 != expected_len {
                    seq![
                        (
                            CheckDiagnosticKind::ChoicePatternLengthMismatch {
                                expected: expected_len,
                                actual: vs.len() as u64,
                            },
                            arm.span,
                        ),
                    ]
                } else {
                    Seq::empty()
                },
                _ => Seq::empty(),
            };
            let pattern = int_values(vs);
            if pattern.len() == vs.len() {
                if exists|k: int| 0 <= k < p.arrays.len() && #[trigger] p.arrays[k] == pattern {
                    (
                        len_keys + byte_value_keys(vs, arm.span) + seq![
                            (CheckDiagnosticKind::ChoicePatternDuplicate, arm.span),
                        ],
                        p,
                    )
                } else {
                    (len_keys + byte_value_keys(vs, arm.span), PatternModel { arrays: p.arrays.push(pattern), ..p })
                }
            } else {
                (len_keys + byte_value_keys(vs, arm.span), p)
            }
        },
        (ChoicePattern::Variant(label), DiscriminantClass::Labeled) => if p.labels.contains(label.name) {
            (seq![(CheckDiagnosticKind::ChoicePatternDuplicate, label.span)], p)
        } else {
            (Seq::empty(), PatternModel { labels: p.labels.push(label.name), ..p })
        },
        _ => (seq![(CheckDiagnosticKind::ChoicePatternTypeMismatch, arm.span)], p),
    }
}

/// The variants of the enum named `enum_name` and whether it is open, as the
/// signature records them; none, and closed, when it records no enum.
pub open spec fn enum_entry_variants(
    defs: Seq<Definition>,
    entries: Seq<Option<SigEntryModel>>,
    enum_name: Name,
) -> (Seq<(Name, u64)>, bool) {
    match sig_lookup(defs, entries, enum_name) {
        Some(SigEntryModel::Enum { variants, is_open, .. }) => (variants, is_open),
        _ => (Seq::empty(), false),
    }
}

/// The variants of `vs` that no earlier pattern names, in order.
pub open spec fn missing_variants(vs: Seq<(Name, u64)>, seen: Seq<Name>) -> Seq<Name>
    decreases vs.len(),
{
    if vs.len() == 0 {
        Seq::empty()
    } else {
        missing_variants(vs.drop_last(), seen) + if seen.contains(vs.last().0) {
            Seq::empty()
        } else {
            seq![vs.last().0]
        }
    }
}

/// Whether some arm of `arms` names the label or variant `n`.
pub open spec fn arm_names(arms: Seq<ChoiceArm>, n: Name) -> bool {
    exists|j: int| 0 <= j < arms.len() && ((#[trigger] arms[j]).pattern matches ChoicePattern::Variant(v) && v.name == n)
}

/// The variants of `vs` that no arm of `arms` names, in declaration order.
pub open spec fn uncovered_variants(vs: Seq<(Name, u64)>, arms: Seq<ChoiceArm>) -> Seq<Name>
    decreases vs.len(),
{
    if vs.len() == 0 {
        Seq::empty()
    } else {
        uncovered_variants(vs.drop_last(), arms) + if arm_names(arms, vs.last().0) {
            Seq::empty()
        } else {
            seq![vs.last().0]
        }
    }
}

/// `seen` holds a variant of `vs` exactly when an arm names it.
pub open spec fn covered_agree(vs: Seq<(Name, u64)>, seen: Seq<Name>, arms: Seq<ChoiceArm>) -> bool {
    forall|k: int| 0 <= k < vs.len() ==> (seen.contains(#[trigger] vs[k].0) <==> arm_names(arms, vs[k].0))
}

proof fn lemma_missing_uncovered(vs: Seq<(Name, u64)>, seen: Seq<Name>, arms: Seq<ChoiceArm>)
    requires
        covered_agree(vs, seen, arms),
    ensures
        missing_variants(vs, seen) == uncovered_variants(vs, arms),
    decreases vs.len(),
{
    if vs.len() > 0 {
        let k = vs.len() - 1;
        assert(vs.last() == vs[k]);
        assert(seen.contains(vs[k].0) <==> arm_names(arms, vs[k].0));
        assert forall|j: int| 0 <= j < vs.drop_last().len() implies (seen.contains(
            #[trigger] vs.drop_last()[j].0,
        ) <==> arm_names(arms, vs.drop_last()[j].0)) by {
            assert(vs.drop_last()[j] == vs[j]);
        }
        lemma_missing_uncovered(vs.drop_last(), seen, arms);
    }
}

/// The variants of the closed enum named `en`, as the signature records
/// them; none when it records no closed enum.
pub open spec fn closed_enum_variants(
    defs: Seq<Definition>,
    entries: Seq<Option<SigEntryModel>>,
    en: Name,
) -> Option<Seq<(Name, u64)>> {
    match sig_lookup(defs, entries, en) {
        Some(SigEntryModel::Enum { variants, is_open, .. }) => if is_open {
            None
        } else {
            Some(variants)
        },
        _ => None,
    }
}

/// The variants of the enum named `en` and whether it is open, as the
/// signature records them; none when it records no enum.
pub open spec fn recorded_enum(
    defs: Seq<Definition>,
    entries: Seq<Option<SigEntryModel>>,
    en: Name,
) -> Option<(Seq<(Name, u64)>, bool)> {
    match sig_lookup(defs, entries, en) {
        Some(SigEntryModel::Enum { variants, is_open, .. }) => Some((variants, is_open)),
        _ => None,
    }
}

/// The pattern diagnostic owed to arm `j` of a choice on the enum `en` with
/// the variants `vs`: an undefined variant when the arm names a variant the
/// enum lacks, a duplicate when an earlier arm names the same variant.
pub open spec fn arm_variant_key(vs: Seq<(Name, u64)>, en: Name, arms: Seq<ChoiceArm>, j: int) -> Option<
    (CheckDiagnosticKind, Span),
> {
    match arms[j].pattern {
        ChoicePattern::Variant(v) => if !(exists|q: int| 0 <= q < vs.len() && (#[trigger] vs[q]).0 == v.name) {
            Some((CheckDiagnosticKind::ChoicePatternUndefinedVariant { variant: v.name, enum_name: en }, v.span))
        } else if arm_names(arms.take(j), v.name) {
            Some((CheckDiagnosticKind::ChoicePatternDuplicate, v.span))
        } else {
            None
        },
        _ => None,
    }
}

/// On an enum discriminant whose enum the signature records in `entries`,
/// the pattern diagnostic owed to each of the first `i` arms is among the
/// keys from position `from` on.
pub open spec fn enum_pattern_keys_reported(
    defs: Seq<Definition>,
    entries: Seq<Option<SigEntryModel>>,
    class: DiscriminantClass,
    arms: Seq<ChoiceArm>,
    i: int,
    keys: Seq<(CheckDiagnosticKind, Span)>,
    from: int,
) -> bool {
    match class {
        DiscriminantClass::Enum(en) => match recorded_enum(defs, entries, en) {
            Some(r) => forall|j: int|
                0 <= j < i && (#[trigger] arm_variant_key(r.0, en, arms, j)) is Some ==> exists|k: int|
                    from <= k < keys.len() && keys[k] == arm_variant_key(r.0, en, arms, j)->Some_0,
            None => true,
        },
        _ => true,
    }
}

/// On an enum discriminant whose enum the signature records in `entries`,
/// `seen` holds a variant exactly when an arm of `arms` names it.
pub open spec fn enum_cover_ok(
    defs: Seq<Definition>,
    entries: Seq<Option<SigEntryModel>>,
    class: DiscriminantClass,
    seen: Seq<Name>,
    arms: Seq<ChoiceArm>,
) -> bool {
    match class {
        DiscriminantClass::Enum(en) => match recorded_enum(defs, entries, en) {
            Some(r) => covered_agree(r.0, seen, arms),
            None => true,
        },
        _ => true,
    }
}

/// A closed enum recorded in a state stays recorded in every extension.
proof fn lemma_closed_enum_kept(defs: Seq<Definition>, s: SigState, t: SigState, en: Name)
    requires
        extends(defs, s, t),
    ensures
        closed_enum_variants(defs, s.entries, en) is Some ==> closed_enum_variants(defs, t.entries, en)
            == closed_enum_variants(defs, s.entries, en),
        recorded_enum(defs, s.entries, en) is Some ==> recorded_enum(defs, t.entries, en) == recorded_enum(
            defs,
            s.entries,
            en,
        ),
{
    if let Some(i) = def_index(defs, en) {
        if s.entries[i] is Some {
            assert(t.entries[i] == s.entries[i]);
        }
    }
}

/// Checking one more arm's pattern keeps the recorded variants in step with
/// the variants the arms name.
proof fn lemma_cover_step(
    defs: Seq<Definition>,
    s0: SigState,
    s: SigState,
    class: DiscriminantClass,
    p0: PatternModel,
    arms: Seq<ChoiceArm>,
    i: int,
)
    requires
        0 <= i < arms.len(),
        extends(defs, s0, s),
        enum_cover_ok(defs, s0.entries, class, p0.variants, arms.take(i)),
    ensures
        enum_cover_ok(defs, s0.entries, class, pattern_effect(defs, s.entries, arms[i], class, p0).1.variants, arms.take(i + 1)),
{
    let arm = arms[i];
    let pe = pattern_effect(defs, s.entries, arm, class, p0);
    let t = arms.take(i + 1);
    assert forall|n: Name| arm_names(t, n) <==> (arm_names(arms.take(i), n) || (arm.pattern matches ChoicePattern::Variant(v) && v.name == n)) by {
        if arm_names(t, n) {
            let j = choose|j: int| 0 <= j < t.len() && ((#[trigger] t[j]).pattern matches ChoicePattern::Variant(v) && v.name == n);
            if j < i {
                assert(arms.take(i)[j] == t[j]);
            }
        }
        if arm_names(arms.take(i), n) {
            let j = choose|j: int| 0 <= j < i && ((#[trigger] arms.take(i)[j]).pattern matches ChoicePattern::Variant(v) && v.name == n);
            assert(t[j] == arms.take(i)[j]);
        }
        if arm.pattern matches ChoicePattern::Variant(v) && v.name == n {
            assert(t[i] == arm);
        }
    }
    if let DiscriminantClass::Enum(en) = class {
        lemma_closed_enum_kept(defs, s0, s, en);
        if let Some(r) = recorded_enum(defs, s0.entries, en) {
            let vs = r.0;
            assert forall|k: int| 0 <= k < vs.len() implies (pe.1.variants.contains(#[trigger] vs[k].0) <==> arm_names(t, vs[k].0)) by {
                let n = vs[k].0;
                assert(p0.variants.contains(n) <==> arm_names(arms.take(i), n));
                match arm.pattern {
                    ChoicePattern::Variant(v) => {
                        if !(exists|k2: int| 0 <= k2 < vs.len() && (#[trigger] vs[k2]).0 == v.name) {
                            assert(pe.1 == p0);
                            if n == v.name {
                                assert(vs[k].0 == v.name);
                            }
                        } else if p0.variants.contains(v.name) {
                            assert(pe.1 == p0);
                        } else {
                            assert(pe.1.variants == p0.variants.push(v.name));
                            assert(pe.1.variants[p0.variants.len() as int] == v.name);
                            if pe.1.variants.contains(n) && n != v.name {
                                let q = choose|q: int| 0 <= q < pe.1.variants.len() && pe.1.variants[q] == n;
                                assert(p0.variants[q] == n);
                            }
                            if p0.variants.contains(n) {
                                let q = choose|q: int| 0 <= q < p0.variants.len() && p0.variants[q] == n;
                                assert(pe.1.variants[q] == n);
                            }
                        }
                    },
                    _ => {
                        assert(pe.1.variants == p0.variants);
                    },
                }
            }
        }
    }
}

/// The span a choice's own diagnostics are reported at: its discriminant,
/// else its first arm.
pub open spec fn spec_choice_anchor(ch: ChoiceCombinator) -> Span {
    match ch.discriminant {
        Some(d) => d.span,
        None => if ch.arms@.len() > 0 {
            ch.arms@[0].span
        } else {
            Span { start_byte: 0, end_byte: 0 }
        },
    }
}

impl<'a> CheckContext<'a> {
    /// Infers the host type of a format under a local context.
    fn infer_combinator_type(&mut self, comb: &Combinator, local_ctx: &LocalContext) -> (r: HostType)
        requires
            old(self).inv(),
            in_file(old(self).defs(), *comb),
        ensures
            final(self).inv(),
            final(self).step(old(self)),
            forall|s: SigState|
                extends(final(self).defs(), final(self).state(), s) ==> #[trigger] spec_infer(
                    final(self).defs(),
                    s.entries,
                    local_ctx.view(),
                    *comb,
                ) == r@,
            all_reported(final(self).keys(), required_keys(final(self).defs(), ctx_names(local_ctx.view()), *comb)),
        decreases free_count(old(self).in_progress@), comb_size(*comb), 4nat, 0nat,
    {
        let ghost dd = self.defs@;
        let ghost cv = local_ctx.view();
        match comb {
            Combinator::Int(int_type) => {
                proof {
                    self.lemma_step_refl();
                }
                HostType::Prim(*int_type)
            },
            Combinator::ConstrainedInt { int_type, constraint } => {
                self.check_int_constraint(constraint, *int_type);
                proof {
                    old(self).lemma_diag_step(&old(self));
                    self.lemma_diag_step(&old(self));
                    lemma_reported_suffix(old(self).keys(), int_constraint_diags(constraint.elements@, *int_type));
                }
                HostType::Prim(*int_type)
            },
            Combinator::Reference { name, args, span } => {
                let r = self.infer_reference_type(*name, args, *span, local_ctx);
                proof {
                    assert forall|s: SigState| extends(dd, self.state(), s) implies #[trigger] spec_infer(
                        dd,
                        s.entries,
                        cv,
                        *comb,
                    ) == r@ by {
                        assert(spec_ref_type(dd, s.entries, *name) == r@);
                    }
                }
                r
            },
            Combinator::ConstrainedReference { name, constraint, negated, span } => {
                proof {
                    assert(in_file(
                        dd,
                        Combinator::ConstrainedReference {
                            name: *name,
                            constraint: *constraint,
                            negated: *negated,
                            span: *span,
                        },
                    ));
                }
                let r = self.infer_constrained_reference(*name, constraint, *span);
                proof {
                    assert forall|s: SigState| extends(dd, self.state(), s) implies #[trigger] spec_infer(
                        dd,
                        s.entries,
                        cv,
                        *comb,
                    ) == r@ by {
                        let _ = sig_lookup(dd, s.entries, *name);
                    }
                }
                r
            },
            Combinator::Struct(sc) => self.infer_struct_type(sc, local_ctx),
            Combinator::Choice(ch) => self.infer_choice_type(ch, local_ctx),
            Combinator::Array(a) => self.infer_array_type(a, local_ctx),
            Combinator::Vec(v) => {
                proof {
                    lemma_child_in_file(dd, *comb, 0);
                }
                let e = self.infer_combinator_type(&v.element, local_ctx);
                proof {
                    assert forall|s: SigState| extends(dd, self.state(), s) implies #[trigger] spec_infer(
                        dd,
                        s.entries,
                        cv,
                        *comb,
                    ) == HostType::Vec(Box::new(e))@ by {
                        assert(spec_infer(dd, s.entries, cv, *v.element) == e@);
                    }
                }
                HostType::Vec(Box::new(e))
            },
            Combinator::Option(o) => {
                proof {
                    lemma_child_in_file(dd, *comb, 0);
                }
                let e = self.infer_combinator_type(&o.element, local_ctx);
                proof {
                    assert forall|s: SigState| extends(dd, self.state(), s) implies #[trigger] spec_infer(
                        dd,
                        s.entries,
                        cv,
                        *comb,
                    ) == HostType::Option(Box::new(e))@ by {
                        assert(spec_infer(dd, s.entries, cv, *o.element) == e@);
                    }
                }
                HostType::Option(Box::new(e))
            },
            Combinator::Wrap(w) => self.infer_wrap_type(w, local_ctx),
            Combinator::Tail => {
                proof {
                    self.lemma_step_refl();
                }
                HostType::Bytes
            },
            Combinator::Bind { inner, target, span } => {
                proof {
                    lemma_child_in_file(dd, *comb, 0);
                    lemma_child_in_file(dd, *comb, 1);
                }
                let inner_ty = self.infer_combinator_type(inner, local_ctx);
                let ghost b1 = *self;
                if !self.is_raw_type(&inner_ty) {
                    let msg = owned("bind source must produce raw bytes (bytes or [u8; n])");
                    self.emit(CheckDiagnosticKind::BindSourceNotRaw, msg, *span);
                }
                proof {
                    self.lemma_diag_step_refl();
                    self.lemma_diag_step(&b1);
                    self.lemma_step_trans(&b1, &old(self));
                }
                let ghost b2 = *self;
                let t = self.infer_combinator_type(target, local_ctx);
                proof {
                    self.lemma_step_trans(&b2, &b1);
                    self.lemma_keys_kept(&b1);
                    lemma_reported_kept(b1.keys(), self.keys(), required_keys(dd, ctx_names(cv), **inner));
                    lemma_reported_concat(
                        self.keys(),
                        required_keys(dd, ctx_names(cv), **inner),
                        required_keys(dd, ctx_names(cv), **target),
                    );
                    self.lemma_step_trans(&b2, &old(self));
                    assert forall|s: SigState| extends(dd, self.state(), s) implies #[trigger] spec_infer(
                        dd,
                        s.entries,
                        cv,
                        *comb,
                    ) == t@ by {
                        assert(spec_infer(dd, s.entries, cv, **target) == t@);
                    }
                }
                t
            },
            Combinator::Error => {
                proof {
                    self.lemma_step_refl();
                }
                HostType::Error
            },
        }
    }

    /// Type of a reference to a definition, checking the arguments of a
    /// parameterized format against its parameters.
    fn infer_reference_type(
        &mut self,
        name: Name,
        args: &Vec<NameRef>,
        span: Span,
        local_ctx: &LocalContext,
    ) -> (r: HostType)
        requires
            old(self).inv(),
            in_file(old(self).defs(), Combinator::Reference { name, args: *args, span }),
        ensures
            final(self).inv(),
            final(self).step(old(self)),
            forall|s: SigState|
                extends(final(self).defs(), final(self).state(), s) ==> #[trigger] spec_ref_type(
                    final(self).defs(),
                    s.entries,
                    name,
                ) == r@,
            all_reported(final(self).keys(), ref_keys(final(self).defs(), name, span)),
            all_reported(final(self).keys(), arg_count_keys(final(self).defs(), name, args@.len(), span)),
        decreases free_count(old(self).in_progress@), 0nat, 3nat, 0nat,
    {
        let ghost dd = self.defs@;
        let entry = self.get_signature_entry(name);
        let ghost st1 = self.state();
        let ghost b1 = *self;
        proof {
            self.lemma_diag_step_refl();
            b1.lemma_lookup_shaped(name);
        }
        let ghost ack = arg_count_keys(dd, name, args@.len(), span);
        let r = match entry {
            Some(SignatureEntry::Format { params, result }) => {
                proof {
                    assert(params_model(params@).len() == params@.len());
                    assert(def_param_count(dd, name) == Some(params@.len()));
                }
                if args.len() != params.len() {
                    let e = usize_text(params.len());
                    let a = usize_text(args.len());
                    let msg = text4("expected ", e.as_str(), " argument(s), found ", a.as_str());
                    self.emit(
                        CheckDiagnosticKind::InvocationArgCountMismatch { expected: params.len(), actual: args.len() },
                        msg,
                        span,
                    );
                }
                proof {
                    self.lemma_diag_step_refl();
                    b1.lemma_diag_step_refl();
                    if args.len() != params.len() {
                        assert(self.keys().last() == ack[0]);
                        assert(self.keys()[self.keys().len() - 1] == ack[0]);
                    }
                    assert(all_reported(self.keys(), ack));
                }
                let ghost bm = *self;
                let mut i: usize = 0;
                while i < args.len() && i < params.len()
                    invariant
                        self.inv(),
                        self.diag_step(&b1),
                        self.diag_step(&bm),
                        all_reported(bm.keys(), ack),
                        in_file(self.defs(), Combinator::Reference { name, args: *args, span }),
                    decreases args@.len() - i,
                {
                    let ghost b2 = *self;
                    let arg_ref = args[i];
                    proof {
                        let c = Combinator::Reference { name, args: *args, span };
                        assert(args@[i as int] == arg_ref);
                        assert(args@[i as int].name == arg_ref.name && args@[i as int].span == arg_ref.span);
                        assert(0 <= i < args@.len());
                        assert(c matches Combinator::Reference { args: a2, .. } && a2@ == args@);
                        assert(arg_named_at(c, arg_ref.name, arg_ref.span));
                        assert(arg_at(c, arg_ref.span));
                    }
                    match local_ctx.lookup(arg_ref.name) {
                        Some(arg_ty) => {
                            if !self.types_compatible(arg_ty, &params[i].1) {
                                let expected = self.type_description(&params[i].1);
                                let actual = self.type_description(arg_ty);
                                let n = usize_text(i + 1);
                                let mut msg = text3("argument ", n.as_str(), " type mismatch: expected ");
                                push_str(&mut msg, expected.as_str());
                                push_str(&mut msg, ", found ");
                                push_str(&mut msg, actual.as_str());
                                proof {
                                    assert(msg@ == "argument "@ + n@ + (" type mismatch: expected "@ + expected@ + ", found "@
                                        + actual@));
                                    lemma_framed(
                                        "argument "@,
                                        n@,
                                        " type mismatch: expected "@ + expected@ + ", found "@ + actual@,
                                    );
                                }
                                self.emit(
                                    CheckDiagnosticKind::InvocationArgTypeMismatch {
                                        param: params[i].0,
                                        expected,
                                        actual,
                                    },
                                    msg,
                                    arg_ref.span,
                                );
                            }
                        },
                        None => {
                            let msg = text3("undefined argument `@", arg_ref.name.as_str(self.db), "`");
                            self.emit(CheckDiagnosticKind::InvocationArgUndefined(arg_ref.name), msg, arg_ref.span);
                        },
                    }
                    proof {
                        self.lemma_diag_step_refl();
                        b2.lemma_diag_step_refl();
                        self.lemma_diag_step_trans(&b2, &b1);
                        self.lemma_diag_step_trans(&b2, &bm);
                    }
                    i = i + 1;
                }
                proof {
                    self.lemma_keys_kept(&bm);
                    lemma_reported_kept(bm.keys(), self.keys(), ack);
                }
                result
            },
            Some(SignatureEntry::Enum { .. }) => HostType::Enum(name),
            Some(SignatureEntry::Const { ty }) => ty,
            None => {
                if self.resolves_nothing(name) {
                    let msg = text3("undefined type `", name.as_str(self.db), "`");
                    self.emit(CheckDiagnosticKind::UndefinedSymbol(name), msg, span);
                    proof {
                        assert(self.keys()[self.keys().len() - 1] == (CheckDiagnosticKind::UndefinedSymbol(name), span));
                    }
                } else {
                    // A recursive invocation: its format is still being checked,
                    // but its parameters are known from its definition.
                    match self.format_param_count(name) {
                        Some(k) => {
                            if k != args.len() {
                                let e = usize_text(k);
                                let a = usize_text(args.len());
                                let msg = text4("expected ", e.as_str(), " argument(s), found ", a.as_str());
                                self.emit(
                                    CheckDiagnosticKind::InvocationArgCountMismatch { expected: k, actual: args.len() },
                                    msg,
                                    span,
                                );
                                proof {
                                    assert(self.keys()[self.keys().len() - 1] == ack[0]);
                                }
                            }
                        },
                        None => {},
                    }
                }
                HostType::Error
            },
        };
        proof {
            self.lemma_diag_step_refl();
            b1.lemma_diag_step_refl();
            self.lemma_diag_step(&b1);
            self.lemma_step_trans(&b1, &old(self));
            assert forall|s: SigState| extends(dd, self.state(), s) implies #[trigger] spec_ref_type(
                dd,
                s.entries,
                name,
            ) == r@ by {
                lemma_settled_stable(dd, st1, s, name);
            }
        }
        r
    }

    /// Type of a reference refined by enum variants: the referenced
    /// definition must be an enum having every listed variant.
    fn infer_constrained_reference(&mut self, name: Name, constraint: &Vec<NameRef>, span: Span) -> (r: HostType)
        requires
            old(self).inv(),
            exists|neg: bool|
                #[trigger] in_file(
                    old(self).defs(),
                    Combinator::ConstrainedReference { name, constraint: *constraint, negated: neg, span },
                ),
        ensures
            final(self).inv(),
            final(self).step(old(self)),
            forall|s: SigState|
                extends(final(self).defs(), final(self).state(), s) ==> (#[trigger] sig_lookup(
                    final(self).defs(),
                    s.entries,
                    name,
                ) matches Some(SigEntryModel::Enum { .. }) ==> r@ == HostTypeModel::Enum(name)) && (
                !(sig_lookup(final(self).defs(), s.entries, name) matches Some(SigEntryModel::Enum { .. }))
                    ==> r@ == HostTypeModel::Error),
            all_reported(final(self).keys(), ref_keys(final(self).defs(), name, span)),
        decreases free_count(old(self).in_progress@), 0nat, 3nat, 0nat,
    {
        let ghost dd = self.defs@;
        let entry = self.get_signature_entry(name);
        let ghost st1 = self.state();
        let ghost b1 = *self;
        proof {
            self.lemma_diag_step_refl();
        }
        let r = match entry {
            Some(SignatureEntry::Enum { variants, .. }) => {
                proof {
                    b1.lemma_lookup_shaped(name);
                    assert(enum_table_is(b1.defs(), name, variants@));
                }
                let mut i: usize = 0;
                while i < constraint.len()
                    invariant
                        self.inv(),
                        self.diag_step(&b1),
                        enum_table_is(self.defs(), name, variants@),
                    decreases constraint@.len() - i,
                {
                    let ghost b2 = *self;
                    let vr = constraint[i];
                    if !has_variant(&variants, vr.name) {
                        let mut msg = text3("undefined variant `", vr.name.as_str(self.db), "` for enum `");
                        push_str(&mut msg, name.as_str(self.db));
                        push_str(&mut msg, "`");
                        self.emit(
                            CheckDiagnosticKind::UndefinedEnumVariant { variant: vr.name, enum_name: name },
                            msg,
                            vr.span,
                        );
                    }
                    proof {
                        self.lemma_diag_step_refl();
                        b2.lemma_diag_step_refl();
                        self.lemma_diag_step_trans(&b2, &b1);
                    }
                    i = i + 1;
                }
                HostType::Enum(name)
            },
            Some(_) => {
                let msg = text3("enum constraint applied to non-enum type `", name.as_str(self.db), "`");
                proof {
                    lemma_framed("enum constraint applied to non-enum type `"@, self.db.text_of(name), "`"@);
                    b1.lemma_lookup_shaped(name);
                    let neg = choose|neg: bool|
                        #[trigger] in_file(
                            dd,
                            Combinator::ConstrainedReference { name, constraint: *constraint, negated: neg, span },
                        );
                    let c = Combinator::ConstrainedReference { name, constraint: *constraint, negated: neg, span };
                    assert(non_enum_constraint_at(dd, c, span));
                }
                self.emit(CheckDiagnosticKind::ConstraintOnNonEnum, msg, span);
                HostType::Error
            },
            None => {
                if self.resolves_nothing(name) {
                    let msg = text3("undefined type `", name.as_str(self.db), "`");
                    self.emit(CheckDiagnosticKind::UndefinedSymbol(name), msg, span);
                    proof {
                        assert(self.keys()[self.keys().len() - 1] == (CheckDiagnosticKind::UndefinedSymbol(name), span));
                    }
                }
                HostType::Error
            },
        };
        proof {
            self.lemma_diag_step_refl();
            b1.lemma_diag_step_refl();
            self.lemma_diag_step(&b1);
            self.lemma_step_trans(&b1, &old(self));
            assert forall|s: SigState| extends(dd, self.state(), s) implies (#[trigger] sig_lookup(
                dd,
                s.entries,
                name,
            ) matches Some(SigEntryModel::Enum { .. }) ==> r@ == HostTypeModel::Enum(name)) && (
            !(sig_lookup(dd, s.entries, name) matches Some(SigEntryModel::Enum { .. })) ==> r@
                == HostTypeModel::Error) by {
                lemma_settled_stable(dd, st1, s, name);
            }
        }
        r
    }
}

impl<'a> CheckContext<'a> {
    /// Record type of a struct: fields are typed in order, each dependent
    /// field extending the context of the later ones.
    fn infer_struct_type(&mut self, sc: &StructCombinator, local_ctx: &LocalContext) -> (r: HostType)
        requires
            old(self).inv(),
            in_file(old(self).defs(), Combinator::Struct(*sc)),
        ensures
            final(self).inv(),
            final(self).step(old(self)),
            forall|s: SigState|
                extends(final(self).defs(), final(self).state(), s) ==> #[trigger] spec_infer(
                    final(self).defs(),
                    s.entries,
                    local_ctx.view(),
                    Combinator::Struct(*sc),
                ) == r@,
            all_reported(final(self).keys(), required_keys(final(self).defs(), ctx_names(local_ctx.view()), Combinator::Struct(*sc))),
        decreases free_count(old(self).in_progress@), fields_sz(sc.fields@), 4nat, 0nat,
    {
        let ghost dd = self.defs@;
        let ghost cv = local_ctx.view();
        let ghost fs = sc.fields@;
        let mut ctx = local_ctx.duplicate();
        broadcast use vstd::std_specs::hash::group_hash_axioms;

        let mut field_types: Vec<StructFieldType> = Vec::new();
        let mut seen: HashSet<usize> = HashSet::new();
        proof {
            self.lemma_step_refl();
            assert(fields_model(field_types@) =~= Seq::<FieldTypeModel>::empty());
            assert(fs.take(0) =~= Seq::<Field>::empty());
            assert(ctx_names(cv) + dep_names(fs.take(0)) =~= ctx_names(ctx.view()));
        }
        let mut i: usize = 0;
        while i < sc.fields.len()
            invariant
                i <= fs.len(),
                fs == sc.fields@,
                cv == local_ctx.view(),
                in_file(self.defs(), Combinator::Struct(*sc)),
                self.inv(),
                self.step(old(self)),
                dd == self.defs@,
                all_reported(self.keys(), fields_keys(dd, ctx_names(cv), fs.take(i as int))),
                ctx_names(ctx.view()) == ctx_names(cv) + dep_names(fs.take(i as int)),
                forall|n: Name| #[trigger] seen@.contains(n.id) <==> exists|j: int| 0 <= j < i && fs[j].name == n,
                forall|s: SigState|
                    extends(dd, self.state(), s) ==> #[trigger] spec_struct_fields(
                        dd,
                        s.entries,
                        cv,
                        fs,
                        i as nat,
                    ) == (fields_model(field_types@), ctx.view()),
            decreases fs.len() - i,
        {
            let ghost b0 = *self;
            let ghost st0 = self.state();
            let ghost ctx0 = ctx.view();
            let ghost fm0 = fields_model(field_types@);
            let field = &sc.fields[i];
            let ghost seen0 = seen@;
            let ghost earlier = fs.take(i as int);
            proof {
                assert((exists|j: int| 0 <= j < earlier.len() && (#[trigger] earlier[j]).name == field.name) <==> seen0.contains(field.name.id)) by {
                    if seen0.contains(field.name.id) {
                        let j = choose|j: int| 0 <= j < i && fs[j].name == field.name;
                        assert(earlier[j] == fs[j]);
                    }
                    if exists|j: int| 0 <= j < earlier.len() && (#[trigger] earlier[j]).name == field.name {
                        let j = choose|j: int| 0 <= j < earlier.len() && (#[trigger] earlier[j]).name == field.name;
                        assert(earlier[j] == fs[j]);
                    }
                }
            }
            if seen.contains(&field.name.id) {
                let msg = text3("duplicate field `", field.name.as_str(self.db), "`");
                self.emit(CheckDiagnosticKind::DuplicateField(field.name), msg, field.span);
                proof {
                    assert(self.keys()[self.keys().len() - 1] == (CheckDiagnosticKind::DuplicateField(field.name), field.span));
                }
            } else {
                seen.insert(field.name.id);
            }
            proof {
                self.lemma_diag_step_refl();
                b0.lemma_diag_step_refl();
                self.lemma_diag_step(&b0);
                lemma_fields_sz(fs, i as int);
                assert(all_reported(self.keys(), field_dup_keys(fs[i as int], earlier)));
                assert forall|n: Name| #[trigger] seen@.contains(n.id) <==> exists|j: int| 0 <= j < i + 1 && fs[j].name == n by {
                    if seen@.contains(n.id) && !seen0.contains(n.id) {
                        assert(n.id == field.name.id);
                        assert(n == field.name);
                    }
                    if exists|j: int| 0 <= j < i + 1 && fs[j].name == n {
                        let j = choose|j: int| 0 <= j < i + 1 && fs[j].name == n;
                        if j < i {
                            assert(seen0.contains(n.id));
                        } else {
                            assert(n == field.name);
                        }
                    }
                }
            }
            let ghost b1 = *self;
            proof {
                lemma_child_in_file(dd, Combinator::Struct(*sc), i as nat);
            }
            let field_ty = self.infer_combinator_type(&field.ty, &ctx);
            let ghost st2 = self.state();
            let ghost b2 = *self;
            if field.is_const {
                match &field.const_value {
                    Some(value) => {
                        self.check_const_value(value, &field_ty, &field.ty, field.span);
                    },
                    None => {},
                }
            }
            proof {
                self.lemma_diag_step_refl();
                b2.lemma_diag_step_refl();
                self.lemma_diag_step(&b2);
                self.lemma_step_trans(&b2, &b1);
                self.lemma_step_trans(&b1, &b0);
                self.lemma_step_trans(&b0, &old(self));
                lemma_ext_chain(dd, st0, self.state());
                self.lemma_keys_kept(&b0);
                self.lemma_keys_kept(&b2);
                self.lemma_keys_kept(&b1);
                lemma_reported_kept(b0.keys(), self.keys(), fields_keys(dd, ctx_names(cv), fs.take(i as int)));
                lemma_reported_kept(b1.keys(), self.keys(), field_dup_keys(fs[i as int], fs.take(i as int)));
                lemma_reported_kept(b2.keys(), self.keys(), required_keys(dd, ctx_names(ctx0), fs[i as int].ty));
                lemma_reported_concat(
                    self.keys(),
                    fields_keys(dd, ctx_names(cv), fs.take(i as int)),
                    field_dup_keys(fs[i as int], fs.take(i as int)),
                );
                lemma_reported_concat(
                    self.keys(),
                    fields_keys(dd, ctx_names(cv), fs.take(i as int)) + field_dup_keys(fs[i as int], fs.take(i as int)),
                    required_keys(dd, ctx_names(ctx0), fs[i as int].ty),
                );
                assert(fs.take(i + 1).drop_last() =~= fs.take(i as int));
                assert(fs.take(i + 1).last() == fs[i as int]);
            }
            if field.is_dependent {
                ctx.extend(field.name, clone_host_type(&field_ty));
            }
            let ghost ft_model = host_model(field_ty);
            let ghost ft_old = field_types@;
            let sft = StructFieldType { name: field.name, ty: field_ty, is_dependent: field.is_dependent };
            proof {
                lemma_fields_model_push(ft_old, sft);
            }
            field_types.push(sft);
            proof {
                assert(ctx.view() == (if field.is_dependent {
                    ctx0.push((field.name, ft_model))
                } else {
                    ctx0
                }));
                assert(fs.take(i + 1).drop_last() =~= fs.take(i as int));
                assert(fs.take(i + 1).last() == fs[i as int]);
                if field.is_dependent {
                    lemma_ctx_names_push(ctx0, (field.name, ft_model));
                }
                assert(ctx_names(ctx.view()) =~= ctx_names(cv) + dep_names(fs.take(i + 1)));
                assert(fields_model(field_types@) == fm0.push(
                    FieldTypeModel { name: field.name, ty: ft_model, is_dependent: field.is_dependent },
                ));
                let i1: nat = (i + 1) as nat;
                assert forall|s: SigState| extends(dd, self.state(), s) implies #[trigger] spec_struct_fields(
                    dd,
                    s.entries,
                    cv,
                    fs,
                    i1,
                ) == (fields_model(field_types@), ctx.view()) by {
                    assert(extends(dd, st0, s));
                    assert(spec_struct_fields(dd, s.entries, cv, fs, i as nat) == (fm0, ctx0));
                    assert(spec_infer(dd, s.entries, ctx0, fs[i as int].ty) == ft_model);
                }
            }
            i = i + 1;
        }
        proof {
            assert(fs.take(fs.len() as int) =~= fs);
            assert forall|s: SigState| extends(dd, self.state(), s) implies #[trigger] spec_infer(
                dd,
                s.entries,
                cv,
                Combinator::Struct(*sc),
            ) == HostType::Struct(field_types)@ by {
                assert(spec_struct_fields(dd, s.entries, cv, fs, fs.len()) == (fields_model(field_types@), ctx.view()));
            }
        }
        HostType::Struct(field_types)
    }
}

impl<'a> CheckContext<'a> {
    /// Host type of an array: a fixed array when the length is static,
    /// otherwise bytes for a byte element and a vector for any other.
    fn infer_array_type(&mut self, a: &ArrayCombinator, local_ctx: &LocalContext) -> (r: HostType)
        requires
            old(self).inv(),
            in_file(old(self).defs(), Combinator::Array(*a)),
        ensures
            final(self).inv(),
            final(self).step(old(self)),
            forall|s: SigState|
                extends(final(self).defs(), final(self).state(), s) ==> #[trigger] spec_infer(
                    final(self).defs(),
                    s.entries,
                    local_ctx.view(),
                    Combinator::Array(*a),
                ) == r@,
            all_reported(final(self).keys(), required_keys(final(self).defs(), ctx_names(local_ctx.view()), Combinator::Array(*a))),
        decreases free_count(old(self).in_progress@), 1 + comb_size(*a.element) + expr_size(a.length), 4nat, 0nat,
    {
        let ghost dd = self.defs@;
        let ghost cv = local_ctx.view();
        proof {
            lemma_child_in_file(dd, Combinator::Array(*a), 0);
        }
        let elem_ty = self.infer_combinator_type(&a.element, local_ctx);
        let ghost st1 = self.state();
        let ghost b1 = *self;
        proof {
            assert(in_file(self.defs(), Combinator::Array(*a)));
            assert(array_length(Combinator::Array(*a)) == Some(a.length));
            assert(reach_expr(array_length(Combinator::Array(*a))->Some_0, Seq::empty()) == Some(a.length));
            assert(expr_in_file(self.defs(), a.length));
        }
        self.check_length_expr_validity(&a.length, local_ctx);
        let ghost b2 = *self;
        let len = self.eval_length_expr(&a.length, local_ctx);
        proof {
            self.lemma_step_trans(&b2, &b1);
            self.lemma_keys_kept(&b1);
            lemma_reported_kept(b1.keys(), self.keys(), required_keys(dd, ctx_names(cv), *a.element));
            self.lemma_keys_kept(&b2);
            lemma_reported_kept(b2.keys(), self.keys(), expr_keys(dd, ctx_names(cv), a.length));
            lemma_reported_concat(self.keys(), required_keys(dd, ctx_names(cv), *a.element), expr_keys(dd, ctx_names(cv), a.length));
            self.lemma_step_trans(&b1, &old(self));
            lemma_ext_chain(dd, st1, self.state());
            reveal_with_fuel(host_model, 2);
        }
        let is_byte = match &elem_ty {
            HostType::Prim(IntType::U8) => true,
            _ => false,
        };
        proof {
            assert(is_byte == (elem_ty@ == HostTypeModel::Prim(IntType::U8)));
        }
        let r = match len {
            Some(n) => HostType::Array(Box::new(elem_ty), n),
            None => if is_byte {
                HostType::Bytes
            } else {
                HostType::Vec(Box::new(elem_ty))
            },
        };
        proof {
            assert forall|s: SigState| extends(dd, self.state(), s) implies #[trigger] spec_infer(
                dd,
                s.entries,
                cv,
                Combinator::Array(*a),
            ) == r@ by {
                assert(extends(dd, st1, s));
                assert(spec_infer(dd, s.entries, cv, *a.element) == elem_ty@);
                assert(spec_eval_expr(dd, s.entries, a.length) == len);
            }
        }
        r
    }

    /// Host type of a wrap: the type of its payload.
    fn infer_wrap_type(&mut self, w: &WrapCombinator, local_ctx: &LocalContext) -> (r: HostType)
        requires
            old(self).inv(),
            in_file(old(self).defs(), Combinator::Wrap(*w)),
        ensures
            final(self).inv(),
            final(self).step(old(self)),
            forall|s: SigState|
                extends(final(self).defs(), final(self).state(), s) ==> #[trigger] spec_infer(
                    final(self).defs(),
                    s.entries,
                    local_ctx.view(),
                    Combinator::Wrap(*w),
                ) == r@,
            all_reported(final(self).keys(), required_keys(final(self).defs(), ctx_names(local_ctx.view()), Combinator::Wrap(*w))),
        decreases free_count(old(self).in_progress@), wrap_sz(w.args@), 4nat, 0nat,
    {
        let ghost dd = self.defs@;
        let ghost cv = local_ctx.view();
        let ghost args = w.args@;
        proof {
            assert(args.skip(0) =~= args);
            self.lemma_step_refl();
        }
        let mut i: usize = 0;
        while i < w.args.len()
            invariant
                i <= args.len(),
                args == w.args@,
                cv == local_ctx.view(),
                in_file(self.defs(), Combinator::Wrap(*w)),
                self.inv(),
                self.step(old(self)),
                dd == self.defs@,
                payload_keys(dd, ctx_names(cv), args) == payload_keys(dd, ctx_names(cv), args.skip(i as int)),
                forall|e: Seq<Option<SigEntryModel>>|
                    #[trigger] spec_wrap_payload(dd, e, cv, args) == spec_wrap_payload(
                        dd,
                        e,
                        cv,
                        args.skip(i as int),
                    ),
            decreases args.len() - i,
        {
            match &w.args[i] {
                WrapArg::Combinator(c) => {
                    proof {
                        lemma_wrap_sz(args, i as int);
                        assert(args.skip(i as int)[0] == args[i as int]);
                    }
                    let ghost b0 = *self;
                    proof {
                        lemma_child_in_file(dd, Combinator::Wrap(*w), i as nat);
                    }
                    let t = self.infer_combinator_type(c, local_ctx);
                    proof {
                        lemma_payload_keys_skip(dd, ctx_names(cv), args, i as int);
                        self.lemma_step_trans(&b0, &old(self));
                        assert forall|s: SigState| extends(dd, self.state(), s) implies #[trigger] spec_infer(
                            dd,
                            s.entries,
                            cv,
                            Combinator::Wrap(*w),
                        ) == t@ by {
                            assert(spec_wrap_payload(dd, s.entries, cv, args) == spec_wrap_payload(
                                dd,
                                s.entries,
                                cv,
                                args.skip(i as int),
                            ));
                            assert(spec_infer(dd, s.entries, cv, *c) == t@);
                        }
                    }
                    return t;
                },
                _ => {
                    proof {
                        lemma_payload_keys_skip(dd, ctx_names(cv), args, i as int);
                        assert forall|e: Seq<Option<SigEntryModel>>|
                            #[trigger] spec_wrap_payload(dd, e, cv, args) == spec_wrap_payload(
                                dd,
                                e,
                                cv,
                                args.skip(i + 1),
                            ) by {
                            lemma_wrap_skip(dd, e, cv, args, i as int);
                        }
                    }
                },
            }
            i = i + 1;
        }
        proof {
            assert(args.skip(args.len() as int) =~= Seq::<WrapArg>::empty());
            assert forall|s: SigState| extends(dd, self.state(), s) implies #[trigger] spec_infer(
                dd,
                s.entries,
                cv,
                Combinator::Wrap(*w),
            ) == HostType::Error@ by {
                assert(spec_wrap_payload(dd, s.entries, cv, args) == spec_wrap_payload(
                    dd,
                    s.entries,
                    cv,
                    args.skip(args.len() as int),
                ));
                assert(args.skip(args.len() as int).len() == 0);
            }
        }
        HostType::Error
    }
}

proof fn lemma_arm_types_step(
    dd: Seq<Definition>,
    e: Seq<Option<SigEntryModel>>,
    ctx: Seq<(Name, HostTypeModel)>,
    arms: Seq<ChoiceArm>,
    i: int,
)
    requires
        0 <= i < arms.len(),
    ensures
        spec_arm_types(dd, e, ctx, arms, (i + 1) as nat) == spec_arm_types(dd, e, ctx, arms, i as nat).push(
            spec_infer(dd, e, ctx, arms[i].body),
        ),
{
}

impl<'a> CheckContext<'a> {
    /// Discriminant class of a choice, diagnosing a discriminant that is
    /// undefined or of a type that cannot be matched.
    fn choice_discriminant_class(&mut self, ch: &ChoiceCombinator, local_ctx: &LocalContext) -> (r: DiscriminantClass)
        requires
            old(self).inv(),
            in_file(old(self).defs(), Combinator::Choice(*ch)),
        ensures
            final(self).inv(),
            final(self).diag_step(old(self)),
            r == spec_disc_class(local_ctx.view(), ch.discriminant),
            all_reported(final(self).keys(), disc_keys(ctx_names(local_ctx.view()), ch.discriminant)),
    {
        proof {
            self.lemma_diag_step_refl();
            reveal_with_fuel(host_model, 2);
            if let Some(d) = ch.discriminant {
                lemma_ctx_lookup_none(local_ctx.view(), d.name);
            }
        }
        match &ch.discriminant {
            None => DiscriminantClass::Labeled,
            Some(d) => match local_ctx.lookup(d.name) {
                None => {
                    let msg = text3("undefined discriminant `@", d.name.as_str(self.db), "`");
                    self.emit(CheckDiagnosticKind::ChoiceDiscriminantUndefined(d.name), msg, d.span);
                    proof {
                        assert(self.keys()[self.keys().len() - 1] == (
                            CheckDiagnosticKind::ChoiceDiscriminantUndefined(d.name),
                            d.span,
                        ));
                    }
                    DiscriminantClass::Labeled
                },
                Some(dt) => {
                    let class = match dt {
                        HostType::Prim(k) => Some(DiscriminantClass::Prim(*k)),
                        HostType::Enum(n) => Some(DiscriminantClass::Enum(*n)),
                        HostType::Bytes => Some(DiscriminantClass::Bytes),
                        HostType::Array(elem, len) => match &**elem {
                            HostType::Prim(IntType::U8) => Some(DiscriminantClass::ByteArray(*len)),
                            _ => None,
                        },
                        _ => None,
                    };
                    match class {
                        Some(c) => c,
                        None => {
                            let desc = self.type_description(dt);
                            let msg = text2(
                                "choice discriminant must be integer, enum, or byte array, found ",
                                desc.as_str(),
                            );
                            let actual = self.type_description(dt);
                            self.emit(
                                CheckDiagnosticKind::ChoiceDiscriminantTypeMismatch {
                                    expected: owned("integer, enum, or byte array"),
                                    actual,
                                },
                                msg,
                                d.span,
                            );
                            DiscriminantClass::Labeled
                        },
                    }
                },
            },
        }
    }

    /// Checks the pattern of one arm against the discriminant class and the
    /// patterns of the earlier arms.
    fn check_choice_pattern(
        &mut self,
        arm: &ChoiceArm,
        disc_class: DiscriminantClass,
        ps: &mut PatternState,
        choice: Ghost<ChoiceCombinator>,
        index: Ghost<int>,
    )
        requires
            old(self).inv(),
            in_file(old(self).defs(), Combinator::Choice(choice@)),
            0 <= index@ < choice@.arms@.len(),
            choice@.arms@[index@] == *arm,
        ensures
            final(self).inv(),
            final(self).step(old(self)),
            final(ps).model() == pattern_effect(
                final(self).defs(),
                final(self).state().entries,
                *arm,
                disc_class,
                old(ps).model(),
            ).1,
            old(self).keys().len() + pattern_effect(
                final(self).defs(),
                final(self).state().entries,
                *arm,
                disc_class,
                old(ps).model(),
            ).0.len() <= final(self).keys().len(),
            final(self).keys().skip(
                final(self).keys().len() - pattern_effect(
                    final(self).defs(),
                    final(self).state().entries,
                    *arm,
                    disc_class,
                    old(ps).model(),
                ).0.len(),
            ) == pattern_effect(final(self).defs(), final(self).state().entries, *arm, disc_class, old(ps).model()).0,
            !(arm.pattern is Variant && disc_class is Enum) ==> final(self).state() == old(self).state()
                && final(self).keys() == old(self).keys() + pattern_effect(
                final(self).defs(),
                final(self).state().entries,
                *arm,
                disc_class,
                old(ps).model(),
            ).0,
        decreases free_count(old(self).in_progress@), 0nat, 3nat, 0nat,
    {
        proof {
            let cc = Combinator::Choice(choice@);
            assert(arm_site(choice@.arms@[index@], arm.span));
            assert(choice_site(cc, arm.span));
            match &arm.pattern {
                ChoicePattern::Variant(v) => {
                    assert(arm_site(choice@.arms@[index@], v.span));
                    assert(choice_site(cc, v.span));
                },
                ChoicePattern::Constraint(e) => {
                    assert(elem_of(cc, *e));
                },
                _ => {},
            }
        }
        let ghost p0 = ps.model();
        let ghost k0 = self.keys();
        proof {
            self.lemma_step_refl();
        }
        match (&arm.pattern, disc_class) {
            (ChoicePattern::Wildcard, _) => {
                if ps.has_wildcard {
                    self.emit(CheckDiagnosticKind::ChoicePatternDuplicate, owned("duplicate wildcard pattern"), arm.span);
                }
                ps.has_wildcard = true;
                proof {
                    assert(ps.model() == PatternModel { has_wildcard: true, ..p0 });
                    assert(ps.model().arrays =~= p0.arrays);
                }
            },
            (ChoicePattern::Variant(variant_ref), DiscriminantClass::Enum(enum_name)) => {
                let entry = self.get_signature_entry(enum_name);
                let ghost b1 = *self;
                let ghost k1 = self.keys();
                let ghost ent = sig_lookup(b1.defs(), b1.state().entries, enum_name);
                match entry {
                    Some(SignatureEntry::Enum { variants, .. }) => {
                        proof {
                            assert(ent matches Some(SigEntryModel::Enum { variants: vm, .. }) && vm == variants@);
                        }
                        if !has_variant(&variants, variant_ref.name) {
                            proof {
                                b1.lemma_lookup_shaped(enum_name);
                                assert(enum_lacks(b1.defs(), enum_name, variant_ref.name));
                            }
                            let mut msg = text3("undefined variant `", variant_ref.name.as_str(self.db), "` for enum `");
                            push_str(&mut msg, enum_name.as_str(self.db));
                            push_str(&mut msg, "`");
                            self.emit(
                                CheckDiagnosticKind::ChoicePatternUndefinedVariant {
                                    variant: variant_ref.name,
                                    enum_name,
                                },
                                msg,
                                variant_ref.span,
                            );
                        } else if contains_name(&ps.variants, variant_ref.name) {
                            let msg = text3("duplicate pattern for variant `", variant_ref.name.as_str(self.db), "`");
                            proof {
                                lemma_framed("duplicate pattern for variant `"@, self.db.text_of(variant_ref.name), "`"@);
                            }
                            self.emit(CheckDiagnosticKind::ChoicePatternDuplicate, msg, variant_ref.span);
                        } else {
                            ps.variants.push(variant_ref.name);
                            proof {
                                assert(ps.model().arrays =~= p0.arrays);
                            }
                        }
                    },
                    _ => {},
                }
                proof {
                    self.lemma_diag_step_refl();
                    b1.lemma_diag_step_refl();
                    self.lemma_diag_step(&b1);
                    self.lemma_step_trans(&b1, &old(self));
                    assert(self.state() == b1.state());
                    let ks = pattern_effect(self.defs(), self.state().entries, *arm, disc_class, p0).0;
                    assert(self.keys() =~= k1 + ks);
                    assert(self.keys().skip(self.keys().len() - ks.len()) =~= ks);
                    assert(ps.model() =~~= pattern_effect(self.defs(), self.state().entries, *arm, disc_class, p0).1);
                }
            },
            (ChoicePattern::Variant(_), DiscriminantClass::Prim(_)) => {
                self.emit(
                    CheckDiagnosticKind::ChoicePatternTypeMismatch,
                    owned("enum variant pattern not allowed for integer discriminant"),
                    arm.span,
                );
            },
            (ChoicePattern::Constraint(elem), DiscriminantClass::Prim(int_type)) => {
                self.check_constraint_element(elem, int_type, &mut ps.intervals);
                proof {
                    self.lemma_diag_step(&old(self));
                    assert(self.state() == old(self).state()) by {
                        assert(self.state() =~= old(self).state());
                    }
                    assert(ps.model().arrays =~= p0.arrays);
                }
            },
            (ChoicePattern::Array(values), DiscriminantClass::ByteArray(_))
            | (ChoicePattern::Array(values), DiscriminantClass::Bytes) => {
                if let DiscriminantClass::ByteArray(expected_len) = disc_class {
                    let actual: u64 = values.len() as u64;
                    if actual != expected_len {
                        let a = usize_text(values.len());
                        let e = u64_text(expected_len);
                        let msg = text4("pattern length ", a.as_str(), " does not match discriminant length ", e.as_str());
                        self.emit(
                            CheckDiagnosticKind::ChoicePatternLengthMismatch { expected: expected_len, actual },
                            msg,
                            arm.span,
                        );
                    }
                }
                proof {
                    self.lemma_diag_step_refl();
                    self.lemma_diag_step(&old(self));
                    let len_keys: Seq<(CheckDiagnosticKind, Span)> = match disc_class {
                        DiscriminantClass::ByteArray(expected_len) => if values@.len() as u64 != expected_len {
                            seq![
                                (
                                    CheckDiagnosticKind::ChoicePatternLengthMismatch {
                                        expected: expected_len,
                                        actual: values@.len() as u64,
                                    },
                                    arm.span,
                                ),
                            ]
                        } else {
                            Seq::empty()
                        },
                        _ => Seq::empty(),
                    };
                    assert(self.keys() =~= k0 + len_keys);
                }
                let ghost b1 = *self;
                let ghost k1 = self.keys();
                let ghost vs = values@;
                let mut pattern: Vec<u64> = Vec::new();
                let mut i: usize = 0;
                proof {
                    assert(vs.take(0) =~= Seq::<ConstValue>::empty());
                    assert(self.keys() =~= k1 + byte_value_keys(vs.take(0), arm.span));
                }
                while i < values.len()
                    invariant
                        self.inv(),
                        self.diag_step(&b1),
                        vs == values@,
                        i <= vs.len(),
                        pattern@ == int_values(vs.take(i as int)),
                        self.keys() == k1 + byte_value_keys(vs.take(i as int), arm.span),
                    decreases values@.len() - i,
                {
                    let ghost b2 = *self;
                    proof {
                        assert(vs.take(i + 1).drop_last() =~= vs.take(i as int));
                        assert(vs.take(i + 1).last() == vs[i as int]);
                    }
                    match &values[i] {
                        ConstValue::Int(v) => {
                            if *v > 0xff {
                                let n = u64_text(*v);
                                let msg = text3("value ", n.as_str(), " out of range for u8");
                                self.emit(
                                    CheckDiagnosticKind::ConstValueOutOfRange { value: *v, int_type: IntType::U8 },
                                    msg,
                                    arm.span,
                                );
                            }
                            pattern.push(*v);
                        },
                        _ => {},
                    }
                    proof {
                        self.lemma_diag_step_refl();
                        b2.lemma_diag_step_refl();
                        self.lemma_diag_step_trans(&b2, &b1);
                        assert(self.keys() =~= k1 + byte_value_keys(vs.take(i + 1), arm.span));
                        assert(pattern@ =~= int_values(vs.take(i + 1)));
                    }
                    i = i + 1;
                }
                proof {
                    assert(vs.take(vs.len() as int) =~= vs);
                }
                let ghost b3 = *self;
                if pattern.len() == values.len() {
                    if contains_pattern(&ps.arrays, &pattern) {
                        proof {
                            let k = choose|k: int| 0 <= k < ps.arrays@.len() && (#[trigger] ps.arrays@[k])@ == pattern@;
                            assert(p0.arrays[k] == pattern@);
                        }
                        self.emit(
                            CheckDiagnosticKind::ChoicePatternDuplicate,
                            owned("duplicate byte-array pattern"),
                            arm.span,
                        );
                    } else {
                        proof {
                            assert forall|k: int| 0 <= k < p0.arrays.len() implies #[trigger] p0.arrays[k]
                                != pattern@ by {
                                assert(p0.arrays[k] == ps.arrays@[k]@);
                            }
                        }
                        ps.arrays.push(pattern);
                        proof {
                            assert(ps.model().arrays =~= p0.arrays.push(int_values(vs)));
                        }
                    }
                }
                proof {
                    self.lemma_diag_step_refl();
                    b3.lemma_diag_step_refl();
                    self.lemma_diag_step_trans(&b3, &b1);
                    self.lemma_diag_step(&b1);
                    self.lemma_step_trans(&b1, &old(self));
                    assert(self.state() =~= old(self).state());
                    let ks = pattern_effect(self.defs(), self.state().entries, *arm, disc_class, p0).0;
                    assert(pattern@ == int_values(vs));
                    assert(self.keys() =~= k0 + ks);
                }
            },
            (ChoicePattern::Variant(label_ref), DiscriminantClass::Labeled) => {
                if contains_name(&ps.labels, label_ref.name) {
                    let msg = text3("duplicate labeled choice arm `", label_ref.name.as_str(self.db), "`");
                    proof {
                        lemma_framed("duplicate labeled choice arm `"@, self.db.text_of(label_ref.name), "`"@);
                    }
                    self.emit(CheckDiagnosticKind::ChoicePatternDuplicate, msg, label_ref.span);
                } else {
                    ps.labels.push(label_ref.name);
                    proof {
                        assert(ps.model().arrays =~= p0.arrays);
                    }
                }
            },
            _ => {
                self.emit(
                    CheckDiagnosticKind::ChoicePatternTypeMismatch,
                    owned("pattern type does not match discriminant"),
                    arm.span,
                );
            },
        }
        proof {
            let ks = pattern_effect(self.defs(), self.state().entries, *arm, disc_class, p0).0;
            if !(arm.pattern is Variant && disc_class is Enum) {
                assert(self.state() =~= old(self).state());
                assert(self.keys() =~= k0 + ks);
            }
            assert(self.keys().skip(self.keys().len() - ks.len()) =~= ks);
        }
    }

    /// Diagnoses a choice whose arms are not exhaustive: on an integer,
    /// bytes, byte-array or open-enum discriminant, one without a wildcard
    /// arm; on a closed enum, one without a wildcard that misses variants.
    /// On a closed enum whose variants are all covered, a wildcard is
    /// diagnosed as unnecessary.
    fn check_choice_exhaustive(&mut self, ch: &ChoiceCombinator, disc_class: DiscriminantClass, ps: &PatternState)
        requires
            old(self).inv(),
            in_file(old(self).defs(), Combinator::Choice(*ch)),
            ps.model().has_wildcard == has_wildcard_arm(*ch),
        ensures
            final(self).inv(),
            final(self).step(old(self)),
            !(disc_class is Enum) ==> final(self).state() == old(self).state(),
            (disc_class is Labeled || ps.has_wildcard) && !(disc_class is Enum) ==> final(self).keys() == old(
                self,
            ).keys(),
            (disc_class is Prim || disc_class is Bytes || disc_class is ByteArray) && !ps.has_wildcard ==> {
                let ks = final(self).keys();
                &&& ks.len() == old(self).keys().len() + 1
                &&& ks.drop_last() == old(self).keys()
                &&& ks.last().0 matches CheckDiagnosticKind::ChoiceNonExhaustive { missing } && missing@.len() == 0
                &&& ks.last().1 == spec_choice_anchor(*ch)
            },
            disc_class matches DiscriminantClass::Enum(enum_name) ==> ({
                let ev = enum_entry_variants(final(self).defs(), final(self).state().entries, enum_name);
                let miss = missing_variants(ev.0, ps.variants@);
                let ks = final(self).keys();
                &&& (!ev.1 && !ps.has_wildcard && miss.len() > 0) ==> {
                    &&& old(self).keys().len() < ks.len()
                    &&& ks.last().0 matches CheckDiagnosticKind::ChoiceNonExhaustive { missing } && missing@ == miss
                    &&& ks.last().1 == spec_choice_anchor(*ch)
                }
                &&& (ev.1 && !ps.has_wildcard) ==> {
                    &&& old(self).keys().len() < ks.len()
                    &&& ks.last().0 matches CheckDiagnosticKind::ChoiceNonExhaustive { missing } && missing@.len()
                        == 0
                    &&& ks.last().1 == spec_choice_anchor(*ch)
                }
                &&& (ps.has_wildcard && !ev.1 && ps.variants@.len() == ev.0.len()) ==> {
                    &&& old(self).keys().len() < ks.len()
                    &&& ks.last() == (CheckDiagnosticKind::ChoiceWildcardWithExhaustive, spec_choice_anchor(*ch))
                }
            }),
        decreases free_count(old(self).in_progress@), 0nat, 3nat, 0nat,
    {
        proof {
            self.lemma_step_refl();
        }
        let enum_name = match disc_class {
            DiscriminantClass::Enum(n) => n,
            DiscriminantClass::Labeled => {
                return ;
            },
            _ => {
                if !ps.has_wildcard {
                    let span = self.choice_anchor_span(ch);
                    self.emit(
                        CheckDiagnosticKind::ChoiceNonExhaustive { missing: Vec::new() },
                        owned("non-exhaustive choice: a wildcard `_` arm is required"),
                        span,
                    );
                    proof {
                        assert(self.keys().drop_last() =~= old(self).keys());
                        assert(self.state() =~= old(self).state());
                    }
                }
                return ;
            },
        };
        let entry = self.get_signature_entry(enum_name);
        let ghost b1 = *self;
        let ghost ev = enum_entry_variants(b1.defs(), b1.state().entries, enum_name);
        let (all_variants, is_open) = match entry {
            Some(SignatureEntry::Enum { variants, is_open, .. }) => (variants, is_open),
            _ => (Vec::new(), false),
        };
        proof {
            assert(all_variants@ == ev.0 && is_open == ev.1);
        }
        let ghost miss = missing_variants(ev.0, ps.variants@);
        if is_open && !ps.has_wildcard {
            let span = self.choice_anchor_span(ch);
            self.emit(
                CheckDiagnosticKind::ChoiceNonExhaustive { missing: Vec::new() },
                owned("non-exhaustive choice: a wildcard `_` arm is required"),
                span,
            );
        }
        if !is_open && !ps.has_wildcard {
            let mut missing: Vec<Name> = Vec::new();
            let mut listing = owned("");
            let mut i: usize = 0;
            proof {
                assert(ev.0.take(0) =~= Seq::<(Name, u64)>::empty());
                reveal_strlit("");
                assert(listing@ =~= name_listing(*self.db, missing@));
            }
            while i < all_variants.len()
                invariant
                    i <= all_variants@.len(),
                    all_variants@ == ev.0,
                    missing@ == missing_variants(ev.0.take(i as int), ps.variants@),
                    listing@ == name_listing(*self.db, missing@),
                decreases all_variants@.len() - i,
            {
                proof {
                    assert(ev.0.take(i + 1).drop_last() =~= ev.0.take(i as int));
                    assert(ev.0.take(i + 1).last() == ev.0[i as int]);
                }
                let n = all_variants[i].0;
                if !contains_name(&ps.variants, n) {
                    let ghost m0 = missing@;
                    if missing.len() > 0 {
                        push_str(&mut listing, ", ");
                    }
                    push_str(&mut listing, n.as_str(self.db));
                    missing.push(n);
                    proof {
                        assert(missing@.drop_last() =~= m0);
                        if m0.len() == 0 {
                            assert(listing@ =~= self.db.text_of(n));
                        }
                    }
                }
                proof {
                    assert(missing@ =~= missing_variants(ev.0.take(i + 1), ps.variants@));
                }
                i = i + 1;
            }
            proof {
                assert(ev.0.take(ev.0.len() as int) =~= ev.0);
            }
            if missing.len() > 0 {
                let msg = text2("non-exhaustive choice: missing variant(s) ", listing.as_str());
                let span = self.choice_anchor_span(ch);
                self.emit(CheckDiagnosticKind::ChoiceNonExhaustive { missing }, msg, span);
            }
        }
        proof {
            self.lemma_diag_step_refl();
            b1.lemma_diag_step_refl();
        }
        let ghost b2 = *self;
        if ps.has_wildcard && !is_open && ps.variants.len() == all_variants.len() {
            let span = self.choice_anchor_span(ch);
            self.emit(
                CheckDiagnosticKind::ChoiceWildcardWithExhaustive,
                owned("wildcard pattern unnecessary: all variants are covered"),
                span,
            );
        }
        proof {
            self.lemma_diag_step_refl();
            b2.lemma_diag_step_refl();
            self.lemma_diag_step_trans(&b2, &b1);
            self.lemma_diag_step(&b1);
            self.lemma_step_trans(&b1, &old(self));
            assert(self.state() == b1.state());
            assert(old(self).keys().len() <= b1.keys().len());
        }
    }

    /// Choice type of a choice: its discriminant class and the types of its
    /// branches, in order.
    fn infer_choice_type(&mut self, ch: &ChoiceCombinator, local_ctx: &LocalContext) -> (r: HostType)
        requires
            old(self).inv(),
            in_file(old(self).defs(), Combinator::Choice(*ch)),
        ensures
            final(self).inv(),
            final(self).step(old(self)),
            forall|s: SigState|
                extends(final(self).defs(), final(self).state(), s) ==> #[trigger] spec_infer(
                    final(self).defs(),
                    s.entries,
                    local_ctx.view(),
                    Combinator::Choice(*ch),
                ) == r@,
            all_reported(final(self).keys(), required_keys(final(self).defs(), ctx_names(local_ctx.view()), Combinator::Choice(*ch))),
            ({
                let c = spec_disc_class(local_ctx.view(), ch.discriminant);
                let ks = final(self).keys();
                (c is Prim || c is Bytes || c is ByteArray) && !(exists|j: int|
                    0 <= j < ch.arms@.len() && (#[trigger] ch.arms@[j]).pattern is Wildcard) ==> exists|k: int|
                    old(self).keys().len() <= k < ks.len() && (#[trigger] ks[k]).1 == spec_choice_anchor(*ch) && (
                    ks[k].0 matches CheckDiagnosticKind::ChoiceNonExhaustive { missing } && missing@.len() == 0)
            }),
            ({
                let c = spec_disc_class(local_ctx.view(), ch.discriminant);
                let ks = final(self).keys();
                c matches DiscriminantClass::Enum(en) ==> (closed_enum_variants(
                    old(self).defs(),
                    old(self).state().entries,
                    en,
                ) matches Some(vs) ==> (!(exists|j: int|
                    0 <= j < ch.arms@.len() && (#[trigger] ch.arms@[j]).pattern is Wildcard) && uncovered_variants(
                    vs,
                    ch.arms@,
                ).len() > 0 ==> exists|k: int|
                    old(self).keys().len() <= k < ks.len() && (#[trigger] ks[k]).1 == spec_choice_anchor(*ch) && (
                    ks[k].0 matches CheckDiagnosticKind::ChoiceNonExhaustive { missing } && missing@
                        == uncovered_variants(vs, ch.arms@))))
            }),
            ({
                let c = spec_disc_class(local_ctx.view(), ch.discriminant);
                let ks = final(self).keys();
                c matches DiscriminantClass::Enum(en) ==> (recorded_enum(old(self).defs(), old(self).state().entries, en)
                    matches Some(r) ==> (r.1 && !(exists|j: int|
                    0 <= j < ch.arms@.len() && (#[trigger] ch.arms@[j]).pattern is Wildcard) ==> exists|k: int|
                    old(self).keys().len() <= k < ks.len() && (#[trigger] ks[k]).1 == spec_choice_anchor(*ch) && (
                    ks[k].0 matches CheckDiagnosticKind::ChoiceNonExhaustive { missing } && missing@.len() == 0)))
            }),
            enum_pattern_keys_reported(
                final(self).defs(),
                old(self).state().entries,
                spec_disc_class(local_ctx.view(), ch.discriminant),
                ch.arms@,
                ch.arms@.len() as int,
                final(self).keys(),
                old(self).keys().len() as int,
            ),
        decreases free_count(old(self).in_progress@), arms_sz(ch.arms@), 4nat, 0nat,
    {
        let ghost dd = self.defs@;
        let ghost cv = local_ctx.view();
        let ghost arms = ch.arms@;
        let disc_class = self.choice_discriminant_class(ch, local_ctx);
        proof {
            self.lemma_diag_step(&old(self));
            assert(arms.take(0) =~= Seq::<ChoiceArm>::empty());
        }
        let mut ps = PatternState {
            intervals: Vec::new(),
            variants: Vec::new(),
            labels: Vec::new(),
            arrays: Vec::new(),
            has_wildcard: false,
        };
        let mut branch_types: Vec<HostType> = Vec::new();
        let ghost lab = labeled_in_scope(ctx_names(cv), ch.discriminant);
        proof {
            assert(hosts_model(branch_types@) =~= Seq::<HostTypeModel>::empty());
            if let Some(d) = ch.discriminant {
                lemma_ctx_lookup_none(cv, d.name);
            }
        }
        let mut i: usize = 0;
        while i < ch.arms.len()
            invariant
                i <= arms.len(),
                arms == ch.arms@,
                cv == local_ctx.view(),
                in_file(self.defs(), Combinator::Choice(*ch)),
                disc_class == spec_disc_class(cv, ch.discriminant),
                self.inv(),
                self.step(old(self)),
                dd == self.defs@,
                all_reported(self.keys(), arms_keys(dd, ctx_names(cv), arms.take(i as int))),
                all_reported(self.keys(), disc_keys(ctx_names(cv), ch.discriminant)),
                all_reported(self.keys(), arm_pattern_keys(lab, arms.take(i as int))),
                lab == labeled_in_scope(ctx_names(cv), ch.discriminant),
                lab ==> disc_class == DiscriminantClass::Labeled,
                ps.model().has_wildcard <==> exists|j: int| 0 <= j < i && (#[trigger] arms[j]).pattern is Wildcard,
                enum_cover_ok(dd, old(self).state().entries, disc_class, ps.model().variants, arms.take(i as int)),
                enum_pattern_keys_reported(
                    dd,
                    old(self).state().entries,
                    disc_class,
                    arms,
                    i as int,
                    self.keys(),
                    old(self).keys().len() as int,
                ),
                lab ==> forall|n: Name|
                    #[trigger] ps.model().labels.contains(n) <==> exists|j: int|
                        0 <= j < i && ((#[trigger] arms[j]).pattern matches ChoicePattern::Variant(e) && e.name == n),
                forall|s: SigState|
                    extends(dd, self.state(), s) ==> #[trigger] spec_arm_types(
                        dd,
                        s.entries,
                        cv,
                        arms,
                        i as nat,
                    ) == hosts_model(branch_types@),
            decreases arms.len() - i,
        {
            let ghost b0 = *self;
            let ghost st0 = self.state();
            let ghost hm0 = hosts_model(branch_types@);
            let arm = &ch.arms[i];
            proof {
                lemma_arms_sz(arms, i as int);
            }
            proof {
                lemma_child_in_file(dd, Combinator::Choice(*ch), i as nat);
            }
            let body_ty = self.infer_combinator_type(&arm.body, local_ctx);
            let ghost bm = host_model(body_ty);
            let ghost b1 = *self;
            let ghost st1 = self.state();
            proof {
                lemma_hosts_model_push(branch_types@, body_ty);
            }
            branch_types.push(body_ty);
            let ghost p0 = ps.model();
            let ghost kb = self.keys();
            self.check_choice_pattern(arm, disc_class, &mut ps, Ghost(*ch), Ghost(i as int));
            proof {
                let pe = pattern_effect(self.defs(), self.state().entries, *arm, disc_class, p0);
                let earlier = arms.take(i as int);
                assert(forall|j: int| 0 <= j < earlier.len() ==> earlier[j] == arms[j]);
                let ak = arm_pattern_key(lab, *arm, earlier);
                assert(all_reported(self.keys(), ak)) by {
                    let ks = self.keys();
                    let tail = ks.skip(ks.len() - pe.0.len());
                    assert(tail == pe.0);
                    assert forall|k: int| 0 <= k < ak.len() implies ks.contains(#[trigger] ak[k]) by {
                        assert(ak.len() == 1);
                        assert(pe.0.len() == 1);
                        assert(pe.0[0] == ak[0]);
                        assert(ks[ks.len() - 1] == tail[0]);
                    }
                }
                assert forall|n: Name| lab implies (#[trigger] ps.model().labels.contains(n) <==> exists|j: int|
                    0 <= j < i + 1 && ((#[trigger] arms[j]).pattern matches ChoicePattern::Variant(e) && e.name == n)) by {
                    if lab {
                        assert(ps.model() == pe.1);
                        match arm.pattern {
                            ChoicePattern::Variant(l) => {
                                if p0.labels.contains(l.name) {
                                    assert(pe.1 == p0);
                                } else {
                                    assert(pe.1.labels == p0.labels.push(l.name));
                                    assert(pe.1.labels[p0.labels.len() as int] == l.name);
                                    if pe.1.labels.contains(n) && n != l.name {
                                        let k = choose|k: int| 0 <= k < pe.1.labels.len() && pe.1.labels[k] == n;
                                        assert(p0.labels[k] == n);
                                    }
                                    if p0.labels.contains(n) {
                                        let k = choose|k: int| 0 <= k < p0.labels.len() && p0.labels[k] == n;
                                        assert(pe.1.labels[k] == n);
                                    }
                                }
                                assert(pe.1.labels.contains(l.name));
                            },
                            _ => {
                                assert(pe.1.labels == p0.labels);
                            },
                        }
                        if ps.model().labels.contains(n) && !p0.labels.contains(n) {
                            assert((arms[i as int].pattern matches ChoicePattern::Variant(e) && e.name == n));
                        }
                        if exists|j: int| 0 <= j < i + 1 && ((#[trigger] arms[j]).pattern matches ChoicePattern::Variant(e) && e.name == n) {
                            let j = choose|j: int| 0 <= j < i + 1 && ((#[trigger] arms[j]).pattern matches ChoicePattern::Variant(e) && e.name == n);
                            if j < i {
                                assert(p0.labels.contains(n));
                            }
                        }
                    }
                }
                self.lemma_keys_kept(&b0);
                self.lemma_keys_kept(&b1);
                lemma_reported_kept(b0.keys(), self.keys(), arms_keys(dd, ctx_names(cv), arms.take(i as int)));
                lemma_reported_kept(b0.keys(), self.keys(), disc_keys(ctx_names(cv), ch.discriminant));
                lemma_reported_kept(b1.keys(), self.keys(), required_keys(dd, ctx_names(cv), arms[i as int].body));
                lemma_reported_concat(
                    self.keys(),
                    arms_keys(dd, ctx_names(cv), arms.take(i as int)),
                    required_keys(dd, ctx_names(cv), arms[i as int].body),
                );
                assert(arms.take(i + 1).drop_last() =~= arms.take(i as int));
                assert(arms.take(i + 1).last() == arms[i as int]);
                lemma_reported_kept(b0.keys(), self.keys(), arm_pattern_keys(lab, arms.take(i as int)));
                lemma_reported_concat(
                    self.keys(),
                    arm_pattern_keys(lab, arms.take(i as int)),
                    arm_pattern_key(lab, *arm, arms.take(i as int)),
                );
                self.lemma_step_trans(&b1, &b0);
                self.lemma_step_trans(&b0, &old(self));
                lemma_cover_step(dd, old(self).state(), self.state(), disc_class, p0, arms, i as int);
                self.lemma_keys_prefix(&b0);
                b0.lemma_keys_prefix(&old(self));
                if let DiscriminantClass::Enum(en) = disc_class {
                    lemma_closed_enum_kept(dd, old(self).state(), self.state(), en);
                    if let Some(r) = recorded_enum(dd, old(self).state().entries, en) {
                        let from = old(self).keys().len() as int;
                        let ks = self.keys();
                        assert forall|j: int|
                            0 <= j < i + 1 && (#[trigger] arm_variant_key(r.0, en, arms, j)) is Some implies exists|k: int|
                            from <= k < ks.len() && ks[k] == arm_variant_key(r.0, en, arms, j)->Some_0 by {
                            if j < i {
                                let k = choose|k: int|
                                    from <= k < b0.keys().len() && b0.keys()[k] == arm_variant_key(r.0, en, arms, j)->Some_0;
                                assert(ks[k] == b0.keys()[k]);
                            } else {
                                let pe = pattern_effect(dd, self.state().entries, *arm, disc_class, p0);
                                assert(arms[j] == *arm);
                                if let ChoicePattern::Variant(v) = arm.pattern {
                                    if exists|q: int| 0 <= q < r.0.len() && (#[trigger] r.0[q]).0 == v.name {
                                        let q = choose|q: int| 0 <= q < r.0.len() && (#[trigger] r.0[q]).0 == v.name;
                                        assert(p0.variants.contains(r.0[q].0) <==> arm_names(arms.take(i as int), r.0[q].0));
                                    }
                                    assert(pe.0.len() == 1);
                                    assert(pe.0[0] == arm_variant_key(r.0, en, arms, j)->Some_0);
                                    assert(ks.skip(ks.len() - 1)[0] == ks[ks.len() - 1]);
                                }
                            }
                        }
                    }
                }
                lemma_ext_chain(dd, st0, self.state());
                lemma_ext_chain(dd, st1, self.state());
                let i1: nat = (i + 1) as nat;
                assert forall|s: SigState| extends(dd, self.state(), s) implies #[trigger] spec_arm_types(
                    dd,
                    s.entries,
                    cv,
                    arms,
                    i1,
                ) == hosts_model(branch_types@) by {
                    lemma_arm_types_step(dd, s.entries, cv, arms, i as int);
                    assert(spec_arm_types(dd, s.entries, cv, arms, i as nat) == hm0);
                    assert(spec_infer(dd, s.entries, cv, arms[i as int].body) == bm);
                }
            }
            i = i + 1;
        }
        let ghost b2 = *self;
        let ghost st2 = self.state();
        self.check_choice_exhaustive(ch, disc_class, &ps);
        proof {
            assert(arms.take(arms.len() as int) =~= arms);
            self.lemma_keys_kept(&b2);
            b2.lemma_keys_prefix(&old(self));
            if (disc_class is Prim || disc_class is Bytes || disc_class is ByteArray) && !ps.has_wildcard {
                let k = b2.keys().len() as int;
                assert(self.keys()[k] == self.keys().last());
            }
            if let DiscriminantClass::Enum(en) = disc_class {
                self.lemma_step_trans(&b2, &old(self));
                lemma_closed_enum_kept(dd, old(self).state(), self.state(), en);
                if let Some(vs) = closed_enum_variants(dd, old(self).state().entries, en) {
                    lemma_missing_uncovered(vs, ps.variants@, arms);
                    let k = self.keys().len() - 1;
                    if !ps.has_wildcard && uncovered_variants(vs, arms).len() > 0 {
                        assert(self.keys()[k] == self.keys().last());
                    }
                }
                if let Some(r) = recorded_enum(dd, old(self).state().entries, en) {
                    let k = self.keys().len() - 1;
                    if r.1 && !ps.has_wildcard {
                        assert(self.keys()[k] == self.keys().last());
                    }
                    self.lemma_keys_prefix(&b2);
                    let from = old(self).keys().len() as int;
                    let ks = self.keys();
                    assert forall|j: int|
                        0 <= j < arms.len() && (#[trigger] arm_variant_key(r.0, en, arms, j)) is Some implies exists|k: int|
                        from <= k < ks.len() && ks[k] == arm_variant_key(r.0, en, arms, j)->Some_0 by {
                        let k = choose|k: int|
                            from <= k < b2.keys().len() && b2.keys()[k] == arm_variant_key(r.0, en, arms, j)->Some_0;
                        assert(ks[k] == b2.keys()[k]);
                    }
                }
            }
            lemma_reported_kept(b2.keys(), self.keys(), arms_keys(dd, ctx_names(cv), arms));
            lemma_reported_kept(b2.keys(), self.keys(), disc_keys(ctx_names(cv), ch.discriminant));
            lemma_reported_concat(self.keys(), disc_keys(ctx_names(cv), ch.discriminant), arms_keys(dd, ctx_names(cv), arms));
            lemma_reported_kept(b2.keys(), self.keys(), arm_pattern_keys(lab, arms));
            lemma_reported_concat(
                self.keys(),
                disc_keys(ctx_names(cv), ch.discriminant) + arms_keys(dd, ctx_names(cv), arms),
                arm_pattern_keys(lab, arms),
            );
            self.lemma_step_trans(&b2, &old(self));
            lemma_ext_chain(dd, st2, self.state());
        }
        let r = HostType::Choice(disc_class, branch_types);
        proof {
            assert forall|s: SigState| extends(dd, self.state(), s) implies #[trigger] spec_infer(
                dd,
                s.entries,
                cv,
                Combinator::Choice(*ch),
            ) == r@ by {
                assert(spec_arm_types(dd, s.entries, cv, arms, arms.len()) == hosts_model(branch_types@));
            }
        }
        r
    }
}

/// Size of a host type: its number of nodes.
pub open spec fn host_size(t: HostType) -> nat
    decreases t, 0nat,
{
    match t {
        HostType::Array(e, _) => 1 + host_size(*e),
        HostType::Vec(e) => 1 + host_size(*e),
        HostType::Option(e) => 1 + host_size(*e),
        HostType::Struct(fs) => 1 + host_fields_sz(fs@),
        _ => 1,
    }
}

pub open spec fn host_fields_sz(fs: Seq<StructFieldType>) -> nat
    decreases fs, 0nat,
{
    if fs.len() == 0 {
        0
    } else {
        host_fields_sz(fs.drop_last()) + host_size(fs.last().ty)
    }
}

proof fn lemma_host_fields_sz(fs: Seq<StructFieldType>, i: int)
    requires
        0 <= i < fs.len(),
    ensures
        host_size(fs[i].ty) <= host_fields_sz(fs),
    decreases fs.len(),
{
    if i < fs.len() - 1 {
        lemma_host_fields_sz(fs.drop_last(), i);
    }
}

/// Duplicate-definition diagnostics of the first `k` definitions: every
/// definition after the first of its name.
pub open spec fn duplicate_diags(defs: Seq<Definition>, k: nat) -> Seq<(CheckDiagnosticKind, Span)>
    decreases k,
{
    if k == 0 || k > defs.len() {
        Seq::empty()
    } else {
        duplicate_diags(defs, (k - 1) as nat) + if def_index(defs, defs[k - 1].name) == Some(
            k - 1,
        ) {
            Seq::empty()
        } else {
            seq![(CheckDiagnosticKind::DuplicateDefinition(defs[k - 1].name), defs[k - 1].name_span)]
        }
    }
}

proof fn lemma_prefix_map<A, B>(a: Seq<A>, b: Seq<A>, f: spec_fn(A) -> B)
    requires
        a.is_prefix_of(b),
    ensures
        a.map_values(f).is_prefix_of(b.map_values(f)),
{
    assert(b.map_values(f).subrange(0, a.len() as int) =~= a.map_values(f)) by {
        assert forall|i: int| 0 <= i < a.len() implies b.map_values(f).subrange(0, a.len() as int)[i]
            == a.map_values(f)[i] by {
            assert(b.subrange(0, a.len() as int)[i] == a[i]);
        }
    }
}

/// Checks a lowered file: duplicate definitions first, then every
/// definition through the lazily built signature, so that forward
/// references do not depend on the order of definitions. Every first
/// definition of a name is checked, and the diagnostics it owes whatever the
/// signature holds are among the result: undefined names and size targets,
/// discriminants and length variables not in scope, repeated field and
/// parameter names, repeated wildcards and labels and misplaced patterns of
/// labeled choices, argument counts of invocations, size targets taking
/// parameters, and the diagnostics of integer constraints and enums. A
/// recursive reference is not an undefined one.
/// No diagnostic of the result is unfounded (see `key_justified`), each
/// has a message its kind is reported with (see `message_fits`), and every
/// constant's value is checked against the type of its signature entry in
/// the state the check ends in (see `checked_state`).
pub fn check_hir(db: &Database, hir: &FileHir) -> (r: Vec<CheckDiagnostic>)
    ensures
        duplicate_diags(hir.definitions@, hir.definitions@.len()).is_prefix_of(
            r@.map_values(|d: CheckDiagnostic| diag_key(d)),
        ),
        keys_justified_from(hir.definitions@, r@.map_values(|d: CheckDiagnostic| diag_key(d)), 0),
        forall|i: int|
            0 <= i < hir.definitions@.len() && def_index(hir.definitions@, hir.definitions@[i].name) == Some(i)
                ==> all_reported(
                r@.map_values(|d: CheckDiagnostic| diag_key(d)),
                #[trigger] def_keys(hir.definitions@, hir.definitions@[i]),
            ),
        exists|st: SigState| #[trigger] checked_state(*db, hir.definitions@, st, diag_keys(r@)),
        messages_fit_from(*db, r@, 0),
{
    let defs = &hir.definitions;
    let mut ctx = CheckContext::new(db, defs);
    proof {
        ctx.lemma_diag_step_refl();
        assert(ctx.keys() =~= duplicate_diags(defs@, 0));
    }
    let ghost c0 = ctx;
    let mut i: usize = 0;
    while i < defs.len()
        invariant
            i <= defs@.len(),
            ctx.inv(),
            ctx.defs() == defs@,
            ctx.diag_step(&c0),
            ctx.db == db,
            c0.diags() == Seq::<CheckDiagnostic>::empty(),
            ctx.keys() == duplicate_diags(defs@, i as nat),
        decreases defs@.len() - i,
    {
        let ghost b0 = ctx;
        let def = &defs[i];
        let first = ctx.position(def.name);
        let is_first = match first {
            Some(j) => j == i,
            None => false,
        };
        if !is_first {
            let msg = text3("duplicate definition `", def.name.as_str(db), "`");
            ctx.emit(CheckDiagnosticKind::DuplicateDefinition(def.name), msg, def.name_span);
        }
        proof {
            ctx.lemma_diag_step_refl();
            b0.lemma_diag_step_refl();
            ctx.lemma_diag_step_trans(&b0, &c0);
            assert(ctx.keys() =~= duplicate_diags(defs@, (i + 1) as nat));
        }
        i = i + 1;
    }
    let ghost c1 = ctx;
    let ghost k1 = ctx.keys();
    proof {
        ctx.lemma_diag_step(&c0);
        ctx.lemma_step_refl();
    }
    let mut i: usize = 0;
    while i < defs.len()
        invariant
            i <= defs@.len(),
            ctx.inv(),
            ctx.step(&c1),
            k1 == c1.keys(),
            ctx.defs() == defs@,
            forall|j: int| 0 <= j < defs@.len() ==> !(#[trigger] ctx.state().in_progress[j]),
            forall|j: int|
                0 <= j < i && def_index(defs@, defs@[j].name) == Some(j) && !(defs@[j].kind is Endianness)
                    ==> (#[trigger] ctx.state().entries[j]) is Some,
        decreases defs@.len() - i,
    {
        let ghost b0 = ctx;
        ctx.ensure_signature(defs[i].name);
        proof {
            ctx.lemma_step_trans(&b0, &c1);
            assert forall|j: int|
                0 <= j < i + 1 && def_index(defs@, defs@[j].name) == Some(j) && !(defs@[j].kind is Endianness)
                    implies (#[trigger] ctx.state().entries[j]) is Some by {
                if j < i {
                    assert(b0.state().entries[j] is Some);
                }
            }
        }
        i = i + 1;
    }
    proof {
        lemma_prefix_map(c1.diagnostics@, ctx.diagnostics@, |d: CheckDiagnostic| diag_key(d));
        assert(c1.diagnostics@.map_values(|d: CheckDiagnostic| diag_key(d)) =~= k1);
        assert(ctx.diagnostics@.map_values(|d: CheckDiagnostic| diag_key(d)) =~= ctx.keys());
        reveal(settled_reported);
        assert forall|j: int|
            0 <= j < defs@.len() && def_index(defs@, defs@[j].name) == Some(j) implies all_reported(
            ctx.keys(),
            #[trigger] def_keys(defs@, defs@[j]),
        ) by {
            if !(defs@[j].kind is Endianness) {
                assert(ctx.state().entries[j] is Some);
            }
        }
        assert(diag_keys(ctx.diagnostics@) =~= ctx.keys());
        assert(checked_state(*db, defs@, ctx.state(), diag_keys(ctx.diagnostics@)));
    }
    ctx.diagnostics
}

/// Static size named by the signature entry of `name`.
pub open spec fn spec_name_size(
    defs: Seq<Definition>,
    entries: Seq<Option<SigEntryModel>>,
    name: Name,
) -> Option<u64> {
    match sig_lookup(defs, entries, name) {
        Some(e) => spec_entry_size(defs, entries, e),
        None => None,
    }
}

/// The exact static byte size of a definition, if it has one: its size
/// under a state of the signature in which the definition's entry is the one
/// its definition determines from the other entries, and every entry of a
/// definition that depends on no other is the one it determines.
pub fn compute_static_size(db: &Database, hir: &FileHir, def_name: Name) -> (r: Option<u64>)
    ensures
        def_index(hir.definitions@, def_name) is None ==> r is None,
        exists|st: SigState|
            {
                &&& state_wf(hir.definitions@, st)
                &&& forall|i: int| 0 <= i < hir.definitions@.len() ==> !(#[trigger] st.in_progress[i])
                &&& settled(hir.definitions@, st, def_name)
                &&& r == spec_name_size(hir.definitions@, st.entries, def_name)
                &&& def_index(hir.definitions@, def_name) matches Some(i) ==> forall|s: SigState|
                    extends(hir.definitions@, reopened(st, i), s) ==> #[trigger] spec_def_entry(
                        hir.definitions@,
                        s.entries,
                        hir.definitions@[i],
                    ) == st.entries[i]
                &&& forall|j: int|
                    0 <= j < hir.definitions@.len() && #[trigger] st.entries[j] is Some && entry_free(
                        hir.definitions@,
                        hir.definitions@[j],
                    ) ==> st.entries[j] == spec_def_entry(hir.definitions@, st.entries, hir.definitions@[j])
            },
{
    let defs = &hir.definitions;
    let mut ctx = CheckContext::new(db, defs);
    let ghost dd = defs@;
    let ghost in0 = ctx.state().in_progress;
    let entry = ctx.get_signature_entry(def_name);
    let ghost st1 = ctx.state();
    let ghost c1 = ctx;
    let r = match entry {
        Some(SignatureEntry::Format { params, result }) => {
            if params.len() != 0 {
                proof {
                    ctx.lemma_step_refl();
                }
                None
            } else {
                ctx.compute_static_size(&result)
            }
        },
        Some(SignatureEntry::Enum { repr, .. }) => {
            proof {
                ctx.lemma_step_refl();
            }
            ctx.prim_byte_size(repr)
        },
        Some(SignatureEntry::Const { ty }) => ctx.compute_static_size(&ty),
        None => {
            proof {
                ctx.lemma_step_refl();
            }
            None
        },
    };
    proof {
        let fs = ctx.state();
        lemma_extends_refl(dd, fs);
        lemma_settled_stable(dd, st1, fs, def_name);
        assert(fs.in_progress == in0);
        assert(r == spec_name_size(dd, fs.entries, def_name));
        ctx.lemma_free_entries(dd);
        if let Some(i) = def_index(dd, def_name) {
            lemma_first_def_unique(dd, def_name, i);
            assert(state_wf(dd, reopened(st1, i)));
            assert forall|s: SigState| extends(dd, reopened(fs, i), s) implies #[trigger] spec_def_entry(
                dd,
                s.entries,
                dd[i],
            ) == fs.entries[i] by {
                assert(extends(dd, reopened(st1, i), reopened(fs, i)));
                lemma_extends_trans(dd, reopened(st1, i), reopened(fs, i), s);
            }
        }
    }
    r
}

/// A check diagnostic as a semantic diagnostic: its message and span.
pub open spec fn semantic_key(d: CheckDiagnostic) -> (Seq<char>, Span) {
    (d.message@, d.span)
}

/// Check diagnostics as semantic diagnostics.
pub open spec fn semantic_keys(cs: Seq<CheckDiagnostic>) -> Seq<(Seq<char>, Span)> {
    cs.map_values(|d: CheckDiagnostic| semantic_key(d))
}

/// Semantic diagnostics as values: messages and spans.
pub open spec fn semantic_views(v: Seq<SemanticDiagnostic>) -> Seq<(Seq<char>, Span)> {
    v.map_values(|d: SemanticDiagnostic| (d.message@, d.span))
}

/// The kinds and spans of check diagnostics.
pub open spec fn diag_keys(cs: Seq<CheckDiagnostic>) -> Seq<(CheckDiagnosticKind, Span)> {
    cs.map_values(|d: CheckDiagnostic| diag_key(d))
}

/// Checks a source file for semantic errors, lowering it from an existing
/// syntax tree of it: the diagnostics of `check_hir` on the lowered file
/// (lowering adds none), as messages and spans.
pub fn check_file(db: &mut Database, text: &str, root: &SyntaxNode) -> (r: Vec<SemanticDiagnostic>)
    ensures
        old(db).grows_to(&*final(db)),
        exists|defs: Seq<Definition>|
            #![trigger defs_v(defs)]
            defs_v(defs) == lowered_file(*final(db), text@, *root) && exists|cs: Seq<CheckDiagnostic>|
                #![trigger diag_keys(cs)]
                duplicate_diags(defs, defs.len()).is_prefix_of(diag_keys(cs)) && keys_justified_from(
                    defs,
                    diag_keys(cs),
                    0,
                ) && (exists|st: SigState| #[trigger] checked_state(*final(db), defs, st, diag_keys(cs)))
                    && messages_fit_from(*final(db), cs, 0)
                    && semantic_views(r@) == semantic_keys(cs) && forall|i: int|
                    0 <= i < defs.len() && def_index(defs, defs[i].name) == Some(i) ==> all_reported(
                        diag_keys(cs),
                        #[trigger] def_keys(defs, defs[i]),
                    ),
{
    let hir = lower_to_hir_with_parse(db, text, root);
    let ghost defs = hir.definitions@;
    let checked = check_hir(db, &hir);
    let ghost cs = checked@;
    let mut out: Vec<SemanticDiagnostic> = Vec::new();
    let mut checked = checked;
    let total = checked.len();
    let mut k: usize = 0;
    proof {
        assert(semantic_views(out@) =~= semantic_keys(cs.take(0)));
    }
    while checked.len() > 0
        invariant
            checked@.len() + k == cs.len(),
            total == cs.len(),
            k <= total,
            checked@ == cs.skip(k as int),
            semantic_views(out@) == semantic_keys(cs.take(k as int)),
        decreases checked@.len(),
    {
        let d = checked.remove(0);
        let ghost before = out@;
        let ghost dk = semantic_key(d);
        proof {
            assert(d == cs[k as int]);
            assert(checked@ =~= cs.skip(k + 1));
        }
        out.push(SemanticDiagnostic { message: d.message, span: d.span });
        proof {
            assert(cs.take(k + 1) =~= cs.take(k as int).push(cs[k as int]));
            assert(semantic_views(out@) =~= semantic_views(before).push(dk));
            assert(semantic_keys(cs.take(k + 1)) =~= semantic_keys(cs.take(k as int)).push(dk));
        }
        k = k + 1;
    }
    proof {
        assert(cs.take(k as int) =~= cs);
        assert(defs_v(defs) == lowered_file(*db, text@, *root));
        assert(diag_keys(cs) == cs.map_values(|d: CheckDiagnostic| diag_key(d)));
    }
    out
}

} // verus!
