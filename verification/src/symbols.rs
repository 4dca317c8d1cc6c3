//! Symbol resolution, declarations under a cursor, and the occurrences of
//! every symbol of a file (declarations and references).
use vstd::prelude::*;

use crate::check::{def_index, find_def};
use crate::db::{Database, Name};
use crate::hir_view::defs_v;
use crate::lower::{lowered_file, lower_to_hir_with_parse};
use crate::syntax::SyntaxNode;
use crate::text::str_eq;
use crate::types::{
    ChoicePattern, Combinator, ConstValue, Definition, DefinitionKind, EnumVariant, Field, FileHir,
    LengthAtom, LengthExpr, LengthTerm, NameRef, Param, SizeTarget, Span, SymbolId,
    SymbolOccurrence, SymbolOccurrenceKind, WrapArg,
};

verus! {

/// The first definition named `name`.
pub open spec fn spec_resolve(defs: Seq<Definition>, name: Name) -> Option<Definition> {
    match def_index(defs, name) {
        Some(i) => Some(defs[i]),
        None => None,
    }
}

/// Resolves a symbol by name: the first definition carrying it.
pub fn resolve_symbol_in_hir<'a>(hir: &'a FileHir, name: Name) -> (r: Option<&'a Definition>)
    ensures
        match r {
            Some(d) => spec_resolve(hir.definitions@, name) == Some(*d),
            None => spec_resolve(hir.definitions@, name) is None,
        },
{
    match find_def(&hir.definitions, name) {
        Some(i) => Some(&hir.definitions[i]),
        None => None,
    }
}

/// Fields of a struct body (none for any other body).
pub open spec fn body_fields(body: Combinator) -> Seq<Field> {
    match body {
        Combinator::Struct(s) => s.fields@,
        _ => Seq::empty(),
    }
}

/// Index of the first element whose name has the text of `name`.
pub open spec fn first_text_match(db: Database, names: Seq<Name>, name: Name) -> Option<int> {
    if exists|i: int| 0 <= i < names.len() && db.text_of(#[trigger] names[i]) == db.text_of(name) {
        Some(
            choose|i: int|
                0 <= i < names.len() && db.text_of(#[trigger] names[i]) == db.text_of(name) && forall|j: int|
                    0 <= j < i ==> db.text_of(#[trigger] names[j]) != db.text_of(name),
        )
    } else {
        None
    }
}

pub open spec fn param_names(ps: Seq<Param>) -> Seq<Name> {
    Seq::new(ps.len(), |i: int| ps[i].name)
}

pub open spec fn field_names(fs: Seq<Field>) -> Seq<Name> {
    Seq::new(fs.len(), |i: int| fs[i].name)
}

pub open spec fn variant_names(vs: Seq<EnumVariant>) -> Seq<Name> {
    Seq::new(vs.len(), |i: int| vs[i].name)
}

/// Span of the local symbol of `def` whose name has the text of `name`:
/// a parameter, else a field of a struct body, else an enum variant.
pub open spec fn spec_resolve_local(db: Database, def: Definition, name: Name) -> Option<Span> {
    match def.kind {
        DefinitionKind::Combinator { params, body } => match first_text_match(
            db,
            param_names(params@),
            name,
        ) {
            Some(i) => Some(params@[i].span),
            None => match first_text_match(db, field_names(body_fields(body)), name) {
                Some(i) => Some(body_fields(body)[i].span),
                None => None,
            },
        },
        DefinitionKind::Enum(e) => match first_text_match(db, variant_names(e.variants@), name) {
            Some(i) => Some(e.variants@[i].span),
            None => None,
        },
        _ => None,
    }
}

proof fn lemma_first_text_match(db: Database, names: Seq<Name>, name: Name, k: int)
    requires
        0 <= k <= names.len(),
        forall|j: int| 0 <= j < k ==> db.text_of(#[trigger] names[j]) != db.text_of(name),
    ensures
        k < names.len() && db.text_of(names[k]) == db.text_of(name) ==> first_text_match(db, names, name)
            == Some(k),
        k == names.len() ==> first_text_match(db, names, name) is None,
{
    if k < names.len() && db.text_of(names[k]) == db.text_of(name) {
        let c = choose|i: int|
            0 <= i < names.len() && db.text_of(#[trigger] names[i]) == db.text_of(name) && forall|j: int|
                0 <= j < i ==> db.text_of(#[trigger] names[j]) != db.text_of(name);
        assert(0 <= k < names.len() && db.text_of(names[k]) == db.text_of(name) && forall|j: int|
            0 <= j < k ==> db.text_of(#[trigger] names[j]) != db.text_of(name));
        if c < k {
        }
        if k < c {
            assert(db.text_of(names[k]) != db.text_of(name));
        }
    }
}

/// Index of the first name with the text of `name`.
fn find_text(db: &Database, names: &Vec<Name>, name: Name) -> (r: Option<usize>)
    ensures
        match r {
            Some(i) => i < names@.len() && first_text_match(*db, names@, name) == Some(i as int),
            None => first_text_match(*db, names@, name) is None,
        },
{
    let text = name.as_str(db);
    let mut i: usize = 0;
    while i < names.len()
        invariant
            i <= names@.len(),
            text@ == db.text_of(name),
            forall|j: int| 0 <= j < i ==> db.text_of(#[trigger] names@[j]) != db.text_of(name),
        decreases names@.len() - i,
    {
        if str_eq(names[i].as_str(db), text) {
            proof {
                lemma_first_text_match(*db, names@, name, i as int);
            }
            return Some(i);
        }
        i = i + 1;
    }
    proof {
        lemma_first_text_match(*db, names@, name, i as int);
    }
    None
}

fn param_name_list(ps: &Vec<Param>) -> (r: Vec<Name>)
    ensures
        r@ == param_names(ps@),
{
    let mut out: Vec<Name> = Vec::new();
    let mut i: usize = 0;
    while i < ps.len()
        invariant
            i <= ps@.len(),
            out@ == param_names(ps@).take(i as int),
        decreases ps@.len() - i,
    {
        out.push(ps[i].name);
        i = i + 1;
        assert(out@ =~= param_names(ps@).take(i as int));
    }
    assert(param_names(ps@).take(ps@.len() as int) =~= param_names(ps@));
    out
}

fn field_name_list(fs: &Vec<Field>) -> (r: Vec<Name>)
    ensures
        r@ == field_names(fs@),
{
    let mut out: Vec<Name> = Vec::new();
    let mut i: usize = 0;
    while i < fs.len()
        invariant
            i <= fs@.len(),
            out@ == field_names(fs@).take(i as int),
        decreases fs@.len() - i,
    {
        out.push(fs[i].name);
        i = i + 1;
        assert(out@ =~= field_names(fs@).take(i as int));
    }
    assert(field_names(fs@).take(fs@.len() as int) =~= field_names(fs@));
    out
}

fn variant_name_list(vs: &Vec<EnumVariant>) -> (r: Vec<Name>)
    ensures
        r@ == variant_names(vs@),
{
    let mut out: Vec<Name> = Vec::new();
    let mut i: usize = 0;
    while i < vs.len()
        invariant
            i <= vs@.len(),
            out@ == variant_names(vs@).take(i as int),
        decreases vs@.len() - i,
    {
        out.push(vs[i].name);
        i = i + 1;
        assert(out@ =~= variant_names(vs@).take(i as int));
    }
    assert(variant_names(vs@).take(vs@.len() as int) =~= variant_names(vs@));
    out
}

/// Resolves a local symbol of a definition by the text of its name: a
/// parameter first, then a field of a struct body, or an enum variant.
pub fn resolve_local_symbol(db: &Database, def: &Definition, name: Name) -> (r: Option<Span>)
    ensures
        r == spec_resolve_local(*db, *def, name),
{
    match &def.kind {
        DefinitionKind::Combinator { params, body } => {
            let pn = param_name_list(params);
            match find_text(db, &pn, name) {
                Some(i) => Some(params[i].span),
                None => match body {
                    Combinator::Struct(s) => {
                        let fnames = field_name_list(&s.fields);
                        match find_text(db, &fnames, name) {
                            Some(i) => Some(s.fields[i].span),
                            None => None,
                        }
                    },
                    _ => {
                        proof {
                            lemma_first_text_match(*db, field_names(body_fields(*body)), name, 0);
                        }
                        None
                    },
                },
            }
        },
        DefinitionKind::Enum(e) => {
            let vn = variant_name_list(&e.variants);
            match find_text(db, &vn, name) {
                Some(i) => Some(e.variants[i].span),
                None => None,
            }
        },
        _ => None,
    }
}

/// The declaration span under `offset` within a definition: its name, else
/// a parameter or a field of a struct body, else an enum variant.
pub open spec fn spec_declaration_at(def: Definition, offset: int) -> Option<Span> {
    if def.name_span.spec_contains(offset) {
        Some(def.name_span)
    } else {
        match def.kind {
            DefinitionKind::Combinator { params, body } => match first_span_at(
                Seq::new(params@.len(), |i: int| params@[i].span),
                offset,
            ) {
                Some(s) => Some(s),
                None => first_span_at(
                    Seq::new(body_fields(body).len(), |i: int| body_fields(body)[i].span),
                    offset,
                ),
            },
            DefinitionKind::Enum(e) => first_span_at(
                Seq::new(e.variants@.len(), |i: int| e.variants@[i].span),
                offset,
            ),
            _ => None,
        }
    }
}

/// The first span containing `offset`.
pub open spec fn first_span_at(spans: Seq<Span>, offset: int) -> Option<Span>
    decreases spans.len(),
{
    if spans.len() == 0 {
        None
    } else if spans[0].spec_contains(offset) {
        Some(spans[0])
    } else {
        first_span_at(spans.drop_first(), offset)
    }
}

proof fn lemma_first_span_at_skip(spans: Seq<Span>, offset: int, i: int)
    requires
        0 <= i < spans.len(),
        !spans[i].spec_contains(offset),
    ensures
        first_span_at(spans.skip(i), offset) == first_span_at(spans.skip(i + 1), offset),
{
    assert(spans.skip(i).drop_first() =~= spans.skip(i + 1));
}

fn param_span_at(params: &Vec<Param>, offset: usize) -> (r: Option<Span>)
    ensures
        r == first_span_at(Seq::new(params@.len(), |i: int| params@[i].span), offset as int),
{
    let ghost spans = Seq::new(params@.len(), |i: int| params@[i].span);
    assert(spans.skip(0) =~= spans);
    let mut i: usize = 0;
    while i < params.len()
        invariant
            i <= params@.len(),
            spans == Seq::new(params@.len(), |i: int| params@[i].span),
            first_span_at(spans, offset as int) == first_span_at(spans.skip(i as int), offset as int),
        decreases params@.len() - i,
    {
        if params[i].span.contains(offset) {
            assert(spans.skip(i as int)[0] == spans[i as int]);
            return Some(params[i].span);
        }
        proof {
            lemma_first_span_at_skip(spans, offset as int, i as int);
        }
        i = i + 1;
    }
    None
}

fn field_span_at(fields: &Vec<Field>, offset: usize) -> (r: Option<Span>)
    ensures
        r == first_span_at(Seq::new(fields@.len(), |i: int| fields@[i].span), offset as int),
{
    let ghost spans = Seq::new(fields@.len(), |i: int| fields@[i].span);
    assert(spans.skip(0) =~= spans);
    let mut i: usize = 0;
    while i < fields.len()
        invariant
            i <= fields@.len(),
            spans == Seq::new(fields@.len(), |i: int| fields@[i].span),
            first_span_at(spans, offset as int) == first_span_at(spans.skip(i as int), offset as int),
        decreases fields@.len() - i,
    {
        if fields[i].span.contains(offset) {
            assert(spans.skip(i as int)[0] == spans[i as int]);
            return Some(fields[i].span);
        }
        proof {
            lemma_first_span_at_skip(spans, offset as int, i as int);
        }
        i = i + 1;
    }
    None
}

fn variant_span_at(vs: &Vec<EnumVariant>, offset: usize) -> (r: Option<Span>)
    ensures
        r == first_span_at(Seq::new(vs@.len(), |i: int| vs@[i].span), offset as int),
{
    let ghost spans = Seq::new(vs@.len(), |i: int| vs@[i].span);
    assert(spans.skip(0) =~= spans);
    let mut i: usize = 0;
    while i < vs.len()
        invariant
            i <= vs@.len(),
            spans == Seq::new(vs@.len(), |i: int| vs@[i].span),
            first_span_at(spans, offset as int) == first_span_at(spans.skip(i as int), offset as int),
        decreases vs@.len() - i,
    {
        if vs[i].span.contains(offset) {
            assert(spans.skip(i as int)[0] == spans[i as int]);
            return Some(vs[i].span);
        }
        proof {
            lemma_first_span_at_skip(spans, offset as int, i as int);
        }
        i = i + 1;
    }
    None
}

/// Finds the declaration directly under the cursor within a definition.
pub fn declaration_at_offset(def: &Definition, byte_offset: usize) -> (r: Option<Span>)
    ensures
        r == spec_declaration_at(*def, byte_offset as int),
{
    if def.name_span.contains(byte_offset) {
        return Some(def.name_span);
    }
    match &def.kind {
        DefinitionKind::Combinator { params, body } => {
            match param_span_at(params, byte_offset) {
                Some(s) => Some(s),
                None => match body {
                    Combinator::Struct(s) => field_span_at(&s.fields, byte_offset),
                    _ => {
                        proof {
                            assert(Seq::new(body_fields(*body).len(), |i: int| body_fields(*body)[i].span).len() == 0);
                        }
                        None
                    },
                },
            }
        },
        DefinitionKind::Enum(e) => variant_span_at(&e.variants, byte_offset),
        _ => None,
    }
}

/// `defs[k]` is the first definition whose span contains `offset`.
pub open spec fn first_containing(defs: Seq<Definition>, offset: int, k: int) -> bool {
    &&& 0 <= k < defs.len()
    &&& defs[k].span.spec_contains(offset)
    &&& forall|j: int| 0 <= j < k ==> !(#[trigger] defs[j]).span.spec_contains(offset)
}

/// Index of the first definition whose span contains `offset`.
pub open spec fn spec_definition_at(defs: Seq<Definition>, offset: int) -> Option<int> {
    if exists|k: int| first_containing(defs, offset, k) {
        Some(choose|k: int| first_containing(defs, offset, k))
    } else {
        None
    }
}

/// Index of the first definition whose span contains `byte_offset`.
fn definition_index_at(defs: &Vec<Definition>, byte_offset: usize) -> (r: Option<usize>)
    ensures
        match r {
            Some(i) => spec_definition_at(defs@, byte_offset as int) == Some(i as int),
            None => spec_definition_at(defs@, byte_offset as int) is None,
        },
{
    let mut i: usize = 0;
    while i < defs.len()
        invariant
            i <= defs@.len(),
            forall|j: int| 0 <= j < i ==> !(#[trigger] defs@[j]).span.spec_contains(byte_offset as int),
        decreases defs@.len() - i,
    {
        if defs[i].span.contains(byte_offset) {
            proof {
                assert(first_containing(defs@, byte_offset as int, i as int));
                let c = choose|k: int| first_containing(defs@, byte_offset as int, k);
                if c < i {
                    assert(!defs@[c].span.spec_contains(byte_offset as int));
                }
                if (i as int) < c {
                    assert(!defs@[i as int].span.spec_contains(byte_offset as int));
                }
                assert(c == i as int);
            }
            return Some(i);
        }
        i = i + 1;
    }
    None
}

/// The first top-level definition whose span contains `byte_offset`.
pub fn definition_at_offset_in_hir<'a>(hir: &'a FileHir, byte_offset: usize) -> (r: Option<&'a Definition>)
    ensures
        match r {
            Some(d) => spec_definition_at(hir.definitions@, byte_offset as int) matches Some(i)
                && *d == hir.definitions@[i],
            None => spec_definition_at(hir.definitions@, byte_offset as int) is None,
        },
{
    match definition_index_at(&hir.definitions, byte_offset) {
        Some(i) => Some(&hir.definitions[i]),
        None => None,
    }
}

/// A symbol in scope with the enum naming its values, if any.
#[derive(Clone, Copy, PartialEq, Eq, Debug, Structural)]
pub struct LocalBinding {
    pub symbol: SymbolId,
    pub enum_ty: Option<Name>,
}

pub open spec fn ref_occ(symbol: SymbolId, span: Span) -> SymbolOccurrence {
    SymbolOccurrence { symbol, span, kind: SymbolOccurrenceKind::Reference }
}

pub open spec fn decl_occ(symbol: SymbolId, span: Span) -> SymbolOccurrence {
    SymbolOccurrence { symbol, span, kind: SymbolOccurrenceKind::Declaration }
}

/// The innermost (last) binding named `name`.
pub open spec fn spec_local_binding(vis: Seq<LocalBinding>, name: Name) -> Option<LocalBinding>
    decreases vis.len(),
{
    if vis.len() == 0 {
        None
    } else if vis.last().symbol.spec_name() == name {
        Some(vis.last())
    } else {
        spec_local_binding(vis.drop_last(), name)
    }
}

/// The enum a format refers to, when it is a reference to an enum.
pub open spec fn spec_enum_type(defs: Seq<Definition>, c: Combinator) -> Option<Name> {
    let name = match c {
        Combinator::Reference { name, .. } => Some(name),
        Combinator::ConstrainedReference { name, .. } => Some(name),
        _ => None,
    };
    match name {
        Some(n) => match spec_resolve(defs, n) {
            Some(d) => if d.kind is Enum {
                Some(d.name)
            } else {
                None
            },
            None => None,
        },
        None => None,
    }
}

/// Index of the first variant named `n`.
pub open spec fn first_variant_named(vs: Seq<EnumVariant>, n: Name) -> Option<int>
    decreases vs.len(),
{
    if vs.len() == 0 {
        None
    } else if vs[0].name == n {
        Some(0)
    } else {
        match first_variant_named(vs.drop_first(), n) {
            Some(j) => Some(j + 1),
            None => None,
        }
    }
}

/// The symbol of variant `variant` of enum `enum_name`.
pub open spec fn spec_variant_symbol(defs: Seq<Definition>, enum_name: Name, variant: Name) -> Option<
    SymbolId,
> {
    match spec_resolve(defs, enum_name) {
        Some(d) => match d.kind {
            DefinitionKind::Enum(e) => match first_variant_named(e.variants@, variant) {
                Some(k) => Some(
                    SymbolId::EnumVariant {
                        owner: enum_name,
                        name: e.variants@[k].name,
                        declaration: e.variants@[k].span,
                    },
                ),
                None => None,
            },
            _ => None,
        },
        None => None,
    }
}

/// A reference to variant `v` of `enum_ty`, when it exists.
pub open spec fn variant_ref(defs: Seq<Definition>, enum_ty: Name, v: NameRef) -> Seq<SymbolOccurrence> {
    match spec_variant_symbol(defs, enum_ty, v.name) {
        Some(sym) => seq![ref_occ(sym, v.span)],
        None => Seq::empty(),
    }
}

/// A reference to the local binding named by `r`, when it is in scope.
pub open spec fn local_ref(vis: Seq<LocalBinding>, r: NameRef) -> Seq<SymbolOccurrence> {
    match spec_local_binding(vis, r.name) {
        Some(b) => seq![ref_occ(b.symbol, r.span)],
        None => Seq::empty(),
    }
}

/// A reference to the definition named by `r`, when it exists.
pub open spec fn def_ref(defs: Seq<Definition>, r: NameRef) -> Seq<SymbolOccurrence> {
    match spec_resolve(defs, r.name) {
        Some(d) => seq![ref_occ(d.spec_symbol_id(), r.span)],
        None => Seq::empty(),
    }
}

/// The enum variant named by a string constant of an enum-typed format.
pub open spec fn spec_const_occ(defs: Seq<Definition>, value: Option<ConstValue>, enum_ty: Option<Name>) -> Seq<
    SymbolOccurrence,
> {
    match (value, enum_ty) {
        (Some(ConstValue::String(v)), Some(e)) => variant_ref(defs, e, v),
        _ => Seq::empty(),
    }
}

pub open spec fn refs_of_args(vis: Seq<LocalBinding>, args: Seq<NameRef>) -> Seq<SymbolOccurrence>
    decreases args.len(),
{
    if args.len() == 0 {
        Seq::empty()
    } else {
        refs_of_args(vis, args.drop_last()) + local_ref(vis, args.last())
    }
}

pub open spec fn variant_refs(defs: Seq<Definition>, enum_ty: Name, vs: Seq<NameRef>) -> Seq<
    SymbolOccurrence,
>
    decreases vs.len(),
{
    if vs.len() == 0 {
        Seq::empty()
    } else {
        variant_refs(defs, enum_ty, vs.drop_last()) + variant_ref(defs, enum_ty, vs.last())
    }
}

/// The symbol of a struct field.
pub open spec fn field_symbol(owner: Name, f: Field) -> SymbolId {
    SymbolId::Field { owner, name: f.name, declaration: f.span, is_dependent: f.is_dependent }
}

/// Scope of field `k` of a struct: the outer scope and every earlier field.
pub open spec fn field_scope(
    defs: Seq<Definition>,
    owner: Name,
    vis: Seq<LocalBinding>,
    fs: Seq<Field>,
    k: int,
) -> Seq<LocalBinding> {
    vis + Seq::new(
        k as nat,
        |j: int| LocalBinding { symbol: field_symbol(owner, fs[j]), enum_ty: spec_enum_type(defs, fs[j].ty) },
    )
}

/// Occurrences of the symbols used in a format (declarations of fields,
/// references to definitions, locals and enum variants), in source order.
pub open spec fn spec_comb_occ(
    defs: Seq<Definition>,
    owner: Name,
    c: Combinator,
    vis: Seq<LocalBinding>,
) -> Seq<SymbolOccurrence>
    decreases c, 0nat,
{
    match c {
        Combinator::Reference { name, args, span } => (if args@.len() == 0 && spec_local_binding(
            vis,
            name,
        ) is Some {
            seq![ref_occ(spec_local_binding(vis, name)->0.symbol, span)]
        } else {
            def_ref(defs, NameRef { name, span })
        }) + refs_of_args(vis, args@),
        Combinator::ConstrainedReference { name, constraint, span, .. } => match spec_resolve(
            defs,
            name,
        ) {
            Some(d) => seq![ref_occ(d.spec_symbol_id(), span)] + if d.kind is Enum {
                variant_refs(defs, d.name, constraint@)
            } else {
                Seq::empty()
            },
            None => Seq::empty(),
        },
        Combinator::Struct(s) => spec_fields_occ(defs, owner, s.fields@, vis, s.fields@.len()),
        Combinator::Choice(ch) => {
            let b = match ch.discriminant {
                Some(d) => spec_local_binding(vis, d.name),
                None => None,
            };
            let head = match ch.discriminant {
                Some(d) => local_ref(vis, d),
                None => Seq::empty(),
            };
            let de = match b {
                Some(b) => b.enum_ty,
                None => None,
            };
            head + spec_arms_occ(defs, owner, ch.arms@, vis, de, ch.arms@.len())
        },
        Combinator::Array(a) => spec_comb_occ(defs, owner, *a.element, vis) + spec_expr_occ(
            defs,
            a.length,
            vis,
        ),
        Combinator::Vec(v) => spec_comb_occ(defs, owner, *v.element, vis),
        Combinator::Option(o) => spec_comb_occ(defs, owner, *o.element, vis),
        Combinator::Wrap(w) => spec_wrap_occ(defs, owner, w.args@, vis, w.args@.len()),
        Combinator::Bind { inner, target, .. } => spec_comb_occ(defs, owner, *inner, vis)
            + spec_comb_occ(defs, owner, *target, vis),
        _ => Seq::empty(),
    }
}

pub open spec fn spec_fields_occ(
    defs: Seq<Definition>,
    owner: Name,
    fs: Seq<Field>,
    vis: Seq<LocalBinding>,
    k: nat,
) -> Seq<SymbolOccurrence>
    decreases fs, k,
{
    if k == 0 || k > fs.len() {
        Seq::empty()
    } else {
        let f = fs[k - 1];
        spec_fields_occ(defs, owner, fs, vis, (k - 1) as nat) + seq![decl_occ(field_symbol(owner, f), f.span)]
            + spec_comb_occ(defs, owner, f.ty, field_scope(defs, owner, vis, fs, k - 1))
            + spec_const_occ(defs, f.const_value, spec_enum_type(defs, f.ty))
    }
}

pub open spec fn spec_arms_occ(
    defs: Seq<Definition>,
    owner: Name,
    arms: Seq<crate::types::ChoiceArm>,
    vis: Seq<LocalBinding>,
    de: Option<Name>,
    k: nat,
) -> Seq<SymbolOccurrence>
    decreases arms, k,
{
    if k == 0 || k > arms.len() {
        Seq::empty()
    } else {
        spec_arms_occ(defs, owner, arms, vis, de, (k - 1) as nat) + (match (arms[k - 1].pattern, de) {
            (ChoicePattern::Variant(v), Some(e)) => variant_ref(defs, e, v),
            _ => Seq::empty(),
        }) + spec_comb_occ(defs, owner, arms[k - 1].body, vis)
    }
}

pub open spec fn spec_wrap_occ(
    defs: Seq<Definition>,
    owner: Name,
    args: Seq<WrapArg>,
    vis: Seq<LocalBinding>,
    k: nat,
) -> Seq<SymbolOccurrence>
    decreases args, k,
{
    if k == 0 || k > args.len() {
        Seq::empty()
    } else {
        spec_wrap_occ(defs, owner, args, vis, (k - 1) as nat) + match args[k - 1] {
            WrapArg::Combinator(c) => spec_comb_occ(defs, owner, c, vis),
            WrapArg::ConstEnum { ty, variant } => match spec_resolve(defs, ty.name) {
                Some(d) => seq![ref_occ(d.spec_symbol_id(), ty.span)] + if d.kind is Enum {
                    variant_ref(defs, d.name, variant)
                } else {
                    Seq::empty()
                },
                None => Seq::empty(),
            },
            _ => Seq::empty(),
        }
    }
}

/// Occurrences in a length expression: dependent paths and named sizes.
pub open spec fn spec_expr_occ(defs: Seq<Definition>, e: LengthExpr, vis: Seq<LocalBinding>) -> Seq<
    SymbolOccurrence,
>
    decreases e, 0nat,
{
    spec_terms_occ(defs, e.terms@, vis, e.terms@.len())
}

pub open spec fn spec_terms_occ(
    defs: Seq<Definition>,
    ts: Seq<LengthTerm>,
    vis: Seq<LocalBinding>,
    k: nat,
) -> Seq<SymbolOccurrence>
    decreases ts, k,
{
    if k == 0 || k > ts.len() {
        Seq::empty()
    } else {
        spec_terms_occ(defs, ts, vis, (k - 1) as nat) + spec_atoms_occ(
            defs,
            ts[k - 1].atoms@,
            vis,
            ts[k - 1].atoms@.len(),
        )
    }
}

pub open spec fn spec_atoms_occ(
    defs: Seq<Definition>,
    ats: Seq<LengthAtom>,
    vis: Seq<LocalBinding>,
    k: nat,
) -> Seq<SymbolOccurrence>
    decreases ats, k,
{
    if k == 0 || k > ats.len() {
        Seq::empty()
    } else {
        spec_atoms_occ(defs, ats, vis, (k - 1) as nat) + spec_atom_occ(defs, ats[k - 1], vis)
    }
}

pub open spec fn spec_atom_occ(defs: Seq<Definition>, a: LengthAtom, vis: Seq<LocalBinding>) -> Seq<
    SymbolOccurrence,
>
    decreases a, 0nat,
{
    match a {
        LengthAtom::Param(p) => local_ref(vis, p),
        LengthAtom::ProjectedParam { base, .. } => local_ref(vis, base),
        LengthAtom::SizeOf(SizeTarget::Named(n)) => def_ref(defs, n),
        LengthAtom::Paren(inner) => spec_expr_occ(defs, *inner, vis),
        _ => Seq::empty(),
    }
}

/// The symbol of a parameter.
pub open spec fn param_symbol(owner: Name, p: Param) -> SymbolId {
    SymbolId::Param { owner, name: p.name, declaration: p.span }
}

/// Scope of the body of a format: its parameters.
pub open spec fn param_scope(defs: Seq<Definition>, owner: Name, ps: Seq<Param>) -> Seq<LocalBinding> {
    Seq::new(
        ps.len(),
        |j: int| LocalBinding { symbol: param_symbol(owner, ps[j]), enum_ty: spec_enum_type(defs, ps[j].ty) },
    )
}

/// Occurrences of one definition: its name, its parameters, fields and
/// variants, and the references in its body.
pub open spec fn spec_def_occ(defs: Seq<Definition>, d: Definition) -> Seq<SymbolOccurrence> {
    seq![decl_occ(d.spec_symbol_id(), d.name_span)] + match d.kind {
        DefinitionKind::Combinator { params, body } => Seq::new(
            params@.len(),
            |j: int| decl_occ(param_symbol(d.name, params@[j]), params@[j].span),
        ) + spec_comb_occ(defs, d.name, body, param_scope(defs, d.name, params@)),
        DefinitionKind::Enum(e) => Seq::new(
            e.variants@.len(),
            |j: int|
                decl_occ(
                    SymbolId::EnumVariant {
                        owner: d.name,
                        name: e.variants@[j].name,
                        declaration: e.variants@[j].span,
                    },
                    e.variants@[j].span,
                ),
        ),
        DefinitionKind::Const { ty, value } => spec_comb_occ(defs, d.name, ty, Seq::empty())
            + spec_const_occ(defs, Some(value), spec_enum_type(defs, ty)),
        DefinitionKind::Endianness(_) => Seq::empty(),
    }
}

/// Occurrences of the first `k` definitions, in order.
pub open spec fn spec_file_occ(defs: Seq<Definition>, k: nat) -> Seq<SymbolOccurrence>
    decreases k,
{
    if k == 0 || k > defs.len() {
        Seq::empty()
    } else {
        spec_file_occ(defs, (k - 1) as nat) + spec_def_occ(defs, defs[k - 1])
    }
}

/// Every symbol occurrence of a file.
pub open spec fn spec_occurrences(defs: Seq<Definition>) -> Seq<SymbolOccurrence> {
    spec_file_occ(defs, defs.len())
}

/// The first definition named `name`.
fn resolve_def<'a>(defs: &'a Vec<Definition>, name: Name) -> (r: Option<&'a Definition>)
    ensures
        match r {
            Some(d) => spec_resolve(defs@, name) == Some(*d),
            None => spec_resolve(defs@, name) is None,
        },
{
    match find_def(defs, name) {
        Some(i) => Some(&defs[i]),
        None => None,
    }
}

/// The innermost binding named `name`.
fn resolve_local_binding(vis: &Vec<LocalBinding>, name: Name) -> (r: Option<LocalBinding>)
    ensures
        r == spec_local_binding(vis@, name),
{
    let mut i: usize = vis.len();
    assert(vis@.take(i as int) =~= vis@);
    while i > 0
        invariant
            i <= vis@.len(),
            spec_local_binding(vis@, name) == spec_local_binding(vis@.take(i as int), name),
        decreases i,
    {
        assert(vis@.take(i as int).drop_last() =~= vis@.take(i - 1));
        if vis[i - 1].symbol.name() == name {
            return Some(vis[i - 1]);
        }
        i = i - 1;
    }
    None
}

/// The enum a format refers to, when it is a reference to an enum.
fn enum_type_for_combinator(defs: &Vec<Definition>, combinator: &Combinator) -> (r: Option<Name>)
    ensures
        r == spec_enum_type(defs@, *combinator),
{
    let name = match combinator {
        Combinator::Reference { name, .. } => *name,
        Combinator::ConstrainedReference { name, .. } => *name,
        _ => {
            return None;
        },
    };
    match resolve_def(defs, name) {
        Some(d) => match &d.kind {
            DefinitionKind::Enum(_) => Some(d.name),
            _ => None,
        },
        None => None,
    }
}

proof fn lemma_first_variant_named(vs: Seq<EnumVariant>, n: Name, j: int)
    requires
        0 <= j <= vs.len(),
        forall|k: int| 0 <= k < j ==> (#[trigger] vs[k]).name != n,
        j < vs.len() ==> vs[j].name == n,
    ensures
        j < vs.len() ==> first_variant_named(vs, n) == Some(j),
        j == vs.len() ==> first_variant_named(vs, n) is None,
    decreases vs.len(),
{
    if vs.len() > 0 && j > 0 {
        let t = vs.drop_first();
        assert forall|k: int| 0 <= k < j - 1 implies (#[trigger] t[k]).name != n by {
            assert(t[k] == vs[k + 1]);
        }
        lemma_first_variant_named(t, n, j - 1);
    }
}

/// The symbol of variant `variant_name` of the enum `enum_name`.
#[verifier::loop_isolation(false)]
fn resolve_enum_variant_symbol(defs: &Vec<Definition>, enum_name: Name, variant_name: Name) -> (r: Option<
    SymbolId,
>)
    ensures
        r == spec_variant_symbol(defs@, enum_name, variant_name),
{
    let def = match resolve_def(defs, enum_name) {
        Some(d) => d,
        None => {
            return None;
        },
    };
    match &def.kind {
        DefinitionKind::Enum(e) => {
            let vs = &e.variants;
            let mut j: usize = 0;
            while j < vs.len()
                invariant
                    j <= vs@.len(),
                    forall|k: int| 0 <= k < j ==> (#[trigger] vs@[k]).name != variant_name,
                decreases vs@.len() - j,
            {
                if vs[j].name == variant_name {
                    proof {
                        lemma_first_variant_named(vs@, variant_name, j as int);
                    }
                    return Some(
                        SymbolId::EnumVariant { owner: enum_name, name: vs[j].name, declaration: vs[j].span },
                    );
                }
                j = j + 1;
            }
            proof {
                lemma_first_variant_named(vs@, variant_name, j as int);
            }
            None
        },
        _ => None,
    }
}

fn push_occurrence(
    occurrences: &mut Vec<SymbolOccurrence>,
    symbol: SymbolId,
    span: Span,
    kind: SymbolOccurrenceKind,
)
    ensures
        final(occurrences)@ == old(occurrences)@.push(SymbolOccurrence { symbol, span, kind }),
{
    occurrences.push(SymbolOccurrence { symbol, span, kind });
}

/// Reference to the local binding named by `r`, when in scope.
fn push_local_ref(vis: &Vec<LocalBinding>, r: NameRef, occurrences: &mut Vec<SymbolOccurrence>)
    ensures
        final(occurrences)@ == old(occurrences)@ + local_ref(vis@, r),
{
    match resolve_local_binding(vis, r.name) {
        Some(b) => {
            push_occurrence(occurrences, b.symbol, r.span, SymbolOccurrenceKind::Reference);
        },
        None => {},
    }
    assert(occurrences@ =~= old(occurrences)@ + local_ref(vis@, r));
}

/// Reference to the definition named by `r`, when it exists.
fn push_def_ref(defs: &Vec<Definition>, r: NameRef, occurrences: &mut Vec<SymbolOccurrence>)
    ensures
        final(occurrences)@ == old(occurrences)@ + def_ref(defs@, r),
{
    match resolve_def(defs, r.name) {
        Some(d) => {
            push_occurrence(occurrences, d.symbol_id(), r.span, SymbolOccurrenceKind::Reference);
        },
        None => {},
    }
    assert(occurrences@ =~= old(occurrences)@ + def_ref(defs@, r));
}

/// Reference to variant `v` of `enum_ty`, when it exists.
fn push_variant_ref(
    defs: &Vec<Definition>,
    enum_ty: Name,
    v: NameRef,
    occurrences: &mut Vec<SymbolOccurrence>,
)
    ensures
        final(occurrences)@ == old(occurrences)@ + variant_ref(defs@, enum_ty, v),
{
    match resolve_enum_variant_symbol(defs, enum_ty, v.name) {
        Some(symbol) => {
            push_occurrence(occurrences, symbol, v.span, SymbolOccurrenceKind::Reference);
        },
        None => {},
    }
    assert(occurrences@ =~= old(occurrences)@ + variant_ref(defs@, enum_ty, v));
}

fn collect_const_value_occurrences(
    defs: &Vec<Definition>,
    value: Option<&ConstValue>,
    enum_ty: Option<Name>,
    occurrences: &mut Vec<SymbolOccurrence>,
)
    ensures
        final(occurrences)@ == old(occurrences)@ + spec_const_occ(
            defs@,
            match value {
                Some(v) => Some(*v),
                None => None,
            },
            enum_ty,
        ),
{
    match (value, enum_ty) {
        (Some(ConstValue::String(variant)), Some(e)) => {
            push_variant_ref(defs, e, *variant, occurrences);
        },
        _ => {
            assert(occurrences@ =~= old(occurrences)@ + Seq::<SymbolOccurrence>::empty());
        },
    }
}

/// Occurrences in a length expression.
#[verifier::loop_isolation(false)]
fn collect_length_occurrences(
    defs: &Vec<Definition>,
    expr: &LengthExpr,
    visible: &Vec<LocalBinding>,
    occurrences: &mut Vec<SymbolOccurrence>,
)
    ensures
        final(occurrences)@ == old(occurrences)@ + spec_expr_occ(defs@, *expr, visible@),
    decreases crate::check::expr_size(*expr),
{
    let ghost ts = expr.terms@;
    let ghost base = occurrences@;
    assert(occurrences@ =~= base + spec_terms_occ(defs@, ts, visible@, 0));
    let mut i: usize = 0;
    while i < expr.terms.len()
        invariant
            i <= ts.len(),
            ts == expr.terms@,
            occurrences@ == base + spec_terms_occ(defs@, ts, visible@, i as nat),
        decreases ts.len() - i,
    {
        let term = &expr.terms[i];
        let ghost ats = term.atoms@;
        let ghost mid = occurrences@;
        proof {
            crate::check::lemma_terms_sz(ts, i as int);
            assert(occurrences@ =~= mid + spec_atoms_occ(defs@, ats, visible@, 0));
        }
        let mut j: usize = 0;
        while j < term.atoms.len()
            invariant
                j <= ats.len(),
                ats == term.atoms@,
                i < ts.len(),
                term_size_le(ts, i as int, crate::check::expr_size(*expr)),
                occurrences@ == mid + spec_atoms_occ(defs@, ats, visible@, j as nat),
            decreases ats.len() - j,
        {
            let ghost before = occurrences@;
            match &term.atoms[j] {
                LengthAtom::Param(param) => {
                    push_local_ref(visible, *param, occurrences);
                },
                LengthAtom::ProjectedParam { base, .. } => {
                    push_local_ref(visible, *base, occurrences);
                },
                LengthAtom::SizeOf(SizeTarget::Named(name)) => {
                    push_def_ref(defs, *name, occurrences);
                },
                LengthAtom::Paren(inner) => {
                    proof {
                        crate::check::lemma_atoms_sz(ats, j as int);
                    }
                    collect_length_occurrences(defs, inner, visible, occurrences);
                },
                _ => {},
            }
            proof {
                assert(occurrences@ =~= before + spec_atom_occ(defs@, ats[j as int], visible@));
                assert(occurrences@ =~= mid + spec_atoms_occ(defs@, ats, visible@, (j + 1) as nat));
            }
            j = j + 1;
        }
        proof {
            assert(occurrences@ =~= base + spec_terms_occ(defs@, ts, visible@, (i + 1) as nat));
        }
        i = i + 1;
    }
}

/// Term `i` is no larger than the whole expression.
pub open spec fn term_size_le(ts: Seq<LengthTerm>, i: int, total: nat) -> bool {
    crate::check::term_size(ts[i]) < total
}

fn copy_bindings(v: &Vec<LocalBinding>) -> (r: Vec<LocalBinding>)
    ensures
        r@ == v@,
{
    let mut out: Vec<LocalBinding> = Vec::new();
    let mut i: usize = 0;
    while i < v.len()
        invariant
            i <= v@.len(),
            out@ == v@.take(i as int),
        decreases v@.len() - i,
    {
        out.push(v[i]);
        i = i + 1;
        assert(out@ =~= v@.take(i as int));
    }
    assert(v@.take(v@.len() as int) =~= v@);
    out
}

/// Occurrences of a plain or parameterized reference to a format.
#[verifier::loop_isolation(false)]
fn collect_reference_occurrences(
    defs: &Vec<Definition>,
    name: Name,
    args: &Vec<NameRef>,
    span: Span,
    visible: &Vec<LocalBinding>,
    occurrences: &mut Vec<SymbolOccurrence>,
)
    ensures
        final(occurrences)@ == old(occurrences)@ + (if args@.len() == 0 && spec_local_binding(
            visible@,
            name,
        ) is Some {
            seq![ref_occ(spec_local_binding(visible@, name)->0.symbol, span)]
        } else {
            def_ref(defs@, NameRef { name, span })
        }) + refs_of_args(visible@, args@),
{
    let local = if args.len() == 0 {
        resolve_local_binding(visible, name)
    } else {
        None
    };
    match local {
        Some(b) => {
            push_occurrence(occurrences, b.symbol, span, SymbolOccurrenceKind::Reference);
        },
        None => {
            push_def_ref(defs, NameRef { name, span }, occurrences);
        },
    }
    let ghost mid = occurrences@;
    assert(args@.take(0) =~= Seq::<NameRef>::empty());
    assert(occurrences@ =~= mid + refs_of_args(visible@, args@.take(0)));
    let mut i: usize = 0;
    while i < args.len()
        invariant
            i <= args@.len(),
            occurrences@ == mid + refs_of_args(visible@, args@.take(i as int)),
        decreases args@.len() - i,
    {
        push_local_ref(visible, args[i], occurrences);
        proof {
            assert(args@.take(i + 1).drop_last() =~= args@.take(i as int));
            assert(occurrences@ =~= mid + refs_of_args(visible@, args@.take(i + 1)));
        }
        i = i + 1;
    }
    assert(args@.take(args@.len() as int) =~= args@);
}

/// Occurrences of a reference refined by enum variants.
#[verifier::loop_isolation(false)]
fn collect_constrained_occurrences(
    defs: &Vec<Definition>,
    name: Name,
    constraint: &Vec<NameRef>,
    span: Span,
    occurrences: &mut Vec<SymbolOccurrence>,
)
    ensures
        final(occurrences)@ == old(occurrences)@ + match spec_resolve(defs@, name) {
            Some(d) => seq![ref_occ(d.spec_symbol_id(), span)] + if d.kind is Enum {
                variant_refs(defs@, d.name, constraint@)
            } else {
                Seq::empty()
            },
            None => Seq::empty(),
        },
{
    let d = match resolve_def(defs, name) {
        Some(d) => d,
        None => {
            assert(occurrences@ =~= old(occurrences)@ + Seq::<SymbolOccurrence>::empty());
            return ;
        },
    };
    push_occurrence(occurrences, d.symbol_id(), span, SymbolOccurrenceKind::Reference);
    let is_enum = match &d.kind {
        DefinitionKind::Enum(_) => true,
        _ => false,
    };
    if is_enum {
        let ghost mid = occurrences@;
        assert(constraint@.take(0) =~= Seq::<NameRef>::empty());
        assert(occurrences@ =~= mid + variant_refs(defs@, d.name, constraint@.take(0)));
        let mut i: usize = 0;
        while i < constraint.len()
            invariant
                i <= constraint@.len(),
                occurrences@ == mid + variant_refs(defs@, d.name, constraint@.take(i as int)),
            decreases constraint@.len() - i,
        {
            push_variant_ref(defs, d.name, constraint[i], occurrences);
            proof {
                assert(constraint@.take(i + 1).drop_last() =~= constraint@.take(i as int));
                assert(occurrences@ =~= mid + variant_refs(defs@, d.name, constraint@.take(i + 1)));
            }
            i = i + 1;
        }
        assert(constraint@.take(constraint@.len() as int) =~= constraint@);
    } else {
        assert(occurrences@ =~= old(occurrences)@ + seq![ref_occ(d.spec_symbol_id(), span)] + Seq::<SymbolOccurrence>::empty());
    }
}

/// Occurrences of the symbols used in a format, in source order.
fn collect_combinator_occurrences(
    defs: &Vec<Definition>,
    owner: Name,
    combinator: &Combinator,
    visible: &Vec<LocalBinding>,
    occurrences: &mut Vec<SymbolOccurrence>,
)
    ensures
        final(occurrences)@ == old(occurrences)@ + spec_comb_occ(defs@, owner, *combinator, visible@),
    decreases crate::check::comb_size(*combinator), 1nat,
{
    match combinator {
        Combinator::Reference { name, args, span } => {
            collect_reference_occurrences(defs, *name, args, *span, visible, occurrences);
        },
        Combinator::ConstrainedReference { name, constraint, span, .. } => {
            collect_constrained_occurrences(defs, *name, constraint, *span, occurrences);
        },
        Combinator::Struct(structure) => {
            collect_struct_occurrences(defs, owner, structure, visible, occurrences);
        },
        Combinator::Choice(choice) => {
            collect_choice_occurrences(defs, owner, choice, visible, occurrences);
        },
        Combinator::Array(array) => {
            let ghost before = occurrences@;
            collect_combinator_occurrences(defs, owner, &array.element, visible, occurrences);
            let ghost mid = occurrences@;
            collect_length_occurrences(defs, &array.length, visible, occurrences);
            assert(occurrences@ =~= before + spec_comb_occ(defs@, owner, *combinator, visible@));
        },
        Combinator::Vec(vector) => {
            collect_combinator_occurrences(defs, owner, &vector.element, visible, occurrences);
        },
        Combinator::Option(option) => {
            collect_combinator_occurrences(defs, owner, &option.element, visible, occurrences);
        },
        Combinator::Wrap(wrap) => {
            collect_wrap_occurrences(defs, owner, wrap, visible, occurrences);
        },
        Combinator::Bind { inner, target, .. } => {
            let ghost before = occurrences@;
            collect_combinator_occurrences(defs, owner, inner, visible, occurrences);
            collect_combinator_occurrences(defs, owner, target, visible, occurrences);
            assert(occurrences@ =~= before + spec_comb_occ(defs@, owner, *combinator, visible@));
        },
        _ => {
            assert(occurrences@ =~= old(occurrences)@ + spec_comb_occ(defs@, owner, *combinator, visible@));
        },
    }
}

/// Occurrences in a struct: each field is declared, then its format is
/// visited with every earlier field in scope.
#[verifier::loop_isolation(false)]
fn collect_struct_occurrences(
    defs: &Vec<Definition>,
    owner: Name,
    structure: &crate::types::StructCombinator,
    visible: &Vec<LocalBinding>,
    occurrences: &mut Vec<SymbolOccurrence>,
)
    ensures
        final(occurrences)@ == old(occurrences)@ + spec_comb_occ(
            defs@,
            owner,
            Combinator::Struct(*structure),
            visible@,
        ),
    decreases crate::check::fields_sz(structure.fields@), 0nat,
{
    let ghost fs = structure.fields@;
    let ghost base = occurrences@;
    let mut local_visible = copy_bindings(visible);
    assert(local_visible@ =~= field_scope(defs@, owner, visible@, fs, 0));
    assert(occurrences@ =~= base + spec_fields_occ(defs@, owner, fs, visible@, 0));
    let mut i: usize = 0;
    while i < structure.fields.len()
        invariant
            i <= fs.len(),
            fs == structure.fields@,
            local_visible@ == field_scope(defs@, owner, visible@, fs, i as int),
            occurrences@ == base + spec_fields_occ(defs@, owner, fs, visible@, i as nat),
        decreases fs.len() - i,
    {
        let field = &structure.fields[i];
        let ghost before = occurrences@;
        let symbol = SymbolId::Field {
            owner,
            name: field.name,
            declaration: field.span,
            is_dependent: field.is_dependent,
        };
        push_occurrence(occurrences, symbol, field.span, SymbolOccurrenceKind::Declaration);
        proof {
            crate::check::lemma_fields_sz(fs, i as int);
        }
        collect_combinator_occurrences(defs, owner, &field.ty, &local_visible, occurrences);
        let enum_ty = enum_type_for_combinator(defs, &field.ty);
        let value = match &field.const_value {
            Some(v) => Some(v),
            None => None,
        };
        collect_const_value_occurrences(defs, value, enum_ty, occurrences);
        local_visible.push(LocalBinding { symbol, enum_ty });
        proof {
            assert(local_visible@ =~= field_scope(defs@, owner, visible@, fs, i + 1));
            assert(occurrences@ =~= base + spec_fields_occ(defs@, owner, fs, visible@, (i + 1) as nat));
        }
        i = i + 1;
    }
}

/// Occurrences in a choice: the discriminant, then each arm's variant
/// pattern and body.
#[verifier::loop_isolation(false)]
fn collect_choice_occurrences(
    defs: &Vec<Definition>,
    owner: Name,
    choice: &crate::types::ChoiceCombinator,
    visible: &Vec<LocalBinding>,
    occurrences: &mut Vec<SymbolOccurrence>,
)
    ensures
        final(occurrences)@ == old(occurrences)@ + spec_comb_occ(
            defs@,
            owner,
            Combinator::Choice(*choice),
            visible@,
        ),
    decreases crate::check::arms_sz(choice.arms@), 0nat,
{
    let discriminant_enum = match &choice.discriminant {
        Some(d) => match resolve_local_binding(visible, d.name) {
            Some(b) => {
                push_occurrence(occurrences, b.symbol, d.span, SymbolOccurrenceKind::Reference);
                b.enum_ty
            },
            None => None,
        },
        None => None,
    };
    let ghost mid = occurrences@;
    let ghost arms = choice.arms@;
    assert(occurrences@ =~= mid + spec_arms_occ(defs@, owner, arms, visible@, discriminant_enum, 0));
    let mut i: usize = 0;
    while i < choice.arms.len()
        invariant
            i <= arms.len(),
            arms == choice.arms@,
            occurrences@ == mid + spec_arms_occ(defs@, owner, arms, visible@, discriminant_enum, i as nat),
        decreases arms.len() - i,
    {
        let arm = &choice.arms[i];
        let ghost before = occurrences@;
        match (&arm.pattern, discriminant_enum) {
            (ChoicePattern::Variant(variant), Some(enum_ty)) => {
                push_variant_ref(defs, enum_ty, *variant, occurrences);
            },
            _ => {},
        }
        proof {
            crate::check::lemma_arms_sz(arms, i as int);
        }
        collect_combinator_occurrences(defs, owner, &arm.body, visible, occurrences);
        proof {
            assert(occurrences@ =~= mid + spec_arms_occ(
                defs@,
                owner,
                arms,
                visible@,
                discriminant_enum,
                (i + 1) as nat,
            ));
        }
        i = i + 1;
    }
    assert(occurrences@ =~= old(occurrences)@ + spec_comb_occ(
        defs@,
        owner,
        Combinator::Choice(*choice),
        visible@,
    ));
}

/// Occurrences in the arguments of a wrap.
#[verifier::loop_isolation(false)]
fn collect_wrap_occurrences(
    defs: &Vec<Definition>,
    owner: Name,
    wrap: &crate::types::WrapCombinator,
    visible: &Vec<LocalBinding>,
    occurrences: &mut Vec<SymbolOccurrence>,
)
    ensures
        final(occurrences)@ == old(occurrences)@ + spec_comb_occ(
            defs@,
            owner,
            Combinator::Wrap(*wrap),
            visible@,
        ),
    decreases crate::check::wrap_sz(wrap.args@), 0nat,
{
    let ghost args = wrap.args@;
    let ghost base = occurrences@;
    assert(occurrences@ =~= base + spec_wrap_occ(defs@, owner, args, visible@, 0));
    let mut i: usize = 0;
    while i < wrap.args.len()
        invariant
            i <= args.len(),
            args == wrap.args@,
            occurrences@ == base + spec_wrap_occ(defs@, owner, args, visible@, i as nat),
        decreases args.len() - i,
    {
        let ghost before = occurrences@;
        match &wrap.args[i] {
            WrapArg::Combinator(c) => {
                proof {
                    crate::check::lemma_wrap_sz(args, i as int);
                }
                collect_combinator_occurrences(defs, owner, c, visible, occurrences);
            },
            WrapArg::ConstEnum { ty, variant } => {
                match resolve_def(defs, ty.name) {
                    Some(d) => {
                        push_occurrence(occurrences, d.symbol_id(), ty.span, SymbolOccurrenceKind::Reference);
                        match &d.kind {
                            DefinitionKind::Enum(_) => {
                                push_variant_ref(defs, d.name, *variant, occurrences);
                            },
                            _ => {},
                        }
                    },
                    None => {},
                }
            },
            _ => {},
        }
        proof {
            assert(occurrences@ =~= base + spec_wrap_occ(defs@, owner, args, visible@, (i + 1) as nat));
        }
        i = i + 1;
    }
}

/// Occurrences of one definition.
#[verifier::loop_isolation(false)]
fn collect_definition_occurrences(
    defs: &Vec<Definition>,
    definition: &Definition,
    occurrences: &mut Vec<SymbolOccurrence>,
)
    ensures
        final(occurrences)@ == old(occurrences)@ + spec_def_occ(defs@, *definition),
{
    push_occurrence(
        occurrences,
        definition.symbol_id(),
        definition.name_span,
        SymbolOccurrenceKind::Declaration,
    );
    let ghost head = occurrences@;
    match &definition.kind {
        DefinitionKind::Combinator { params, body } => {
            let ghost ps = params@;
            let mut visible: Vec<LocalBinding> = Vec::new();
            let mut i: usize = 0;
            while i < params.len()
                invariant
                    i <= ps.len(),
                    ps == params@,
                    visible@ == param_scope(defs@, definition.name, ps).take(i as int),
                    occurrences@ == head + Seq::new(
                        i as nat,
                        |j: int| decl_occ(param_symbol(definition.name, ps[j]), ps[j].span),
                    ),
                decreases ps.len() - i,
            {
                let param = &params[i];
                let symbol = SymbolId::Param { owner: definition.name, name: param.name, declaration: param.span };
                push_occurrence(occurrences, symbol, param.span, SymbolOccurrenceKind::Declaration);
                let enum_ty = enum_type_for_combinator(defs, &param.ty);
                visible.push(LocalBinding { symbol, enum_ty });
                proof {
                    assert(visible@ =~= param_scope(defs@, definition.name, ps).take(i + 1));
                    assert(occurrences@ =~= head + Seq::new(
                        (i + 1) as nat,
                        |j: int| decl_occ(param_symbol(definition.name, ps[j]), ps[j].span),
                    ));
                }
                i = i + 1;
            }
            assert(param_scope(defs@, definition.name, ps).take(ps.len() as int) =~= param_scope(
                defs@,
                definition.name,
                ps,
            ));
            collect_combinator_occurrences(defs, definition.name, body, &visible, occurrences);
        },
        DefinitionKind::Enum(enum_def) => {
            let ghost vs = enum_def.variants@;
            let mut i: usize = 0;
            while i < enum_def.variants.len()
                invariant
                    i <= vs.len(),
                    vs == enum_def.variants@,
                    occurrences@ == head + Seq::new(
                        i as nat,
                        |j: int|
                            decl_occ(
                                SymbolId::EnumVariant {
                                    owner: definition.name,
                                    name: vs[j].name,
                                    declaration: vs[j].span,
                                },
                                vs[j].span,
                            ),
                    ),
                decreases vs.len() - i,
            {
                let variant = &enum_def.variants[i];
                let symbol = SymbolId::EnumVariant {
                    owner: definition.name,
                    name: variant.name,
                    declaration: variant.span,
                };
                push_occurrence(occurrences, symbol, variant.span, SymbolOccurrenceKind::Declaration);
                proof {
                    assert(occurrences@ =~= head + Seq::new(
                        (i + 1) as nat,
                        |j: int|
                            decl_occ(
                                SymbolId::EnumVariant {
                                    owner: definition.name,
                                    name: vs[j].name,
                                    declaration: vs[j].span,
                                },
                                vs[j].span,
                            ),
                    ));
                }
                i = i + 1;
            }
        },
        DefinitionKind::Const { ty, value } => {
            let visible: Vec<LocalBinding> = Vec::new();
            assert(visible@ =~= Seq::<LocalBinding>::empty());
            collect_combinator_occurrences(defs, definition.name, ty, &visible, occurrences);
            let enum_ty = enum_type_for_combinator(defs, ty);
            collect_const_value_occurrences(defs, Some(value), enum_ty, occurrences);
        },
        DefinitionKind::Endianness(_) => {},
    }
    assert(occurrences@ =~= old(occurrences)@ + spec_def_occ(defs@, *definition));
}

/// Every symbol occurrence of a file, definition by definition.
fn collect_symbol_occurrences(hir: &FileHir) -> (r: Vec<SymbolOccurrence>)
    ensures
        r@ == spec_occurrences(hir.definitions@),
{
    let defs = &hir.definitions;
    let mut occurrences: Vec<SymbolOccurrence> = Vec::new();
    assert(occurrences@ =~= spec_file_occ(defs@, 0));
    let mut i: usize = 0;
    while i < defs.len()
        invariant
            i <= defs@.len(),
            occurrences@ == spec_file_occ(defs@, i as nat),
        decreases defs@.len() - i,
    {
        collect_definition_occurrences(defs, &defs[i], &mut occurrences);
        assert(occurrences@ =~= spec_file_occ(defs@, (i + 1) as nat));
        i = i + 1;
    }
    occurrences
}

/// The first occurrence whose span contains `offset`.
pub open spec fn first_occ_at(occ: Seq<SymbolOccurrence>, offset: int) -> Option<SymbolOccurrence>
    decreases occ.len(),
{
    if occ.len() == 0 {
        None
    } else if occ[0].span.spec_contains(offset) {
        Some(occ[0])
    } else {
        first_occ_at(occ.drop_first(), offset)
    }
}

/// The symbol occurrence under a byte offset: the first, in source order of
/// the collection, whose span contains it.
pub fn symbol_occurrence_at_offset_in_hir(hir: &FileHir, byte_offset: usize) -> (r: Option<SymbolOccurrence>)
    ensures
        r == first_occ_at(spec_occurrences(hir.definitions@), byte_offset as int),
{
    let occurrences = collect_symbol_occurrences(hir);
    let ghost all = occurrences@;
    assert(all.skip(0) =~= all);
    let mut i: usize = 0;
    while i < occurrences.len()
        invariant
            i <= all.len(),
            all == occurrences@,
            all == spec_occurrences(hir.definitions@),
            first_occ_at(all, byte_offset as int) == first_occ_at(all.skip(i as int), byte_offset as int),
        decreases all.len() - i,
    {
        assert(all.skip(i as int).drop_first() =~= all.skip(i + 1));
        assert(all.skip(i as int)[0] == all[i as int]);
        if occurrences[i].span.contains(byte_offset) {
            return Some(occurrences[i]);
        }
        i = i + 1;
    }
    None
}

/// The symbol under a byte offset.
pub fn symbol_at_offset_in_hir(hir: &FileHir, byte_offset: usize) -> (r: Option<SymbolId>)
    ensures
        r == match first_occ_at(spec_occurrences(hir.definitions@), byte_offset as int) {
            Some(o) => Some(o.symbol),
            None => None,
        },
{
    match symbol_occurrence_at_offset_in_hir(hir, byte_offset) {
        Some(o) => Some(o.symbol),
        None => None,
    }
}

/// Whether an occurrence is reported among the references of `symbol`.
pub open spec fn is_reported(o: SymbolOccurrence, symbol: SymbolId, include_declaration: bool) -> bool {
    o.symbol == symbol && (include_declaration || o.kind != SymbolOccurrenceKind::Declaration)
}

/// Every occurrence of `symbol`, declarations included on request, in
/// source order.
pub fn references_for_symbol_in_hir(hir: &FileHir, symbol: SymbolId, include_declaration: bool) -> (r: Vec<
    SymbolOccurrence,
>)
    ensures
        r@ == spec_occurrences(hir.definitions@).filter(
            |o: SymbolOccurrence| is_reported(o, symbol, include_declaration),
        ),
{
    let occurrences = collect_symbol_occurrences(hir);
    let ghost all = occurrences@;
    let mut out: Vec<SymbolOccurrence> = Vec::new();
    let mut i: usize = 0;
    assert(all.take(0).filter(|o: SymbolOccurrence| is_reported(o, symbol, include_declaration)) =~= Seq::<
        SymbolOccurrence,
    >::empty());
    while i < occurrences.len()
        invariant
            i <= all.len(),
            all == occurrences@,
            out@ == all.take(i as int).filter(|o: SymbolOccurrence| is_reported(o, symbol, include_declaration)),
        decreases all.len() - i,
    {
        let o = occurrences[i];
        proof {
            assert(all.take(i + 1).drop_last() =~= all.take(i as int));
            all.take(i as int).lemma_filter_push(
                o,
                |o: SymbolOccurrence| is_reported(o, symbol, include_declaration),
            );
            assert(all.take(i as int).push(o) =~= all.take(i + 1));
        }
        let kind_ok = match o.kind {
            SymbolOccurrenceKind::Declaration => include_declaration,
            SymbolOccurrenceKind::Reference => true,
        };
        if o.symbol == symbol && kind_ok {
            out.push(o);
        }
        i = i + 1;
    }
    assert(all.take(all.len() as int) =~= all);
    out
}

pub open spec fn names_of(rs: Seq<NameRef>) -> Seq<Name> {
    Seq::new(rs.len(), |i: int| rs[i].name)
}

/// Names referred to by a format: definitions, arguments, discriminants,
/// variants and the paths and sizes of its length expressions, in order.
pub open spec fn spec_refs(c: Combinator) -> Seq<Name>
    decreases c, 0nat,
{
    match c {
        Combinator::Reference { name, args, .. } => seq![name] + names_of(args@),
        Combinator::ConstrainedReference { name, constraint, .. } => seq![name] + names_of(constraint@),
        Combinator::Struct(s) => fields_refs(s.fields@, s.fields@.len()),
        Combinator::Choice(ch) => (match ch.discriminant {
            Some(d) => seq![d.name],
            None => Seq::empty(),
        }) + arms_refs(ch.arms@, ch.arms@.len()),
        Combinator::Array(a) => spec_refs(*a.element) + length_refs(a.length),
        Combinator::Vec(v) => spec_refs(*v.element),
        Combinator::Option(o) => spec_refs(*o.element),
        Combinator::Wrap(w) => wrap_refs(w.args@, w.args@.len()),
        Combinator::Bind { inner, target, .. } => spec_refs(*inner) + spec_refs(*target),
        _ => Seq::empty(),
    }
}

pub open spec fn fields_refs(fs: Seq<Field>, k: nat) -> Seq<Name>
    decreases fs, k,
{
    if k == 0 || k > fs.len() {
        Seq::empty()
    } else {
        fields_refs(fs, (k - 1) as nat) + spec_refs(fs[k - 1].ty)
    }
}

pub open spec fn arms_refs(arms: Seq<crate::types::ChoiceArm>, k: nat) -> Seq<Name>
    decreases arms, k,
{
    if k == 0 || k > arms.len() {
        Seq::empty()
    } else {
        arms_refs(arms, (k - 1) as nat) + (match arms[k - 1].pattern {
            ChoicePattern::Variant(v) => seq![v.name],
            _ => Seq::empty(),
        }) + spec_refs(arms[k - 1].body)
    }
}

pub open spec fn wrap_refs(args: Seq<WrapArg>, k: nat) -> Seq<Name>
    decreases args, k,
{
    if k == 0 || k > args.len() {
        Seq::empty()
    } else {
        wrap_refs(args, (k - 1) as nat) + match args[k - 1] {
            WrapArg::Combinator(c) => spec_refs(c),
            WrapArg::ConstEnum { ty, variant } => seq![ty.name, variant.name],
            _ => Seq::empty(),
        }
    }
}

pub open spec fn length_refs(e: LengthExpr) -> Seq<Name>
    decreases e, 0nat,
{
    terms_refs(e.terms@, e.terms@.len())
}

pub open spec fn terms_refs(ts: Seq<LengthTerm>, k: nat) -> Seq<Name>
    decreases ts, k,
{
    if k == 0 || k > ts.len() {
        Seq::empty()
    } else {
        terms_refs(ts, (k - 1) as nat) + atoms_refs(ts[k - 1].atoms@, ts[k - 1].atoms@.len())
    }
}

pub open spec fn atoms_refs(ats: Seq<LengthAtom>, k: nat) -> Seq<Name>
    decreases ats, k,
{
    if k == 0 || k > ats.len() {
        Seq::empty()
    } else {
        atoms_refs(ats, (k - 1) as nat) + atom_refs(ats[k - 1])
    }
}

pub open spec fn atom_refs(a: LengthAtom) -> Seq<Name>
    decreases a, 0nat,
{
    match a {
        LengthAtom::Param(p) => seq![p.name],
        LengthAtom::ProjectedParam { base, .. } => seq![base.name],
        LengthAtom::SizeOf(SizeTarget::Named(n)) => seq![n.name],
        LengthAtom::Paren(inner) => length_refs(*inner),
        _ => Seq::empty(),
    }
}

/// Appends the names of `rs`.
fn push_names(rs: &Vec<NameRef>, refs: &mut Vec<Name>)
    ensures
        final(refs)@ == old(refs)@ + names_of(rs@),
{
    let mut i: usize = 0;
    while i < rs.len()
        invariant
            i <= rs@.len(),
            refs@ == old(refs)@ + names_of(rs@).take(i as int),
        decreases rs@.len() - i,
    {
        refs.push(rs[i].name);
        i = i + 1;
        assert(refs@ =~= old(refs)@ + names_of(rs@).take(i as int));
    }
    assert(names_of(rs@).take(rs@.len() as int) =~= names_of(rs@));
}

/// Every symbol name used within a format.
pub fn collect_references(comb: &Combinator) -> (r: Vec<Name>)
    ensures
        r@ == spec_refs(*comb),
{
    let mut refs: Vec<Name> = Vec::new();
    collect_refs_recursive(comb, &mut refs);
    assert(refs@ =~= spec_refs(*comb));
    refs
}

#[verifier::loop_isolation(false)]
fn collect_refs_recursive(comb: &Combinator, refs: &mut Vec<Name>)
    ensures
        final(refs)@ == old(refs)@ + spec_refs(*comb),
    decreases crate::check::comb_size(*comb),
{
    let ghost base = refs@;
    match comb {
        Combinator::Reference { name, args, .. } => {
            refs.push(*name);
            push_names(args, refs);
        },
        Combinator::ConstrainedReference { name, constraint, .. } => {
            refs.push(*name);
            push_names(constraint, refs);
        },
        Combinator::Struct(s) => {
            let ghost fs = s.fields@;
            assert(refs@ =~= base + fields_refs(fs, 0));
            let mut i: usize = 0;
            while i < s.fields.len()
                invariant
                    i <= fs.len(),
                    refs@ == base + fields_refs(fs, i as nat),
                decreases fs.len() - i,
            {
                proof {
                    crate::check::lemma_fields_sz(fs, i as int);
                }
                collect_refs_recursive(&s.fields[i].ty, refs);
                assert(refs@ =~= base + fields_refs(fs, (i + 1) as nat));
                i = i + 1;
            }
        },
        Combinator::Choice(c) => {
            match &c.discriminant {
                Some(d) => {
                    refs.push(d.name);
                },
                None => {},
            }
            let ghost mid = refs@;
            let ghost arms = c.arms@;
            assert(refs@ =~= mid + arms_refs(arms, 0));
            let mut i: usize = 0;
            while i < c.arms.len()
                invariant
                    i <= arms.len(),
                    refs@ == mid + arms_refs(arms, i as nat),
                decreases arms.len() - i,
            {
                let ghost before = refs@;
                match &c.arms[i].pattern {
                    ChoicePattern::Variant(v) => {
                        refs.push(v.name);
                    },
                    _ => {},
                }
                proof {
                    crate::check::lemma_arms_sz(arms, i as int);
                }
                collect_refs_recursive(&c.arms[i].body, refs);
                assert(refs@ =~= mid + arms_refs(arms, (i + 1) as nat));
                i = i + 1;
            }
        },
        Combinator::Array(a) => {
            collect_refs_recursive(&a.element, refs);
            collect_length_refs(&a.length, refs);
        },
        Combinator::Vec(v) => {
            collect_refs_recursive(&v.element, refs);
        },
        Combinator::Option(o) => {
            collect_refs_recursive(&o.element, refs);
        },
        Combinator::Wrap(w) => {
            let ghost args = w.args@;
            assert(refs@ =~= base + wrap_refs(args, 0));
            let mut i: usize = 0;
            while i < w.args.len()
                invariant
                    i <= args.len(),
                    refs@ == base + wrap_refs(args, i as nat),
                decreases args.len() - i,
            {
                match &w.args[i] {
                    WrapArg::Combinator(c) => {
                        proof {
                            crate::check::lemma_wrap_sz(args, i as int);
                        }
                        collect_refs_recursive(c, refs);
                    },
                    WrapArg::ConstEnum { ty, variant } => {
                        refs.push(ty.name);
                        refs.push(variant.name);
                    },
                    _ => {},
                }
                assert(refs@ =~= base + wrap_refs(args, (i + 1) as nat));
                i = i + 1;
            }
        },
        Combinator::Bind { inner, target, .. } => {
            collect_refs_recursive(inner, refs);
            collect_refs_recursive(target, refs);
        },
        _ => {},
    }
    assert(refs@ =~= base + spec_refs(*comb));
}

#[verifier::loop_isolation(false)]
fn collect_length_refs(expr: &LengthExpr, refs: &mut Vec<Name>)
    ensures
        final(refs)@ == old(refs)@ + length_refs(*expr),
    decreases crate::check::expr_size(*expr),
{
    let ghost ts = expr.terms@;
    let ghost base = refs@;
    assert(refs@ =~= base + terms_refs(ts, 0));
    let mut i: usize = 0;
    while i < expr.terms.len()
        invariant
            i <= ts.len(),
            refs@ == base + terms_refs(ts, i as nat),
        decreases ts.len() - i,
    {
        let term = &expr.terms[i];
        let ghost ats = term.atoms@;
        let ghost mid = refs@;
        proof {
            crate::check::lemma_terms_sz(ts, i as int);
        }
        assert(refs@ =~= mid + atoms_refs(ats, 0));
        let mut j: usize = 0;
        while j < term.atoms.len()
            invariant
                j <= ats.len(),
                refs@ == mid + atoms_refs(ats, j as nat),
            decreases ats.len() - j,
        {
            let ghost before = refs@;
            match &term.atoms[j] {
                LengthAtom::Param(p) => {
                    refs.push(p.name);
                },
                LengthAtom::ProjectedParam { base, .. } => {
                    refs.push(base.name);
                },
                LengthAtom::SizeOf(SizeTarget::Named(n)) => {
                    refs.push(n.name);
                },
                LengthAtom::Paren(e) => {
                    proof {
                        crate::check::lemma_atoms_sz(ats, j as int);
                    }
                    collect_length_refs(e, refs);
                },
                _ => {},
            }
            assert(refs@ =~= before + atom_refs(ats[j as int]));
            assert(refs@ =~= mid + atoms_refs(ats, (j + 1) as nat));
            j = j + 1;
        }
        assert(refs@ =~= base + terms_refs(ts, (i + 1) as nat));
        i = i + 1;
    }
}

/// The definitions of a source file, lowered from an existing syntax tree
/// of it.
pub fn file_definitions(db: &mut Database, text: &str, root: &SyntaxNode) -> (r: Vec<Definition>)
    ensures
        old(db).grows_to(&*final(db)),
        defs_v(r@) == lowered_file(*final(db), text@, *root),
{
    let hir = lower_to_hir_with_parse(db, text, root);
    hir.definitions
}

/// The first top-level definition of a source file whose span contains
/// `byte_offset`, lowered from an existing syntax tree of the file.
pub fn definition_at_offset(db: &mut Database, text: &str, root: &SyntaxNode, byte_offset: usize) -> (r: Option<
    Definition,
>)
    ensures
        old(db).grows_to(&*final(db)),
        exists|defs: Seq<Definition>|
            #![trigger defs_v(defs)]
            defs_v(defs) == lowered_file(*final(db), text@, *root) && match r {
                Some(d) => spec_definition_at(defs, byte_offset as int) matches Some(i) && d == defs[i],
                None => spec_definition_at(defs, byte_offset as int) is None,
            },
{
    let hir = lower_to_hir_with_parse(db, text, root);
    let ghost defs = hir.definitions@;
    let mut definitions = hir.definitions;
    match definition_index_at(&definitions, byte_offset) {
        Some(i) => {
            let d = definitions.remove(i);
            proof {
                assert(defs_v(defs) == lowered_file(*db, text@, *root));
            }
            Some(d)
        },
        None => None,
    }
}

/// The symbol whose occurrence in a source file lies under `byte_offset`,
/// lowered from an existing syntax tree of the file.
pub fn symbol_at_offset(db: &mut Database, text: &str, root: &SyntaxNode, byte_offset: usize) -> (r: Option<
    SymbolId,
>)
    ensures
        old(db).grows_to(&*final(db)),
        exists|defs: Seq<Definition>|
            #![trigger defs_v(defs)]
            defs_v(defs) == lowered_file(*final(db), text@, *root) && r == match first_occ_at(
                spec_occurrences(defs),
                byte_offset as int,
            ) {
                Some(o) => Some(o.symbol),
                None => None,
            },
{
    let hir = lower_to_hir_with_parse(db, text, root);
    symbol_at_offset_in_hir(&hir, byte_offset)
}

/// The occurrences of `symbol` in a source file (its declaration too when
/// `include_declaration`), lowered from an existing syntax tree of the
/// file.
pub fn references_for_symbol(
    db: &mut Database,
    text: &str,
    root: &SyntaxNode,
    symbol: SymbolId,
    include_declaration: bool,
) -> (r: Vec<SymbolOccurrence>)
    ensures
        old(db).grows_to(&*final(db)),
        exists|defs: Seq<Definition>|
            #![trigger defs_v(defs)]
            defs_v(defs) == lowered_file(*final(db), text@, *root) && r@ == spec_occurrences(defs).filter(
                |o: SymbolOccurrence| is_reported(o, symbol, include_declaration),
            ),
{
    let hir = lower_to_hir_with_parse(db, text, root);
    references_for_symbol_in_hir(&hir, symbol, include_declaration)
}

/// The first definition of a source file named `name`, lowered from an
/// existing syntax tree of the file.
pub fn resolve_symbol(db: &mut Database, text: &str, root: &SyntaxNode, name: Name) -> (r: Option<Definition>)
    ensures
        old(db).grows_to(&*final(db)),
        exists|defs: Seq<Definition>|
            #![trigger defs_v(defs)]
            defs_v(defs) == lowered_file(*final(db), text@, *root) && match r {
                Some(d) => spec_resolve(defs, name) == Some(d),
                None => spec_resolve(defs, name) is None,
            },
{
    let hir = lower_to_hir_with_parse(db, text, root);
    let ghost defs = hir.definitions@;
    let mut definitions = hir.definitions;
    match find_def(&definitions, name) {
        Some(i) => Some(definitions.remove(i)),
        None => None,
    }
}


proof fn lemma_first_variant_named_at(vs: Seq<EnumVariant>, n: Name, k: int)
    requires
        0 <= k < vs.len(),
        vs[k].name == n,
        forall|i: int| 0 <= i < k ==> (#[trigger] vs[i]).name != n,
    ensures
        first_variant_named(vs, n) == Some(k),
    decreases vs.len(),
{
    if k > 0 {
        assert forall|i: int| 0 <= i < k - 1 implies (#[trigger] vs.drop_first()[i]).name != n by {
            assert(vs.drop_first()[i] == vs[i + 1]);
        }
        lemma_first_variant_named_at(vs.drop_first(), n, k - 1);
    }
}

proof fn lemma_arms_occ_has_variant(
    defs: Seq<Definition>,
    owner: Name,
    arms: Seq<crate::types::ChoiceArm>,
    vis: Seq<LocalBinding>,
    de: Option<Name>,
    k: nat,
    j: int,
    o: SymbolOccurrence,
)
    requires
        0 <= j < k <= arms.len(),
        arms[j].pattern matches ChoicePattern::Variant(v) && de matches Some(e) && variant_ref(defs, e, v) == seq![o],
    ensures
        spec_arms_occ(defs, owner, arms, vis, de, k).contains(o),
    decreases k,
{
    let prev = spec_arms_occ(defs, owner, arms, vis, de, (k - 1) as nat);
    let mid = match (arms[k - 1].pattern, de) {
        (ChoicePattern::Variant(v), Some(e)) => variant_ref(defs, e, v),
        _ => Seq::empty(),
    };
    let whole = spec_arms_occ(defs, owner, arms, vis, de, k);
    assert(whole == prev + mid + spec_comb_occ(defs, owner, arms[k - 1].body, vis));
    if j == k - 1 {
        assert(mid == seq![o]);
        assert(whole[prev.len() as int] == o);
    } else {
        lemma_arms_occ_has_variant(defs, owner, arms, vis, de, (k - 1) as nat, j, o);
        let q = choose|q: int| 0 <= q < prev.len() && prev[q] == o;
        assert(whole[q] == o);
    }
}

/// Every variant pattern of a choice whose discriminant is bound to an enum
/// having that variant is a reference, at the pattern, to the enum's variant
/// of that name (its first variant so named).
pub proof fn lemma_choice_variant_pattern_is_reference(
    defs: Seq<Definition>,
    owner: Name,
    ch: crate::types::ChoiceCombinator,
    vis: Seq<LocalBinding>,
    d: NameRef,
    b: LocalBinding,
    enum_name: Name,
    enum_def: Definition,
    ed: crate::types::EnumDef,
    j: int,
    v: NameRef,
    k: int,
)
    requires
        ch.discriminant == Some(d),
        spec_local_binding(vis, d.name) == Some(b),
        b.enum_ty == Some(enum_name),
        spec_resolve(defs, enum_name) == Some(enum_def),
        enum_def.kind == DefinitionKind::Enum(ed),
        0 <= j < ch.arms@.len(),
        ch.arms@[j].pattern == ChoicePattern::Variant(v),
        0 <= k < ed.variants@.len(),
        ed.variants@[k].name == v.name,
        forall|i: int| 0 <= i < k ==> (#[trigger] ed.variants@[i]).name != v.name,
    ensures
        spec_comb_occ(defs, owner, Combinator::Choice(ch), vis).contains(
            SymbolOccurrence {
                symbol: SymbolId::EnumVariant { owner: enum_name, name: v.name, declaration: ed.variants@[k].span },
                span: v.span,
                kind: SymbolOccurrenceKind::Reference,
            },
        ),
{
    let o = SymbolOccurrence {
        symbol: SymbolId::EnumVariant { owner: enum_name, name: v.name, declaration: ed.variants@[k].span },
        span: v.span,
        kind: SymbolOccurrenceKind::Reference,
    };
    lemma_first_variant_named_at(ed.variants@, v.name, k);
    assert(variant_ref(defs, enum_name, v) == seq![o]);
    lemma_arms_occ_has_variant(defs, owner, ch.arms@, vis, Some(enum_name), ch.arms@.len(), j, o);
    let head = local_ref(vis, d);
    let arms_occ = spec_arms_occ(defs, owner, ch.arms@, vis, Some(enum_name), ch.arms@.len());
    let whole = spec_comb_occ(defs, owner, Combinator::Choice(ch), vis);
    assert(whole == head + arms_occ);
    let q = choose|q: int| 0 <= q < arms_occ.len() && arms_occ[q] == o;
    assert(whole[head.len() + q] == o);
}


proof fn lemma_first_span_at_index(spans: Seq<Span>, offset: int, k: int)
    requires
        0 <= k < spans.len(),
        spans[k].spec_contains(offset),
        forall|i: int| 0 <= i < k ==> !(#[trigger] spans[i]).spec_contains(offset),
    ensures
        first_span_at(spans, offset) == Some(spans[k]),
    decreases spans.len(),
{
    if k > 0 {
        assert forall|i: int| 0 <= i < k - 1 implies !(#[trigger] spans.drop_first()[i]).spec_contains(offset) by {
            assert(spans.drop_first()[i] == spans[i + 1]);
        }
        lemma_first_span_at_index(spans.drop_first(), offset, k - 1);
    }
}

/// Within an enum definition, an offset outside the definition's name and
/// inside a variant's span finds that variant's declaration: the first
/// variant whose span holds the offset.
pub proof fn lemma_declaration_at_enum_variant(def: Definition, e: crate::types::EnumDef, offset: int, k: int)
    requires
        def.kind == DefinitionKind::Enum(e),
        !def.name_span.spec_contains(offset),
        0 <= k < e.variants@.len(),
        e.variants@[k].span.spec_contains(offset),
        forall|i: int| 0 <= i < k ==> !(#[trigger] e.variants@[i]).span.spec_contains(offset),
    ensures
        spec_declaration_at(def, offset) == Some(e.variants@[k].span),
{
    let spans = Seq::new(e.variants@.len(), |i: int| e.variants@[i].span);
    assert forall|i: int| 0 <= i < k implies !(#[trigger] spans[i]).spec_contains(offset) by {
        assert(spans[i] == e.variants@[i].span);
    }
    lemma_first_span_at_index(spans, offset, k);
}

/// Within a format, an offset outside the definition's name and inside a
/// parameter's span finds that parameter's declaration: the first parameter
/// whose span holds the offset.
pub proof fn lemma_declaration_at_param(def: Definition, params: Vec<Param>, body: Combinator, offset: int, k: int)
    requires
        def.kind == (DefinitionKind::Combinator { params, body }),
        !def.name_span.spec_contains(offset),
        0 <= k < params@.len(),
        params@[k].span.spec_contains(offset),
        forall|i: int| 0 <= i < k ==> !(#[trigger] params@[i]).span.spec_contains(offset),
    ensures
        spec_declaration_at(def, offset) == Some(params@[k].span),
{
    let spans = Seq::new(params@.len(), |i: int| params@[i].span);
    assert forall|i: int| 0 <= i < k implies !(#[trigger] spans[i]).spec_contains(offset) by {
        assert(spans[i] == params@[i].span);
    }
    lemma_first_span_at_index(spans, offset, k);
}

/// An offset inside a definition's name finds the definition's name.
pub proof fn lemma_declaration_at_name(def: Definition, offset: int)
    requires
        def.name_span.spec_contains(offset),
    ensures
        spec_declaration_at(def, offset) == Some(def.name_span),
{
}


/// Within a record format, an offset outside the definition's name and every
/// parameter and inside a field's span finds that field's declaration: the
/// first field whose span holds the offset.
pub proof fn lemma_declaration_at_field(
    def: Definition,
    params: Vec<Param>,
    sc: crate::types::StructCombinator,
    offset: int,
    k: int,
)
    requires
        def.kind == (DefinitionKind::Combinator { params, body: Combinator::Struct(sc) }),
        !def.name_span.spec_contains(offset),
        forall|i: int| 0 <= i < params@.len() ==> !(#[trigger] params@[i]).span.spec_contains(offset),
        0 <= k < sc.fields@.len(),
        sc.fields@[k].span.spec_contains(offset),
        forall|i: int| 0 <= i < k ==> !(#[trigger] sc.fields@[i]).span.spec_contains(offset),
    ensures
        spec_declaration_at(def, offset) == Some(sc.fields@[k].span),
{
    let pspans = Seq::new(params@.len(), |i: int| params@[i].span);
    lemma_first_span_at_none(pspans, offset);
    let spans = Seq::new(sc.fields@.len(), |i: int| sc.fields@[i].span);
    assert forall|i: int| 0 <= i < k implies !(#[trigger] spans[i]).spec_contains(offset) by {
        assert(spans[i] == sc.fields@[i].span);
    }
    lemma_first_span_at_index(spans, offset, k);
    assert(body_fields(Combinator::Struct(sc)) == sc.fields@);
    assert(Seq::new(body_fields(Combinator::Struct(sc)).len(), |i: int| body_fields(Combinator::Struct(sc))[i].span)
        =~= spans);
}

proof fn lemma_first_span_at_none(spans: Seq<Span>, offset: int)
    requires
        forall|i: int| 0 <= i < spans.len() ==> !(#[trigger] spans[i]).spec_contains(offset),
    ensures
        first_span_at(spans, offset) is None,
    decreases spans.len(),
{
    if spans.len() > 0 {
        assert forall|i: int| 0 <= i < spans.drop_first().len() implies !(#[trigger] spans.drop_first()[i]).spec_contains(
            offset,
        ) by {
            assert(spans.drop_first()[i] == spans[i + 1]);
        }
        lemma_first_span_at_none(spans.drop_first(), offset);
    }
}


proof fn lemma_variant_refs_has(defs: Seq<Definition>, enum_ty: Name, vs: Seq<NameRef>, j: int, o: SymbolOccurrence)
    requires
        0 <= j < vs.len(),
        variant_ref(defs, enum_ty, vs[j]) == seq![o],
    ensures
        variant_refs(defs, enum_ty, vs).contains(o),
    decreases vs.len(),
{
    let prev = variant_refs(defs, enum_ty, vs.drop_last());
    let whole = variant_refs(defs, enum_ty, vs);
    if j == vs.len() - 1 {
        assert(whole[prev.len() as int] == o);
    } else {
        assert(vs.drop_last()[j] == vs[j]);
        lemma_variant_refs_has(defs, enum_ty, vs.drop_last(), j, o);
        let q = choose|q: int| 0 <= q < prev.len() && prev[q] == o;
        assert(whole[q] == o);
    }
}

/// Every variant listed in an enum constraint on an enum having that
/// variant is a reference, at the listed name, to the enum's variant of that
/// name (its first variant so named).
pub proof fn lemma_constraint_variant_is_reference(
    defs: Seq<Definition>,
    owner: Name,
    name: Name,
    constraint: Vec<NameRef>,
    negated: bool,
    span: Span,
    vis: Seq<LocalBinding>,
    enum_def: Definition,
    ed: crate::types::EnumDef,
    j: int,
    k: int,
)
    requires
        spec_resolve(defs, name) == Some(enum_def),
        enum_def.kind == DefinitionKind::Enum(ed),
        enum_def.name == name,
        0 <= j < constraint@.len(),
        0 <= k < ed.variants@.len(),
        ed.variants@[k].name == constraint@[j].name,
        forall|i: int| 0 <= i < k ==> (#[trigger] ed.variants@[i]).name != constraint@[j].name,
    ensures
        spec_comb_occ(defs, owner, Combinator::ConstrainedReference { name, constraint, negated, span }, vis).contains(
            SymbolOccurrence {
                symbol: SymbolId::EnumVariant {
                    owner: name,
                    name: constraint@[j].name,
                    declaration: ed.variants@[k].span,
                },
                span: constraint@[j].span,
                kind: SymbolOccurrenceKind::Reference,
            },
        ),
{
    let v = constraint@[j];
    let o = SymbolOccurrence {
        symbol: SymbolId::EnumVariant { owner: name, name: v.name, declaration: ed.variants@[k].span },
        span: v.span,
        kind: SymbolOccurrenceKind::Reference,
    };
    lemma_first_variant_named_at(ed.variants@, v.name, k);
    assert(variant_ref(defs, name, v) == seq![o]);
    lemma_variant_refs_has(defs, name, constraint@, j, o);
    let head = seq![ref_occ(enum_def.spec_symbol_id(), span)];
    let tail = variant_refs(defs, enum_def.name, constraint@);
    let whole = spec_comb_occ(defs, owner, Combinator::ConstrainedReference { name, constraint, negated, span }, vis);
    assert(whole == head + tail);
    let q = choose|q: int| 0 <= q < tail.len() && tail[q] == o;
    assert(whole[head.len() + q] == o);
}

} // verus!
