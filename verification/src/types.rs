//! HIR type definitions.
use vstd::prelude::*;

use crate::db::{Database, Name};
use crate::text::{owned, push_str};

verus! {

/// A name occurrence with its exact source span.
#[derive(Clone, Copy, PartialEq, Eq, Hash, Debug, Structural)]
pub struct NameRef {
    pub name: Name,
    pub span: Span,
}

impl NameRef {
    pub fn new(name: Name, span: Span) -> (r: NameRef)
        ensures
            r.name == name,
            r.span == span,
    {
        NameRef { name, span }
    }

    pub fn as_str<'a>(&self, db: &'a Database) -> (s: &'a str)
        ensures
            s@ == db.text_of(self.name),
    {
        self.name.as_str(db)
    }
}

/// Source span (half-open byte range) for error reporting and navigation.
#[derive(Clone, Copy, PartialEq, Eq, Hash, Debug, Structural)]
pub struct Span {
    pub start_byte: usize,
    pub end_byte: usize,
}

impl Span {
    pub open spec fn spec_contains(self, byte_offset: int) -> bool {
        self.start_byte <= byte_offset && byte_offset < self.end_byte
    }

    pub fn new(start_byte: usize, end_byte: usize) -> (s: Span)
        ensures
            s.start_byte == start_byte,
            s.end_byte == end_byte,
    {
        Span { start_byte, end_byte }
    }

    pub fn empty() -> (s: Span)
        ensures
            s.start_byte == 0,
            s.end_byte == 0,
    {
        Span::new(0, 0)
    }

    /// Whether `byte_offset` lies in the half-open range of this span.
    pub fn contains(self, byte_offset: usize) -> (r: bool)
        ensures
            r == self.spec_contains(byte_offset as int),
    {
        self.start_byte <= byte_offset && byte_offset < self.end_byte
    }
}

/// Visibility modifier for definitions.
#[derive(Clone, Copy, PartialEq, Eq, Hash, Debug, Structural)]
pub enum Visibility {
    Default,
    Public,
    Secret,
}

/// Complete HIR for a single file.
pub struct FileHir {
    pub definitions: Vec<Definition>,
    pub diagnostics: Vec<HirDiagnostic>,
}

/// A top-level definition in a Vest file.
pub struct Definition {
    pub name: Name,
    pub visibility: Visibility,
    pub kind: DefinitionKind,
    pub name_span: Span,
    pub span: Span,
}

impl Definition {
    pub open spec fn spec_symbol_id(&self) -> SymbolId {
        SymbolId::TopLevel { name: self.name, declaration: self.name_span }
    }

    pub fn name_str<'a>(&self, db: &'a Database) -> (s: &'a str)
        ensures
            s@ == db.text_of(self.name),
    {
        self.name.as_str(db)
    }

    pub fn symbol_id(&self) -> (id: SymbolId)
        ensures
            id == self.spec_symbol_id(),
    {
        SymbolId::TopLevel { name: self.name, declaration: self.name_span }
    }
}

/// A symbol identity scoped to the current file.
#[derive(Clone, Copy, PartialEq, Eq, Hash, Debug, Structural)]
pub enum SymbolId {
    TopLevel { name: Name, declaration: Span },
    Param { owner: Name, name: Name, declaration: Span },
    Field { owner: Name, name: Name, declaration: Span, is_dependent: bool },
    EnumVariant { owner: Name, name: Name, declaration: Span },
}

impl SymbolId {
    /// Symbols written with a leading `@` in source.
    pub open spec fn spec_is_sigiled(self) -> bool {
        match self {
            SymbolId::Param { .. } => true,
            SymbolId::Field { is_dependent, .. } => is_dependent,
            _ => false,
        }
    }

    pub open spec fn spec_declaration_span(self) -> Span {
        match self {
            SymbolId::TopLevel { declaration, .. } => declaration,
            SymbolId::Param { declaration, .. } => declaration,
            SymbolId::Field { declaration, .. } => declaration,
            SymbolId::EnumVariant { declaration, .. } => declaration,
        }
    }

    pub open spec fn spec_name(self) -> Name {
        match self {
            SymbolId::TopLevel { name, .. } => name,
            SymbolId::Param { name, .. } => name,
            SymbolId::Field { name, .. } => name,
            SymbolId::EnumVariant { name, .. } => name,
        }
    }

    pub fn is_sigiled(self) -> (r: bool)
        ensures
            r == self.spec_is_sigiled(),
    {
        match self {
            SymbolId::Param { .. } => true,
            SymbolId::Field { is_dependent, .. } => is_dependent,
            _ => false,
        }
    }

    pub fn declaration_span(self) -> (s: Span)
        ensures
            s == self.spec_declaration_span(),
    {
        match self {
            SymbolId::TopLevel { declaration, .. } => declaration,
            SymbolId::Param { declaration, .. } => declaration,
            SymbolId::Field { declaration, .. } => declaration,
            SymbolId::EnumVariant { declaration, .. } => declaration,
        }
    }

    pub fn name(self) -> (n: Name)
        ensures
            n == self.spec_name(),
    {
        match self {
            SymbolId::TopLevel { name, .. } => name,
            SymbolId::Param { name, .. } => name,
            SymbolId::Field { name, .. } => name,
            SymbolId::EnumVariant { name, .. } => name,
        }
    }

    /// The part of an occurrence that a rename replaces: the `@` sigil of a
    /// dependent symbol is left in place.
    pub fn prepare_rename_span(self, occurrence: Span) -> (s: Span)
        ensures
            (self.spec_is_sigiled() && occurrence.start_byte < occurrence.end_byte) ==> s
                == (Span { start_byte: (occurrence.start_byte + 1) as usize, end_byte: occurrence.end_byte }),
            !(self.spec_is_sigiled() && occurrence.start_byte < occurrence.end_byte) ==> s
                == occurrence,
    {
        if self.is_sigiled() && occurrence.start_byte < occurrence.end_byte {
            Span::new(occurrence.start_byte + 1, occurrence.end_byte)
        } else {
            occurrence
        }
    }

    /// For a sigiled symbol, drops one leading `@` from the requested name.
    pub fn normalize_rename_input<'a>(self, new_name: &'a str) -> (r: &'a str)
        ensures
            (self.spec_is_sigiled() && new_name@.len() > 0 && new_name@[0] == '@') ==> r@
                == new_name@.drop_first(),
            !(self.spec_is_sigiled() && new_name@.len() > 0 && new_name@[0] == '@') ==> r@
                == new_name@,
    {
        if self.is_sigiled() {
            let n = new_name.unicode_len();
            if n > 0 && new_name.get_char(0) == '@' {
                let rest = new_name.substring_char(1, n);
                assert(rest@ =~= new_name@.drop_first());
                return rest;
            }
        }
        new_name
    }

    /// The replacement text for every occurrence of this symbol.
    pub fn rename_text(self, new_name: &str) -> (r: String)
        ensures
            self.spec_is_sigiled() ==> r@ == seq!['@'] + new_name@,
            !self.spec_is_sigiled() ==> r@ == new_name@,
    {
        if self.is_sigiled() {
            let mut out = owned("@");
            proof {
                reveal_strlit("@");
            }
            push_str(&mut out, new_name);
            out
        } else {
            owned(new_name)
        }
    }
}

#[derive(Clone, Copy, PartialEq, Eq, Hash, Debug, Structural)]
pub enum SymbolOccurrenceKind {
    Declaration,
    Reference,
}

#[derive(Clone, Copy, PartialEq, Eq, Hash, Debug, Structural)]
pub struct SymbolOccurrence {
    pub symbol: SymbolId,
    pub span: Span,
    pub kind: SymbolOccurrenceKind,
}

/// The kind of a top-level definition.
pub enum DefinitionKind {
    Combinator { params: Vec<Param>, body: Combinator },
    Enum(EnumDef),
    Const { ty: Combinator, value: ConstValue },
    Endianness(Endianness),
}

/// A combinator (the building block of Vest formats).
pub enum Combinator {
    /// Primitive integer type (u8, i16, etc.)
    Int(IntType),
    /// Integer type with constraint (u8 | 0..255)
    ConstrainedInt { int_type: IntType, constraint: IntConstraint },
    /// Reference to another combinator by name
    Reference { name: Name, args: Vec<NameRef>, span: Span },
    /// Reference with enum constraint (MyEnum | { A, B })
    ConstrainedReference { name: Name, constraint: Vec<NameRef>, negated: bool, span: Span },
    /// Struct combinator { field1: Type1, field2: Type2 }
    Struct(StructCombinator),
    /// Choice combinator choose(@tag) { ... }
    Choice(ChoiceCombinator),
    /// Array [Type; length]
    Array(ArrayCombinator),
    /// Variable-size vector Vec<Type>
    Vec(VecCombinator),
    /// Optional value Option<Type>
    Option(OptionCombinator),
    /// Wrap combinator wrap(...)
    Wrap(WrapCombinator),
    /// Variable-length tail bytes
    Tail,
    /// Bind operator (>>=)
    Bind { inner: Box<Combinator>, target: Box<Combinator>, span: Span },
    /// Lowering error placeholder
    Error,
}

/// Integer carrier.
#[derive(Clone, Copy, PartialEq, Eq, Hash, Debug, Structural)]
pub enum IntType {
    U8,
    U16,
    U24,
    U32,
    U64,
    I8,
    I16,
    I24,
    I32,
    I64,
    BtcVarint,
    Uleb128,
}

/// The carrier named by a keyword.
pub open spec fn spec_int_type_from_keyword(s: Seq<char>) -> Option<IntType> {
    if s == "u8"@ {
        Some(IntType::U8)
    } else if s == "u16"@ {
        Some(IntType::U16)
    } else if s == "u24"@ {
        Some(IntType::U24)
    } else if s == "u32"@ {
        Some(IntType::U32)
    } else if s == "u64"@ {
        Some(IntType::U64)
    } else if s == "i8"@ {
        Some(IntType::I8)
    } else if s == "i16"@ {
        Some(IntType::I16)
    } else if s == "i24"@ {
        Some(IntType::I24)
    } else if s == "i32"@ {
        Some(IntType::I32)
    } else if s == "i64"@ {
        Some(IntType::I64)
    } else if s == "btc_varint"@ {
        Some(IntType::BtcVarint)
    } else if s == "uleb128"@ {
        Some(IntType::Uleb128)
    } else {
        None
    }
}

/// Reading a carrier's keyword gives the carrier back.
pub proof fn lemma_int_type_keyword_round_trip(t: IntType)
    ensures
        spec_int_type_from_keyword(spec_int_type_keyword(t)) == Some(t),
{
    reveal_strlit("u8");
    reveal_strlit("u16");
    reveal_strlit("u24");
    reveal_strlit("u32");
    reveal_strlit("u64");
    reveal_strlit("i8");
    reveal_strlit("i16");
    reveal_strlit("i24");
    reveal_strlit("i32");
    reveal_strlit("i64");
    reveal_strlit("btc_varint");
    reveal_strlit("uleb128");
    let k = spec_int_type_keyword(t);
    assert(k.len() >= 2);
    match t {
        IntType::U8 => {
        },
        IntType::U16 => {
            assert(k.len() != "u8"@.len());
        },
        IntType::U24 => {
            assert(k.len() != "u8"@.len());
            assert(k[1] != "u16"@[1]);
        },
        IntType::U32 => {
            assert(k.len() != "u8"@.len());
            assert(k[1] != "u16"@[1]);
            assert(k[1] != "u24"@[1]);
        },
        IntType::U64 => {
            assert(k.len() != "u8"@.len());
            assert(k[1] != "u16"@[1]);
            assert(k[1] != "u24"@[1]);
            assert(k[1] != "u32"@[1]);
        },
        IntType::I8 => {
            assert(k[0] != "u8"@[0]);
            assert(k.len() != "u16"@.len());
            assert(k.len() != "u24"@.len());
            assert(k.len() != "u32"@.len());
            assert(k.len() != "u64"@.len());
        },
        IntType::I16 => {
            assert(k.len() != "u8"@.len());
            assert(k[0] != "u16"@[0]);
            assert(k[0] != "u24"@[0]);
            assert(k[0] != "u32"@[0]);
            assert(k[0] != "u64"@[0]);
            assert(k.len() != "i8"@.len());
        },
        IntType::I24 => {
            assert(k.len() != "u8"@.len());
            assert(k[0] != "u16"@[0]);
            assert(k[0] != "u24"@[0]);
            assert(k[0] != "u32"@[0]);
            assert(k[0] != "u64"@[0]);
            assert(k.len() != "i8"@.len());
            assert(k[1] != "i16"@[1]);
        },
        IntType::I32 => {
            assert(k.len() != "u8"@.len());
            assert(k[0] != "u16"@[0]);
            assert(k[0] != "u24"@[0]);
            assert(k[0] != "u32"@[0]);
            assert(k[0] != "u64"@[0]);
            assert(k.len() != "i8"@.len());
            assert(k[1] != "i16"@[1]);
            assert(k[1] != "i24"@[1]);
        },
        IntType::I64 => {
            assert(k.len() != "u8"@.len());
            assert(k[0] != "u16"@[0]);
            assert(k[0] != "u24"@[0]);
            assert(k[0] != "u32"@[0]);
            assert(k[0] != "u64"@[0]);
            assert(k.len() != "i8"@.len());
            assert(k[1] != "i16"@[1]);
            assert(k[1] != "i24"@[1]);
            assert(k[1] != "i32"@[1]);
        },
        IntType::BtcVarint => {
            assert(k.len() != "u8"@.len());
            assert(k.len() != "u16"@.len());
            assert(k.len() != "u24"@.len());
            assert(k.len() != "u32"@.len());
            assert(k.len() != "u64"@.len());
            assert(k.len() != "i8"@.len());
            assert(k.len() != "i16"@.len());
            assert(k.len() != "i24"@.len());
            assert(k.len() != "i32"@.len());
            assert(k.len() != "i64"@.len());
        },
        IntType::Uleb128 => {
            assert(k.len() != "u8"@.len());
            assert(k.len() != "u16"@.len());
            assert(k.len() != "u24"@.len());
            assert(k.len() != "u32"@.len());
            assert(k.len() != "u64"@.len());
            assert(k.len() != "i8"@.len());
            assert(k.len() != "i16"@.len());
            assert(k.len() != "i24"@.len());
            assert(k.len() != "i32"@.len());
            assert(k.len() != "i64"@.len());
            assert(k.len() != "btc_varint"@.len());
        },
    }
}

/// Bit width of a fixed-width carrier.
pub open spec fn spec_bit_width(t: IntType) -> Option<u32> {
    match t {
        IntType::U8 | IntType::I8 => Some(8),
        IntType::U16 | IntType::I16 => Some(16),
        IntType::U24 | IntType::I24 => Some(24),
        IntType::U32 | IntType::I32 => Some(32),
        IntType::U64 | IntType::I64 => Some(64),
        IntType::BtcVarint | IntType::Uleb128 => None,
    }
}

impl IntType {
    pub fn from_keyword(s: &str) -> (r: Option<IntType>)
        ensures
            r == spec_int_type_from_keyword(s@),
    {
        if str_is(s, "u8") {
            Some(IntType::U8)
        } else if str_is(s, "u16") {
            Some(IntType::U16)
        } else if str_is(s, "u24") {
            Some(IntType::U24)
        } else if str_is(s, "u32") {
            Some(IntType::U32)
        } else if str_is(s, "u64") {
            Some(IntType::U64)
        } else if str_is(s, "i8") {
            Some(IntType::I8)
        } else if str_is(s, "i16") {
            Some(IntType::I16)
        } else if str_is(s, "i24") {
            Some(IntType::I24)
        } else if str_is(s, "i32") {
            Some(IntType::I32)
        } else if str_is(s, "i64") {
            Some(IntType::I64)
        } else if str_is(s, "btc_varint") {
            Some(IntType::BtcVarint)
        } else if str_is(s, "uleb128") {
            Some(IntType::Uleb128)
        } else {
            None
        }
    }

    pub fn bit_width(&self) -> (r: Option<u32>)
        ensures
            r == spec_bit_width(*self),
    {
        match self {
            IntType::U8 | IntType::I8 => Some(8),
            IntType::U16 | IntType::I16 => Some(16),
            IntType::U24 | IntType::I24 => Some(24),
            IntType::U32 | IntType::I32 => Some(32),
            IntType::U64 | IntType::I64 => Some(64),
            IntType::BtcVarint | IntType::Uleb128 => None,
        }
    }
}

/// Largest value representable by a carrier.
pub open spec fn spec_int_max(t: IntType) -> u64 {
    match t {
        IntType::U8 => 0xff,
        IntType::U16 => 0xffff,
        IntType::U24 => 0xff_ffff,
        IntType::U32 => 0xffff_ffff,
        IntType::U64 => 0xffff_ffff_ffff_ffff,
        IntType::I8 => 0x7f,
        IntType::I16 => 0x7fff,
        IntType::I24 => 0x7f_ffff,
        IntType::I32 => 0x7fff_ffff,
        IntType::I64 => 0x7fff_ffff_ffff_ffff,
        IntType::BtcVarint | IntType::Uleb128 => 0xffff_ffff_ffff_ffff,
    }
}

/// Whether an integer literal fits a carrier (literals are non-negative).
pub open spec fn spec_value_fits(value: u64, t: IntType) -> bool {
    value <= spec_int_max(t)
}

/// Exact byte size of a fixed-width carrier.
pub open spec fn spec_prim_byte_size(t: IntType) -> Option<u64> {
    match t {
        IntType::U8 | IntType::I8 => Some(1),
        IntType::U16 | IntType::I16 => Some(2),
        IntType::U24 | IntType::I24 => Some(3),
        IntType::U32 | IntType::I32 => Some(4),
        IntType::U64 | IntType::I64 => Some(8),
        IntType::BtcVarint | IntType::Uleb128 => None,
    }
}

/// Debug spelling of a carrier: its variant's name.
pub open spec fn spec_int_type_debug_name(t: IntType) -> Seq<char> {
    match t {
        IntType::U8 => "U8"@,
        IntType::U16 => "U16"@,
        IntType::U24 => "U24"@,
        IntType::U32 => "U32"@,
        IntType::U64 => "U64"@,
        IntType::I8 => "I8"@,
        IntType::I16 => "I16"@,
        IntType::I24 => "I24"@,
        IntType::I32 => "I32"@,
        IntType::I64 => "I64"@,
        IntType::BtcVarint => "BtcVarint"@,
        IntType::Uleb128 => "Uleb128"@,
    }
}

/// Debug spelling of a carrier.
pub fn int_type_debug_name(t: IntType) -> (r: &'static str)
    ensures
        r@ == spec_int_type_debug_name(t),
{
    match t {
        IntType::U8 => "U8",
        IntType::U16 => "U16",
        IntType::U24 => "U24",
        IntType::U32 => "U32",
        IntType::U64 => "U64",
        IntType::I8 => "I8",
        IntType::I16 => "I16",
        IntType::I24 => "I24",
        IntType::I32 => "I32",
        IntType::I64 => "I64",
        IntType::BtcVarint => "BtcVarint",
        IntType::Uleb128 => "Uleb128",
    }
}

/// Keyword spelling of a carrier.
pub open spec fn spec_int_type_keyword(t: IntType) -> Seq<char> {
    match t {
        IntType::U8 => "u8"@,
        IntType::U16 => "u16"@,
        IntType::U24 => "u24"@,
        IntType::U32 => "u32"@,
        IntType::U64 => "u64"@,
        IntType::I8 => "i8"@,
        IntType::I16 => "i16"@,
        IntType::I24 => "i24"@,
        IntType::I32 => "i32"@,
        IntType::I64 => "i64"@,
        IntType::BtcVarint => "btc_varint"@,
        IntType::Uleb128 => "uleb128"@,
    }
}

/// Keyword spelling of a carrier.
pub fn int_type_keyword(t: IntType) -> (r: &'static str)
    ensures
        r@ == spec_int_type_keyword(t),
{
    match t {
        IntType::U8 => "u8",
        IntType::U16 => "u16",
        IntType::U24 => "u24",
        IntType::U32 => "u32",
        IntType::U64 => "u64",
        IntType::I8 => "i8",
        IntType::I16 => "i16",
        IntType::I24 => "i24",
        IntType::I32 => "i32",
        IntType::I64 => "i64",
        IntType::BtcVarint => "btc_varint",
        IntType::Uleb128 => "uleb128",
    }
}

/// Character-level equality with a literal.
fn str_is(s: &str, lit: &str) -> (r: bool)
    ensures
        r == (s@ == lit@),
{
    crate::text::str_eq(s, lit)
}

/// Integer constraint expression.
pub struct IntConstraint {
    pub elements: Vec<ConstraintElement>,
    pub negated: bool,
}

pub enum ConstraintElement {
    Single { value: ConstValue, span: Span },
    Range { start: Option<ConstValue>, end: Option<ConstValue>, span: Span },
}

impl ConstraintElement {
    pub open spec fn spec_span(&self) -> Span {
        match self {
            ConstraintElement::Single { span, .. } => *span,
            ConstraintElement::Range { span, .. } => *span,
        }
    }

    pub fn span(&self) -> (s: Span)
        ensures
            s == self.spec_span(),
    {
        match self {
            ConstraintElement::Single { span, .. } => *span,
            ConstraintElement::Range { span, .. } => *span,
        }
    }
}

/// A struct combinator with ordered fields.
pub struct StructCombinator {
    pub fields: Vec<Field>,
}

/// A field in a struct combinator.
pub struct Field {
    pub name: Name,
    pub is_dependent: bool,
    pub is_const: bool,
    pub ty: Combinator,
    pub const_value: Option<ConstValue>,
    pub span: Span,
    pub full_span: Span,
}

/// A choice combinator with pattern matching arms.
pub struct ChoiceCombinator {
    pub discriminant: Option<NameRef>,
    pub arms: Vec<ChoiceArm>,
}

/// A single arm in a choice combinator.
pub struct ChoiceArm {
    pub pattern: ChoicePattern,
    pub body: Combinator,
    pub span: Span,
}

pub enum ChoicePattern {
    Variant(NameRef),
    Wildcard,
    Constraint(ConstraintElement),
    Array(Vec<ConstValue>),
}

/// Array combinator.
pub struct ArrayCombinator {
    pub element: Box<Combinator>,
    pub length: LengthExpr,
}

/// Variable-size vector combinator.
pub struct VecCombinator {
    pub element: Box<Combinator>,
}

/// Optional value combinator.
pub struct OptionCombinator {
    pub element: Box<Combinator>,
}

/// Wrap combinator for prefixing/suffixing with constants.
pub struct WrapCombinator {
    pub args: Vec<WrapArg>,
}

pub enum WrapArg {
    Combinator(Combinator),
    ConstInt { ty: IntType, value: ConstValue },
    ConstEnum { ty: NameRef, variant: NameRef },
    ConstBytes { element_ty: IntType, length: u64, values: Vec<ConstValue> },
}

/// Length expression for arrays: terms joined by additive operators.
pub struct LengthExpr {
    pub terms: Vec<LengthTerm>,
    pub ops: Vec<LengthOp>,
}

/// Atoms joined by multiplicative operators.
pub struct LengthTerm {
    pub atoms: Vec<LengthAtom>,
    pub ops: Vec<LengthOp>,
}

pub enum LengthAtom {
    Const(u64),
    Param(NameRef),
    ProjectedParam { base: NameRef, fields: Vec<Name> },
    SizeOf(SizeTarget),
    Paren(Box<LengthExpr>),
}

#[derive(Clone, Copy, PartialEq, Eq, Hash, Debug, Structural)]
pub enum SizeTarget {
    Type(IntType),
    Named(NameRef),
}

#[derive(Clone, Copy, PartialEq, Eq, Hash, Debug, Structural)]
pub enum LengthOp {
    Add,
    Sub,
    Mul,
    Div,
}

/// Enum definition.
pub struct EnumDef {
    pub variants: Vec<EnumVariant>,
    pub is_exhaustive: bool,
    pub repr_type: Option<IntType>,
}

/// A single variant in an enum definition.
pub struct EnumVariant {
    pub name: Name,
    pub value: ConstValue,
    pub repr_type: Option<IntType>,
    pub span: Span,
    pub full_span: Span,
}

/// Parameter definition for combinators.
pub struct Param {
    pub name: Name,
    pub ty: Combinator,
    pub span: Span,
    pub full_span: Span,
}

/// Constant value (integer, string or array).
pub enum ConstValue {
    Int(u64),
    String(NameRef),
    ByteString(NameRef),
    Array(Vec<ConstValue>),
}

impl ConstValue {
    pub open spec fn spec_as_int(&self) -> Option<u64> {
        match self {
            ConstValue::Int(v) => Some(*v),
            _ => None,
        }
    }

    pub fn as_int(&self) -> (r: Option<u64>)
        ensures
            r == self.spec_as_int(),
    {
        match self {
            ConstValue::Int(v) => Some(*v),
            _ => None,
        }
    }
}

/// Endianness directive.
#[derive(Clone, Copy, PartialEq, Eq, Hash, Debug, Structural)]
pub enum Endianness {
    Little,
    Big,
}

/// Diagnostic produced while building the HIR.
pub struct HirDiagnostic {
    pub message: String,
    pub span: Span,
    pub kind: HirDiagnosticKind,
}

#[derive(Clone, Copy, PartialEq, Eq, Hash, Debug, Structural)]
pub enum HirDiagnosticKind {
    UnresolvedSymbol(Name),
    DuplicateDefinition(Name),
    InvalidConstant,
    UnsupportedSyntax,
}

} // verus!
