//! Hover information and wire-length computation: symbolic expressions for
//! the encoded length of a format together with lower and upper bounds.
use vstd::prelude::*;

use crate::check::{
    arms_sz, atom_size, atoms_sz, comb_size, expr_size, fields_sz, term_size, terms_sz, wrap_sz,
};
use crate::db::{Database, Name};
use std::collections::HashMap;
use crate::symbols::{first_occ_at, spec_occurrences, spec_resolve, symbol_occurrence_at_offset_in_hir};
use crate::text::{owned, push_str, spec_decimal, u64_text};
use crate::types::{
    Combinator, ConstValue, ConstraintElement, Definition, DefinitionKind, EnumDef, EnumVariant,
    Field, IntConstraint, IntType, LengthAtom, LengthExpr, LengthOp, LengthTerm, NameRef,
    SizeTarget, Span, SymbolId, SymbolOccurrence, WrapArg, FileHir, spec_int_max, spec_prim_byte_size,
};

verus! {

/// A dependent path such as `@len` or `@header.len`.
#[derive(PartialEq, Eq, Debug)]
pub struct WireVar {
    pub base: Name,
    pub fields: Vec<Name>,
}

/// Arithmetic operator of a wire-length expression.
#[derive(Clone, Copy, PartialEq, Eq, Hash, Debug, Structural)]
pub enum WireOp {
    Add,
    Sub,
    Mul,
    Div,
}

/// Symbolic wire-length expression.
#[derive(PartialEq, Eq, Debug)]
pub enum WireExpr {
    Const(u64),
    Var(WireVar),
    Binary { op: WireOp, lhs: Box<WireExpr>, rhs: Box<WireExpr> },
}

/// Mathematical value of a wire-length expression.
pub enum ExprModel {
    Const(u64),
    Var(Name, Seq<Name>),
    Binary(WireOp, Box<ExprModel>, Box<ExprModel>),
}

pub open spec fn expr_model(e: WireExpr) -> ExprModel
    decreases e,
{
    match e {
        WireExpr::Const(v) => ExprModel::Const(v),
        WireExpr::Var(v) => ExprModel::Var(v.base, v.fields@),
        WireExpr::Binary { op, lhs, rhs } => ExprModel::Binary(
            op,
            Box::new(expr_model(*lhs)),
            Box::new(expr_model(*rhs)),
        ),
    }
}

impl View for WireExpr {
    type V = ExprModel;

    open spec fn view(&self) -> ExprModel {
        expr_model(*self)
    }
}

pub open spec fn opt_expr_model(e: Option<WireExpr>) -> Option<ExprModel> {
    match e {
        Some(e) => Some(expr_model(e)),
        None => None,
    }
}

pub open spec fn model_const(e: ExprModel) -> Option<u64> {
    match e {
        ExprModel::Const(v) => Some(v),
        _ => None,
    }
}

/// `lhs op rhs` with constant folding and the identities `0 + e`, `e + 0`,
/// `e * 0`, `0 * e`, `1 * e`, `e * 1`, `e - 0` and `e / 1`; a constant
/// subtraction saturates at zero, and an overflowing or undefined constant
/// operation stays symbolic.
pub open spec fn spec_binary(op: WireOp, lhs: ExprModel, rhs: ExprModel) -> ExprModel {
    let l = model_const(lhs);
    let r = model_const(rhs);
    let sym = ExprModel::Binary(op, Box::new(lhs), Box::new(rhs));
    if op == WireOp::Add && l == Some(0u64) {
        rhs
    } else if op == WireOp::Add && r == Some(0u64) {
        lhs
    } else if op == WireOp::Mul && (l == Some(0u64) || r == Some(0u64)) {
        ExprModel::Const(0)
    } else if op == WireOp::Mul && l == Some(1u64) {
        rhs
    } else if op == WireOp::Mul && r == Some(1u64) {
        lhs
    } else if op == WireOp::Sub && r == Some(0u64) {
        lhs
    } else if op == WireOp::Div && r == Some(1u64) {
        lhs
    } else {
        match (l, r) {
            (Some(a), Some(b)) => match op {
                WireOp::Add => if a + b <= u64::MAX {
                    ExprModel::Const((a + b) as u64)
                } else {
                    sym
                },
                WireOp::Sub => ExprModel::Const(if a >= b {
                    (a - b) as u64
                } else {
                    0
                }),
                WireOp::Mul => if a * b <= u64::MAX {
                    ExprModel::Const((a * b) as u64)
                } else {
                    sym
                },
                WireOp::Div => if b == 0 {
                    sym
                } else {
                    ExprModel::Const((a / b) as u64)
                },
            },
            _ => sym,
        }
    }
}

/// Value of an expression under an assignment of the dependent paths:
/// subtraction saturates at zero, as lengths are never negative, and a
/// division by zero is taken as zero.
pub open spec fn expr_value(e: ExprModel, env: spec_fn(Name, Seq<Name>) -> int) -> int
    decreases e,
{
    match e {
        ExprModel::Const(v) => v as int,
        ExprModel::Var(b, fs) => env(b, fs),
        ExprModel::Binary(op, l, r) => {
            let a = expr_value(*l, env);
            let b = expr_value(*r, env);
            match op {
                WireOp::Add => a + b,
                WireOp::Sub => if a >= b {
                    a - b
                } else {
                    0
                },
                WireOp::Mul => a * b,
                WireOp::Div => if b == 0 {
                    0
                } else {
                    a / b
                },
            }
        },
    }
}

proof fn lemma_value_nonneg(e: ExprModel, env: spec_fn(Name, Seq<Name>) -> int)
    requires
        forall|b: Name, fs: Seq<Name>| #[trigger] env(b, fs) >= 0,
    ensures
        expr_value(e, env) >= 0,
    decreases e,
{
    match e {
        ExprModel::Binary(op, l, r) => {
            lemma_value_nonneg(*l, env);
            lemma_value_nonneg(*r, env);
            let a = expr_value(*l, env);
            let b = expr_value(*r, env);
            assert(a * b >= 0) by (nonlinear_arith)
                requires
                    a >= 0,
                    b >= 0,
            ;
            assert(b != 0 ==> a / b >= 0) by (nonlinear_arith)
                requires
                    a >= 0,
                    b >= 0,
            ;
        },
        _ => {},
    }
}

/// Simplification never changes the value of an expression.
pub proof fn lemma_binary_preserves_value(
    op: WireOp,
    lhs: ExprModel,
    rhs: ExprModel,
    env: spec_fn(Name, Seq<Name>) -> int,
)
    requires
        forall|b: Name, fs: Seq<Name>| #[trigger] env(b, fs) >= 0,
    ensures
        expr_value(spec_binary(op, lhs, rhs), env) == expr_value(
            ExprModel::Binary(op, Box::new(lhs), Box::new(rhs)),
            env,
        ),
{
    let a = expr_value(lhs, env);
    let b = expr_value(rhs, env);
    lemma_value_nonneg(lhs, env);
    lemma_value_nonneg(rhs, env);
    assert(a * 0 == 0 && 0 * b == 0 && a * 1 == a && 1 * b == b) by (nonlinear_arith);
    assert(a / 1 == a) by (nonlinear_arith);
}

impl WireExpr {
    fn constant(value: u64) -> (r: WireExpr)
        ensures
            r@ == ExprModel::Const(value),
    {
        WireExpr::Const(value)
    }

    fn as_const(&self) -> (r: Option<u64>)
        ensures
            r == model_const(self@),
    {
        match self {
            WireExpr::Const(value) => Some(*value),
            _ => None,
        }
    }

    /// `lhs op rhs`, simplified.
    fn binary(op: WireOp, lhs: WireExpr, rhs: WireExpr) -> (r: WireExpr)
        ensures
            r@ == spec_binary(op, lhs@, rhs@),
    {
        let l = lhs.as_const();
        let r = rhs.as_const();
        if op == WireOp::Add && l == Some(0u64) {
            rhs
        } else if op == WireOp::Add && r == Some(0u64) {
            lhs
        } else if op == WireOp::Mul && (l == Some(0u64) || r == Some(0u64)) {
            WireExpr::Const(0)
        } else if op == WireOp::Mul && l == Some(1u64) {
            rhs
        } else if op == WireOp::Mul && r == Some(1u64) {
            lhs
        } else if op == WireOp::Sub && r == Some(0u64) {
            lhs
        } else if op == WireOp::Div && r == Some(1u64) {
            lhs
        } else {
            match (l, r) {
                (Some(a), Some(b)) => match op {
                    WireOp::Add => match a.checked_add(b) {
                        Some(v) => WireExpr::Const(v),
                        None => WireExpr::Binary { op, lhs: Box::new(lhs), rhs: Box::new(rhs) },
                    },
                    WireOp::Sub => WireExpr::Const(a.saturating_sub(b)),
                    WireOp::Mul => match a.checked_mul(b) {
                        Some(v) => WireExpr::Const(v),
                        None => WireExpr::Binary { op, lhs: Box::new(lhs), rhs: Box::new(rhs) },
                    },
                    WireOp::Div => {
                        if b == 0 {
                            WireExpr::Binary { op, lhs: Box::new(lhs), rhs: Box::new(rhs) }
                        } else {
                            WireExpr::Const(a / b)
                        }
                    },
                },
                _ => WireExpr::Binary { op, lhs: Box::new(lhs), rhs: Box::new(rhs) },
            }
        }
    }
}

/// A copy of a name list.
fn copy_names(v: &Vec<Name>) -> (r: Vec<Name>)
    ensures
        r@ == v@,
{
    let mut out: Vec<Name> = Vec::new();
    let mut i: usize = 0;
    while i < v.len()
        invariant
            i <= v@.len(),
            out@ == v@.take(i as int),
        decreases v@.len() - i,
    {
        out.push(v[i]);
        i = i + 1;
        assert(out@ =~= v@.take(i as int));
    }
    assert(v@.take(v@.len() as int) =~= v@);
    out
}

/// A copy of a wire expression.
fn clone_expr(e: &WireExpr) -> (r: WireExpr)
    ensures
        r@ == e@,
    decreases e,
{
    match e {
        WireExpr::Const(v) => WireExpr::Const(*v),
        WireExpr::Var(v) => WireExpr::Var(WireVar { base: v.base, fields: copy_names(&v.fields) }),
        WireExpr::Binary { op, lhs, rhs } => WireExpr::Binary {
            op: *op,
            lhs: Box::new(clone_expr(lhs)),
            rhs: Box::new(clone_expr(rhs)),
        },
    }
}

fn names_eq(a: &Vec<Name>, b: &Vec<Name>) -> (r: bool)
    ensures
        r == (a@ == b@),
{
    if a.len() != b.len() {
        return false;
    }
    let mut i: usize = 0;
    while i < a.len()
        invariant
            i <= a@.len(),
            a@.len() == b@.len(),
            forall|k: int| 0 <= k < i ==> a@[k] == b@[k],
        decreases a@.len() - i,
    {
        if a[i] != b[i] {
            return false;
        }
        i = i + 1;
    }
    assert(a@ =~= b@);
    true
}

impl Clone for WireExpr {
    fn clone(&self) -> (r: Self)
        ensures
            r@ == self@,
    {
        clone_expr(self)
    }
}

/// Structural equality of two wire expressions.
fn expr_eq(a: &WireExpr, b: &WireExpr) -> (r: bool)
    ensures
        r == (a@ == b@),
    decreases a,
{
    match (a, b) {
        (WireExpr::Const(x), WireExpr::Const(y)) => *x == *y,
        (WireExpr::Var(x), WireExpr::Var(y)) => x.base == y.base && names_eq(&x.fields, &y.fields),
        (WireExpr::Binary { op: o1, lhs: l1, rhs: r1 }, WireExpr::Binary { op: o2, lhs: l2, rhs: r2 }) => {
            *o1 == *o2 && expr_eq(l1, l2) && expr_eq(r1, r2)
        },
        _ => false,
    }
}

fn opt_expr_eq(a: &Option<WireExpr>, b: &Option<WireExpr>) -> (r: bool)
    ensures
        r == (opt_expr_model(*a) == opt_expr_model(*b)),
{
    match (a, b) {
        (Some(x), Some(y)) => expr_eq(x, y),
        (None, None) => true,
        _ => false,
    }
}

pub open spec fn op_text(op: WireOp) -> Seq<char> {
    match op {
        WireOp::Add => seq!['+'],
        WireOp::Sub => seq!['-'],
        WireOp::Mul => seq!['*'],
        WireOp::Div => seq!['/'],
    }
}

pub open spec fn op_precedence(op: WireOp) -> u8 {
    match op {
        WireOp::Add | WireOp::Sub => 1,
        WireOp::Mul | WireOp::Div => 2,
    }
}

impl WireOp {
    fn render(self) -> (s: &'static str)
        ensures
            s@ == op_text(self),
    {
        match self {
            WireOp::Add => {
                proof {
                    reveal_strlit("+");
                }
                "+"
            },
            WireOp::Sub => {
                proof {
                    reveal_strlit("-");
                }
                "-"
            },
            WireOp::Mul => {
                proof {
                    reveal_strlit("*");
                }
                "*"
            },
            WireOp::Div => {
                proof {
                    reveal_strlit("/");
                }
                "/"
            },
        }
    }

    fn precedence(self) -> (p: u8)
        ensures
            p == op_precedence(self),
    {
        match self {
            WireOp::Add | WireOp::Sub => 1,
            WireOp::Mul | WireOp::Div => 2,
        }
    }
}

/// `.f1.f2...` for the projected fields of a path.
pub open spec fn fields_text(db: Database, fs: Seq<Name>) -> Seq<char>
    decreases fs.len(),
{
    if fs.len() == 0 {
        Seq::empty()
    } else {
        fields_text(db, fs.drop_last()) + seq!['.'] + db.text_of(fs.last())
    }
}

/// Source spelling of an expression; an operand binding more loosely than
/// its operator (or equally, on the right of `-` and `/`) is parenthesized.
pub open spec fn spec_render(db: Database, e: ExprModel, outer: u8) -> Seq<char>
    decreases e,
{
    match e {
        ExprModel::Const(v) => spec_decimal(v as nat),
        ExprModel::Var(b, fs) => seq!['@'] + db.text_of(b) + fields_text(db, fs),
        ExprModel::Binary(op, l, r) => {
            let p = op_precedence(op);
            let right_outer: u8 = if op == WireOp::Sub || op == WireOp::Div {
                (p + 1) as u8
            } else {
                p
            };
            let s = spec_render(db, *l, p) + seq![' '] + op_text(op) + seq![' '] + spec_render(
                db,
                *r,
                right_outer,
            );
            if p < outer {
                seq!['('] + s + seq![')']
            } else {
                s
            }
        },
    }
}

impl WireVar {
    fn render(&self, db: &Database) -> (r: String)
        ensures
            r@ == seq!['@'] + db.text_of(self.base) + fields_text(*db, self.fields@),
    {
        let mut rendered = owned("@");
        proof {
            reveal_strlit("@");
            reveal_strlit(".");
        }
        push_str(&mut rendered, self.base.as_str(db));
        let ghost head = rendered@;
        assert(self.fields@.take(0) =~= Seq::<Name>::empty());
        let mut i: usize = 0;
        while i < self.fields.len()
            invariant
                i <= self.fields@.len(),
                rendered@ == head + fields_text(*db, self.fields@.take(i as int)),
                "."@ == seq!['.'],
            decreases self.fields@.len() - i,
        {
            push_str(&mut rendered, ".");
            push_str(&mut rendered, self.fields[i].as_str(db));
            proof {
                assert(self.fields@.take(i + 1).drop_last() =~= self.fields@.take(i as int));
                assert(rendered@ =~= head + fields_text(*db, self.fields@.take(i + 1)));
            }
            i = i + 1;
        }
        assert(self.fields@.take(self.fields@.len() as int) =~= self.fields@);
        rendered
    }
}

impl WireExpr {
    /// Source spelling of this expression.
    pub fn render(&self, db: &Database) -> (r: String)
        ensures
            r@ == spec_render(*db, self@, 0),
    {
        self.render_with_precedence(db, 0)
    }

    fn render_with_precedence(&self, db: &Database, outer: u8) -> (r: String)
        ensures
            r@ == spec_render(*db, self@, outer),
        decreases self,
    {
        match self {
            WireExpr::Const(value) => u64_text(*value),
            WireExpr::Var(var) => var.render(db),
            WireExpr::Binary { op, lhs, rhs } => {
                let precedence = op.precedence();
                let right_outer: u8 = if *op == WireOp::Sub || *op == WireOp::Div {
                    precedence + 1
                } else {
                    precedence
                };
                let left = lhs.render_with_precedence(db, precedence);
                let right = rhs.render_with_precedence(db, right_outer);
                let mut rendered = left;
                proof {
                    reveal_strlit(" ");
                    reveal_strlit("(");
                    reveal_strlit(")");
                }
                push_str(&mut rendered, " ");
                push_str(&mut rendered, op.render());
                push_str(&mut rendered, " ");
                push_str(&mut rendered, right.as_str());
                if precedence < outer {
                    let mut wrapped = owned("(");
                    push_str(&mut wrapped, rendered.as_str());
                    push_str(&mut wrapped, ")");
                    assert(wrapped@ =~= spec_render(*db, self@, outer));
                    wrapped
                } else {
                    assert(rendered@ =~= spec_render(*db, self@, outer));
                    rendered
                }
            },
        }
    }
}

/// Encoded length of a format: an exact expression when one is known, and
/// bounds (`max` is `None` when unbounded).
#[derive(Clone, PartialEq, Eq, Debug)]
pub struct WireLength {
    pub exact: Option<WireExpr>,
    pub min: u64,
    pub max: Option<u64>,
}

/// Mathematical value of a wire length.
pub struct LengthModel {
    pub exact: Option<ExprModel>,
    pub min: u64,
    pub max: Option<u64>,
}

impl View for WireLength {
    type V = LengthModel;

    open spec fn view(&self) -> LengthModel {
        LengthModel { exact: opt_expr_model(self.exact), min: self.min, max: self.max }
    }
}

pub open spec fn exact_const_model(v: u64) -> LengthModel {
    LengthModel { exact: Some(ExprModel::Const(v)), min: v, max: Some(v) }
}

pub open spec fn unknown_model() -> LengthModel {
    LengthModel { exact: None, min: 0, max: None }
}

pub open spec fn min_line(min: u64) -> Seq<char> {
    "**Min wire length:** `"@ + spec_decimal(min as nat) + "`"@
}

pub open spec fn max_line(max: Option<u64>) -> Seq<char> {
    "**Max wire length:** `"@ + match max {
        Some(m) => spec_decimal(m as nat),
        None => "unbounded"@,
    } + "`"@
}

/// Markdown text of a wire length: the exact expression when known, and the
/// bounds unless they coincide.
pub open spec fn spec_markdown(db: Database, w: LengthModel) -> Seq<char> {
    match w.exact {
        Some(e) => "**Wire length:** `"@ + spec_render(db, e, 0) + "`"@ + if w.max != Some(w.min) {
            "\n"@ + min_line(w.min) + "\n"@ + max_line(w.max)
        } else {
            Seq::empty()
        },
        None => min_line(w.min) + "\n"@ + max_line(w.max),
    }
}

impl WireLength {
    fn exact_const(value: u64) -> (r: WireLength)
        ensures
            r@ == exact_const_model(value),
    {
        WireLength { exact: Some(WireExpr::Const(value)), min: value, max: Some(value) }
    }

    fn unknown() -> (r: WireLength)
        ensures
            r@ == unknown_model(),
    {
        WireLength { exact: None, min: 0, max: None }
    }

    fn push_min_line(&self, out: &mut String)
        ensures
            final(out)@ == old(out)@ + min_line(self.min),
    {
        push_str(out, "**Min wire length:** `");
        let n = u64_text(self.min);
        push_str(out, n.as_str());
        push_str(out, "`");
    }

    fn push_max_line(&self, out: &mut String)
        ensures
            final(out)@ == old(out)@ + max_line(self.max),
    {
        push_str(out, "**Max wire length:** `");
        match self.max {
            Some(m) => {
                let n = u64_text(m);
                push_str(out, n.as_str());
            },
            None => {
                push_str(out, "unbounded");
            },
        }
        push_str(out, "`");
        assert(out@ =~= old(out)@ + max_line(self.max));
    }

    /// Markdown lines describing this wire length.
    pub fn markdown(&self, db: &Database) -> (r: String)
        ensures
            r@ == spec_markdown(*db, self@),
    {
        match &self.exact {
            Some(expr) => {
                let mut out = owned("**Wire length:** `");
                let rendered = expr.render(db);
                push_str(&mut out, rendered.as_str());
                push_str(&mut out, "`");
                if self.max != Some(self.min) {
                    push_str(&mut out, "\n");
                    self.push_min_line(&mut out);
                    push_str(&mut out, "\n");
                    self.push_max_line(&mut out);
                }
                assert(out@ =~= spec_markdown(*db, self@));
                out
            },
            None => {
                let mut out = String::new();
                self.push_min_line(&mut out);
                push_str(&mut out, "\n");
                self.push_max_line(&mut out);
                assert(out@ =~= spec_markdown(*db, self@));
                out
            },
        }
    }
}

/// What a hover shows.
#[derive(Clone, Copy, PartialEq, Eq, Debug, Structural)]
pub enum HoverKind {
    Format,
    Parameter,
    Field,
    Enum,
    EnumVariant,
    Constant,
    Endianness,
}

pub open spec fn spec_label(k: HoverKind) -> Seq<char> {
    match k {
        HoverKind::Format => "format"@,
        HoverKind::Parameter => "parameter"@,
        HoverKind::Field => "field"@,
        HoverKind::Enum => "enum"@,
        HoverKind::EnumVariant => "enum variant"@,
        HoverKind::Constant => "constant"@,
        HoverKind::Endianness => "endianness"@,
    }
}

impl HoverKind {
    /// Label of the kind of hovered item.
    pub fn label(self) -> (s: &'static str)
        ensures
            s@ == spec_label(self),
    {
        match self {
            HoverKind::Format => "format",
            HoverKind::Parameter => "parameter",
            HoverKind::Field => "field",
            HoverKind::Enum => "enum",
            HoverKind::EnumVariant => "enum variant",
            HoverKind::Constant => "constant",
            HoverKind::Endianness => "endianness",
        }
    }
}

/// Hover result: the hovered range, the span of the declaration to show,
/// what was hovered and its wire length.
#[derive(Clone, PartialEq, Eq, Debug)]
pub struct HoverInfo {
    pub range: Span,
    pub snippet_span: Span,
    pub kind: HoverKind,
    pub wire_length: Option<WireLength>,
}

/// Lower and upper bound of a value (`max` is `None` when unbounded).
#[derive(Clone, Copy, PartialEq, Eq, Debug, Structural)]
pub struct Bounds {
    pub min: u64,
    pub max: Option<u64>,
}

pub open spec fn sat_add(a: u64, b: u64) -> u64 {
    if a + b <= u64::MAX {
        (a + b) as u64
    } else {
        u64::MAX
    }
}

pub open spec fn sat_sub(a: u64, b: u64) -> u64 {
    if a >= b {
        (a - b) as u64
    } else {
        0
    }
}

pub open spec fn opt_add(a: Option<u64>, b: Option<u64>) -> Option<u64> {
    match (a, b) {
        (Some(x), Some(y)) => if x + y <= u64::MAX {
            Some((x + y) as u64)
        } else {
            None
        },
        _ => None,
    }
}

pub open spec fn opt_mul(a: Option<u64>, b: Option<u64>) -> Option<u64> {
    match (a, b) {
        (Some(x), Some(y)) => if x * y <= u64::MAX {
            Some((x * y) as u64)
        } else {
            None
        },
        _ => None,
    }
}

pub open spec fn opt_max(a: Option<u64>, b: Option<u64>) -> Option<u64> {
    match (a, b) {
        (Some(x), Some(y)) => Some(if x >= y {
            x
        } else {
            y
        }),
        _ => None,
    }
}

/// Product of two lower bounds, `0` when it overflows.
pub open spec fn mul_min(a: u64, b: u64) -> u64 {
    if a * b <= u64::MAX {
        (a * b) as u64
    } else {
        0
    }
}

/// Interval arithmetic on bounds.
pub open spec fn spec_combine_bounds(lhs: Bounds, op: WireOp, rhs: Bounds) -> Bounds {
    match op {
        WireOp::Add => Bounds { min: sat_add(lhs.min, rhs.min), max: opt_add(lhs.max, rhs.max) },
        WireOp::Sub => Bounds {
            min: sat_sub(
                lhs.min,
                match rhs.max {
                    Some(m) => m,
                    None => u64::MAX,
                },
            ),
            max: match lhs.max {
                Some(l) => Some(sat_sub(l, rhs.min)),
                None => None,
            },
        },
        WireOp::Mul => Bounds { min: mul_min(lhs.min, rhs.min), max: opt_mul(lhs.max, rhs.max) },
        WireOp::Div => if rhs.min == 0 {
            Bounds { min: 0, max: None }
        } else {
            Bounds {
                min: match rhs.max {
                    Some(m) => (lhs.min / m) as u64,
                    None => 0,
                },
                max: match lhs.max {
                    Some(l) => Some((l / rhs.min) as u64),
                    None => None,
                },
            }
        },
    }
}

/// `v` lies within `b`.
pub open spec fn in_bounds(v: int, b: Bounds) -> bool {
    b.min <= v && match b.max {
        Some(m) => v <= m,
        None => true,
    }
}

/// Result of an operator on lengths (saturating subtraction, floor division,
/// division by zero taken as zero).
pub open spec fn apply_op(op: WireOp, a: int, b: int) -> int {
    match op {
        WireOp::Add => a + b,
        WireOp::Sub => if a >= b {
            a - b
        } else {
            0
        },
        WireOp::Mul => a * b,
        WireOp::Div => if b == 0 {
            0
        } else {
            a / b
        },
    }
}

/// Interval arithmetic is sound: any operands within the bounds give a
/// result within the combined bounds.
pub proof fn lemma_combine_bounds_sound(lhs: Bounds, op: WireOp, rhs: Bounds, a: int, b: int)
    requires
        in_bounds(a, lhs),
        in_bounds(b, rhs),
    ensures
        in_bounds(apply_op(op, a, b), spec_combine_bounds(lhs, op, rhs)),
{
    let lmin = lhs.min as int;
    let rmin = rhs.min as int;
    match op {
        WireOp::Mul => {
            assert(lmin * rmin <= a * b) by (nonlinear_arith)
                requires
                    0 <= lmin <= a,
                    0 <= rmin <= b,
            ;
            match (lhs.max, rhs.max) {
                (Some(x), Some(y)) => {
                    let xi = x as int;
                    let yi = y as int;
                    assert(a * b <= xi * yi) by (nonlinear_arith)
                        requires
                            0 <= a <= xi,
                            0 <= b <= yi,
                    ;
                },
                _ => {},
            }
        },
        WireOp::Div => {
            if rhs.min != 0 {
                assert(b > 0);
                match rhs.max {
                    Some(m) => {
                        let mi = m as int;
                        assert(lmin / mi <= a / b) by (nonlinear_arith)
                            requires
                                0 <= lmin <= a,
                                0 < b <= mi,
                        {
                            vstd::arithmetic::div_mod::lemma_div_is_ordered(lmin, a, mi);
                            vstd::arithmetic::div_mod::lemma_div_is_ordered_by_denominator(a, b, mi);
                        }
                    },
                    None => {
                        assert(a / b >= 0) by (nonlinear_arith)
                            requires
                                a >= 0,
                                b > 0,
                        ;
                    },
                }
                match lhs.max {
                    Some(l) => {
                        let li = l as int;
                        assert(a / b <= li / rmin) by (nonlinear_arith)
                            requires
                                0 <= a <= li,
                                0 < rmin <= b,
                        {
                            vstd::arithmetic::div_mod::lemma_div_is_ordered(a, li, b);
                            vstd::arithmetic::div_mod::lemma_div_is_ordered_by_denominator(li, rmin, b);
                        }
                    },
                    None => {},
                }
            } else {
                if b != 0 {
                    assert(a / b >= 0) by (nonlinear_arith)
                        requires
                            a >= 0,
                            b > 0,
                    ;
                }
            }
        },
        _ => {},
    }
}

impl Bounds {
    fn exact(value: u64) -> (r: Bounds)
        ensures
            r == (Bounds { min: value, max: Some(value) }),
    {
        Bounds { min: value, max: Some(value) }
    }
}

/// Combines two optional upper bounds with a checked operator.
fn combine_optional(lhs: Option<u64>, rhs: Option<u64>, op: WireOp) -> (r: Option<u64>)
    requires
        op == WireOp::Add || op == WireOp::Mul,
    ensures
        op == WireOp::Add ==> r == opt_add(lhs, rhs),
        op == WireOp::Mul ==> r == opt_mul(lhs, rhs),
{
    match (lhs, rhs) {
        (Some(l), Some(r)) => if op == WireOp::Add {
            l.checked_add(r)
        } else {
            l.checked_mul(r)
        },
        _ => None,
    }
}

fn combine_optional_max(lhs: Option<u64>, rhs: Option<u64>) -> (r: Option<u64>)
    ensures
        r == opt_max(lhs, rhs),
{
    match (lhs, rhs) {
        (Some(left), Some(right)) => Some(if left >= right {
            left
        } else {
            right
        }),
        _ => None,
    }
}

fn multiply_bounds(lhs: u64, rhs: u64) -> (r: Option<u64>)
    ensures
        r == (if lhs * rhs <= u64::MAX {
            Some((lhs * rhs) as u64)
        } else {
            None::<u64>
        }),
{
    lhs.checked_mul(rhs)
}

/// Interval arithmetic on bounds; a division by a divisor that may be zero
/// is unbounded.
pub fn combine_bounds(lhs: Bounds, op: WireOp, rhs: Bounds) -> (r: Bounds)
    requires
        op == WireOp::Div && rhs.min != 0 ==> rhs.max != Some(0u64),
    ensures
        r == spec_combine_bounds(lhs, op, rhs),
{
    match op {
        WireOp::Add => Bounds {
            min: lhs.min.saturating_add(rhs.min),
            max: combine_optional(lhs.max, rhs.max, WireOp::Add),
        },
        WireOp::Sub => Bounds {
            min: lhs.min.saturating_sub(
                match rhs.max {
                    Some(m) => m,
                    None => u64::MAX,
                },
            ),
            max: match lhs.max {
                Some(left) => Some(left.saturating_sub(rhs.min)),
                None => None,
            },
        },
        WireOp::Mul => Bounds {
            min: match multiply_bounds(lhs.min, rhs.min) {
                Some(v) => v,
                None => 0,
            },
            max: combine_optional(lhs.max, rhs.max, WireOp::Mul),
        },
        WireOp::Div => {
            if rhs.min == 0 {
                Bounds { min: 0, max: None }
            } else {
                Bounds {
                    min: match rhs.max {
                        Some(m) => lhs.min / m,
                        None => 0,
                    },
                    max: match lhs.max {
                        Some(left) => Some(left / rhs.min),
                        None => None,
                    },
                }
            }
        },
    }
}

/// Values of a carrier.
pub open spec fn spec_int_bounds(t: IntType) -> Bounds {
    Bounds { min: 0, max: Some(spec_int_max(t)) }
}

fn int_max(int_type: IntType) -> (r: u64)
    ensures
        r == spec_int_max(int_type),
{
    match int_type {
        IntType::U8 => 0xff,
        IntType::U16 => 0xffff,
        IntType::U24 => 0xff_ffff,
        IntType::U32 => 0xffff_ffff,
        IntType::U64 => 0xffff_ffff_ffff_ffff,
        IntType::I8 => 0x7f,
        IntType::I16 => 0x7fff,
        IntType::I24 => 0x7f_ffff,
        IntType::I32 => 0x7fff_ffff,
        IntType::I64 => 0x7fff_ffff_ffff_ffff,
        IntType::BtcVarint | IntType::Uleb128 => 0xffff_ffff_ffff_ffff,
    }
}

fn int_bounds(int_type: IntType) -> (r: Bounds)
    ensures
        r == spec_int_bounds(int_type),
{
    Bounds { min: 0, max: Some(int_max(int_type)) }
}

fn prim_byte_size(int_type: IntType) -> (r: Option<u64>)
    ensures
        r == spec_prim_byte_size(int_type),
{
    match int_type {
        IntType::U8 | IntType::I8 => Some(1),
        IntType::U16 | IntType::I16 => Some(2),
        IntType::U24 | IntType::I24 => Some(3),
        IntType::U32 | IntType::I32 => Some(4),
        IntType::U64 | IntType::I64 => Some(8),
        IntType::BtcVarint | IntType::Uleb128 => None,
    }
}

/// Largest encoded size of a carrier: 9 bytes for a Bitcoin varint, 10 for
/// ULEB128, the fixed size otherwise.
pub open spec fn spec_variable_prim_max(t: IntType) -> u64 {
    match t {
        IntType::BtcVarint => 9,
        IntType::Uleb128 => 10,
        _ => match spec_prim_byte_size(t) {
            Some(n) => n,
            None => 0,
        },
    }
}

fn variable_prim_max(int_type: IntType) -> (r: u64)
    ensures
        r == spec_variable_prim_max(int_type),
{
    match int_type {
        IntType::BtcVarint => 9,
        IntType::Uleb128 => 10,
        _ => match prim_byte_size(int_type) {
            Some(n) => n,
            None => 0,
        },
    }
}

/// The first variant carrying a type suffix, if any.
pub open spec fn first_variant_suffix(vs: Seq<EnumVariant>) -> Option<IntType>
    decreases vs.len(),
{
    if vs.len() == 0 {
        None
    } else {
        match vs[0].repr_type {
            Some(t) => Some(t),
            None => first_variant_suffix(vs.drop_first()),
        }
    }
}

/// Largest integer value of the variants, `0` when there is none.
pub open spec fn max_variant_value(vs: Seq<EnumVariant>) -> u64
    decreases vs.len(),
{
    if vs.len() == 0 {
        0
    } else {
        let m = max_variant_value(vs.drop_last());
        match vs.last().value {
            ConstValue::Int(v) => if v > m {
                v
            } else {
                m
            },
            _ => m,
        }
    }
}

/// Representation carrier of an enum for wire lengths: the declared one,
/// else the first variant suffix, else the smallest unsigned carrier holding
/// every value.
pub open spec fn spec_enum_repr(e: EnumDef) -> IntType {
    match e.repr_type {
        Some(t) => t,
        None => match first_variant_suffix(e.variants@) {
            Some(t) => t,
            None => crate::check::smallest_repr(max_variant_value(e.variants@)),
        },
    }
}

fn enum_repr(enum_def: &EnumDef) -> (r: IntType)
    ensures
        r == spec_enum_repr(*enum_def),
{
    if let Some(repr) = enum_def.repr_type {
        return repr;
    }
    let vs = &enum_def.variants;
    let ghost s = vs@;
    assert(s.skip(0) =~= s);
    let mut i: usize = 0;
    while i < vs.len()
        invariant
            i <= s.len(),
            s == vs@,
            s == enum_def.variants@,
            enum_def.repr_type is None,
            first_variant_suffix(s) == first_variant_suffix(s.skip(i as int)),
        decreases s.len() - i,
    {
        assert(s.skip(i as int).drop_first() =~= s.skip(i + 1));
        assert(s.skip(i as int)[0] == s[i as int]);
        if let Some(repr) = vs[i].repr_type {
            return repr;
        }
        i = i + 1;
    }
    assert(s.skip(s.len() as int).len() == 0);
    let mut max_value: u64 = 0;
    let mut i: usize = 0;
    assert(s.take(0) =~= Seq::<EnumVariant>::empty());
    while i < vs.len()
        invariant
            i <= s.len(),
            s == vs@,
            s == enum_def.variants@,
            enum_def.repr_type is None,
            first_variant_suffix(s) is None,
            max_value == max_variant_value(s.take(i as int)),
        decreases s.len() - i,
    {
        assert(s.take(i + 1).drop_last() =~= s.take(i as int));
        match &vs[i].value {
            ConstValue::Int(v) => {
                if *v > max_value {
                    max_value = *v;
                }
            },
            _ => {},
        }
        i = i + 1;
    }
    assert(s.take(s.len() as int) =~= s);
    if max_value <= 0xff {
        IntType::U8
    } else if max_value <= 0xffff {
        IntType::U16
    } else if max_value <= 0xffff_ffff {
        IntType::U32
    } else {
        IntType::U64
    }
}

/// Least and greatest integer value of the variants, if any.
pub open spec fn variant_value_range(vs: Seq<EnumVariant>) -> Option<(u64, u64)>
    decreases vs.len(),
{
    if vs.len() == 0 {
        None
    } else {
        let prev = variant_value_range(vs.drop_last());
        match vs.last().value {
            ConstValue::Int(v) => match prev {
                Some((lo, hi)) => Some((if v < lo {
                    v
                } else {
                    lo
                }, if v > hi {
                    v
                } else {
                    hi
                })),
                None => Some((v, v)),
            },
            _ => prev,
        }
    }
}

/// Values an enum can take: the range of its values when it is closed, the
/// values of its carrier when it is open.
pub open spec fn spec_enum_value_bounds(e: EnumDef) -> Bounds {
    if e.is_exhaustive {
        match variant_value_range(e.variants@) {
            Some((lo, hi)) => Bounds { min: lo, max: Some(hi) },
            None => Bounds { min: 0, max: Some(0) },
        }
    } else {
        spec_int_bounds(spec_enum_repr(e))
    }
}

fn enum_value_bounds(enum_def: &EnumDef) -> (r: Bounds)
    ensures
        r == spec_enum_value_bounds(*enum_def),
{
    if enum_def.is_exhaustive {
        let vs = &enum_def.variants;
        let ghost s = vs@;
        let mut range: Option<(u64, u64)> = None;
        let mut i: usize = 0;
        assert(s.take(0) =~= Seq::<EnumVariant>::empty());
        while i < vs.len()
            invariant
                i <= s.len(),
                s == vs@,
                range == variant_value_range(s.take(i as int)),
            decreases s.len() - i,
        {
            assert(s.take(i + 1).drop_last() =~= s.take(i as int));
            match &vs[i].value {
                ConstValue::Int(v) => {
                    range = match range {
                        Some((lo, hi)) => Some((if *v < lo {
                            *v
                        } else {
                            lo
                        }, if *v > hi {
                            *v
                        } else {
                            hi
                        })),
                        None => Some((*v, *v)),
                    };
                },
                _ => {},
            }
            i = i + 1;
        }
        assert(s.take(s.len() as int) =~= s);
        match range {
            Some((lo, hi)) => Bounds { min: lo, max: Some(hi) },
            None => Bounds::exact(0),
        }
    } else {
        int_bounds(enum_repr(enum_def))
    }
}

/// Wire length of an enum: the size of its representation carrier.
pub open spec fn spec_enum_wire_length(e: EnumDef) -> LengthModel {
    match spec_prim_byte_size(spec_enum_repr(e)) {
        Some(n) => exact_const_model(n),
        None => unknown_model(),
    }
}

fn enum_wire_length(enum_def: &EnumDef) -> (r: WireLength)
    ensures
        r@ == spec_enum_wire_length(*enum_def),
{
    match prim_byte_size(enum_repr(enum_def)) {
        Some(n) => WireLength::exact_const(n),
        None => WireLength::unknown(),
    }
}

/// Interval of carrier values matched by one refinement element; a missing
/// or non-integer endpoint is the carrier's bound.
pub open spec fn spec_hover_interval(t: IntType, elem: ConstraintElement) -> Option<(u64, u64)> {
    let max = spec_int_max(t);
    match elem {
        ConstraintElement::Single { value, .. } => match value {
            ConstValue::Int(v) => if v <= max {
                Some((v, v))
            } else {
                None
            },
            _ => None,
        },
        ConstraintElement::Range { start, end, .. } => {
            let s = match crate::check::opt_int(start) {
                Some(v) => v,
                None => 0,
            };
            let e = match crate::check::opt_int(end) {
                Some(v) => v,
                None => max,
            };
            if s <= e && e <= max {
                Some((s, e))
            } else {
                None
            }
        },
    }
}

/// The intervals of the valid elements of a refinement, in order.
pub open spec fn hover_intervals(t: IntType, elems: Seq<ConstraintElement>) -> Seq<(u64, u64)>
    decreases elems.len(),
{
    if elems.len() == 0 {
        Seq::empty()
    } else {
        let prev = hover_intervals(t, elems.drop_last());
        match spec_hover_interval(t, elems.last()) {
            Some(iv) => prev.push(iv),
            None => prev,
        }
    }
}

/// `v` lies in one of the intervals.
pub open spec fn covered(ivs: Seq<(u64, u64)>, v: int) -> bool {
    exists|i: int| 0 <= i < ivs.len() && (#[trigger] ivs[i]).0 <= v <= ivs[i].1
}

/// Every interval is non-empty.
pub open spec fn all_valid(ivs: Seq<(u64, u64)>) -> bool {
    forall|i: int| 0 <= i < ivs.len() ==> (#[trigger] ivs[i]).0 <= ivs[i].1
}

/// Non-empty intervals in increasing order, separated by gaps.
pub open spec fn canonical(ivs: Seq<(u64, u64)>) -> bool {
    &&& all_valid(ivs)
    &&& forall|i: int, j: int| 0 <= i < j < ivs.len() ==> (#[trigger] ivs[i]).1 + 1 < (#[trigger] ivs[j]).0
}

pub open spec fn sorted_by_start(ivs: Seq<(u64, u64)>) -> bool {
    forall|i: int, j: int| 0 <= i < j < ivs.len() ==> (#[trigger] ivs[i]).0 <= (#[trigger] ivs[j]).0
}

proof fn lemma_covered_push(ivs: Seq<(u64, u64)>, x: (u64, u64), v: int)
    ensures
        covered(ivs.push(x), v) == (covered(ivs, v) || (x.0 <= v <= x.1)),
{
    let t = ivs.push(x);
    if covered(ivs, v) {
        let i = choose|i: int| 0 <= i < ivs.len() && (#[trigger] ivs[i]).0 <= v <= ivs[i].1;
        assert(t[i] == ivs[i]);
    }
    if x.0 <= v <= x.1 {
        assert(t[ivs.len() as int] == x);
    }
    if covered(t, v) {
        let i = choose|i: int| 0 <= i < t.len() && (#[trigger] t[i]).0 <= v <= t[i].1;
        if i < ivs.len() {
            assert(ivs[i] == t[i]);
        }
    }
}

proof fn lemma_covered_insert(ivs: Seq<(u64, u64)>, pos: int, x: (u64, u64), v: int)
    requires
        0 <= pos <= ivs.len(),
    ensures
        covered(ivs.insert(pos, x), v) == (covered(ivs, v) || (x.0 <= v <= x.1)),
{
    let t = ivs.insert(pos, x);
    if covered(ivs, v) {
        let i = choose|i: int| 0 <= i < ivs.len() && (#[trigger] ivs[i]).0 <= v <= ivs[i].1;
        if i < pos {
            assert(t[i] == ivs[i]);
        } else {
            assert(t[i + 1] == ivs[i]);
        }
    }
    if x.0 <= v <= x.1 {
        assert(t[pos] == x);
    }
    if covered(t, v) {
        let i = choose|i: int| 0 <= i < t.len() && (#[trigger] t[i]).0 <= v <= t[i].1;
        if i < pos {
            assert(ivs[i] == t[i]);
        } else if i > pos {
            assert(ivs[i - 1] == t[i]);
        }
    }
}

proof fn lemma_covered_replace_last(ivs: Seq<(u64, u64)>, y: (u64, u64), v: int)
    requires
        ivs.len() > 0,
    ensures
        covered(ivs.update(ivs.len() - 1, y), v) == (covered(ivs.drop_last(), v) || (y.0 <= v <= y.1)),
        covered(ivs, v) == (covered(ivs.drop_last(), v) || (ivs.last().0 <= v <= ivs.last().1)),
{
    assert(ivs.update(ivs.len() - 1, y) =~= ivs.drop_last().push(y));
    assert(ivs =~= ivs.drop_last().push(ivs.last()));
    lemma_covered_push(ivs.drop_last(), y, v);
    lemma_covered_push(ivs.drop_last(), ivs.last(), v);
}

/// Sorts the intervals by start and merges overlapping or adjacent ones.
fn merge_intervals(intervals: &mut Vec<(u64, u64)>)
    requires
        all_valid(old(intervals)@),
    ensures
        canonical(final(intervals)@),
        forall|v: int| #[trigger] covered(final(intervals)@, v) == covered(old(intervals)@, v),
        (final(intervals)@.len() == 0) == (old(intervals)@.len() == 0),
{
    let ghost input = intervals@;
    let mut sorted: Vec<(u64, u64)> = Vec::new();
    let mut i: usize = 0;
    while i < intervals.len()
        invariant
            i <= input.len(),
            input == intervals@,
            all_valid(input),
            sorted@.len() == i,
            all_valid(sorted@),
            sorted_by_start(sorted@),
            forall|v: int| #[trigger] covered(sorted@, v) == covered(input.take(i as int), v),
        decreases input.len() - i,
    {
        let x = intervals[i];
        let mut pos: usize = 0;
        while pos < sorted.len() && sorted[pos].0 <= x.0
            invariant
                pos <= sorted@.len(),
                forall|k: int| 0 <= k < pos ==> (#[trigger] sorted@[k]).0 <= x.0,
            decreases sorted@.len() - pos,
        {
            pos = pos + 1;
        }
        let ghost old_sorted = sorted@;
        sorted.insert(pos, x);
        proof {
            assert(input.take(i + 1) =~= input.take(i as int).push(x));
            assert forall|v: int| #[trigger] covered(sorted@, v) == covered(input.take(i + 1), v) by {
                lemma_covered_insert(old_sorted, pos as int, x, v);
                lemma_covered_push(input.take(i as int), x, v);
            }
            assert forall|a: int, b: int| 0 <= a < b < sorted@.len() implies (#[trigger] sorted@[a]).0
                <= (#[trigger] sorted@[b]).0 by {
                if pos < old_sorted.len() {
                    assert(old_sorted[pos as int].0 > x.0);
                }
                if a < pos && b == pos {
                    assert(sorted@[a] == old_sorted[a]);
                } else if a == pos && b > pos {
                    assert(sorted@[b] == old_sorted[b - 1]);
                    assert(old_sorted[pos as int].0 <= old_sorted[b - 1].0 || b - 1 == pos);
                } else if a < pos && b > pos {
                    assert(sorted@[a] == old_sorted[a]);
                    assert(sorted@[b] == old_sorted[b - 1]);
                } else if b < pos {
                    assert(sorted@[a] == old_sorted[a]);
                    assert(sorted@[b] == old_sorted[b]);
                } else {
                    assert(sorted@[a] == old_sorted[a - 1]);
                    assert(sorted@[b] == old_sorted[b - 1]);
                }
            }
            assert forall|k: int| 0 <= k < sorted@.len() implies (#[trigger] sorted@[k]).0 <= sorted@[k].1 by {
                if k < pos {
                    assert(sorted@[k] == old_sorted[k]);
                } else if k > pos {
                    assert(sorted@[k] == old_sorted[k - 1]);
                }
            }
        }
        i = i + 1;
    }
    proof {
        assert(input.take(input.len() as int) =~= input);
    }
    let ghost srt = sorted@;
    let mut merged: Vec<(u64, u64)> = Vec::new();
    let mut i: usize = 0;
    while i < sorted.len()
        invariant
            i <= srt.len(),
            srt == sorted@,
            all_valid(srt),
            sorted_by_start(srt),
            canonical(merged@),
            (merged@.len() == 0) == (i == 0),
            merged@.len() > 0 ==> forall|j: int| i <= j < srt.len() ==> merged@.last().0 <= (#[trigger] srt[j]).0,
            forall|v: int| #[trigger] covered(merged@, v) == covered(srt.take(i as int), v),
        decreases srt.len() - i,
    {
        let (start, end) = sorted[i];
        let ghost old_merged = merged@;
        let n = merged.len();
        let mut extended = false;
        if n > 0 {
            let (last_start, last_end) = merged[n - 1];
            if start <= last_end.saturating_add(1) {
                let new_end = if end > last_end {
                    end
                } else {
                    last_end
                };
                merged.set(n - 1, (last_start, new_end));
                extended = true;
                proof {
                    let y = (last_start, new_end);
                    assert(merged@ =~= old_merged.update(n - 1, y));
                    assert forall|v: int| #[trigger] covered(merged@, v) == covered(srt.take(i + 1), v) by {
                        lemma_covered_replace_last(old_merged, y, v);
                        assert(srt.take(i + 1) =~= srt.take(i as int).push((start, end)));
                        lemma_covered_push(srt.take(i as int), (start, end), v);
                    }
                    assert forall|a: int, b: int| 0 <= a < b < merged@.len() implies (#[trigger] merged@[a]).1
                        + 1 < (#[trigger] merged@[b]).0 by {
                        assert(merged@[a] == old_merged[a]);
                        if b < n - 1 {
                            assert(merged@[b] == old_merged[b]);
                        }
                    }
                }
            }
        }
        if !extended {
            merged.push((start, end));
            proof {
                assert forall|v: int| #[trigger] covered(merged@, v) == covered(srt.take(i + 1), v) by {
                    lemma_covered_push(old_merged, (start, end), v);
                    assert(srt.take(i + 1) =~= srt.take(i as int).push((start, end)));
                    lemma_covered_push(srt.take(i as int), (start, end), v);
                }
                assert forall|a: int, b: int| 0 <= a < b < merged@.len() implies (#[trigger] merged@[a]).1
                    + 1 < (#[trigger] merged@[b]).0 by {
                    assert(merged@[a] == old_merged[a]);
                    if b < n {
                        assert(merged@[b] == old_merged[b]);
                    } else if a < n - 1 {
                        assert(old_merged[a].1 + 1 < old_merged[n - 1].0);
                    }
                }
            }
        }
        i = i + 1;
    }
    proof {
        assert(srt.take(srt.len() as int) =~= srt);
    }
    *intervals = merged;
}

fn constraint_interval(int_type: IntType, element: &ConstraintElement) -> (r: Option<(u64, u64)>)
    ensures
        r == spec_hover_interval(int_type, *element),
{
    let max = int_max(int_type);
    match element {
        ConstraintElement::Single { value: ConstValue::Int(value), .. } => {
            if *value <= max {
                Some((*value, *value))
            } else {
                None
            }
        },
        ConstraintElement::Single { .. } => None,
        ConstraintElement::Range { start, end, .. } => {
            let s = match start {
                Some(ConstValue::Int(v)) => *v,
                _ => 0,
            };
            let e = match end {
                Some(ConstValue::Int(v)) => *v,
                _ => max,
            };
            if s <= e && e <= max {
                Some((s, e))
            } else {
                None
            }
        },
    }
}

/// `m` is the least value covered.
pub open spec fn is_least_covered(ivs: Seq<(u64, u64)>, m: int) -> bool {
    covered(ivs, m) && forall|v: int| v < m ==> !#[trigger] covered(ivs, v)
}

/// `m` is the greatest value covered.
pub open spec fn is_greatest_covered(ivs: Seq<(u64, u64)>, m: int) -> bool {
    covered(ivs, m) && forall|v: int| v > m ==> !#[trigger] covered(ivs, v)
}

/// Some carrier value up to `upper` is not covered.
pub open spec fn has_gap(ivs: Seq<(u64, u64)>, upper: int) -> bool {
    exists|v: int| 0 <= v <= upper && !#[trigger] covered(ivs, v)
}

/// `m` is the least value up to `upper` that is not covered.
pub open spec fn is_least_gap(ivs: Seq<(u64, u64)>, upper: int, m: int) -> bool {
    0 <= m <= upper && !covered(ivs, m) && forall|v: int| 0 <= v < m ==> #[trigger] covered(ivs, v)
}

/// `m` is the greatest value up to `upper` that is not covered.
pub open spec fn is_greatest_gap(ivs: Seq<(u64, u64)>, upper: int, m: int) -> bool {
    0 <= m <= upper && !covered(ivs, m) && forall|v: int| m < v <= upper ==> #[trigger] covered(ivs, v)
}

/// Bounds of the values a refinement admits: the carrier's bounds when it
/// has no valid element; for a positive refinement the least and greatest
/// matched values; for a negated one the least and greatest unmatched
/// carrier values (`0` and unbounded when every value is matched).
pub open spec fn constraint_bounds_ok(t: IntType, constraint: IntConstraint, r: Bounds) -> bool {
    let ivs = hover_intervals(t, constraint.elements@);
    let upper = spec_int_max(t) as int;
    if ivs.len() == 0 {
        r == spec_int_bounds(t)
    } else if !constraint.negated {
        is_least_covered(ivs, r.min as int) && (r.max matches Some(m) && is_greatest_covered(ivs, m as int))
    } else if has_gap(ivs, upper) {
        is_least_gap(ivs, upper, r.min as int) && (r.max matches Some(m) && is_greatest_gap(ivs, upper, m as int))
    } else {
        r.min == 0 && r.max is None
    }
}

proof fn lemma_canonical_order(ivs: Seq<(u64, u64)>, a: int, b: int)
    requires
        canonical(ivs),
        0 <= a < b < ivs.len(),
    ensures
        ivs[a].0 < ivs[b].0,
        ivs[a].1 < ivs[b].1,
        ivs[a].1 + 1 < ivs[b].0,
{
    assert(ivs[a].1 + 1 < ivs[b].0);
}

/// Bounds of the values admitted by an integer refinement.
#[verifier::rlimit(40)]
fn bounds_for_constraint(int_type: IntType, constraint: &IntConstraint) -> (r: Bounds)
    ensures
        constraint_bounds_ok(int_type, *constraint, r),
{
    let type_bounds = int_bounds(int_type);
    let upper = int_max(int_type);
    let elems = &constraint.elements;
    let ghost es = elems@;
    let mut intervals: Vec<(u64, u64)> = Vec::new();
    let mut i: usize = 0;
    assert(es.take(0) =~= Seq::<ConstraintElement>::empty());
    while i < elems.len()
        invariant
            i <= es.len(),
            es == elems@,
            upper == spec_int_max(int_type),
            intervals@ == hover_intervals(int_type, es.take(i as int)),
            forall|k: int| 0 <= k < intervals@.len() ==> (#[trigger] intervals@[k]).0 <= intervals@[k].1 <= upper,
        decreases es.len() - i,
    {
        assert(es.take(i + 1).drop_last() =~= es.take(i as int));
        match constraint_interval(int_type, &elems[i]) {
            Some(iv) => {
                intervals.push(iv);
            },
            None => {},
        }
        i = i + 1;
    }
    assert(es.take(es.len() as int) =~= es);
    let ghost ivs = intervals@;
    if intervals.len() == 0 {
        return type_bounds;
    }
    merge_intervals(&mut intervals);
    let ghost m = intervals@;
    let n = intervals.len();
    proof {
        assert forall|k: int| 0 <= k < m.len() implies (#[trigger] m[k]).1 <= upper by {
            assert(covered(m, m[k].1 as int)) by {
                assert(m[k].0 <= m[k].1);
            }
            assert(covered(ivs, m[k].1 as int));
        }
    }
    if !constraint.negated {
        let r = Bounds { min: intervals[0].0, max: Some(intervals[n - 1].1) };
        proof {
            assert(covered(m, m[0].0 as int));
            assert forall|v: int| v < m[0].0 implies !#[trigger] covered(ivs, v) by {
                if covered(m, v) {
                    let k = choose|k: int| 0 <= k < m.len() && (#[trigger] m[k]).0 <= v <= m[k].1;
                    if k > 0 {
                        lemma_canonical_order(m, 0, k);
                    }
                }
            }
            assert(covered(m, m[n - 1].1 as int));
            assert forall|v: int| v > m[n - 1].1 implies !#[trigger] covered(ivs, v) by {
                if covered(m, v) {
                    let k = choose|k: int| 0 <= k < m.len() && (#[trigger] m[k]).0 <= v <= m[k].1;
                    if k < n - 1 {
                        lemma_canonical_order(m, k, n - 1);
                    }
                }
            }
        }
        return r;
    }
    let min = if intervals[0].0 > type_bounds.min {
        type_bounds.min
    } else {
        let mut found: Option<u64> = None;
        let mut k: usize = 0;
        while k < n && found.is_none()
            invariant
                k <= n,
                n == m.len(),
                m == intervals@,
                canonical(m),
                upper == spec_int_max(int_type),
                forall|j: int| 0 <= j < m.len() ==> (#[trigger] m[j]).1 <= upper,
                found is None ==> (k > 0 ==> m[0].1 + 1 > upper),
                found matches Some(c) ==> c == m[0].1 + 1 && m[0].1 + 1 <= upper,
            decreases n - k,
        {
            if k > 0 {
                proof {
                    lemma_canonical_order(m, 0, k as int);
                }
            }
            match intervals[k].1.checked_add(1) {
                Some(c) => {
                    if c <= upper {
                        found = Some(c);
                    }
                },
                None => {},
            }
            k = k + 1;
        }
        match found {
            Some(c) => c,
            None => type_bounds.min,
        }
    };
    let max = if intervals[n - 1].1 < upper {
        Some(upper)
    } else {
        let mut found: Option<u64> = None;
        let mut k: usize = n;
        while k > 0 && found.is_none()
            invariant
                k <= n,
                n == m.len(),
                n > 0,
                m == intervals@,
                canonical(m),
                found is None ==> (k < n ==> m[n - 1].0 == 0),
                found matches Some(g) ==> g + 1 == m[n - 1].0,
            decreases k,
        {
            if k < n {
                proof {
                    lemma_canonical_order(m, k - 1, n - 1);
                }
            }
            if intervals[k - 1].0 >= 1 {
                found = Some(intervals[k - 1].0 - 1);
            }
            k = k - 1;
        }
        found
    };
    let r = Bounds { min, max };
    proof {
        let up = upper as int;
        assert forall|j: int| 0 <= j < m.len() implies (#[trigger] m[j]).0 <= m[j].1 by {}
        if m[0].0 > 0 {
            assert(!covered(m, 0)) by {
                if covered(m, 0) {
                    let k = choose|k: int| 0 <= k < m.len() && (#[trigger] m[k]).0 <= 0 <= m[k].1;
                    if k > 0 {
                        lemma_canonical_order(m, 0, k);
                    }
                }
            }
            assert(!covered(ivs, 0));
            assert(has_gap(ivs, up));
        } else if m[0].1 < upper {
            let g0 = m[0].1 + 1;
            assert(!covered(m, g0)) by {
                if covered(m, g0) {
                    let k = choose|k: int| 0 <= k < m.len() && (#[trigger] m[k]).0 <= g0 <= m[k].1;
                    if k > 0 {
                        lemma_canonical_order(m, 0, k);
                    }
                }
            }
            assert(!covered(ivs, g0));
            assert forall|v: int| 0 <= v < g0 implies #[trigger] covered(ivs, v) by {
                assert(m[0].0 <= v <= m[0].1);
                assert(covered(m, v));
            }
            assert(has_gap(ivs, up));
        } else {
            if n > 1 {
                lemma_canonical_order(m, 0, 1);
            }
            assert forall|v: int| 0 <= v <= up implies #[trigger] covered(ivs, v) by {
                assert(m[0].0 <= v <= m[0].1);
                assert(covered(m, v));
            }
            assert(!has_gap(ivs, up));
        }
        if m[n - 1].1 < upper {
            assert(!covered(m, up)) by {
                if covered(m, up) {
                    let k = choose|k: int| 0 <= k < m.len() && (#[trigger] m[k]).0 <= up <= m[k].1;
                    if k < n - 1 {
                        lemma_canonical_order(m, k, n - 1);
                    }
                }
            }
            assert(!covered(ivs, up));
        } else {
            if n > 1 {
                lemma_canonical_order(m, 0, n - 1);
            }
            match max {
                Some(g) => {
                    let gi = g as int;
                    assert(!covered(m, gi)) by {
                        if covered(m, gi) {
                            let k = choose|k: int| 0 <= k < m.len() && (#[trigger] m[k]).0 <= gi <= m[k].1;
                            if k < n - 1 {
                                lemma_canonical_order(m, k, n - 1);
                            }
                        }
                    }
                    assert(!covered(ivs, gi));
                    assert forall|v: int| gi < v <= up implies #[trigger] covered(ivs, v) by {
                        assert(m[n - 1].0 <= v <= m[n - 1].1);
                        assert(covered(m, v));
                    }
                },
                None => {},
            }
        }
    }
    r
}

/// Bounds of no information.
pub open spec fn unbounded() -> Bounds {
    Bounds { min: 0, max: None }
}

/// The bounds are consistent: the upper bound is not below the lower one.
pub open spec fn bounds_wf(b: Bounds) -> bool {
    match b.max {
        Some(m) => b.min <= m,
        None => true,
    }
}

/// A constant exact length lies within the bounds.
pub open spec fn exact_in_bounds(e: Option<ExprModel>, b: Bounds) -> bool {
    e matches Some(ExprModel::Const(c)) ==> in_bounds(c as int, b)
}

/// The bounds of a wire length are ordered, and a constant exact length
/// lies within them.
pub open spec fn length_wf(w: LengthModel) -> bool {
    &&& match w.max {
        Some(m) => w.min <= m,
        None => true,
    }
    &&& exact_in_bounds(w.exact, Bounds { min: w.min, max: w.max })
}

/// Folding a constant keeps it within the combined bounds: when an operator
/// applied to two exact lengths simplifies to a constant, that constant lies
/// within the interval arithmetic of their bounds.
pub proof fn lemma_binary_in_bounds(op: WireOp, le: ExprModel, re: ExprModel, lb: Bounds, rb: Bounds)
    requires
        bounds_wf(lb),
        bounds_wf(rb),
        exact_in_bounds(Some(le), lb),
        exact_in_bounds(Some(re), rb),
    ensures
        exact_in_bounds(Some(spec_binary(op, le, re)), spec_combine_bounds(lb, op, rb)),
{
    let l = model_const(le);
    let r = model_const(re);
    if let ExprModel::Const(c) = spec_binary(op, le, re) {
        match (l, r) {
            (Some(a), Some(b)) => {
                lemma_combine_bounds_sound(lb, op, rb, a as int, b as int);
                assert(apply_op(op, a as int, b as int) == c as int) by (nonlinear_arith)
                    requires
                        spec_binary(op, le, re) == ExprModel::Const(c),
                        le == ExprModel::Const(a),
                        re == ExprModel::Const(b),
                ;
            },
            (Some(a), None) => {
                lemma_combine_bounds_sound(lb, op, rb, a as int, rb.min as int);
            },
            (None, Some(b)) => {
                lemma_combine_bounds_sound(lb, op, rb, lb.min as int, b as int);
            },
            (None, None) => {},
        }
    }
}

/// Combining two optional exact lengths keeps a constant within the
/// combined bounds.
proof fn lemma_combine_exact_in_bounds(op: WireOp, le: Option<ExprModel>, re: Option<ExprModel>, lb: Bounds, rb: Bounds)
    requires
        bounds_wf(lb),
        bounds_wf(rb),
        exact_in_bounds(le, lb),
        exact_in_bounds(re, rb),
    ensures
        exact_in_bounds(combine_exact(op, le, re), spec_combine_bounds(lb, op, rb)),
{
    if let (Some(a), Some(b)) = (le, re) {
        lemma_binary_in_bounds(op, a, b, lb, rb);
    }
}

/// The bounds of a refinement, as characterized by `constraint_bounds_ok`.
pub open spec fn spec_constraint_bounds(t: IntType, c: IntConstraint) -> Bounds {
    choose|r: Bounds| constraint_bounds_ok(t, c, r)
}

proof fn lemma_constraint_bounds_unique(t: IntType, c: IntConstraint, r1: Bounds, r2: Bounds)
    requires
        constraint_bounds_ok(t, c, r1),
        constraint_bounds_ok(t, c, r2),
    ensures
        r1 == r2,
{
    let ivs = hover_intervals(t, c.elements@);
    let upper = spec_int_max(t) as int;
    if ivs.len() > 0 {
        let a = r1.min as int;
        let b = r2.min as int;
        if a < b {
            assert(covered(ivs, a) || !covered(ivs, a));
        }
        if b < a {
            assert(covered(ivs, b) || !covered(ivs, b));
        }
        match (r1.max, r2.max) {
            (Some(x), Some(y)) => {
                let xi = x as int;
                let yi = y as int;
                if xi < yi {
                    assert(covered(ivs, xi) || !covered(ivs, xi));
                }
                if yi < xi {
                    assert(covered(ivs, yi) || !covered(ivs, yi));
                }
            },
            _ => {},
        }
    }
}

proof fn lemma_constraint_bounds_wf(t: IntType, c: IntConstraint, r: Bounds)
    requires
        constraint_bounds_ok(t, c, r),
    ensures
        bounds_wf(r),
{
    let ivs = hover_intervals(t, c.elements@);
    match r.max {
        Some(m) => {
            let mi = m as int;
            if ivs.len() > 0 && mi < r.min {
                assert(covered(ivs, mi) || !covered(ivs, mi));
            }
        },
        None => {},
    }
}

/// Index of the last definition named `name` (a later definition shadows
/// an earlier one in the table of names).
pub open spec fn last_def_index(defs: Seq<Definition>, name: Name) -> Option<int>
    decreases defs.len(),
{
    if defs.len() == 0 {
        None
    } else if defs.last().name == name {
        Some(defs.len() - 1)
    } else {
        last_def_index(defs.drop_last(), name)
    }
}

pub open spec fn def_by_name(defs: Seq<Definition>, name: Name) -> Option<Definition> {
    match last_def_index(defs, name) {
        Some(i) => Some(defs[i]),
        None => None,
    }
}

/// The format bound to `name` in a scope (innermost first).
pub open spec fn local_comb(locals: Seq<(Name, Combinator)>, name: Name) -> Option<Combinator>
    decreases locals.len(),
{
    if locals.len() == 0 {
        None
    } else if locals.last().0 == name {
        Some(locals.last().1)
    } else {
        local_comb(locals.drop_last(), name)
    }
}

/// Index of the first field named `n`.
pub open spec fn first_field_named(fs: Seq<Field>, n: Name) -> Option<int>
    decreases fs.len(),
{
    if fs.len() == 0 {
        None
    } else if fs[0].name == n {
        Some(0)
    } else {
        match first_field_named(fs.drop_first(), n) {
            Some(j) => Some(j + 1),
            None => None,
        }
    }
}

/// The format and dependence of field `field` of a record format, looking
/// through references to parameterless formats (at most `fuel` of them).
pub open spec fn spec_struct_field(defs: Seq<Definition>, c: Combinator, field: Name, fuel: nat) -> Option<
    (Combinator, bool),
>
    decreases fuel,
{
    match c {
        Combinator::Struct(s) => match first_field_named(s.fields@, field) {
            Some(k) => Some((s.fields@[k].ty, s.fields@[k].is_dependent)),
            None => None,
        },
        Combinator::Reference { name, args, .. } => if args@.len() == 0 && fuel > 0 {
            match spec_resolve(defs, name) {
                Some(d) => match d.kind {
                    DefinitionKind::Combinator { body, .. } => spec_struct_field(
                        defs,
                        body,
                        field,
                        (fuel - 1) as nat,
                    ),
                    _ => None,
                },
                None => None,
            }
        } else {
            None
        },
        _ => None,
    }
}

/// Format reached by following the dependent fields of a path.
pub open spec fn path_target(defs: Seq<Definition>, c: Combinator, fields: Seq<Name>, fuel: nat) -> Option<
    Combinator,
>
    decreases fields.len(),
{
    if fields.len() == 0 {
        Some(c)
    } else {
        match path_target(defs, c, fields.drop_last(), fuel) {
            Some(cur) => match spec_struct_field(defs, cur, fields.last(), fuel) {
                Some((next, dep)) => if dep {
                    Some(next)
                } else {
                    None
                },
                None => None,
            },
            None => None,
        }
    }
}

/// Bounds of the values of a format: integer carriers and refinements,
/// enums, and parameterless formats defined by those (at most `fuel` deep,
/// never revisiting a format in `vis`).
pub open spec fn spec_value_bounds(defs: Seq<Definition>, c: Combinator, vis: Seq<Name>, fuel: nat) -> Bounds
    decreases fuel,
{
    match c {
        Combinator::Int(t) => spec_int_bounds(t),
        Combinator::ConstrainedInt { int_type, constraint } => spec_constraint_bounds(int_type, constraint),
        Combinator::Reference { name, args, .. } => match spec_resolve(defs, name) {
            Some(d) => match d.kind {
                DefinitionKind::Enum(e) => spec_enum_value_bounds(e),
                DefinitionKind::Combinator { body, .. } => if args@.len() != 0 || vis.contains(name)
                    || fuel == 0 {
                    unbounded()
                } else {
                    spec_value_bounds(defs, body, vis.push(name), (fuel - 1) as nat)
                },
                _ => unbounded(),
            },
            None => unbounded(),
        },
        _ => unbounded(),
    }
}

/// Bounds of a dependent path in a scope.
pub open spec fn spec_path_bounds(
    defs: Seq<Definition>,
    locals: Seq<(Name, Combinator)>,
    base: Name,
    fields: Seq<Name>,
) -> Bounds {
    match local_comb(locals, base) {
        Some(c) => match path_target(defs, c, fields, defs.len()) {
            Some(t) => spec_value_bounds(defs, t, Seq::empty(), defs.len()),
            None => unbounded(),
        },
        None => unbounded(),
    }
}

/// Summary of a length expression: an exact expression and bounds.
pub struct SummaryModel {
    pub exact: Option<ExprModel>,
    pub bounds: Bounds,
}

pub open spec fn wire_op(op: LengthOp) -> WireOp {
    match op {
        LengthOp::Add => WireOp::Add,
        LengthOp::Sub => WireOp::Sub,
        LengthOp::Mul => WireOp::Mul,
        LengthOp::Div => WireOp::Div,
    }
}

pub open spec fn combine_exact(op: WireOp, l: Option<ExprModel>, r: Option<ExprModel>) -> Option<ExprModel> {
    match (l, r) {
        (Some(a), Some(b)) => Some(spec_binary(op, a, b)),
        _ => None,
    }
}

pub open spec fn combine_summary_model(l: SummaryModel, op: LengthOp, r: SummaryModel) -> SummaryModel {
    SummaryModel {
        exact: combine_exact(wire_op(op), l.exact, r.exact),
        bounds: spec_combine_bounds(l.bounds, wire_op(op), r.bounds),
    }
}

pub open spec fn exact_summary(v: u64) -> SummaryModel {
    SummaryModel { exact: Some(ExprModel::Const(v)), bounds: Bounds { min: v, max: Some(v) } }
}

/// Wire length of a carrier.
pub open spec fn int_wire_length(t: IntType) -> LengthModel {
    match spec_prim_byte_size(t) {
        Some(n) => exact_const_model(n),
        None => LengthModel { exact: None, min: 1, max: Some(spec_variable_prim_max(t)) },
    }
}

pub open spec fn zero_length() -> LengthModel {
    LengthModel { exact: Some(ExprModel::Const(0)), min: 0, max: Some(0) }
}

/// `acc` followed by `x`.
pub open spec fn seq_length(acc: LengthModel, x: LengthModel) -> LengthModel {
    LengthModel {
        exact: combine_exact(WireOp::Add, acc.exact, x.exact),
        min: sat_add(acc.min, x.min),
        max: opt_add(acc.max, x.max),
    }
}

/// Either `acc` or `x`.
pub open spec fn alt_length(acc: LengthModel, x: LengthModel) -> LengthModel {
    LengthModel {
        exact: if acc.exact == x.exact {
            acc.exact
        } else {
            None
        },
        min: if acc.min <= x.min {
            acc.min
        } else {
            x.min
        },
        max: opt_max(acc.max, x.max),
    }
}

/// Scope of a body called with `args`: each parameter is bound to the
/// format of the argument's binding when it has one, to its own type
/// otherwise.
pub open spec fn callee_locals(
    locals: Seq<(Name, Combinator)>,
    params: Seq<crate::types::Param>,
    args: Seq<NameRef>,
) -> Seq<(Name, Combinator)> {
    Seq::new(
        if params.len() <= args.len() {
            params.len()
        } else {
            args.len()
        },
        |i: int|
            (
                params[i].name,
                match local_comb(locals, args[i].name) {
                    Some(c) => c,
                    None => params[i].ty,
                },
            ),
    )
}

pub open spec fn param_locals(params: Seq<crate::types::Param>) -> Seq<(Name, Combinator)> {
    Seq::new(params.len(), |i: int| (params[i].name, params[i].ty))
}

pub open spec fn def_size(d: Definition) -> nat {
    match d.kind {
        DefinitionKind::Combinator { body, .. } => 1 + comb_size(body),
        DefinitionKind::Const { ty, .. } => 1 + comb_size(ty),
        _ => 0,
    }
}

/// Number of operands folded from a sequence with its operators.
pub open spec fn fold_count(operands: nat, ops: nat) -> nat {
    if operands == 0 {
        0
    } else if ops < operands - 1 {
        ops + 1
    } else {
        operands
    }
}

/// Wire length of a definition (`fuel` bounds the nesting of definitions).
pub open spec fn wl_def(defs: Seq<Definition>, d: Definition, vis: Seq<Name>, f: nat) -> Option<LengthModel>
    decreases f, def_size(d), 0nat,
{
    match d.kind {
        DefinitionKind::Combinator { params, body } => Some(
            wl_comb(defs, body, param_locals(params@), vis, f),
        ),
        DefinitionKind::Enum(e) => Some(spec_enum_wire_length(e)),
        DefinitionKind::Const { ty, .. } => Some(wl_comb(defs, ty, Seq::empty(), vis, f)),
        DefinitionKind::Endianness(_) => None,
    }
}

/// Wire length of a format in a scope.
pub open spec fn wl_comb(
    defs: Seq<Definition>,
    c: Combinator,
    locals: Seq<(Name, Combinator)>,
    vis: Seq<Name>,
    f: nat,
) -> LengthModel
    decreases f, comb_size(c), 0nat,
{
    match c {
        Combinator::Int(t) => int_wire_length(t),
        Combinator::ConstrainedInt { int_type, .. } => int_wire_length(int_type),
        Combinator::Reference { name, args, .. } => wl_ref(defs, name, args@, locals, vis, f),
        Combinator::ConstrainedReference { name, .. } => wl_ref(defs, name, Seq::empty(), locals, vis, f),
        Combinator::Struct(s) => wl_fields(defs, s.fields@, locals, vis, f, s.fields@.len()).0,
        Combinator::Choice(ch) => if ch.arms@.len() == 0 {
            exact_const_model(0)
        } else {
            wl_arms(defs, ch.arms@, locals, vis, f, ch.arms@.len())
        },
        Combinator::Array(a) => {
            let e = wl_comb(defs, *a.element, locals, vis, f);
            let l = wl_expr(defs, a.length, locals, vis, f);
            LengthModel {
                exact: combine_exact(WireOp::Mul, l.exact, e.exact),
                min: mul_min(l.bounds.min, e.min),
                max: opt_mul(l.bounds.max, e.max),
            }
        },
        Combinator::Option(o) => LengthModel {
            exact: None,
            min: 0,
            max: wl_comb(defs, *o.element, locals, vis, f).max,
        },
        Combinator::Wrap(w) => wl_wrap(defs, w.args@, locals, vis, f, w.args@.len()),
        Combinator::Bind { inner, .. } => wl_comb(defs, *inner, locals, vis, f),
        _ => unknown_model(),
    }
}

/// Wire length of a reference: an enum's carrier, a constant's type, or the
/// body of a format with its parameters bound (a format already being
/// expanded has an unknown length).
pub open spec fn wl_ref(
    defs: Seq<Definition>,
    name: Name,
    args: Seq<NameRef>,
    locals: Seq<(Name, Combinator)>,
    vis: Seq<Name>,
    f: nat,
) -> LengthModel
    decreases f, 0nat, 0nat,
{
    match def_by_name(defs, name) {
        Some(d) => match d.kind {
            DefinitionKind::Enum(e) => spec_enum_wire_length(e),
            DefinitionKind::Const { ty, .. } => if f == 0 {
                unknown_model()
            } else {
                wl_comb(defs, ty, locals, vis, (f - 1) as nat)
            },
            DefinitionKind::Combinator { params, body } => if vis.contains(name) || f == 0 {
                unknown_model()
            } else {
                wl_comb(defs, body, callee_locals(locals, params@, args), vis.push(name), (f - 1) as nat)
            },
            DefinitionKind::Endianness(_) => unknown_model(),
        },
        None => unknown_model(),
    }
}

/// The struct fields folded so far, and the scope after them.
pub open spec fn wl_fields(
    defs: Seq<Definition>,
    fs: Seq<Field>,
    locals: Seq<(Name, Combinator)>,
    vis: Seq<Name>,
    f: nat,
    k: nat,
) -> (LengthModel, Seq<(Name, Combinator)>)
    decreases f, fields_sz(fs), k,
{
    if k == 0 || k > fs.len() {
        (zero_length(), locals)
    } else {
        let prev = wl_fields(defs, fs, locals, vis, f, (k - 1) as nat);
        proof {
            crate::check::lemma_fields_sz(fs, k - 1);
        }
        let fl = wl_comb(defs, fs[k - 1].ty, prev.1, vis, f);
        (
            seq_length(prev.0, fl),
            if fs[k - 1].is_dependent {
                prev.1.push((fs[k - 1].name, fs[k - 1].ty))
            } else {
                prev.1
            },
        )
    }
}

/// The first `k` arms of a choice merged (`k >= 1`).
pub open spec fn wl_arms(
    defs: Seq<Definition>,
    arms: Seq<crate::types::ChoiceArm>,
    locals: Seq<(Name, Combinator)>,
    vis: Seq<Name>,
    f: nat,
    k: nat,
) -> LengthModel
    decreases f, arms_sz(arms), k,
{
    if k == 0 || k > arms.len() {
        unknown_model()
    } else {
        proof {
            crate::check::lemma_arms_sz(arms, k - 1);
        }
        let b = wl_comb(defs, arms[k - 1].body, locals, vis, f);
        if k == 1 {
            b
        } else {
            alt_length(wl_arms(defs, arms, locals, vis, f, (k - 1) as nat), b)
        }
    }
}

/// Wire length of one argument of a wrap.
pub open spec fn wl_wrap(
    defs: Seq<Definition>,
    args: Seq<WrapArg>,
    locals: Seq<(Name, Combinator)>,
    vis: Seq<Name>,
    f: nat,
    k: nat,
) -> LengthModel
    decreases f, wrap_sz(args), k,
{
    if k == 0 || k > args.len() {
        zero_length()
    } else {
        proof {
            crate::check::lemma_wrap_sz(args, k - 1);
        }
        let prev = wl_wrap(defs, args, locals, vis, f, (k - 1) as nat);
        let x = match args[k - 1] {
            WrapArg::Combinator(c) => wl_comb(defs, c, locals, vis, f),
            WrapArg::ConstInt { ty, .. } => match spec_prim_byte_size(ty) {
                Some(n) => exact_const_model(n),
                None => unknown_model(),
            },
            WrapArg::ConstEnum { ty, .. } => match def_by_name(defs, ty.name) {
                Some(d) => match d.kind {
                    DefinitionKind::Enum(e) => spec_enum_wire_length(e),
                    _ => unknown_model(),
                },
                None => unknown_model(),
            },
            WrapArg::ConstBytes { length, .. } => exact_const_model(length),
        };
        seq_length(prev, x)
    }
}

/// Summary of a length expression in a scope.
pub open spec fn wl_expr(
    defs: Seq<Definition>,
    e: LengthExpr,
    locals: Seq<(Name, Combinator)>,
    vis: Seq<Name>,
    f: nat,
) -> SummaryModel
    decreases f, expr_size(e), 0nat,
{
    if e.terms@.len() == 0 {
        exact_summary(0)
    } else {
        wl_terms(defs, e.terms@, e.ops@, locals, vis, f, fold_count(e.terms@.len(), e.ops@.len()))
    }
}

pub open spec fn wl_terms(
    defs: Seq<Definition>,
    ts: Seq<LengthTerm>,
    ops: Seq<LengthOp>,
    locals: Seq<(Name, Combinator)>,
    vis: Seq<Name>,
    f: nat,
    k: nat,
) -> SummaryModel
    decreases f, terms_sz(ts), k,
{
    if k == 0 || k > ts.len() {
        exact_summary(0)
    } else {
        proof {
            crate::check::lemma_terms_sz(ts, k - 1);
        }
        let t = wl_term(defs, ts[k - 1], locals, vis, f);
        if k == 1 {
            t
        } else {
            combine_summary_model(wl_terms(defs, ts, ops, locals, vis, f, (k - 1) as nat), ops[k - 2], t)
        }
    }
}

pub open spec fn wl_term(
    defs: Seq<Definition>,
    t: LengthTerm,
    locals: Seq<(Name, Combinator)>,
    vis: Seq<Name>,
    f: nat,
) -> SummaryModel
    decreases f, term_size(t), 0nat,
{
    if t.atoms@.len() == 0 {
        exact_summary(1)
    } else {
        wl_atoms(defs, t.atoms@, t.ops@, locals, vis, f, fold_count(t.atoms@.len(), t.ops@.len()))
    }
}

pub open spec fn wl_atoms(
    defs: Seq<Definition>,
    ats: Seq<LengthAtom>,
    ops: Seq<LengthOp>,
    locals: Seq<(Name, Combinator)>,
    vis: Seq<Name>,
    f: nat,
    k: nat,
) -> SummaryModel
    decreases f, atoms_sz(ats), k,
{
    if k == 0 || k > ats.len() {
        exact_summary(1)
    } else {
        proof {
            crate::check::lemma_atoms_sz(ats, k - 1);
        }
        let a = wl_atom(defs, ats[k - 1], locals, vis, f);
        if k == 1 {
            a
        } else {
            combine_summary_model(wl_atoms(defs, ats, ops, locals, vis, f, (k - 1) as nat), ops[k - 2], a)
        }
    }
}

pub open spec fn wl_atom(
    defs: Seq<Definition>,
    a: LengthAtom,
    locals: Seq<(Name, Combinator)>,
    vis: Seq<Name>,
    f: nat,
) -> SummaryModel
    decreases f, atom_size(a), 0nat,
{
    match a {
        LengthAtom::Const(v) => exact_summary(v),
        LengthAtom::Param(p) => SummaryModel {
            exact: Some(ExprModel::Var(p.name, Seq::empty())),
            bounds: spec_path_bounds(defs, locals, p.name, Seq::empty()),
        },
        LengthAtom::ProjectedParam { base, fields } => SummaryModel {
            exact: Some(ExprModel::Var(base.name, fields@)),
            bounds: spec_path_bounds(defs, locals, base.name, fields@),
        },
        LengthAtom::SizeOf(SizeTarget::Type(t)) => match spec_prim_byte_size(t) {
            Some(b) => exact_summary(b),
            None => SummaryModel { exact: None, bounds: unbounded() },
        },
        LengthAtom::SizeOf(SizeTarget::Named(n)) => {
            let w = match def_by_name(defs, n.name) {
                Some(d) => if f == 0 {
                    unknown_model()
                } else {
                    match wl_def(defs, d, vis, (f - 1) as nat) {
                        Some(w) => w,
                        None => unknown_model(),
                    }
                },
                None => unknown_model(),
            };
            SummaryModel { exact: w.exact, bounds: Bounds { min: w.min, max: w.max } }
        },
        LengthAtom::Paren(inner) => wl_expr(defs, *inner, locals, vis, f),
    }
}

proof fn lemma_combine_bounds_wf(lhs: Bounds, op: WireOp, rhs: Bounds)
    requires
        bounds_wf(lhs),
        bounds_wf(rhs),
    ensures
        bounds_wf(spec_combine_bounds(lhs, op, rhs)),
{
    let lmin = lhs.min as int;
    let rmin = rhs.min as int;
    match op {
        WireOp::Mul => {
            match (lhs.max, rhs.max) {
                (Some(x), Some(y)) => {
                    let xi = x as int;
                    let yi = y as int;
                    assert(lmin * rmin <= xi * yi) by (nonlinear_arith)
                        requires
                            0 <= lmin <= xi,
                            0 <= rmin <= yi,
                    ;
                },
                _ => {},
            }
        },
        WireOp::Div => {
            if rhs.min != 0 {
                match (lhs.max, rhs.max) {
                    (Some(l), Some(m)) => {
                        let li = l as int;
                        let mi = m as int;
                        assert(lmin / mi <= li / rmin) by (nonlinear_arith)
                            requires
                                0 <= lmin <= li,
                                0 < rmin <= mi,
                        {
                            vstd::arithmetic::div_mod::lemma_div_is_ordered(lmin, li, mi);
                            vstd::arithmetic::div_mod::lemma_div_is_ordered_by_denominator(li, rmin, mi);
                        }
                    },
                    _ => {},
                }
            }
        },
        _ => {},
    }
}

proof fn lemma_mul_length_wf(lmin: u64, lmax: Option<u64>, emin: u64, emax: Option<u64>)
    requires
        bounds_wf(Bounds { min: lmin, max: lmax }),
        bounds_wf(Bounds { min: emin, max: emax }),
    ensures
        match opt_mul(lmax, emax) {
            Some(m) => mul_min(lmin, emin) <= m,
            None => true,
        },
{
    match (lmax, emax) {
        (Some(x), Some(y)) => {
            let a = lmin as int;
            let b = emin as int;
            let xi = x as int;
            let yi = y as int;
            assert(a * b <= xi * yi) by (nonlinear_arith)
                requires
                    0 <= a <= xi,
                    0 <= b <= yi,
            ;
        },
        _ => {},
    }
}

/// A format bound in a scope.
#[derive(Clone, Copy)]
struct LocalBinding<'a> {
    name: Name,
    combinator: &'a Combinator,
}

spec fn locals_model<'a>(v: Seq<LocalBinding<'a>>) -> Seq<(Name, Combinator)> {
    Seq::new(v.len(), |i: int| (v[i].name, *v[i].combinator))
}

/// Summary of a length expression.
struct ExprSummary {
    exact: Option<WireExpr>,
    bounds: Bounds,
}

spec fn summary_model(s: ExprSummary) -> SummaryModel {
    SummaryModel { exact: opt_expr_model(s.exact), bounds: s.bounds }
}

pub open spec fn opt_def_model(d: Option<&Definition>) -> Option<Definition> {
    match d {
        Some(d) => Some(*d),
        None => None,
    }
}

/// A table from name ids to positions holds, for every name, the position
/// of its last definition, and no entry for a name without one.
pub open spec fn last_positions(defs: Seq<Definition>, m: Map<usize, usize>) -> bool {
    forall|n: Name|
        #[trigger] last_def_index(defs, n) == (if m.contains_key(n.id) {
            Some(m[n.id] as int)
        } else {
            None
        })
}

proof fn lemma_last_def_index_range(defs: Seq<Definition>, n: Name)
    ensures
        last_def_index(defs, n) matches Some(i) ==> 0 <= i < defs.len() && defs[i].name == n,
    decreases defs.len(),
{
    if defs.len() > 0 && defs.last().name != n {
        lemma_last_def_index_range(defs.drop_last(), n);
    }
}

/// The table of `last_positions` for `defs`.
fn last_positions_table(defs: &Vec<Definition>) -> (m: HashMap<usize, usize>)
    ensures
        last_positions(defs@, m@),
{
    broadcast use vstd::std_specs::hash::group_hash_axioms;

    let mut m: HashMap<usize, usize> = HashMap::new();
    let mut i: usize = 0;
    assert(defs@.take(0) =~= Seq::<Definition>::empty());
    while i < defs.len()
        invariant
            i <= defs@.len(),
            last_positions(defs@.take(i as int), m@),
        decreases defs.len() - i,
    {
        let id = defs[i].name.id;
        let ghost m0 = m@;
        m.insert(id, i);
        proof {
            let t = defs@.take(i + 1);
            assert(t.drop_last() =~= defs@.take(i as int));
            assert(t.last() == defs@[i as int]);
            assert forall|n: Name| #[trigger] last_def_index(t, n) == (if m@.contains_key(n.id) {
                Some(m@[n.id] as int)
            } else {
                None
            }) by {
                if n.id == id {
                    assert(n == defs@[i as int].name);
                } else {
                    assert(last_def_index(defs@.take(i as int), n) == (if m0.contains_key(n.id) {
                        Some(m0[n.id] as int)
                    } else {
                        None
                    }));
                }
            }
        }
        i = i + 1;
    }
    assert(defs@.take(defs@.len() as int) =~= defs@);
    m
}

/// The last definition named `name`, found through a table of positions.
fn definition_by_last<'a>(defs: &'a Vec<Definition>, last: &HashMap<usize, usize>, name: Name) -> (r: Option<
    &'a Definition,
>)
    requires
        last_positions(defs@, last@),
    ensures
        opt_def_model(r) == def_by_name(defs@, name),
{
    broadcast use vstd::std_specs::hash::group_hash_axioms;

    proof {
        lemma_last_def_index_range(defs@, name);
        assert(last_def_index(defs@, name) == (if last@.contains_key(name.id) {
            Some(last@[name.id] as int)
        } else {
            None
        }));
    }
    match last.get(&name.id) {
        Some(i) => Some(&defs[*i]),
        None => None,
    }
}

/// The last definition named `name`.
fn definition_by_name<'a>(defs: &'a Vec<Definition>, name: Name) -> (r: Option<&'a Definition>)
    ensures
        opt_def_model(r) == def_by_name(defs@, name),
{
    let mut i: usize = defs.len();
    assert(defs@.take(i as int) =~= defs@);
    while i > 0
        invariant
            i <= defs@.len(),
            last_def_index(defs@, name) == last_def_index(defs@.take(i as int), name),
        decreases i,
    {
        assert(defs@.take(i as int).drop_last() =~= defs@.take(i - 1));
        if defs[i - 1].name == name {
            return Some(&defs[i - 1]);
        }
        i = i - 1;
    }
    None
}

/// The first definition named `name`.
fn definition_ref_in_hir<'a>(defs: &'a Vec<Definition>, name: Name) -> (r: Option<&'a Definition>)
    ensures
        opt_def_model(r) == spec_resolve(defs@, name),
{
    match crate::check::find_def(defs, name) {
        Some(i) => Some(&defs[i]),
        None => None,
    }
}

fn resolve_local_binding<'a>(locals: &Vec<LocalBinding<'a>>, name: Name) -> (r: Option<LocalBinding<'a>>)
    ensures
        match r {
            Some(b) => local_comb(locals_model(locals@), name) == Some(*b.combinator),
            None => local_comb(locals_model(locals@), name) is None,
        },
{
    let ghost lm = locals_model(locals@);
    let mut i: usize = locals.len();
    assert(lm.take(i as int) =~= lm);
    while i > 0
        invariant
            i <= locals@.len(),
            lm == locals_model(locals@),
            local_comb(lm, name) == local_comb(lm.take(i as int), name),
        decreases i,
    {
        assert(lm.take(i as int).drop_last() =~= lm.take(i - 1));
        if locals[i - 1].name == name {
            return Some(locals[i - 1]);
        }
        i = i - 1;
    }
    None
}

proof fn lemma_first_field_named(fs: Seq<Field>, n: Name, j: int)
    requires
        0 <= j <= fs.len(),
        forall|k: int| 0 <= k < j ==> (#[trigger] fs[k]).name != n,
        j < fs.len() ==> fs[j].name == n,
    ensures
        j < fs.len() ==> first_field_named(fs, n) == Some(j),
        j == fs.len() ==> first_field_named(fs, n) is None,
    decreases fs.len(),
{
    if fs.len() > 0 && j > 0 {
        let t = fs.drop_first();
        assert forall|k: int| 0 <= k < j - 1 implies (#[trigger] t[k]).name != n by {
            assert(t[k] == fs[k + 1]);
        }
        lemma_first_field_named(t, n, j - 1);
    }
}

/// Field `field_name` of a record format, through parameterless references.
#[verifier::loop_isolation(false)]
fn resolve_struct_field<'a>(defs: &'a Vec<Definition>, combinator: &'a Combinator, field_name: Name, fuel: u64) -> (r:
    Option<(&'a Combinator, bool)>)
    ensures
        match r {
            Some((c, dep)) => spec_struct_field(defs@, *combinator, field_name, fuel as nat) == Some((*c, dep)),
            None => spec_struct_field(defs@, *combinator, field_name, fuel as nat) is None,
        },
    decreases fuel,
{
    match combinator {
        Combinator::Struct(structure) => {
            let fs = &structure.fields;
            let mut j: usize = 0;
            while j < fs.len()
                invariant
                    j <= fs@.len(),
                    forall|k: int| 0 <= k < j ==> (#[trigger] fs@[k]).name != field_name,
                decreases fs@.len() - j,
            {
                if fs[j].name == field_name {
                    proof {
                        lemma_first_field_named(fs@, field_name, j as int);
                    }
                    return Some((&fs[j].ty, fs[j].is_dependent));
                }
                j = j + 1;
            }
            proof {
                lemma_first_field_named(fs@, field_name, j as int);
            }
            None
        },
        Combinator::Reference { name, args, .. } => {
            if args.len() == 0 && fuel > 0 {
                match definition_ref_in_hir(defs, *name) {
                    Some(d) => match &d.kind {
                        DefinitionKind::Combinator { body, .. } => resolve_struct_field(
                            defs,
                            body,
                            field_name,
                            fuel - 1,
                        ),
                        _ => None,
                    },
                    None => None,
                }
            } else {
                None
            }
        },
        _ => None,
    }
}

fn contains_name(v: &Vec<Name>, n: Name) -> (r: bool)
    ensures
        r == v@.contains(n),
{
    let mut i: usize = 0;
    while i < v.len()
        invariant
            i <= v@.len(),
            forall|k: int| 0 <= k < i ==> v@[k] != n,
        decreases v@.len() - i,
    {
        if v[i] == n {
            assert(v@[i as int] == n);
            return true;
        }
        i = i + 1;
    }
    false
}

/// Bounds of the values of a format.
fn value_bounds_for_combinator(defs: &Vec<Definition>, combinator: &Combinator, visiting: &mut Vec<Name>, fuel: u64) -> (r: Bounds)
    ensures
        r == spec_value_bounds(defs@, *combinator, old(visiting)@, fuel as nat),
        bounds_wf(r),
        final(visiting)@ == old(visiting)@,
    decreases fuel,
{
    match combinator {
        Combinator::Int(int_type) => int_bounds(*int_type),
        Combinator::ConstrainedInt { int_type, constraint } => {
            let r = bounds_for_constraint(*int_type, constraint);
            proof {
                lemma_constraint_bounds_unique(*int_type, *constraint, r, spec_constraint_bounds(*int_type, *constraint));
                lemma_constraint_bounds_wf(*int_type, *constraint, r);
            }
            r
        },
        Combinator::Reference { name, args, .. } => {
            let d = match definition_ref_in_hir(defs, *name) {
                Some(d) => d,
                None => {
                    return Bounds { min: 0, max: None };
                },
            };
            match &d.kind {
                DefinitionKind::Enum(enum_def) => {
                    let r = enum_value_bounds(enum_def);
                    proof {
                        let vs = enum_def.variants@;
                        if enum_def.is_exhaustive {
                            lemma_variant_range_ordered(vs);
                        }
                    }
                    r
                },
                DefinitionKind::Combinator { body, .. } => {
                    if args.len() != 0 || contains_name(visiting, *name) || fuel == 0 {
                        return Bounds { min: 0, max: None };
                    }
                    visiting.push(*name);
                    let bounds = value_bounds_for_combinator(defs, body, visiting, fuel - 1);
                    visiting.pop();
                    proof {
                        assert(visiting@ =~= old(visiting)@);
                    }
                    bounds
                },
                _ => Bounds { min: 0, max: None },
            }
        },
        _ => Bounds { min: 0, max: None },
    }
}

proof fn lemma_variant_range_ordered(vs: Seq<EnumVariant>)
    ensures
        variant_value_range(vs) matches Some((lo, hi)) ==> lo <= hi,
    decreases vs.len(),
{
    if vs.len() > 0 {
        lemma_variant_range_ordered(vs.drop_last());
    }
}

/// Bounds of a dependent path in a scope.
#[verifier::loop_isolation(false)]
fn resolve_value_bounds<'a>(defs: &'a Vec<Definition>, locals: &Vec<LocalBinding<'a>>, base: Name, fields: &Vec<Name>) -> (r:
    Bounds)
    ensures
        r == spec_path_bounds(defs@, locals_model(locals@), base, fields@),
        bounds_wf(r),
{
    let binding = match resolve_local_binding(locals, base) {
        Some(b) => b,
        None => {
            return Bounds { min: 0, max: None };
        },
    };
    let fuel = defs.len() as u64;
    let mut current: &'a Combinator = binding.combinator;
    let ghost start = *binding.combinator;
    assert(fields@.take(0) =~= Seq::<Name>::empty());
    let mut i: usize = 0;
    while i < fields.len()
        invariant
            i <= fields@.len(),
            fuel == defs@.len(),
            path_target(defs@, start, fields@.take(i as int), fuel as nat) == Some(*current),
        decreases fields@.len() - i,
    {
        assert(fields@.take(i + 1).drop_last() =~= fields@.take(i as int));
        match resolve_struct_field(defs, current, fields[i], fuel) {
            Some((next, is_dependent)) => {
                if !is_dependent {
                    proof {
                        lemma_path_none(defs@, start, fields@, i + 1, fuel as nat);
                    }
                    return Bounds { min: 0, max: None };
                }
                current = next;
            },
            None => {
                proof {
                    lemma_path_none(defs@, start, fields@, i + 1, fuel as nat);
                }
                return Bounds { min: 0, max: None };
            },
        }
        i = i + 1;
    }
    assert(fields@.take(fields@.len() as int) =~= fields@);
    let mut visiting: Vec<Name> = Vec::new();
    assert(visiting@ =~= Seq::<Name>::empty());
    value_bounds_for_combinator(defs, current, &mut visiting, fuel)
}

proof fn lemma_path_none(defs: Seq<Definition>, c: Combinator, fields: Seq<Name>, k: int, fuel: nat)
    requires
        0 <= k <= fields.len(),
        path_target(defs, c, fields.take(k), fuel) is None,
    ensures
        path_target(defs, c, fields, fuel) is None,
    decreases fields.len() - k,
{
    if k < fields.len() {
        assert(fields.take(k + 1).drop_last() =~= fields.take(k));
        lemma_path_none(defs, c, fields, k + 1, fuel);
    } else {
        assert(fields.take(k) =~= fields);
    }
}

fn combine_expr(op: WireOp, lhs: Option<WireExpr>, rhs: Option<WireExpr>) -> (r: Option<WireExpr>)
    ensures
        opt_expr_model(r) == combine_exact(op, opt_expr_model(lhs), opt_expr_model(rhs)),
{
    match (lhs, rhs) {
        (Some(l), Some(r)) => Some(WireExpr::binary(op, l, r)),
        _ => None,
    }
}

fn to_wire_op(op: LengthOp) -> (r: WireOp)
    ensures
        r == wire_op(op),
{
    match op {
        LengthOp::Add => WireOp::Add,
        LengthOp::Sub => WireOp::Sub,
        LengthOp::Mul => WireOp::Mul,
        LengthOp::Div => WireOp::Div,
    }
}

fn combine_summary(lhs: ExprSummary, op: LengthOp, rhs: ExprSummary) -> (r: ExprSummary)
    requires
        bounds_wf(lhs.bounds),
        bounds_wf(rhs.bounds),
        exact_in_bounds(summary_model(lhs).exact, lhs.bounds),
        exact_in_bounds(summary_model(rhs).exact, rhs.bounds),
    ensures
        summary_model(r) == combine_summary_model(summary_model(lhs), op, summary_model(rhs)),
        bounds_wf(r.bounds),
        exact_in_bounds(summary_model(r).exact, r.bounds),
{
    let wop = to_wire_op(op);
    proof {
        lemma_combine_bounds_wf(lhs.bounds, wop, rhs.bounds);
        lemma_combine_exact_in_bounds(wop, summary_model(lhs).exact, summary_model(rhs).exact, lhs.bounds, rhs.bounds);
    }
    let exact = combine_expr(wop, lhs.exact, rhs.exact);
    let bounds = combine_bounds(lhs.bounds, wop, rhs.bounds);
    ExprSummary { exact, bounds }
}

pub open spec fn opt_length_model(w: Option<WireLength>) -> Option<LengthModel> {
    match w {
        Some(w) => Some(w@),
        None => None,
    }
}

proof fn lemma_locals_push<'a>(v: Seq<LocalBinding<'a>>, b: LocalBinding<'a>)
    ensures
        locals_model(v.push(b)) == locals_model(v).push((b.name, *b.combinator)),
{
    assert(locals_model(v.push(b)) =~= locals_model(v).push((b.name, *b.combinator)));
}

fn copy_locals<'a>(v: &Vec<LocalBinding<'a>>) -> (r: Vec<LocalBinding<'a>>)
    ensures
        r@ == v@,
{
    let mut out: Vec<LocalBinding<'a>> = Vec::new();
    let mut i: usize = 0;
    while i < v.len()
        invariant
            i <= v@.len(),
            out@ == v@.take(i as int),
        decreases v@.len() - i,
    {
        out.push(v[i]);
        i = i + 1;
        assert(out@ =~= v@.take(i as int));
    }
    assert(v@.take(v@.len() as int) =~= v@);
    out
}

/// The first `count` parameters, each bound to its own type.
fn param_bindings<'a>(params: &'a Vec<crate::types::Param>, count: usize) -> (r: Vec<LocalBinding<'a>>)
    requires
        count <= params@.len(),
    ensures
        locals_model(r@) == param_locals(params@.take(count as int)),
{
    let ghost all = param_locals(params@);
    let mut out: Vec<LocalBinding<'a>> = Vec::new();
    let mut i: usize = 0;
    while i < count
        invariant
            i <= count <= params@.len(),
            all == param_locals(params@),
            locals_model(out@) == all.take(i as int),
        decreases count - i,
    {
        let b = LocalBinding { name: params[i].name, combinator: &params[i].ty };
        proof {
            lemma_locals_push(out@, b);
            assert(all.take(i + 1) =~= all.take(i as int).push((b.name, *b.combinator)));
        }
        out.push(b);
        i = i + 1;
    }
    assert(all.take(count as int) =~= param_locals(params@.take(count as int)));
    out
}

/// The scope of a format's body called with `args`.
fn callee_bindings<'a>(params: &'a Vec<crate::types::Param>, args: &Vec<NameRef>, locals: &Vec<LocalBinding<'a>>) -> (r: Vec<
    LocalBinding<'a>,
>)
    ensures
        locals_model(r@) == callee_locals(locals_model(locals@), params@, args@),
{
    let ghost lm = locals_model(locals@);
    let ghost target = callee_locals(lm, params@, args@);
    let mut out: Vec<LocalBinding<'a>> = Vec::new();
    let mut i: usize = 0;
    while i < params.len() && i < args.len()
        invariant
            i <= params@.len(),
            i <= args@.len(),
            lm == locals_model(locals@),
            target == callee_locals(lm, params@, args@),
            locals_model(out@) == target.take(i as int),
        decreases params@.len() - i,
    {
        let combinator: &'a Combinator = match resolve_local_binding(locals, args[i].name) {
            Some(b) => b.combinator,
            None => &params[i].ty,
        };
        let b = LocalBinding { name: params[i].name, combinator };
        proof {
            lemma_locals_push(out@, b);
            assert(target.take(i + 1) =~= target.take(i as int).push((b.name, *b.combinator)));
        }
        out.push(b);
        i = i + 1;
    }
    assert(target.take(target.len() as int) =~= target);
    out
}

/// `acc` followed by `x`.
fn seq_wire(acc: WireLength, x: WireLength) -> (r: WireLength)
    ensures
        r@ == seq_length(acc@, x@),
        length_wf(acc@) && length_wf(x@) ==> length_wf(r@),
{
    WireLength {
        exact: combine_expr(WireOp::Add, acc.exact, x.exact),
        min: acc.min.saturating_add(x.min),
        max: combine_optional(acc.max, x.max, WireOp::Add),
    }
}

/// Either `acc` or `x`.
fn alt_wire(acc: WireLength, x: WireLength) -> (r: WireLength)
    ensures
        r@ == alt_length(acc@, x@),
        length_wf(acc@) && length_wf(x@) ==> length_wf(r@),
{
    let same = opt_expr_eq(&acc.exact, &x.exact);
    WireLength {
        exact: if same {
            acc.exact
        } else {
            None
        },
        min: if acc.min <= x.min {
            acc.min
        } else {
            x.min
        },
        max: combine_optional_max(acc.max, x.max),
    }
}

fn int_wire(t: IntType) -> (r: WireLength)
    ensures
        r@ == int_wire_length(t),
        length_wf(r@),
{
    match prim_byte_size(t) {
        Some(n) => WireLength::exact_const(n),
        None => WireLength { exact: None, min: 1, max: Some(variable_prim_max(t)) },
    }
}

/// Wire length of a definition.
fn wire_length_for_definition<'a>(defs: &'a Vec<Definition>, last: &HashMap<usize, usize>, definition: &'a Definition, visiting: &mut Vec<Name>, fuel: u64) -> (r:
    Option<WireLength>)
    requires
        last_positions(defs@, last@),
    ensures
        opt_length_model(r) == wl_def(defs@, *definition, old(visiting)@, fuel as nat),
        r matches Some(w) ==> length_wf(w@),
        final(visiting)@ == old(visiting)@,
    decreases fuel, def_size(*definition), 0nat,
{
    match &definition.kind {
        DefinitionKind::Combinator { params, body } => {
            let locals = param_bindings(params, params.len());
            proof {
                assert(params@.take(params@.len() as int) =~= params@);
            }
            Some(wire_length_for_combinator(defs, last, body, &locals, visiting, fuel))
        },
        DefinitionKind::Enum(enum_def) => Some(enum_wire_length(enum_def)),
        DefinitionKind::Const { ty, .. } => {
            let locals: Vec<LocalBinding<'a>> = Vec::new();
            proof {
                assert(locals_model(locals@) =~= Seq::<(Name, Combinator)>::empty());
            }
            Some(wire_length_for_combinator(defs, last, ty, &locals, visiting, fuel))
        },
        DefinitionKind::Endianness(_) => None,
    }
}

/// Wire length of a format in a scope.
fn wire_length_for_combinator<'a>(
    defs: &'a Vec<Definition>,
    last: &HashMap<usize, usize>,
    combinator: &'a Combinator,
    locals: &Vec<LocalBinding<'a>>,
    visiting: &mut Vec<Name>,
    fuel: u64,
) -> (r: WireLength)
    requires
        last_positions(defs@, last@),
    ensures
        r@ == wl_comb(defs@, *combinator, locals_model(locals@), old(visiting)@, fuel as nat),
        length_wf(r@),
        final(visiting)@ == old(visiting)@,
    decreases fuel, comb_size(*combinator), 0nat,
{
    match combinator {
        Combinator::Int(int_type) => int_wire(*int_type),
        Combinator::ConstrainedInt { int_type, .. } => int_wire(*int_type),
        Combinator::Reference { name, args, .. } => wire_length_for_reference(
            defs,
            last,
            *name,
            args,
            locals,
            visiting,
            fuel,
        ),
        Combinator::ConstrainedReference { name, .. } => {
            let no_args: Vec<NameRef> = Vec::new();
            proof {
                assert(no_args@ =~= Seq::<NameRef>::empty());
            }
            wire_length_for_reference(defs, last, *name, &no_args, locals, visiting, fuel)
        },
        Combinator::Struct(structure) => fields_wire_length(defs, last, &structure.fields, locals, visiting, fuel),
        Combinator::Choice(choice) => {
            if choice.arms.len() == 0 {
                WireLength::exact_const(0)
            } else {
                arms_wire_length(defs, last, &choice.arms, locals, visiting, fuel)
            }
        },
        Combinator::Array(array) => {
            let elem = wire_length_for_combinator(defs, last, &array.element, locals, visiting, fuel);
            let length = length_expr_summary(defs, last, &array.length, locals, visiting, fuel);
            proof {
                lemma_mul_length_wf(length.bounds.min, length.bounds.max, elem.min, elem.max);
                lemma_combine_exact_in_bounds(
                    WireOp::Mul,
                    summary_model(length).exact,
                    elem@.exact,
                    length.bounds,
                    Bounds { min: elem.min, max: elem.max },
                );
            }
            let min = match multiply_bounds(length.bounds.min, elem.min) {
                Some(v) => v,
                None => 0,
            };
            WireLength {
                exact: combine_expr(WireOp::Mul, length.exact, elem.exact),
                min,
                max: combine_optional(length.bounds.max, elem.max, WireOp::Mul),
            }
        },
        Combinator::Option(option) => {
            let elem = wire_length_for_combinator(defs, last, &option.element, locals, visiting, fuel);
            WireLength { exact: None, min: 0, max: elem.max }
        },
        Combinator::Wrap(wrap) => wrap_wire_length(defs, last, &wrap.args, locals, visiting, fuel),
        Combinator::Bind { inner, .. } => wire_length_for_combinator(defs, last, inner, locals, visiting, fuel),
        _ => WireLength::unknown(),
    }
}

/// Wire length of a record: its fields in sequence, each dependent field
/// entering the scope of the fields after it.
#[verifier::loop_isolation(false)]
fn fields_wire_length<'a>(
    defs: &'a Vec<Definition>,
    last: &HashMap<usize, usize>,
    fields: &'a Vec<Field>,
    locals: &Vec<LocalBinding<'a>>,
    visiting: &mut Vec<Name>,
    fuel: u64,
) -> (r: WireLength)
    requires
        last_positions(defs@, last@),
    ensures
        r@ == wl_fields(defs@, fields@, locals_model(locals@), old(visiting)@, fuel as nat, fields@.len()).0,
        length_wf(r@),
        final(visiting)@ == old(visiting)@,
    decreases fuel, fields_sz(fields@), 1nat,
{
    let ghost lm = locals_model(locals@);
    let ghost vis = visiting@;
    let mut acc = WireLength { exact: Some(WireExpr::Const(0)), min: 0, max: Some(0) };
    let mut scope = copy_locals(locals);
    let mut i: usize = 0;
    while i < fields.len()
        invariant
            i <= fields@.len(),
            visiting@ == vis,
            acc@ == wl_fields(defs@, fields@, lm, vis, fuel as nat, i as nat).0,
            locals_model(scope@) == wl_fields(defs@, fields@, lm, vis, fuel as nat, i as nat).1,
            length_wf(acc@),
        decreases fields@.len() - i,
    {
        proof {
            crate::check::lemma_fields_sz(fields@, i as int);
        }
        let field_length = wire_length_for_combinator(defs, last, &fields[i].ty, &scope, visiting, fuel);
        acc = seq_wire(acc, field_length);
        if fields[i].is_dependent {
            let b = LocalBinding { name: fields[i].name, combinator: &fields[i].ty };
            proof {
                lemma_locals_push(scope@, b);
            }
            scope.push(b);
        }
        i = i + 1;
    }
    acc
}

/// Wire length of a choice: the arms merged.
#[verifier::loop_isolation(false)]
fn arms_wire_length<'a>(
    defs: &'a Vec<Definition>,
    last: &HashMap<usize, usize>,
    arms: &'a Vec<crate::types::ChoiceArm>,
    locals: &Vec<LocalBinding<'a>>,
    visiting: &mut Vec<Name>,
    fuel: u64,
) -> (r: WireLength)
    requires
        last_positions(defs@, last@),
        arms@.len() > 0,
    ensures
        r@ == wl_arms(defs@, arms@, locals_model(locals@), old(visiting)@, fuel as nat, arms@.len()),
        length_wf(r@),
        final(visiting)@ == old(visiting)@,
    decreases fuel, arms_sz(arms@), 1nat,
{
    let ghost lm = locals_model(locals@);
    let ghost vis = visiting@;
    proof {
        crate::check::lemma_arms_sz(arms@, 0);
    }
    let mut acc = wire_length_for_combinator(defs, last, &arms[0].body, locals, visiting, fuel);
    let mut i: usize = 1;
    while i < arms.len()
        invariant
            1 <= i <= arms@.len(),
            visiting@ == vis,
            acc@ == wl_arms(defs@, arms@, lm, vis, fuel as nat, i as nat),
            length_wf(acc@),
        decreases arms@.len() - i,
    {
        proof {
            crate::check::lemma_arms_sz(arms@, i as int);
        }
        let branch = wire_length_for_combinator(defs, last, &arms[i].body, locals, visiting, fuel);
        acc = alt_wire(acc, branch);
        i = i + 1;
    }
    acc
}

/// Wire length of the arguments of a wrap in sequence.
#[verifier::loop_isolation(false)]
fn wrap_wire_length<'a>(
    defs: &'a Vec<Definition>,
    last: &HashMap<usize, usize>,
    args: &'a Vec<WrapArg>,
    locals: &Vec<LocalBinding<'a>>,
    visiting: &mut Vec<Name>,
    fuel: u64,
) -> (r: WireLength)
    requires
        last_positions(defs@, last@),
    ensures
        r@ == wl_wrap(defs@, args@, locals_model(locals@), old(visiting)@, fuel as nat, args@.len()),
        length_wf(r@),
        final(visiting)@ == old(visiting)@,
    decreases fuel, wrap_sz(args@), 1nat,
{
    let ghost lm = locals_model(locals@);
    let ghost vis = visiting@;
    let mut acc = WireLength { exact: Some(WireExpr::Const(0)), min: 0, max: Some(0) };
    let mut i: usize = 0;
    while i < args.len()
        invariant
            i <= args@.len(),
            visiting@ == vis,
            acc@ == wl_wrap(defs@, args@, lm, vis, fuel as nat, i as nat),
            length_wf(acc@),
        decreases args@.len() - i,
    {
        proof {
            crate::check::lemma_wrap_sz(args@, i as int);
        }
        let arg_length = match &args[i] {
            WrapArg::Combinator(c) => wire_length_for_combinator(defs, last, c, locals, visiting, fuel),
            WrapArg::ConstInt { ty, .. } => match prim_byte_size(*ty) {
                Some(n) => WireLength::exact_const(n),
                None => WireLength::unknown(),
            },
            WrapArg::ConstEnum { ty, .. } => match definition_by_last(defs, last, ty.name) {
                Some(d) => match &d.kind {
                    DefinitionKind::Enum(enum_def) => enum_wire_length(enum_def),
                    _ => WireLength::unknown(),
                },
                None => WireLength::unknown(),
            },
            WrapArg::ConstBytes { length, .. } => WireLength::exact_const(*length),
        };
        acc = seq_wire(acc, arg_length);
        i = i + 1;
    }
    acc
}

/// Wire length of a reference.
fn wire_length_for_reference<'a>(
    defs: &'a Vec<Definition>,
    last: &HashMap<usize, usize>,
    name: Name,
    args: &Vec<NameRef>,
    locals: &Vec<LocalBinding<'a>>,
    visiting: &mut Vec<Name>,
    fuel: u64,
) -> (r: WireLength)
    requires
        last_positions(defs@, last@),
    ensures
        r@ == wl_ref(defs@, name, args@, locals_model(locals@), old(visiting)@, fuel as nat),
        length_wf(r@),
        final(visiting)@ == old(visiting)@,
    decreases fuel, 0nat, 0nat,
{
    let definition = match definition_by_last(defs, last, name) {
        Some(d) => d,
        None => {
            return WireLength::unknown();
        },
    };
    match &definition.kind {
        DefinitionKind::Enum(enum_def) => enum_wire_length(enum_def),
        DefinitionKind::Const { ty, .. } => {
            if fuel == 0 {
                WireLength::unknown()
            } else {
                wire_length_for_combinator(defs, last, ty, locals, visiting, fuel - 1)
            }
        },
        DefinitionKind::Combinator { params, body } => {
            if contains_name(visiting, name) || fuel == 0 {
                return WireLength::unknown();
            }
            let callee = callee_bindings(params, args, locals);
            visiting.push(name);
            let result = wire_length_for_combinator(defs, last, body, &callee, visiting, fuel - 1);
            visiting.pop();
            proof {
                assert(visiting@ =~= old(visiting)@);
            }
            result
        },
        DefinitionKind::Endianness(_) => WireLength::unknown(),
    }
}

/// Summary of a length expression: its terms folded with their operators.
#[verifier::loop_isolation(false)]
#[verifier::spinoff_prover]
#[verifier::rlimit(40)]
fn length_expr_summary<'a>(
    defs: &'a Vec<Definition>,
    last: &HashMap<usize, usize>,
    expr: &'a LengthExpr,
    locals: &Vec<LocalBinding<'a>>,
    visiting: &mut Vec<Name>,
    fuel: u64,
) -> (r: ExprSummary)
    requires
        last_positions(defs@, last@),
    ensures
        summary_model(r) == wl_expr(defs@, *expr, locals_model(locals@), old(visiting)@, fuel as nat),
        bounds_wf(r.bounds),
        exact_in_bounds(summary_model(r).exact, r.bounds),
        final(visiting)@ == old(visiting)@,
    decreases fuel, expr_size(*expr), 0nat,
{
    let ghost lm = locals_model(locals@);
    let ghost vis = visiting@;
    let ghost ts = expr.terms@;
    let ghost ops = expr.ops@;
    if expr.terms.len() == 0 {
        return ExprSummary { exact: Some(WireExpr::Const(0)), bounds: Bounds::exact(0) };
    }
    proof {
        crate::check::lemma_terms_sz(ts, 0);
    }
    let mut summary = length_term_summary(defs, last, &expr.terms[0], locals, visiting, fuel);
    let mut i: usize = 1;
    while i < expr.terms.len() && i - 1 < expr.ops.len()
        invariant
            1 <= i <= ts.len(),
            i - 1 <= ops.len(),
            visiting@ == vis,
            summary_model(summary) == wl_terms(defs@, ts, ops, lm, vis, fuel as nat, i as nat),
            bounds_wf(summary.bounds),
            exact_in_bounds(summary_model(summary).exact, summary.bounds),
        decreases ts.len() - i,
    {
        proof {
            crate::check::lemma_terms_sz(ts, i as int);
        }
        let rhs = length_term_summary(defs, last, &expr.terms[i], locals, visiting, fuel);
        summary = combine_summary(summary, expr.ops[i - 1], rhs);
        i = i + 1;
    }
    assert(i as nat == fold_count(ts.len(), ops.len()));
    summary
}

/// Summary of a term: its atoms folded with their operators.
#[verifier::loop_isolation(false)]
#[verifier::spinoff_prover]
#[verifier::rlimit(40)]
fn length_term_summary<'a>(
    defs: &'a Vec<Definition>,
    last: &HashMap<usize, usize>,
    term: &'a LengthTerm,
    locals: &Vec<LocalBinding<'a>>,
    visiting: &mut Vec<Name>,
    fuel: u64,
) -> (r: ExprSummary)
    requires
        last_positions(defs@, last@),
    ensures
        summary_model(r) == wl_term(defs@, *term, locals_model(locals@), old(visiting)@, fuel as nat),
        bounds_wf(r.bounds),
        exact_in_bounds(summary_model(r).exact, r.bounds),
        final(visiting)@ == old(visiting)@,
    decreases fuel, term_size(*term), 0nat,
{
    let ghost lm = locals_model(locals@);
    let ghost vis = visiting@;
    let ghost ats = term.atoms@;
    let ghost ops = term.ops@;
    if term.atoms.len() == 0 {
        return ExprSummary { exact: Some(WireExpr::Const(1)), bounds: Bounds::exact(1) };
    }
    proof {
        crate::check::lemma_atoms_sz(ats, 0);
    }
    let mut summary = length_atom_summary(defs, last, &term.atoms[0], locals, visiting, fuel);
    let mut i: usize = 1;
    while i < term.atoms.len() && i - 1 < term.ops.len()
        invariant
            1 <= i <= ats.len(),
            i - 1 <= ops.len(),
            visiting@ == vis,
            summary_model(summary) == wl_atoms(defs@, ats, ops, lm, vis, fuel as nat, i as nat),
            bounds_wf(summary.bounds),
            exact_in_bounds(summary_model(summary).exact, summary.bounds),
        decreases ats.len() - i,
    {
        proof {
            crate::check::lemma_atoms_sz(ats, i as int);
        }
        let rhs = length_atom_summary(defs, last, &term.atoms[i], locals, visiting, fuel);
        summary = combine_summary(summary, term.ops[i - 1], rhs);
        i = i + 1;
    }
    assert(i as nat == fold_count(ats.len(), ops.len()));
    summary
}

/// Summary of an atom of a length expression.
fn length_atom_summary<'a>(
    defs: &'a Vec<Definition>,
    last: &HashMap<usize, usize>,
    atom: &'a LengthAtom,
    locals: &Vec<LocalBinding<'a>>,
    visiting: &mut Vec<Name>,
    fuel: u64,
) -> (r: ExprSummary)
    requires
        last_positions(defs@, last@),
    ensures
        summary_model(r) == wl_atom(defs@, *atom, locals_model(locals@), old(visiting)@, fuel as nat),
        bounds_wf(r.bounds),
        exact_in_bounds(summary_model(r).exact, r.bounds),
        final(visiting)@ == old(visiting)@,
    decreases fuel, atom_size(*atom), 0nat,
{
    match atom {
        LengthAtom::Const(value) => ExprSummary {
            exact: Some(WireExpr::Const(*value)),
            bounds: Bounds::exact(*value),
        },
        LengthAtom::Param(param) => {
            let no_fields: Vec<Name> = Vec::new();
            proof {
                assert(no_fields@ =~= Seq::<Name>::empty());
            }
            let bounds = resolve_value_bounds(defs, locals, param.name, &no_fields);
            ExprSummary {
                exact: Some(WireExpr::Var(WireVar { base: param.name, fields: no_fields })),
                bounds,
            }
        },
        LengthAtom::ProjectedParam { base, fields } => {
            let bounds = resolve_value_bounds(defs, locals, base.name, fields);
            ExprSummary {
                exact: Some(WireExpr::Var(WireVar { base: base.name, fields: copy_names(fields) })),
                bounds,
            }
        },
        LengthAtom::SizeOf(SizeTarget::Type(int_type)) => match prim_byte_size(*int_type) {
            Some(bytes) => ExprSummary { exact: Some(WireExpr::Const(bytes)), bounds: Bounds::exact(bytes) },
            None => ExprSummary { exact: None, bounds: Bounds { min: 0, max: None } },
        },
        LengthAtom::SizeOf(SizeTarget::Named(target)) => {
            let wire = match definition_by_last(defs, last, target.name) {
                Some(definition) => {
                    if fuel == 0 {
                        WireLength::unknown()
                    } else {
                        match wire_length_for_definition(defs, last, definition, visiting, fuel - 1) {
                            Some(w) => w,
                            None => WireLength::unknown(),
                        }
                    }
                },
                None => WireLength::unknown(),
            };
            ExprSummary { exact: wire.exact, bounds: Bounds { min: wire.min, max: wire.max } }
        },
        LengthAtom::Paren(inner) => length_expr_summary(defs, last, inner, locals, visiting, fuel),
    }
}

/// Index of the first span equal to `s`.
pub open spec fn first_span_index(spans: Seq<Span>, s: Span) -> Option<int>
    decreases spans.len(),
{
    if spans.len() == 0 {
        None
    } else if spans[0] == s {
        Some(0)
    } else {
        match first_span_index(spans.drop_first(), s) {
            Some(j) => Some(j + 1),
            None => None,
        }
    }
}

proof fn lemma_first_span_index(spans: Seq<Span>, s: Span, j: int)
    requires
        0 <= j <= spans.len(),
        forall|k: int| 0 <= k < j ==> spans[k] != s,
        j < spans.len() ==> spans[j] == s,
    ensures
        j < spans.len() ==> first_span_index(spans, s) == Some(j),
        j == spans.len() ==> first_span_index(spans, s) is None,
    decreases spans.len(),
{
    if spans.len() > 0 && j > 0 {
        let t = spans.drop_first();
        assert forall|k: int| 0 <= k < j - 1 implies t[k] != s by {
            assert(t[k] == spans[k + 1]);
        }
        lemma_first_span_index(t, s, j - 1);
    }
}

pub open spec fn param_spans(ps: Seq<crate::types::Param>) -> Seq<Span> {
    Seq::new(ps.len(), |i: int| ps[i].span)
}

pub open spec fn field_spans(fs: Seq<Field>) -> Seq<Span> {
    Seq::new(fs.len(), |i: int| fs[i].span)
}

pub open spec fn variant_spans(vs: Seq<EnumVariant>) -> Seq<Span> {
    Seq::new(vs.len(), |i: int| vs[i].span)
}

/// `base` extended with the dependent fields among `fs`, in order.
pub open spec fn dependent_scope(base: Seq<(Name, Combinator)>, fs: Seq<Field>) -> Seq<(Name, Combinator)>
    decreases fs.len(),
{
    if fs.len() == 0 {
        base
    } else {
        let prev = dependent_scope(base, fs.drop_last());
        if fs.last().is_dependent {
            prev.push((fs.last().name, fs.last().ty))
        } else {
            prev
        }
    }
}

pub open spec fn spec_hover_kind(d: Definition) -> HoverKind {
    match d.kind {
        DefinitionKind::Combinator { .. } => HoverKind::Format,
        DefinitionKind::Enum(_) => HoverKind::Enum,
        DefinitionKind::Const { .. } => HoverKind::Constant,
        DefinitionKind::Endianness(_) => HoverKind::Endianness,
    }
}

/// Mathematical value of a hover result.
pub struct HoverModel {
    pub range: Span,
    pub snippet_span: Span,
    pub kind: HoverKind,
    pub wire_length: Option<LengthModel>,
}

pub open spec fn hover_model(h: HoverInfo) -> HoverModel {
    HoverModel {
        range: h.range,
        snippet_span: h.snippet_span,
        kind: h.kind,
        wire_length: opt_length_model(h.wire_length),
    }
}

pub open spec fn opt_hover_model(h: Option<HoverInfo>) -> Option<HoverModel> {
    match h {
        Some(h) => Some(hover_model(h)),
        None => None,
    }
}

/// Hover for a top-level name: its last definition and that definition's
/// wire length.
pub open spec fn spec_hover_top(defs: Seq<Definition>, range: Span, name: Name) -> Option<HoverModel> {
    match def_by_name(defs, name) {
        Some(d) => Some(
            HoverModel {
                range,
                snippet_span: d.span,
                kind: spec_hover_kind(d),
                wire_length: wl_def(defs, d, Seq::empty(), defs.len()),
            },
        ),
        None => None,
    }
}

/// Hover for a parameter, measured in the scope of the parameters before it.
pub open spec fn spec_hover_param(defs: Seq<Definition>, range: Span, owner: Name, declaration: Span) -> Option<
    HoverModel,
> {
    match def_by_name(defs, owner) {
        Some(d) => match d.kind {
            DefinitionKind::Combinator { params, .. } => match first_span_index(param_spans(params@), declaration) {
                Some(k) => Some(
                    HoverModel {
                        range,
                        snippet_span: params@[k].full_span,
                        kind: HoverKind::Parameter,
                        wire_length: Some(
                            wl_comb(defs, params@[k].ty, param_locals(params@.take(k)), Seq::empty(), defs.len()),
                        ),
                    },
                ),
                None => None,
            },
            _ => None,
        },
        None => None,
    }
}

/// Hover for a field of a record format, measured in the scope of all
/// parameters and the dependent fields before it.
pub open spec fn spec_hover_field(defs: Seq<Definition>, range: Span, owner: Name, declaration: Span) -> Option<
    HoverModel,
> {
    match def_by_name(defs, owner) {
        Some(d) => match d.kind {
            DefinitionKind::Combinator { params, body } => match body {
                Combinator::Struct(s) => match first_span_index(field_spans(s.fields@), declaration) {
                    Some(k) => Some(
                        HoverModel {
                            range,
                            snippet_span: s.fields@[k].full_span,
                            kind: HoverKind::Field,
                            wire_length: Some(
                                wl_comb(
                                    defs,
                                    s.fields@[k].ty,
                                    dependent_scope(param_locals(params@), s.fields@.take(k)),
                                    Seq::empty(),
                                    defs.len(),
                                ),
                            ),
                        },
                    ),
                    None => None,
                },
                _ => None,
            },
            _ => None,
        },
        None => None,
    }
}

/// Hover for an enum variant: the wire length of its enum.
pub open spec fn spec_hover_variant(defs: Seq<Definition>, range: Span, owner: Name, declaration: Span) -> Option<
    HoverModel,
> {
    match def_by_name(defs, owner) {
        Some(d) => match d.kind {
            DefinitionKind::Enum(e) => match first_span_index(variant_spans(e.variants@), declaration) {
                Some(k) => Some(
                    HoverModel {
                        range,
                        snippet_span: e.variants@[k].full_span,
                        kind: HoverKind::EnumVariant,
                        wire_length: Some(spec_enum_wire_length(e)),
                    },
                ),
                None => None,
            },
            _ => None,
        },
        None => None,
    }
}

/// Hover for an occurrence, by the kind of symbol it names.
pub open spec fn spec_hover(defs: Seq<Definition>, occ: SymbolOccurrence) -> Option<HoverModel> {
    match occ.symbol {
        SymbolId::TopLevel { name, .. } => spec_hover_top(defs, occ.span, name),
        SymbolId::Param { owner, declaration, .. } => spec_hover_param(defs, occ.span, owner, declaration),
        SymbolId::Field { owner, declaration, .. } => spec_hover_field(defs, occ.span, owner, declaration),
        SymbolId::EnumVariant { owner, declaration, .. } => spec_hover_variant(defs, occ.span, owner, declaration),
    }
}

fn hover_kind_for_definition(definition: &Definition) -> (r: HoverKind)
    ensures
        r == spec_hover_kind(*definition),
{
    match definition.kind {
        DefinitionKind::Combinator { .. } => HoverKind::Format,
        DefinitionKind::Enum(_) => HoverKind::Enum,
        DefinitionKind::Const { .. } => HoverKind::Constant,
        DefinitionKind::Endianness(_) => HoverKind::Endianness,
    }
}

fn param_position(params: &Vec<crate::types::Param>, declaration: Span) -> (r: Option<usize>)
    ensures
        match r {
            Some(i) => first_span_index(param_spans(params@), declaration) == Some(i as int),
            None => first_span_index(param_spans(params@), declaration) is None,
        },
        r matches Some(i) ==> i < params@.len(),
{
    let ghost spans = param_spans(params@);
    let mut i: usize = 0;
    while i < params.len()
        invariant
            i <= params@.len(),
            spans == param_spans(params@),
            forall|k: int| 0 <= k < i ==> spans[k] != declaration,
        decreases params@.len() - i,
    {
        if params[i].span == declaration {
            proof {
                lemma_first_span_index(spans, declaration, i as int);
            }
            return Some(i);
        }
        i = i + 1;
    }
    proof {
        lemma_first_span_index(spans, declaration, i as int);
    }
    None
}

fn field_position(fields: &Vec<Field>, declaration: Span) -> (r: Option<usize>)
    ensures
        match r {
            Some(i) => first_span_index(field_spans(fields@), declaration) == Some(i as int),
            None => first_span_index(field_spans(fields@), declaration) is None,
        },
        r matches Some(i) ==> i < fields@.len(),
{
    let ghost spans = field_spans(fields@);
    let mut i: usize = 0;
    while i < fields.len()
        invariant
            i <= fields@.len(),
            spans == field_spans(fields@),
            forall|k: int| 0 <= k < i ==> spans[k] != declaration,
        decreases fields@.len() - i,
    {
        if fields[i].span == declaration {
            proof {
                lemma_first_span_index(spans, declaration, i as int);
            }
            return Some(i);
        }
        i = i + 1;
    }
    proof {
        lemma_first_span_index(spans, declaration, i as int);
    }
    None
}

fn variant_position(variants: &Vec<EnumVariant>, declaration: Span) -> (r: Option<usize>)
    ensures
        match r {
            Some(i) => first_span_index(variant_spans(variants@), declaration) == Some(i as int),
            None => first_span_index(variant_spans(variants@), declaration) is None,
        },
        r matches Some(i) ==> i < variants@.len(),
{
    let ghost spans = variant_spans(variants@);
    let mut i: usize = 0;
    while i < variants.len()
        invariant
            i <= variants@.len(),
            spans == variant_spans(variants@),
            forall|k: int| 0 <= k < i ==> spans[k] != declaration,
        decreases variants@.len() - i,
    {
        if variants[i].span == declaration {
            proof {
                lemma_first_span_index(spans, declaration, i as int);
            }
            return Some(i);
        }
        i = i + 1;
    }
    proof {
        lemma_first_span_index(spans, declaration, i as int);
    }
    None
}

/// The scope of field `index`: every parameter, then the dependent fields
/// before it.
fn field_scope<'a>(params: &'a Vec<crate::types::Param>, fields: &'a Vec<Field>, index: usize) -> (r: Vec<
    LocalBinding<'a>,
>)
    requires
        index <= fields@.len(),
    ensures
        locals_model(r@) == dependent_scope(param_locals(params@), fields@.take(index as int)),
{
    let mut scope = param_bindings(params, params.len());
    let ghost base = param_locals(params@);
    proof {
        assert(params@.take(params@.len() as int) =~= params@);
        assert(fields@.take(0) =~= Seq::<Field>::empty());
    }
    let mut j: usize = 0;
    while j < index
        invariant
            j <= index <= fields@.len(),
            base == param_locals(params@),
            locals_model(scope@) == dependent_scope(base, fields@.take(j as int)),
        decreases index - j,
    {
        proof {
            assert(fields@.take(j + 1).drop_last() =~= fields@.take(j as int));
        }
        if fields[j].is_dependent {
            let b = LocalBinding { name: fields[j].name, combinator: &fields[j].ty };
            proof {
                lemma_locals_push(scope@, b);
            }
            scope.push(b);
        }
        j = j + 1;
    }
    scope
}

/// Wire length of the definition named `name` (the last definition of that
/// name).
pub fn compute_wire_length(db: &Database, hir: &FileHir, name: Name) -> (r: Option<WireLength>)
    ensures
        opt_length_model(r) == match def_by_name(hir.definitions@, name) {
            Some(d) => wl_def(hir.definitions@, d, Seq::empty(), hir.definitions@.len()),
            None => None,
        },
        r matches Some(w) ==> length_wf(w@),
{
    let defs = &hir.definitions;
    let last = last_positions_table(defs);
    let definition = match definition_by_last(defs, &last, name) {
        Some(d) => d,
        None => {
            return None;
        },
    };
    let mut visiting: Vec<Name> = Vec::new();
    proof {
        assert(visiting@ =~= Seq::<Name>::empty());
    }
    wire_length_for_definition(defs, &last, definition, &mut visiting, defs.len() as u64)
}

fn hover_top(defs: &Vec<Definition>, range: Span, name: Name) -> (r: Option<HoverInfo>)
    ensures
        opt_hover_model(r) == spec_hover_top(defs@, range, name),
{
    let last = last_positions_table(defs);
    let definition = match definition_by_last(defs, &last, name) {
        Some(d) => d,
        None => {
            return None;
        },
    };
    let mut visiting: Vec<Name> = Vec::new();
    proof {
        assert(visiting@ =~= Seq::<Name>::empty());
    }
    let wire_length = wire_length_for_definition(defs, &last, definition, &mut visiting, defs.len() as u64);
    Some(
        HoverInfo {
            range,
            snippet_span: definition.span,
            kind: hover_kind_for_definition(definition),
            wire_length,
        },
    )
}

fn hover_param(defs: &Vec<Definition>, range: Span, owner: Name, declaration: Span) -> (r: Option<HoverInfo>)
    ensures
        opt_hover_model(r) == spec_hover_param(defs@, range, owner, declaration),
{
    let last = last_positions_table(defs);
    let definition = match definition_by_last(defs, &last, owner) {
        Some(d) => d,
        None => {
            return None;
        },
    };
    let params = match &definition.kind {
        DefinitionKind::Combinator { params, .. } => params,
        _ => {
            return None;
        },
    };
    let index = match param_position(params, declaration) {
        Some(i) => i,
        None => {
            return None;
        },
    };
    let locals = param_bindings(params, index);
    let mut visiting: Vec<Name> = Vec::new();
    proof {
        assert(visiting@ =~= Seq::<Name>::empty());
    }
    let wire = wire_length_for_combinator(defs, &last, &params[index].ty, &locals, &mut visiting, defs.len() as u64);
    Some(
        HoverInfo {
            range,
            snippet_span: params[index].full_span,
            kind: HoverKind::Parameter,
            wire_length: Some(wire),
        },
    )
}

fn hover_field(defs: &Vec<Definition>, range: Span, owner: Name, declaration: Span) -> (r: Option<HoverInfo>)
    ensures
        opt_hover_model(r) == spec_hover_field(defs@, range, owner, declaration),
{
    let last = last_positions_table(defs);
    let definition = match definition_by_last(defs, &last, owner) {
        Some(d) => d,
        None => {
            return None;
        },
    };
    let (params, structure) = match &definition.kind {
        DefinitionKind::Combinator { params, body } => match body {
            Combinator::Struct(structure) => (params, structure),
            _ => {
                return None;
            },
        },
        _ => {
            return None;
        },
    };
    let index = match field_position(&structure.fields, declaration) {
        Some(i) => i,
        None => {
            return None;
        },
    };
    let locals = field_scope(params, &structure.fields, index);
    let mut visiting: Vec<Name> = Vec::new();
    proof {
        assert(visiting@ =~= Seq::<Name>::empty());
    }
    let wire = wire_length_for_combinator(
        defs,
        &last,
        &structure.fields[index].ty,
        &locals,
        &mut visiting,
        defs.len() as u64,
    );
    Some(
        HoverInfo {
            range,
            snippet_span: structure.fields[index].full_span,
            kind: HoverKind::Field,
            wire_length: Some(wire),
        },
    )
}

fn hover_variant(defs: &Vec<Definition>, range: Span, owner: Name, declaration: Span) -> (r: Option<HoverInfo>)
    ensures
        opt_hover_model(r) == spec_hover_variant(defs@, range, owner, declaration),
{
    let definition = match definition_by_name(defs, owner) {
        Some(d) => d,
        None => {
            return None;
        },
    };
    let enum_def = match &definition.kind {
        DefinitionKind::Enum(enum_def) => enum_def,
        _ => {
            return None;
        },
    };
    let index = match variant_position(&enum_def.variants, declaration) {
        Some(i) => i,
        None => {
            return None;
        },
    };
    Some(
        HoverInfo {
            range,
            snippet_span: enum_def.variants[index].full_span,
            kind: HoverKind::EnumVariant,
            wire_length: Some(enum_wire_length(enum_def)),
        },
    )
}

/// Hover information for the symbol under `byte_offset`.
pub fn hover_info_in_hir(db: &Database, hir: &FileHir, byte_offset: usize) -> (r: Option<HoverInfo>)
    ensures
        opt_hover_model(r) == match first_occ_at(spec_occurrences(hir.definitions@), byte_offset as int) {
            Some(o) => spec_hover(hir.definitions@, o),
            None => None,
        },
{
    let occurrence = match symbol_occurrence_at_offset_in_hir(hir, byte_offset) {
        Some(o) => o,
        None => {
            return None;
        },
    };
    match occurrence.symbol {
        SymbolId::TopLevel { name, .. } => hover_top(&hir.definitions, occurrence.span, name),
        SymbolId::Param { owner, declaration, .. } => hover_param(&hir.definitions, occurrence.span, owner, declaration),
        SymbolId::Field { owner, declaration, .. } => hover_field(&hir.definitions, occurrence.span, owner, declaration),
        SymbolId::EnumVariant { owner, declaration, .. } => hover_variant(
            &hir.definitions,
            occurrence.span,
            owner,
            declaration,
        ),
    }
}


/// The first `k` arms of a choice take, as their least length, the least of
/// the arms' least lengths; as their greatest, the greatest of theirs when
/// every arm has one; and an exact length only when every arm has it.
proof fn lemma_arms_bounds(
    defs: Seq<Definition>,
    arms: Seq<crate::types::ChoiceArm>,
    locals: Seq<(Name, Combinator)>,
    vis: Seq<Name>,
    f: nat,
    k: nat,
)
    requires
        1 <= k <= arms.len(),
    ensures
        forall|j: int|
            0 <= j < k ==> wl_arms(defs, arms, locals, vis, f, k).min <= (#[trigger] wl_comb(
                defs,
                arms[j].body,
                locals,
                vis,
                f,
            )).min,
        exists|j: int|
            0 <= j < k && wl_arms(defs, arms, locals, vis, f, k).min == (#[trigger] wl_comb(
                defs,
                arms[j].body,
                locals,
                vis,
                f,
            )).min,
        forall|j: int|
            0 <= j < k && wl_arms(defs, arms, locals, vis, f, k).max is Some ==> (#[trigger] wl_comb(
                defs,
                arms[j].body,
                locals,
                vis,
                f,
            )).max is Some && (wl_comb(defs, arms[j].body, locals, vis, f).max->Some_0 <= wl_arms(
                defs,
                arms,
                locals,
                vis,
                f,
                k,
            ).max->Some_0),
        forall|j: int|
            0 <= j < k && wl_arms(defs, arms, locals, vis, f, k).exact is Some ==> (#[trigger] wl_comb(
                defs,
                arms[j].body,
                locals,
                vis,
                f,
            )).exact == wl_arms(defs, arms, locals, vis, f, k).exact,
    decreases k,
{
    let b = wl_comb(defs, arms[k - 1].body, locals, vis, f);
    if k == 1 {
        assert(wl_arms(defs, arms, locals, vis, f, k) == b);
        assert(wl_comb(defs, arms[0].body, locals, vis, f) == b);
    } else {
        lemma_arms_bounds(defs, arms, locals, vis, f, (k - 1) as nat);
        let prev = wl_arms(defs, arms, locals, vis, f, (k - 1) as nat);
        assert(wl_arms(defs, arms, locals, vis, f, k) == alt_length(prev, b));
        if prev.min <= b.min {
            let j = choose|j: int| 0 <= j < k - 1 && prev.min == (#[trigger] wl_comb(defs, arms[j].body, locals, vis, f)).min;
            assert(0 <= j < k && wl_arms(defs, arms, locals, vis, f, k).min == wl_comb(defs, arms[j].body, locals, vis, f).min);
        } else {
            assert(wl_arms(defs, arms, locals, vis, f, k).min == wl_comb(defs, arms[k - 1].body, locals, vis, f).min);
        }
    }
}

/// The wire length of a choice bounds every arm's: its least length is the
/// least of the arms' least lengths (it is at most each and equals one), its
/// greatest length, when it has one, is at least every arm's, and it has an
/// exact length only when every arm has that same exact length.
pub proof fn lemma_choice_wire_length(
    defs: Seq<Definition>,
    ch: crate::types::ChoiceCombinator,
    locals: Seq<(Name, Combinator)>,
    vis: Seq<Name>,
    f: nat,
)
    requires
        ch.arms@.len() > 0,
    ensures
        forall|j: int|
            0 <= j < ch.arms@.len() ==> wl_comb(defs, Combinator::Choice(ch), locals, vis, f).min <= (
            #[trigger] wl_comb(defs, ch.arms@[j].body, locals, vis, f)).min,
        exists|j: int|
            0 <= j < ch.arms@.len() && wl_comb(defs, Combinator::Choice(ch), locals, vis, f).min == (
            #[trigger] wl_comb(defs, ch.arms@[j].body, locals, vis, f)).min,
        forall|j: int|
            0 <= j < ch.arms@.len() && wl_comb(defs, Combinator::Choice(ch), locals, vis, f).max is Some ==> (
            #[trigger] wl_comb(defs, ch.arms@[j].body, locals, vis, f)).max is Some && (wl_comb(
                defs,
                ch.arms@[j].body,
                locals,
                vis,
                f,
            ).max->Some_0 <= wl_comb(defs, Combinator::Choice(ch), locals, vis, f).max->Some_0),
        forall|j: int|
            0 <= j < ch.arms@.len() && wl_comb(defs, Combinator::Choice(ch), locals, vis, f).exact is Some ==> (
            #[trigger] wl_comb(defs, ch.arms@[j].body, locals, vis, f)).exact == wl_comb(
                defs,
                Combinator::Choice(ch),
                locals,
                vis,
                f,
            ).exact,
{
    lemma_arms_bounds(defs, ch.arms@, locals, vis, f, ch.arms@.len());
}


/// How tightly an operator binds in the source syntax: `*` and `/` over `+`
/// and `-`.
pub open spec fn binding_strength(op: WireOp) -> int {
    match op {
        WireOp::Add | WireOp::Sub => 1,
        WireOp::Mul | WireOp::Div => 2,
    }
}

/// `s` in parentheses when `b`.
pub open spec fn parenthesized_if(b: bool, s: Seq<char>) -> Seq<char> {
    if b {
        seq!['('] + s + seq![')']
    } else {
        s
    }
}

/// A left operand must be parenthesized under `op` when it is a binary
/// expression binding more loosely than `op`.
pub open spec fn left_needs_parens(op: WireOp, l: ExprModel) -> bool {
    match l {
        ExprModel::Binary(lop, _, _) => binding_strength(lop) < binding_strength(op),
        _ => false,
    }
}

/// A right operand must be parenthesized under `op` when it is a binary
/// expression binding more loosely than `op`, or as loosely when `op` is `-`
/// or `/`, which do not associate to the right.
pub open spec fn right_needs_parens(op: WireOp, r: ExprModel) -> bool {
    match r {
        ExprModel::Binary(rop, _, _) => binding_strength(rop) < binding_strength(op) || (binding_strength(rop)
            == binding_strength(op) && (op == WireOp::Sub || op == WireOp::Div)),
        _ => false,
    }
}

pub open spec fn wrapped_under(e: ExprModel, outer: u8) -> bool {
    match e {
        ExprModel::Binary(op, _, _) => op_precedence(op) < outer,
        _ => false,
    }
}

proof fn lemma_render_outer(db: Database, e: ExprModel, outer: u8)
    ensures
        spec_render(db, e, outer) == parenthesized_if(wrapped_under(e, outer), spec_render(db, e, 0)),
{
    if let ExprModel::Binary(op, l, r) = e {
        assert(op_precedence(op) >= 1);
    }
}

/// Rendering reads back as the expression rendered: a binary expression is
/// its left operand, the operator and its right operand, each operand written
/// as it is alone and parenthesized exactly when standard precedence and
/// left associativity would otherwise read it differently.
pub proof fn lemma_render_binary(db: Database, op: WireOp, l: ExprModel, r: ExprModel)
    ensures
        spec_render(db, ExprModel::Binary(op, Box::new(l), Box::new(r)), 0) == parenthesized_if(
            left_needs_parens(op, l),
            spec_render(db, l, 0),
        ) + seq![' '] + op_text(op) + seq![' '] + parenthesized_if(right_needs_parens(op, r), spec_render(db, r, 0)),
{
    let p = op_precedence(op);
    let ro: u8 = if op == WireOp::Sub || op == WireOp::Div {
        (p + 1) as u8
    } else {
        p
    };
    lemma_render_outer(db, l, p);
    lemma_render_outer(db, r, ro);
    assert(op_precedence(op) as int == binding_strength(op));
    if let ExprModel::Binary(lop, _, _) = l {
        assert(op_precedence(lop) as int == binding_strength(lop));
    }
    if let ExprModel::Binary(rop, _, _) = r {
        assert(op_precedence(rop) as int == binding_strength(rop));
    }
}


/// The wire length of an array is its length times its element's: the least
/// length is the product of the least length of the count and of the element
/// (0 when the product exceeds `u64`), the greatest the product of the
/// greatest ones when both exist and it fits.
pub proof fn lemma_array_wire_length(
    defs: Seq<Definition>,
    a: crate::types::ArrayCombinator,
    locals: Seq<(Name, Combinator)>,
    vis: Seq<Name>,
    f: nat,
)
    ensures
        ({
            let e = wl_comb(defs, *a.element, locals, vis, f);
            let l = wl_expr(defs, a.length, locals, vis, f).bounds;
            let r = wl_comb(defs, Combinator::Array(a), locals, vis, f);
            &&& r.min == (if l.min * e.min <= u64::MAX {
                (l.min * e.min) as u64
            } else {
                0u64
            })
            &&& r.max == match (l.max, e.max) {
                (Some(x), Some(y)) => if x * y <= u64::MAX {
                    Some((x * y) as u64)
                } else {
                    None
                },
                _ => None,
            }
        }),
{
}

/// One more field of a record adds its wire length: the least lengths add
/// (saturating at the largest `u64`) and the greatest lengths add when both
/// exist and the sum fits.
pub proof fn lemma_field_wire_length(
    defs: Seq<Definition>,
    fs: Seq<Field>,
    locals: Seq<(Name, Combinator)>,
    vis: Seq<Name>,
    f: nat,
    k: nat,
)
    requires
        k < fs.len(),
    ensures
        ({
            let prev = wl_fields(defs, fs, locals, vis, f, k);
            let fl = wl_comb(defs, fs[k as int].ty, prev.1, vis, f);
            let next = wl_fields(defs, fs, locals, vis, f, k + 1).0;
            &&& next.min == (if prev.0.min + fl.min <= u64::MAX {
                (prev.0.min + fl.min) as u64
            } else {
                u64::MAX
            })
            &&& next.max == match (prev.0.max, fl.max) {
                (Some(x), Some(y)) => if x + y <= u64::MAX {
                    Some((x + y) as u64)
                } else {
                    None
                },
                _ => None,
            }
        }),
        wl_fields(defs, fs, locals, vis, f, 0).0.min == 0,
        wl_fields(defs, fs, locals, vis, f, 0).0.max == Some(0u64),
{
}

} // verus!
