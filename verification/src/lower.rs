//! Lowering of a concrete syntax tree to the HIR.
//!
//! Lowering runs in two passes. The first interns every identifier the
//! tree can name; the second walks the tree with the identifier table fixed
//! and builds the HIR. Each lowering function is specified by a function
//! of the tree that gives the HIR it builds, as a mathematical value.
use vstd::prelude::*;

use crate::db::{Database, Name};
use crate::names::{dependent_binding_name, index_of_char, lemma_index_of_char, spec_dependent_binding_name};
use crate::syntax::SyntaxNode;
use crate::text::{
    byte_slice, is_white_space, is_white_space_char, spec_byte_slice, spec_trim, str_chars, str_eq, take_chars,
    trim_str,
};
use vstd::utf8::encode_utf8;
use crate::hir_view::{
    atom_v, atoms_v, comb_v, const_v, consts_v, element_v, elements_v, enum_def_v, field_v, fields_v,
    int_constraint_v, lemma_arms_v_push, lemma_atoms_v_index, lemma_atoms_v_push, lemma_consts_v_append,
    lemma_consts_v_len, lemma_consts_v_push, lemma_fields_v_push, lemma_terms_v_index, lemma_terms_v_push,
    lemma_variants_v_push, lemma_wrap_args_v_push, length_v, opt_comb_v, opt_const_v, arm_v, arms_v, pattern_v,
    term_v, terms_v, variant_v, variants_v, wrap_arg_v, wrap_args_v, def_v, defs_v, lemma_defs_v_append,
    lemma_params_v_push, param_v, params_v, DefinitionKindV, DefinitionV, ParamV, ArmV, AtomV, CombinatorV, ConstValueV, ElementV, EnumDefV, FieldV, IntConstraintV, LengthExprV,
    PatternV, TermV, VariantV, WrapArgV,
};
use crate::types::{
    spec_int_type_from_keyword, ArrayCombinator, ChoiceArm, ChoiceCombinator, ChoicePattern, Combinator, ConstValue,
    ConstraintElement, Definition, DefinitionKind, Endianness, FileHir, Param, Visibility, EnumDef, EnumVariant, Field, IntConstraint, IntType, LengthAtom, LengthExpr, LengthOp,
    LengthTerm, NameRef, OptionCombinator, SizeTarget, Span, StructCombinator, VecCombinator, WrapArg,
    WrapCombinator,
};

verus! {

/// The bytes a node covers, as a span.
pub open spec fn node_span(n: SyntaxNode) -> Span {
    Span { start_byte: n.start_byte, end_byte: n.end_byte }
}

/// The text a node covers (empty when its bytes do not lie on character
/// boundaries of the source).
pub open spec fn node_text(s: Seq<char>, n: SyntaxNode) -> Seq<char> {
    match spec_byte_slice(s, n.start_byte as int, n.end_byte as int) {
        Some(t) => t,
        None => Seq::empty(),
    }
}

/// Nodes of kind `k`.
pub open spec fn is_kind(k: Seq<char>) -> spec_fn(SyntaxNode) -> bool {
    |c: SyntaxNode| c.kind@ == k
}

/// Index of the last of the first `m` nodes that satisfies `p`, or -1.
pub open spec fn last_where(cs: Seq<SyntaxNode>, p: spec_fn(SyntaxNode) -> bool, m: int) -> int
    decreases m,
{
    if m <= 0 {
        -1
    } else if p(cs[m - 1]) {
        m - 1
    } else {
        last_where(cs, p, m - 1)
    }
}

/// Index of the first node at or after `j` that satisfies `p`, or -1.
pub open spec fn first_where(cs: Seq<SyntaxNode>, p: spec_fn(SyntaxNode) -> bool, j: int) -> int
    decreases cs.len() - j,
{
    if j < 0 || j >= cs.len() {
        -1
    } else if p(cs[j]) {
        j
    } else {
        first_where(cs, p, j + 1)
    }
}

/// Index of the last child of kind `k`, or -1.
pub open spec fn last_of(cs: Seq<SyntaxNode>, k: Seq<char>) -> int {
    last_where(cs, is_kind(k), cs.len() as int)
}

/// Index of the first child of kind `k`, or -1.
pub open spec fn first_of(cs: Seq<SyntaxNode>, k: Seq<char>) -> int {
    first_where(cs, is_kind(k), 0)
}

pub proof fn lemma_last_where(cs: Seq<SyntaxNode>, p: spec_fn(SyntaxNode) -> bool, m: int)
    requires
        0 <= m <= cs.len(),
    ensures
        -1 <= last_where(cs, p, m) < m,
        last_where(cs, p, m) >= 0 ==> p(cs[last_where(cs, p, m)]),
        forall|j: int| last_where(cs, p, m) < j < m ==> !p(#[trigger] cs[j]),
    decreases m,
{
    if m > 0 && !p(cs[m - 1]) {
        lemma_last_where(cs, p, m - 1);
    }
}

pub proof fn lemma_first_where(cs: Seq<SyntaxNode>, p: spec_fn(SyntaxNode) -> bool, j: int)
    requires
        0 <= j,
    ensures
        first_where(cs, p, j) == -1 || (j <= first_where(cs, p, j) < cs.len() && p(cs[first_where(cs, p, j)])),
        forall|k: int| j <= k < cs.len() && (first_where(cs, p, j) == -1 || k < first_where(cs, p, j)) ==> !p(
            #[trigger] cs[k],
        ),
    decreases cs.len() - j,
{
    if j < cs.len() && !p(cs[j]) {
        lemma_first_where(cs, p, j + 1);
    }
}

/// The text of a node.
fn text_of_node<'a>(src: &'a str, n: &SyntaxNode) -> (r: &'a str)
    ensures
        r@ == node_text(src@, *n),
{
    match byte_slice(src, n.start_byte, n.end_byte) {
        Some(t) => t,
        None => {
            proof {
                reveal_strlit("");
            }
            ""
        },
    }
}

fn span_of(n: &SyntaxNode) -> (r: Span)
    ensures
        r == node_span(*n),
{
    Span { start_byte: n.start_byte, end_byte: n.end_byte }
}

fn kind_is(n: &SyntaxNode, k: &str) -> (r: bool)
    ensures
        r == (n.kind@ == k@),
{
    str_eq(n.kind.as_str(), k)
}

// ---------------------------------------------------------------------------
// First pass: identifier texts.

/// Kinds of nodes whose whole text is an identifier.
pub open spec fn names_by_text(k: Seq<char>) -> bool {
    k == "var_id"@ || k == "const_id"@ || k == "variant_id"@ || k == "identifier"@ || k == "endianess_defn"@ || k
        == "enum_constraint_elem"@
}

/// The texts the lowering of node `n` itself asks of the identifier table.
pub open spec fn own_texts_known(db: Database, s: Seq<char>, n: SyntaxNode) -> bool {
    let t = node_text(s, n);
    &&& names_by_text(n.kind@) ==> db.knows_text(t)
    &&& n.kind@ == "depend_id"@ ==> match spec_dependent_binding_name(t) {
        Some(b) => db.knows_text(b),
        None => true,
    }
    &&& n.kind@ == "size_target"@ ==> db.knows_text(spec_trim(t))
}

/// The identifier table knows every text that lowering a tree looks up.
pub open spec fn texts_known(db: Database, s: Seq<char>, n: SyntaxNode) -> bool
    decreases n, 0int,
{
    own_texts_known(db, s, n) && forall|i: int|
        0 <= i < n.children@.len() ==> texts_known(db, s, #[trigger] n.children@[i])
}

proof fn lemma_own_texts_grow(a: Database, b: Database, s: Seq<char>, n: SyntaxNode)
    requires
        own_texts_known(a, s, n),
        a.grows_to(&b),
    ensures
        own_texts_known(b, s, n),
{
    let t = node_text(s, n);
    if a.knows_text(t) {
        assert(b.knows_text(t));
    }
    if a.knows_text(spec_trim(t)) {
        assert(b.knows_text(spec_trim(t)));
    }
    match spec_dependent_binding_name(t) {
        Some(x) => {
            if a.knows_text(x) {
                assert(b.knows_text(x));
            }
        },
        None => {},
    }
}

pub proof fn lemma_texts_grow(a: Database, b: Database, s: Seq<char>, n: SyntaxNode)
    requires
        texts_known(a, s, n),
        a.grows_to(&b),
    ensures
        texts_known(b, s, n),
    decreases n,
{
    lemma_own_texts_grow(a, b, s, n);
    assert forall|i: int| 0 <= i < n.children@.len() implies texts_known(b, s, #[trigger] n.children@[i]) by {
        lemma_texts_grow(a, b, s, n.children@[i]);
    }
}

proof fn lemma_grows_trans(a: Database, b: Database, c: Database)
    requires
        a.grows_to(&b),
        b.grows_to(&c),
    ensures
        a.grows_to(&c),
{
    assert forall|t: Seq<char>| #[trigger] a.knows_text(t) implies c.knows_text(t) && c.name_for(t) == a.name_for(
        t,
    ) by {
        assert(b.knows_text(t));
    }
}

proof fn lemma_grows_refl(a: Database)
    ensures
        a.grows_to(&a),
{
}

/// Interns the identifier texts of one node.
fn intern_own_texts(db: &mut Database, src: &str, n: &SyntaxNode)
    ensures
        own_texts_known(*final(db), src@, *n),
        old(db).grows_to(&*final(db)),
{
    let t = text_of_node(src, n);
    let ghost d0 = *db;
    if kind_is(n, "var_id") || kind_is(n, "const_id") || kind_is(n, "variant_id") || kind_is(n, "identifier")
        || kind_is(n, "endianess_defn") || kind_is(n, "enum_constraint_elem") {
        db.intern(t);
    }
    let ghost d1 = *db;
    if kind_is(n, "depend_id") {
        match dependent_binding_name(t) {
            Some(b) => {
                db.intern(b);
            },
            None => {},
        }
    }
    let ghost d2 = *db;
    if kind_is(n, "size_target") {
        db.intern(trim_str(t));
    }
    proof {
        lemma_grows_refl(d0);
        lemma_grows_refl(d1);
        lemma_grows_refl(d2);
        lemma_grows_trans(d0, d1, d2);
        lemma_grows_trans(d0, d2, *db);
        lemma_grows_trans(d1, d2, *db);
        if names_by_text(n.kind@) {
            assert(d1.knows_text(t@));
        }
    }
}

/// Interns every identifier text of a tree.
pub fn intern_tree_texts(db: &mut Database, src: &str, n: &SyntaxNode)
    ensures
        texts_known(*final(db), src@, *n),
        old(db).grows_to(&*final(db)),
    decreases n,
{
    intern_own_texts(db, src, n);
    let ghost db1 = *db;
    let mut i: usize = 0;
    while i < n.children.len()
        invariant
            i <= n.children@.len(),
            own_texts_known(*db, src@, *n),
            old(db).grows_to(&*db),
            forall|j: int| 0 <= j < i ==> texts_known(*db, src@, #[trigger] n.children@[j]),
        decreases n.children@.len() - i,
    {
        let ghost before = *db;
        intern_tree_texts(db, src, &n.children[i]);
        proof {
            lemma_own_texts_grow(before, *db, src@, *n);
            lemma_grows_trans(*old(db), before, *db);
            assert forall|j: int| 0 <= j < i + 1 implies texts_known(*db, src@, #[trigger] n.children@[j]) by {
                if j < i {
                    lemma_texts_grow(before, *db, src@, n.children@[j]);
                }
            }
        }
        i = i + 1;
    }
}

// ---------------------------------------------------------------------------
// Integer literals.

/// The value of digit `c`, in base 16 when `hex` and base 10 otherwise.
pub open spec fn digit_value(c: char, hex: bool) -> Option<nat> {
    let x = c as u32;
    if 0x30 <= x <= 0x39 {
        Some((x - 0x30) as nat)
    } else if hex && 0x61 <= x <= 0x66 {
        Some((x - 0x61 + 10) as nat)
    } else if hex && 0x41 <= x <= 0x46 {
        Some((x - 0x41 + 10) as nat)
    } else {
        None
    }
}

/// The number a string of digits denotes, if each is a digit.
pub open spec fn digits_value(d: Seq<char>, hex: bool) -> Option<nat>
    decreases d.len(),
{
    if d.len() == 0 {
        Some(0)
    } else {
        match (digits_value(d.drop_last(), hex), digit_value(d.last(), hex)) {
            (Some(v), Some(x)) => Some(v * (if hex {
                16nat
            } else {
                10nat
            }) + x),
            _ => None,
        }
    }
}

/// An unsigned 64-bit integer as Rust's `from_str_radix` reads it: an
/// optional `+`, then at least one digit, with a value that fits.
pub open spec fn parse_u64(t: Seq<char>, hex: bool) -> Option<u64> {
    let d = if t.len() > 0 && t[0] == '+' {
        t.drop_first()
    } else {
        t
    };
    if d.len() == 0 {
        None
    } else {
        match digits_value(d, hex) {
            Some(v) => if v <= u64::MAX {
                Some(v as u64)
            } else {
                None
            },
            None => None,
        }
    }
}

proof fn lemma_digits_prefix(d: Seq<char>, hex: bool, k: int)
    requires
        0 <= k <= d.len(),
        digits_value(d, hex) is Some,
    ensures
        digits_value(d.take(k), hex) is Some,
        digits_value(d.take(k), hex)->0 <= digits_value(d, hex)->0,
    decreases d.len() - k,
{
    if k < d.len() {
        lemma_digits_prefix(d, hex, k + 1);
        let p = d.take(k + 1);
        assert(p.drop_last() =~= d.take(k));
        let v = digits_value(p.drop_last(), hex)->0;
        assert(v * (if hex {
            16nat
        } else {
            10nat
        }) >= v) by (nonlinear_arith);
    } else {
        assert(d.take(k) =~= d);
    }
}

fn digit_of(c: char, hex: bool) -> (r: Option<u64>)
    ensures
        match r {
            Some(v) => digit_value(c, hex) == Some(v as nat) && v < 16,
            None => digit_value(c, hex) is None,
        },
{
    let x = c as u32;
    if 0x30 <= x && x <= 0x39 {
        Some((x - 0x30) as u64)
    } else if hex && 0x61 <= x && x <= 0x66 {
        Some((x - 0x61 + 10) as u64)
    } else if hex && 0x41 <= x && x <= 0x46 {
        Some((x - 0x41 + 10) as u64)
    } else {
        None
    }
}

/// Reads characters `lo..hi` of `cs` as an unsigned 64-bit integer, in
/// base 16 when `hex` and base 10 otherwise.
fn parse_u64_chars(cs: &Vec<char>, lo: usize, hi: usize, hex: bool) -> (r: Option<u64>)
    requires
        lo <= hi <= cs@.len(),
    ensures
        r == parse_u64(cs@.subrange(lo as int, hi as int), hex),
{
    let ghost t = cs@.subrange(lo as int, hi as int);
    let start: usize = if lo < hi && cs[lo] == '+' {
        lo + 1
    } else {
        lo
    };
    let ghost d = if t.len() > 0 && t[0] == '+' {
        t.drop_first()
    } else {
        t
    };
    proof {
        assert(d =~= cs@.subrange(start as int, hi as int));
    }
    if start == hi {
        return None;
    }
    let base: u64 = if hex {
        16
    } else {
        10
    };
    let mut acc: u64 = 0;
    let mut i: usize = start;
    proof {
        assert(d.take(0) =~= Seq::<char>::empty());
    }
    while i < hi
        invariant
            lo <= start <= i <= hi <= cs@.len(),
            d =~= cs@.subrange(start as int, hi as int),
            t == cs@.subrange(lo as int, hi as int),
            d == (if t.len() > 0 && t[0] == '+' {
                t.drop_first()
            } else {
                t
            }),
            base == (if hex {
                16nat
            } else {
                10nat
            }),
            digits_value(d.take(i - start), hex) == Some(acc as nat),
        decreases hi - i,
    {
        let ghost k = i - start;
        proof {
            assert(d.take(k + 1).drop_last() =~= d.take(k));
            assert(d.take(k + 1).last() == cs@[i as int]);
        }
        match digit_of(cs[i], hex) {
            None => {
                proof {
                    assert(digits_value(d.take(k + 1), hex) is None);
                    if digits_value(d, hex) is Some {
                        lemma_digits_prefix(d, hex, k + 1);
                    }
                }
                return None;
            },
            Some(x) => {
                match acc.checked_mul(base) {
                    None => {
                        proof {
                            assert(acc * base > u64::MAX);
                            assert(digits_value(d.take(k + 1), hex) == Some((acc * base + x) as nat));
                            if digits_value(d, hex) is Some {
                                lemma_digits_prefix(d, hex, k + 1);
                            }
                        }
                        return None;
                    },
                    Some(m) => match m.checked_add(x) {
                        None => {
                            proof {
                                if digits_value(d, hex) is Some {
                                    lemma_digits_prefix(d, hex, k + 1);
                                }
                            }
                            return None;
                        },
                        Some(v) => {
                            acc = v;
                        },
                    },
                }
            },
        }
        i = i + 1;
    }
    proof {
        assert(d.take(i - start) =~= d);
    }
    Some(acc)
}

/// Reads an unsigned 64-bit integer, in base 16 when `hex` and base 10
/// otherwise.
pub fn parse_u64_text(text: &str, hex: bool) -> (r: Option<u64>)
    ensures
        r == parse_u64(text@, hex),
{
    let cs = str_chars(text);
    proof {
        assert(cs@.subrange(0, cs@.len() as int) =~= text@);
    }
    parse_u64_chars(&cs, 0, cs.len(), hex)
}

/// The value of a character literal: `'\xHH'` by its hexadecimal digits,
/// or `'c'` with an ASCII character `c` by that character's code.
pub open spec fn ascii_value(t: Seq<char>) -> Option<u64> {
    if t.len() >= 3 && t[0] == '\'' && t[1] == '\\' && t[2] == 'x' {
        let rest = t.subrange(3, t.len() as int);
        let digits = if rest.len() > 0 && rest.last() == '\'' {
            rest.drop_last()
        } else {
            Seq::empty()
        };
        parse_u64(digits, true)
    } else if t.len() == 3 && t[0] == '\'' && t[2] == '\'' && (t[1] as u32) < 0x80 {
        Some((t[1] as u32) as u64)
    } else {
        None
    }
}

fn ascii_literal_value(text: &str) -> (r: Option<u64>)
    ensures
        r == ascii_value(text@),
{
    let cs = str_chars(text);
    let n = cs.len();
    if n >= 3 && cs[0] == '\'' && cs[1] == '\\' && cs[2] == 'x' {
        let ghost rest = text@.subrange(3, text@.len() as int);
        let end: usize = if cs[n - 1] == '\'' && n > 3 {
            n - 1
        } else {
            3
        };
        proof {
            if rest.len() > 0 && rest.last() == '\'' {
                assert(rest.drop_last() =~= cs@.subrange(3, end as int));
            } else {
                assert(cs@.subrange(3, end as int) =~= Seq::<char>::empty());
            }
        }
        parse_u64_chars(&cs, 3, end, true)
    } else if n == 3 && cs[0] == '\'' && cs[2] == '\'' && (cs[1] as u32) < 0x80 {
        Some((cs[1] as u32) as u64)
    } else {
        None
    }
}

/// The text after a leading `0x`, or the whole text.
pub open spec fn strip_hex_prefix(t: Seq<char>) -> Seq<char> {
    if t.len() >= 2 && t[0] == '0' && t[1] == 'x' {
        t.subrange(2, t.len() as int)
    } else {
        t
    }
}

fn hex_literal_value(text: &str) -> (r: Option<u64>)
    ensures
        r == parse_u64(strip_hex_prefix(text@), true),
{
    let cs = str_chars(text);
    let start: usize = if cs.len() >= 2 && cs[0] == '0' && cs[1] == 'x' {
        2
    } else {
        0
    };
    proof {
        assert(cs@.subrange(start as int, cs@.len() as int) =~= strip_hex_prefix(text@));
    }
    parse_u64_chars(&cs, start, cs.len(), true)
}

/// The value an integer literal child gives, if it reads.
pub open spec fn literal_value(s: Seq<char>, c: SyntaxNode) -> Option<u64> {
    let t = node_text(s, c);
    if c.kind@ == "decimal"@ {
        parse_u64(t, false)
    } else if c.kind@ == "hex"@ {
        parse_u64(strip_hex_prefix(t), true)
    } else if c.kind@ == "ascii"@ {
        ascii_value(t)
    } else {
        None
    }
}

/// Children that give an integer value.
pub open spec fn gives_value(s: Seq<char>) -> spec_fn(SyntaxNode) -> bool {
    |c: SyntaxNode| literal_value(s, c) is Some
}

/// The value of a `const_int` node: that of its first child that reads as
/// an integer, or 0.
pub open spec fn const_int_value(s: Seq<char>, n: SyntaxNode) -> u64 {
    let j = first_where(n.children@, gives_value(s), 0);
    if 0 <= j < n.children@.len() {
        literal_value(s, n.children@[j])->0
    } else {
        0
    }
}

fn literal_value_of(src: &str, c: &SyntaxNode) -> (r: Option<u64>)
    ensures
        r == literal_value(src@, *c),
{
    let t = text_of_node(src, c);
    if kind_is(c, "decimal") {
        parse_u64_text(t, false)
    } else if kind_is(c, "hex") {
        hex_literal_value(t)
    } else if kind_is(c, "ascii") {
        ascii_literal_value(t)
    } else {
        None
    }
}

/// The value of a `const_int` node.
pub fn lower_const_int(src: &str, n: &SyntaxNode) -> (r: u64)
    ensures
        r == const_int_value(src@, *n),
{
    let ghost cs = n.children@;
    let ghost p = gives_value(src@);
    let mut i: usize = 0;
    while i < n.children.len()
        invariant
            i <= cs.len(),
            cs == n.children@,
            p == gives_value(src@),
            first_where(cs, p, 0) == first_where(cs, p, i as int),
        decreases cs.len() - i,
    {
        match literal_value_of(src, &n.children[i]) {
            Some(v) => {
                return v;
            },
            None => {},
        }
        i = i + 1;
    }
    0
}

// ---------------------------------------------------------------------------
// Integer constraints.

/// Children that start a constraint element.
pub open spec fn starts_element() -> spec_fn(SyntaxNode) -> bool {
    |c: SyntaxNode| c.kind@ == "const_int_range"@ || c.kind@ == "const_int"@
}

/// Children that separate the two bounds of a range.
pub open spec fn is_range_dots(s: Seq<char>) -> spec_fn(SyntaxNode) -> bool {
    |c: SyntaxNode| c.kind@ != "const_int"@ && (c.kind@ == ".."@ || node_text(s, c) == ".."@)
}

/// The value of the `const_int` child at index `k`, if there is one.
pub open spec fn int_child_at(s: Seq<char>, cs: Seq<SyntaxNode>, k: int) -> Option<ConstValueV> {
    if 0 <= k < cs.len() {
        Some(ConstValueV::Int(const_int_value(s, cs[k])))
    } else {
        None
    }
}

/// A range `start..end`: its start is the last integer before the first
/// `..`, its end the last integer after it.
pub open spec fn lowered_range(s: Seq<char>, n: SyntaxNode) -> ElementV {
    let cs = n.children@;
    let d = first_where(cs, is_range_dots(s), 0);
    let b = last_where(cs, is_kind("const_int"@), cs.len() as int);
    ElementV::Range {
        start: int_child_at(s, cs, last_where(cs, is_kind("const_int"@), if d >= 0 { d } else { cs.len() as int })),
        end: if d >= 0 && b > d {
            int_child_at(s, cs, b)
        } else {
            None
        },
        span: node_span(n),
    }
}

/// A constraint element: a range or a single integer, whichever child
/// comes first.
pub open spec fn lowered_element(s: Seq<char>, n: SyntaxNode) -> Option<ElementV> {
    let cs = n.children@;
    let j = first_where(cs, starts_element(), 0);
    if 0 <= j < cs.len() {
        if cs[j].kind@ == "const_int_range"@ {
            Some(lowered_range(s, cs[j]))
        } else {
            Some(ElementV::Single { value: ConstValueV::Int(const_int_value(s, cs[j])), span: node_span(cs[j]) })
        }
    } else {
        None
    }
}

/// The elements of the `constraint_elem` children from index `j` on.
pub open spec fn set_elements_from(s: Seq<char>, cs: Seq<SyntaxNode>, j: int) -> Seq<ElementV>
    decreases cs.len() - j,
{
    if j < 0 || j >= cs.len() {
        Seq::empty()
    } else {
        (if cs[j].kind@ == "constraint_elem"@ {
            match lowered_element(s, cs[j]) {
                Some(e) => seq![e],
                None => Seq::empty(),
            }
        } else {
            Seq::empty()
        }) + set_elements_from(s, cs, j + 1)
    }
}

/// The elements one child contributes to a constraint.
pub open spec fn element_piece(s: Seq<char>, c: SyntaxNode) -> Seq<ElementV> {
    if c.kind@ == "constraint_elem"@ {
        match lowered_element(s, c) {
            Some(e) => seq![e],
            None => Seq::empty(),
        }
    } else if c.kind@ == "constraint_elem_set"@ {
        set_elements_from(s, c.children@, 0)
    } else {
        Seq::empty()
    }
}

/// The elements of the element and element-set children from index `j` on.
pub open spec fn elements_from(s: Seq<char>, cs: Seq<SyntaxNode>, j: int) -> Seq<ElementV>
    decreases cs.len() - j,
{
    if j < 0 || j >= cs.len() {
        Seq::empty()
    } else {
        element_piece(s, cs[j]) + elements_from(s, cs, j + 1)
    }
}

/// An integer constraint. A nested constraint child, when there is one,
/// decides alone and is negated; otherwise the elements are collected and
/// a `!` child negates them.
pub open spec fn lowered_int_constraint(s: Seq<char>, n: SyntaxNode) -> IntConstraintV
    decreases n,
{
    let cs = n.children@;
    let j = first_of(cs, "int_constraint"@);
    if 0 <= j < cs.len() {
        let inner = lowered_int_constraint(s, cs[j]);
        IntConstraintV { elements: inner.elements, negated: !inner.negated }
    } else {
        IntConstraintV { elements: elements_from(s, cs, 0), negated: last_of(cs, "!"@) >= 0 }
    }
}

fn lower_const_int_range(src: &str, n: &SyntaxNode) -> (r: ConstraintElement)
    ensures
        element_v(r) == lowered_range(src@, *n),
{
    let ghost cs = n.children@;
    let ghost s = src@;
    let ghost dots = is_range_dots(s);
    let ghost ints = is_kind("const_int"@);
    let ghost d = first_where(cs, dots, 0);
    proof {
        lemma_first_where(cs, dots, 0);
    }
    let mut start: Option<u64> = None;
    let mut end: Option<u64> = None;
    let mut seen_dots = false;
    let mut i: usize = 0;
    while i < n.children.len()
        invariant
            i <= cs.len(),
            cs == n.children@,
            s == src@,
            dots == is_range_dots(s),
            ints == is_kind("const_int"@),
            d == first_where(cs, dots, 0),
            d == -1 || (0 <= d < cs.len() && dots(cs[d])),
            forall|k: int| 0 <= k < cs.len() && (d == -1 || k < d) ==> !dots(#[trigger] cs[k]),
            seen_dots == (0 <= d < i),
            start == (match int_child_at(s, cs, last_where(cs, ints, if seen_dots { d } else { i as int })) {
                Some(ConstValueV::Int(v)) => Some(v),
                _ => None,
            }),
            end == (if seen_dots && last_where(cs, ints, i as int) > d {
                Some(const_int_value(s, cs[last_where(cs, ints, i as int)]))
            } else {
                None
            }),
        decreases cs.len() - i,
    {
        let c = &n.children[i];
        proof {
            lemma_last_where(cs, ints, i as int);
        }
        if kind_is(c, "const_int") {
            let v = lower_const_int(src, c);
            if seen_dots {
                end = Some(v);
            } else {
                start = Some(v);
            }
        } else if kind_is(c, "..") || str_eq(text_of_node(src, c), "..") {
            proof {
                assert(dots(cs[i as int]));
                if !seen_dots {
                    assert(d == i);
                }
            }
            seen_dots = true;
        } else {
            proof {
                assert(!dots(cs[i as int]));
            }
        }
        proof {
            if !seen_dots {
                assert(d != i);
            }
        }
        i = i + 1;
    }
    proof {
        lemma_last_where(cs, ints, cs.len() as int);
        if d >= 0 {
            lemma_last_where(cs, ints, d);
        }
    }
    let r = ConstraintElement::Range {
        start: match start {
            Some(v) => Some(ConstValue::Int(v)),
            None => None,
        },
        end: match end {
            Some(v) => Some(ConstValue::Int(v)),
            None => None,
        },
        span: span_of(n),
    };
    r
}

fn lower_constraint_elem(src: &str, n: &SyntaxNode) -> (r: Option<ConstraintElement>)
    ensures
        match r {
            Some(e) => lowered_element(src@, *n) == Some(element_v(e)),
            None => lowered_element(src@, *n) is None,
        },
{
    let ghost cs = n.children@;
    let ghost p = starts_element();
    let mut i: usize = 0;
    while i < n.children.len()
        invariant
            i <= cs.len(),
            cs == n.children@,
            p == starts_element(),
            first_where(cs, p, 0) == first_where(cs, p, i as int),
        decreases cs.len() - i,
    {
        let c = &n.children[i];
        if kind_is(c, "const_int_range") {
            return Some(lower_const_int_range(src, c));
        }
        if kind_is(c, "const_int") {
            let v = lower_const_int(src, c);
            return Some(ConstraintElement::Single { value: ConstValue::Int(v), span: span_of(c) });
        }
        i = i + 1;
    }
    None
}

proof fn lemma_elements_v_push(s: Seq<ConstraintElement>, e: ConstraintElement)
    ensures
        elements_v(s.push(e)) == elements_v(s).push(element_v(e)),
{
    assert(elements_v(s.push(e)) =~= elements_v(s).push(element_v(e)));
}

proof fn lemma_elements_v_append(a: Seq<ConstraintElement>, b: Seq<ConstraintElement>)
    ensures
        elements_v(a + b) == elements_v(a) + elements_v(b),
{
    assert(elements_v(a + b) =~= elements_v(a) + elements_v(b));
}

fn lower_constraint_elem_set(src: &str, n: &SyntaxNode) -> (r: Vec<ConstraintElement>)
    ensures
        elements_v(r@) == set_elements_from(src@, n.children@, 0),
{
    let ghost cs = n.children@;
    let ghost s = src@;
    let mut out: Vec<ConstraintElement> = Vec::new();
    let mut i: usize = 0;
    while i < n.children.len()
        invariant
            i <= cs.len(),
            cs == n.children@,
            s == src@,
            elements_v(out@) + set_elements_from(s, cs, i as int) == set_elements_from(s, cs, 0),
        decreases cs.len() - i,
    {
        let c = &n.children[i];
        let ghost before = out@;
        if kind_is(c, "constraint_elem") {
            match lower_constraint_elem(src, c) {
                Some(e) => {
                    out.push(e);
                    proof {
                        lemma_elements_v_push(before, e);
                    }
                },
                None => {},
            }
        }
        proof {
            assert(elements_v(out@) + set_elements_from(s, cs, i + 1) =~= elements_v(before) + set_elements_from(
                s,
                cs,
                i as int,
            ));
        }
        i = i + 1;
    }
    proof {
        assert(elements_v(out@) + set_elements_from(s, cs, i as int) =~= elements_v(out@));
    }
    out
}

fn lower_element_piece(src: &str, c: &SyntaxNode) -> (r: Vec<ConstraintElement>)
    ensures
        elements_v(r@) == element_piece(src@, *c),
{
    if kind_is(c, "constraint_elem") {
        match lower_constraint_elem(src, c) {
            Some(e) => {
                let v = vec![e];
                proof {
                    assert(elements_v(v@) =~= seq![element_v(e)]);
                }
                v
            },
            None => {
                let v: Vec<ConstraintElement> = Vec::new();
                proof {
                    assert(elements_v(v@) =~= Seq::<ElementV>::empty());
                }
                v
            },
        }
    } else if kind_is(c, "constraint_elem_set") {
        lower_constraint_elem_set(src, c)
    } else {
        let v: Vec<ConstraintElement> = Vec::new();
        proof {
            assert(elements_v(v@) =~= Seq::<ElementV>::empty());
        }
        v
    }
}

/// Lowers an integer constraint.
pub fn lower_int_constraint(src: &str, n: &SyntaxNode) -> (r: IntConstraint)
    ensures
        int_constraint_v(r) == lowered_int_constraint(src@, *n),
    decreases n,
{
    let ghost cs = n.children@;
    let ghost s = src@;
    let ghost nested = is_kind("int_constraint"@);
    let ghost bang = is_kind("!"@);
    let mut elements: Vec<ConstraintElement> = Vec::new();
    let mut negated = false;
    let mut i: usize = 0;
    while i < n.children.len()
        invariant
            i <= cs.len(),
            cs == n.children@,
            s == src@,
            nested == is_kind("int_constraint"@),
            bang == is_kind("!"@),
            first_where(cs, nested, 0) == first_where(cs, nested, i as int),
            elements_v(elements@) + elements_from(s, cs, i as int) == elements_from(s, cs, 0),
            negated == (last_where(cs, bang, i as int) >= 0),
        decreases cs.len() - i,
    {
        let c = &n.children[i];
        if kind_is(c, "!") {
            negated = true;
        }
        if kind_is(c, "int_constraint") {
            let inner = lower_int_constraint(src, c);
            return IntConstraint { elements: inner.elements, negated: !inner.negated };
        }
        let ghost before = elements@;
        let mut piece = lower_element_piece(src, c);
        let ghost piece0 = piece@;
        elements.append(&mut piece);
        proof {
            lemma_elements_v_append(before, piece0);
            assert(elements_v(elements@) + elements_from(s, cs, i + 1) =~= elements_v(before) + elements_from(
                s,
                cs,
                i as int,
            ));
        }
        i = i + 1;
    }
    proof {
        assert(elements_v(elements@) + elements_from(s, cs, i as int) =~= elements_v(elements@));
    }
    IntConstraint { elements, negated }
}
// ---------------------------------------------------------------------------
// Identifier references.

/// A reference to the identifier with text `t`, at node `c`.
pub open spec fn ref_at(db: Database, t: Seq<char>, c: SyntaxNode) -> NameRef {
    NameRef { name: db.name_for(t), span: node_span(c) }
}

/// The binding a dependent identifier names.
pub open spec fn binding_of(s: Seq<char>, c: SyntaxNode) -> Option<Seq<char>> {
    spec_dependent_binding_name(node_text(s, c))
}

/// Where a dependent identifier names its binding: its bytes up to its
/// first `.` (all of them when it has none).
pub open spec fn binding_span(s: Seq<char>, c: SyntaxNode) -> Span {
    let t = node_text(s, c);
    let len = encode_utf8(t.take(index_of_char(t, '.') as int)).len() as usize;
    if c.start_byte + len <= usize::MAX {
        Span { start_byte: c.start_byte, end_byte: (c.start_byte + len) as usize }
    } else {
        node_span(c)
    }
}

/// A reference to the binding a dependent identifier names.
pub open spec fn dep_ref(db: Database, s: Seq<char>, c: SyntaxNode) -> NameRef {
    NameRef { name: db.name_for(binding_of(s, c)->0), span: binding_span(s, c) }
}

/// Dependent identifiers that name a binding.
pub open spec fn binds(s: Seq<char>) -> spec_fn(SyntaxNode) -> bool {
    |c: SyntaxNode| c.kind@ == "depend_id"@ && binding_of(s, c) is Some
}

/// A reference to the identifier that node `c` spells.
fn text_ref(db: &Database, src: &str, c: &SyntaxNode) -> (r: NameRef)
    requires
        db.knows_text(node_text(src@, *c)),
    ensures
        r == ref_at(*db, node_text(src@, *c), *c),
{
    let t = text_of_node(src, c);
    NameRef { name: db.lookup(t), span: span_of(c) }
}

/// Index of the first `.` of a text, or its length.
fn first_dot(t: &str) -> (r: usize)
    ensures
        r == index_of_char(t@, '.'),
{
    let cs = str_chars(t);
    let mut i: usize = 0;
    while i < cs.len() && cs[i] != '.'
        invariant
            i <= cs@.len(),
            cs@ == t@,
            forall|k: int| 0 <= k < i ==> #[trigger] cs@[k] != '.',
        decreases cs@.len() - i,
    {
        i = i + 1;
    }
    proof {
        lemma_index_of_char(t@, '.', i as int);
    }
    i
}

/// A reference to the binding a dependent identifier names, if it names one.
fn binding_ref(db: &Database, src: &str, c: &SyntaxNode) -> (r: Option<NameRef>)
    requires
        texts_known(*db, src@, *c),
        c.kind@ == "depend_id"@,
    ensures
        r == (match binding_of(src@, *c) {
            Some(b) => Some(dep_ref(*db, src@, *c)),
            None => None,
        }),
{
    let t = text_of_node(src, c);
    match dependent_binding_name(t) {
        Some(b) => {
            let k = first_dot(t);
            let prefix = take_chars(t, k);
            proof {
                lemma_index_of_char_bound(t@, '.');
            }
            let span = match c.start_byte.checked_add(prefix.len()) {
                Some(end) => Span { start_byte: c.start_byte, end_byte: end },
                None => span_of(c),
            };
            Some(NameRef { name: db.lookup(b), span })
        },
        None => None,
    }
}

/// The reference of the first `var_id` child, if any.
pub open spec fn first_var_ref(db: Database, s: Seq<char>, n: SyntaxNode) -> Option<NameRef> {
    let cs = n.children@;
    let j = first_of(cs, "var_id"@);
    if 0 <= j < cs.len() {
        Some(ref_at(db, node_text(s, cs[j]), cs[j]))
    } else {
        None
    }
}

fn extract_var_id(db: &Database, src: &str, n: &SyntaxNode) -> (r: Option<NameRef>)
    requires
        texts_known(*db, src@, *n),
    ensures
        r == first_var_ref(*db, src@, *n),
{
    let ghost cs = n.children@;
    let ghost p = is_kind("var_id"@);
    let mut i: usize = 0;
    while i < n.children.len()
        invariant
            i <= cs.len(),
            cs == n.children@,
            p == is_kind("var_id"@),
            texts_known(*db, src@, *n),
            first_where(cs, p, 0) == first_where(cs, p, i as int),
        decreases cs.len() - i,
    {
        let c = &n.children[i];
        if kind_is(c, "var_id") {
            proof {
                assert(texts_known(*db, src@, cs[i as int]));
            }
            return Some(text_ref(db, src, c));
        }
        i = i + 1;
    }
    None
}

// ---------------------------------------------------------------------------
// Enum constraints.

/// An element of an enum constraint: its first `variant_id` child, or the
/// element's own text.
pub open spec fn lowered_enum_elem(db: Database, s: Seq<char>, n: SyntaxNode) -> NameRef {
    let cs = n.children@;
    let j = first_of(cs, "variant_id"@);
    if 0 <= j < cs.len() {
        ref_at(db, node_text(s, cs[j]), cs[j])
    } else {
        ref_at(db, node_text(s, n), n)
    }
}

/// The elements of the `enum_constraint_elem` children from index `j` on.
pub open spec fn enum_set_from(db: Database, s: Seq<char>, cs: Seq<SyntaxNode>, j: int) -> Seq<NameRef>
    decreases cs.len() - j,
{
    if j < 0 || j >= cs.len() {
        Seq::empty()
    } else {
        (if cs[j].kind@ == "enum_constraint_elem"@ {
            seq![lowered_enum_elem(db, s, cs[j])]
        } else {
            Seq::empty()
        }) + enum_set_from(db, s, cs, j + 1)
    }
}

/// The variants one child contributes to an enum constraint.
pub open spec fn enum_piece(db: Database, s: Seq<char>, c: SyntaxNode) -> Seq<NameRef> {
    if c.kind@ == "enum_constraint_elem"@ {
        seq![lowered_enum_elem(db, s, c)]
    } else if c.kind@ == "enum_constraint_set"@ {
        enum_set_from(db, s, c.children@, 0)
    } else {
        Seq::empty()
    }
}

pub open spec fn enum_names_from(db: Database, s: Seq<char>, cs: Seq<SyntaxNode>, j: int) -> Seq<NameRef>
    decreases cs.len() - j,
{
    if j < 0 || j >= cs.len() {
        Seq::empty()
    } else {
        enum_piece(db, s, cs[j]) + enum_names_from(db, s, cs, j + 1)
    }
}

/// An enum constraint: its variants and whether it is negated. A nested
/// constraint child decides alone and is negated.
pub open spec fn lowered_enum_constraint(db: Database, s: Seq<char>, n: SyntaxNode) -> (Seq<NameRef>, bool)
    decreases n,
{
    let cs = n.children@;
    let j = first_of(cs, "enum_constraint"@);
    if 0 <= j < cs.len() {
        let inner = lowered_enum_constraint(db, s, cs[j]);
        (inner.0, !inner.1)
    } else {
        (enum_names_from(db, s, cs, 0), last_of(cs, "!"@) >= 0)
    }
}

fn lower_enum_constraint_elem(db: &Database, src: &str, n: &SyntaxNode) -> (r: NameRef)
    requires
        texts_known(*db, src@, *n),
        n.kind@ == "enum_constraint_elem"@,
    ensures
        r == lowered_enum_elem(*db, src@, *n),
{
    let ghost cs = n.children@;
    let ghost p = is_kind("variant_id"@);
    let mut i: usize = 0;
    while i < n.children.len()
        invariant
            i <= cs.len(),
            cs == n.children@,
            p == is_kind("variant_id"@),
            texts_known(*db, src@, *n),
            first_where(cs, p, 0) == first_where(cs, p, i as int),
        decreases cs.len() - i,
    {
        let c = &n.children[i];
        if kind_is(c, "variant_id") {
            proof {
                assert(texts_known(*db, src@, cs[i as int]));
            }
            return text_ref(db, src, c);
        }
        i = i + 1;
    }
    text_ref(db, src, n)
}

fn lower_enum_constraint_set(db: &Database, src: &str, n: &SyntaxNode) -> (r: Vec<NameRef>)
    requires
        texts_known(*db, src@, *n),
    ensures
        r@ == enum_set_from(*db, src@, n.children@, 0),
{
    let ghost cs = n.children@;
    let ghost s = src@;
    let mut out: Vec<NameRef> = Vec::new();
    let mut i: usize = 0;
    while i < n.children.len()
        invariant
            i <= cs.len(),
            cs == n.children@,
            s == src@,
            texts_known(*db, s, *n),
            out@ + enum_set_from(*db, s, cs, i as int) == enum_set_from(*db, s, cs, 0),
        decreases cs.len() - i,
    {
        let c = &n.children[i];
        let ghost before = out@;
        if kind_is(c, "enum_constraint_elem") {
            proof {
                assert(texts_known(*db, s, cs[i as int]));
            }
            out.push(lower_enum_constraint_elem(db, src, c));
        }
        proof {
            assert(out@ + enum_set_from(*db, s, cs, i + 1) =~= before + enum_set_from(*db, s, cs, i as int));
        }
        i = i + 1;
    }
    proof {
        assert(out@ + enum_set_from(*db, s, cs, i as int) =~= out@);
    }
    out
}

fn lower_enum_piece(db: &Database, src: &str, c: &SyntaxNode) -> (r: Vec<NameRef>)
    requires
        texts_known(*db, src@, *c),
    ensures
        r@ == enum_piece(*db, src@, *c),
{
    if kind_is(c, "enum_constraint_elem") {
        let v = vec![lower_enum_constraint_elem(db, src, c)];
        proof {
            assert(v@ =~= seq![lowered_enum_elem(*db, src@, *c)]);
        }
        v
    } else if kind_is(c, "enum_constraint_set") {
        lower_enum_constraint_set(db, src, c)
    } else {
        let v: Vec<NameRef> = Vec::new();
        proof {
            assert(v@ =~= Seq::<NameRef>::empty());
        }
        v
    }
}

/// Lowers an enum constraint to its variants and whether it is negated.
pub fn lower_enum_constraint(db: &Database, src: &str, n: &SyntaxNode) -> (r: (Vec<NameRef>, bool))
    requires
        texts_known(*db, src@, *n),
    ensures
        (r.0@, r.1) == lowered_enum_constraint(*db, src@, *n),
    decreases n,
{
    let ghost cs = n.children@;
    let ghost s = src@;
    let ghost nested = is_kind("enum_constraint"@);
    let ghost bang = is_kind("!"@);
    let mut names: Vec<NameRef> = Vec::new();
    let mut negated = false;
    let mut i: usize = 0;
    while i < n.children.len()
        invariant
            i <= cs.len(),
            cs == n.children@,
            s == src@,
            texts_known(*db, s, *n),
            nested == is_kind("enum_constraint"@),
            bang == is_kind("!"@),
            first_where(cs, nested, 0) == first_where(cs, nested, i as int),
            names@ + enum_names_from(*db, s, cs, i as int) == enum_names_from(*db, s, cs, 0),
            negated == (last_where(cs, bang, i as int) >= 0),
        decreases cs.len() - i,
    {
        let c = &n.children[i];
        proof {
            assert(texts_known(*db, s, cs[i as int]));
        }
        if kind_is(c, "!") {
            negated = true;
        }
        if kind_is(c, "enum_constraint") {
            let (inner, inner_negated) = lower_enum_constraint(db, src, c);
            return (inner, !inner_negated);
        }
        let ghost before = names@;
        let mut piece = lower_enum_piece(db, src, c);
        names.append(&mut piece);
        proof {
            assert(names@ + enum_names_from(*db, s, cs, i + 1) =~= before + enum_names_from(*db, s, cs, i as int));
        }
        i = i + 1;
    }
    proof {
        assert(names@ + enum_names_from(*db, s, cs, i as int) =~= names@);
    }
    (names, negated)
}

// ---------------------------------------------------------------------------
// Length expressions.

/// Text with every white-space character dropped.
pub open spec fn drop_white(t: Seq<char>) -> Seq<char>
    decreases t.len(),
{
    if t.len() == 0 {
        Seq::empty()
    } else if is_white_space(t.last()) {
        drop_white(t.drop_last())
    } else {
        drop_white(t.drop_last()).push(t.last())
    }
}

/// Children that start a length atom.
pub open spec fn starts_atom(s: Seq<char>) -> spec_fn(SyntaxNode) -> bool {
    |c: SyntaxNode|
        c.kind@ == "const_int"@ || (c.kind@ == "depend_id"@ && binding_of(s, c) is Some) || c.kind@ == "size_expr"@
            || c.kind@ == "length_expr"@
}

/// The operators of the additive operator children from index `j` on.
pub open spec fn add_ops_from(cs: Seq<SyntaxNode>, j: int) -> Seq<LengthOp>
    decreases cs.len() - j,
{
    if j < 0 || j >= cs.len() {
        Seq::empty()
    } else {
        (if cs[j].kind@ == "add_op"@ {
            seq![LengthOp::Add]
        } else if cs[j].kind@ == "sub_op"@ {
            seq![LengthOp::Sub]
        } else {
            Seq::empty()
        }) + add_ops_from(cs, j + 1)
    }
}

/// The operators of the multiplicative operator children from index `j` on.
pub open spec fn mul_ops_from(cs: Seq<SyntaxNode>, j: int) -> Seq<LengthOp>
    decreases cs.len() - j,
{
    if j < 0 || j >= cs.len() {
        Seq::empty()
    } else {
        (if cs[j].kind@ == "mul_op"@ {
            seq![LengthOp::Mul]
        } else if cs[j].kind@ == "div_op"@ {
            seq![LengthOp::Div]
        } else {
            Seq::empty()
        }) + mul_ops_from(cs, j + 1)
    }
}

/// The size of a type: a carrier keyword (also with white space inside
/// it), an identifier child, or the target's own text as a name.
pub open spec fn lowered_size_target(db: Database, s: Seq<char>, n: SyntaxNode) -> AtomV {
    let t = spec_trim(node_text(s, n));
    let cs = n.children@;
    match spec_int_type_from_keyword(t) {
        Some(k) => AtomV::SizeOf(SizeTarget::Type(k)),
        None => match spec_int_type_from_keyword(drop_white(t)) {
            Some(k) => AtomV::SizeOf(SizeTarget::Type(k)),
            None => {
                let j = first_of(cs, "identifier"@);
                if 0 <= j < cs.len() {
                    AtomV::SizeOf(SizeTarget::Named(ref_at(db, node_text(s, cs[j]), cs[j])))
                } else {
                    AtomV::SizeOf(SizeTarget::Named(ref_at(db, t, n)))
                }
            },
        },
    }
}

/// `|target|`: the size of its first target child, or 0.
pub open spec fn lowered_size_expr(db: Database, s: Seq<char>, n: SyntaxNode) -> AtomV {
    let cs = n.children@;
    let j = first_of(cs, "size_target"@);
    if 0 <= j < cs.len() {
        lowered_size_target(db, s, cs[j])
    } else {
        AtomV::Const(0)
    }
}

/// A length expression: its terms and, apart, its additive operators.
pub open spec fn lowered_length(db: Database, s: Seq<char>, n: SyntaxNode) -> LengthExprV
    decreases n, 0int,
{
    LengthExprV { terms: terms_from(db, s, n.children@, 0), ops: add_ops_from(n.children@, 0) }
}

pub open spec fn terms_from(db: Database, s: Seq<char>, cs: Seq<SyntaxNode>, j: int) -> Seq<TermV>
    decreases cs, cs.len() - j,
{
    if j < 0 || j >= cs.len() {
        Seq::empty()
    } else {
        (if cs[j].kind@ == "length_term"@ {
            seq![lowered_term(db, s, cs[j])]
        } else {
            Seq::empty()
        }) + terms_from(db, s, cs, j + 1)
    }
}

/// A length term: its atoms and, apart, its multiplicative operators.
pub open spec fn lowered_term(db: Database, s: Seq<char>, n: SyntaxNode) -> TermV
    decreases n, 0int,
{
    TermV { atoms: atoms_from(db, s, n.children@, 0), ops: mul_ops_from(n.children@, 0) }
}

pub open spec fn atoms_from(db: Database, s: Seq<char>, cs: Seq<SyntaxNode>, j: int) -> Seq<AtomV>
    decreases cs, cs.len() - j,
{
    if j < 0 || j >= cs.len() {
        Seq::empty()
    } else {
        (if cs[j].kind@ == "length_atom"@ {
            seq![lowered_atom(db, s, cs[j])]
        } else {
            Seq::empty()
        }) + atoms_from(db, s, cs, j + 1)
    }
}

/// A length atom, from its first child that makes one: an integer, a
/// dependent identifier naming a binding, a size, or a parenthesized
/// expression; 0 when there is none.
pub open spec fn lowered_atom(db: Database, s: Seq<char>, n: SyntaxNode) -> AtomV
    decreases n, 0int,
{
    let cs = n.children@;
    let j = first_where(cs, starts_atom(s), 0);
    if 0 <= j < cs.len() {
        let c = cs[j];
        if c.kind@ == "const_int"@ {
            AtomV::Const(const_int_value(s, c))
        } else if c.kind@ == "depend_id"@ {
            AtomV::Param(dep_ref(db, s, c))
        } else if c.kind@ == "size_expr"@ {
            lowered_size_expr(db, s, c)
        } else {
            AtomV::Paren(Box::new(lowered_length(db, s, c)))
        }
    } else {
        AtomV::Const(0)
    }
}

fn keyword_is(cs: &Vec<char>, word: &str) -> (r: bool)
    ensures
        r == (cs@ == word@),
{
    let w = str_chars(word);
    if cs.len() != w.len() {
        return false;
    }
    let mut i: usize = 0;
    while i < cs.len()
        invariant
            i <= cs@.len(),
            cs@.len() == w@.len(),
            w@ == word@,
            forall|k: int| 0 <= k < i ==> cs@[k] == w@[k],
        decreases cs@.len() - i,
    {
        if cs[i] != w[i] {
            return false;
        }
        i = i + 1;
    }
    proof {
        assert(cs@ =~= w@);
    }
    true
}

fn int_type_of_chars(cs: &Vec<char>) -> (r: Option<IntType>)
    ensures
        r == spec_int_type_from_keyword(cs@),
{
    if keyword_is(cs, "u8") {
        Some(IntType::U8)
    } else if keyword_is(cs, "u16") {
        Some(IntType::U16)
    } else if keyword_is(cs, "u24") {
        Some(IntType::U24)
    } else if keyword_is(cs, "u32") {
        Some(IntType::U32)
    } else if keyword_is(cs, "u64") {
        Some(IntType::U64)
    } else if keyword_is(cs, "i8") {
        Some(IntType::I8)
    } else if keyword_is(cs, "i16") {
        Some(IntType::I16)
    } else if keyword_is(cs, "i24") {
        Some(IntType::I24)
    } else if keyword_is(cs, "i32") {
        Some(IntType::I32)
    } else if keyword_is(cs, "i64") {
        Some(IntType::I64)
    } else if keyword_is(cs, "btc_varint") {
        Some(IntType::BtcVarint)
    } else if keyword_is(cs, "uleb128") {
        Some(IntType::Uleb128)
    } else {
        None
    }
}

fn without_white(t: &str) -> (r: Vec<char>)
    ensures
        r@ == drop_white(t@),
{
    let cs = str_chars(t);
    let mut out: Vec<char> = Vec::new();
    let mut i: usize = 0;
    proof {
        assert(cs@.take(0) =~= Seq::<char>::empty());
    }
    while i < cs.len()
        invariant
            i <= cs@.len(),
            cs@ == t@,
            out@ == drop_white(cs@.take(i as int)),
        decreases cs@.len() - i,
    {
        proof {
            assert(cs@.take(i + 1).drop_last() =~= cs@.take(i as int));
        }
        if !is_white_space_char(cs[i]) {
            out.push(cs[i]);
        }
        i = i + 1;
    }
    proof {
        assert(cs@.take(i as int) =~= t@);
    }
    out
}

#[verifier::loop_isolation(false)]
fn lower_size_target(db: &Database, src: &str, n: &SyntaxNode) -> (r: LengthAtom)
    requires
        texts_known(*db, src@, *n),
        n.kind@ == "size_target"@,
    ensures
        atom_v(r) == lowered_size_target(*db, src@, *n),
{
    let t = trim_str(text_of_node(src, n));
    match IntType::from_keyword(t) {
        Some(k) => {
            return LengthAtom::SizeOf(SizeTarget::Type(k));
        },
        None => {},
    }
    let combined = without_white(t);
    match int_type_of_chars(&combined) {
        Some(k) => {
            return LengthAtom::SizeOf(SizeTarget::Type(k));
        },
        None => {},
    }
    let ghost cs = n.children@;
    let ghost p = is_kind("identifier"@);
    let mut i: usize = 0;
    while i < n.children.len()
        invariant
            i <= cs.len(),
            cs == n.children@,
            p == is_kind("identifier"@),
            texts_known(*db, src@, *n),
            first_where(cs, p, 0) == first_where(cs, p, i as int),
        decreases cs.len() - i,
    {
        let c = &n.children[i];
        if kind_is(c, "identifier") {
            proof {
                assert(texts_known(*db, src@, cs[i as int]));
            }
            return LengthAtom::SizeOf(SizeTarget::Named(text_ref(db, src, c)));
        }
        i = i + 1;
    }
    LengthAtom::SizeOf(SizeTarget::Named(NameRef { name: db.lookup(t), span: span_of(n) }))
}

fn lower_size_expr(db: &Database, src: &str, n: &SyntaxNode) -> (r: LengthAtom)
    requires
        texts_known(*db, src@, *n),
    ensures
        atom_v(r) == lowered_size_expr(*db, src@, *n),
{
    let ghost cs = n.children@;
    let ghost p = is_kind("size_target"@);
    let mut i: usize = 0;
    while i < n.children.len()
        invariant
            i <= cs.len(),
            cs == n.children@,
            p == is_kind("size_target"@),
            texts_known(*db, src@, *n),
            first_where(cs, p, 0) == first_where(cs, p, i as int),
        decreases cs.len() - i,
    {
        let c = &n.children[i];
        if kind_is(c, "size_target") {
            proof {
                assert(texts_known(*db, src@, cs[i as int]));
            }
            return lower_size_target(db, src, c);
        }
        i = i + 1;
    }
    LengthAtom::Const(0)
}

/// Lowers a length expression.
pub fn lower_length_expr(db: &Database, src: &str, n: &SyntaxNode) -> (r: LengthExpr)
    requires
        texts_known(*db, src@, *n),
    ensures
        length_v(r) == lowered_length(*db, src@, *n),
    decreases n,
{
    let ghost cs = n.children@;
    let ghost s = src@;
    let mut terms: Vec<LengthTerm> = Vec::new();
    let mut ops: Vec<LengthOp> = Vec::new();
    let mut i: usize = 0;
    while i < n.children.len()
        invariant
            i <= cs.len(),
            cs == n.children@,
            s == src@,
            texts_known(*db, s, *n),
            terms_v(terms@) + terms_from(*db, s, cs, i as int) == terms_from(*db, s, cs, 0),
            ops@ + add_ops_from(cs, i as int) == add_ops_from(cs, 0),
        decreases cs.len() - i,
    {
        let c = &n.children[i];
        proof {
            assert(texts_known(*db, s, cs[i as int]));
        }
        let ghost t0 = terms@;
        let ghost o0 = ops@;
        if kind_is(c, "length_term") {
            let t = lower_length_term(db, src, c);
            terms.push(t);
            proof {
                lemma_terms_v_push(t0, t);
            }
        }
        if kind_is(c, "add_op") {
            ops.push(LengthOp::Add);
        } else if kind_is(c, "sub_op") {
            ops.push(LengthOp::Sub);
        }
        proof {
            assert(terms_v(terms@) + terms_from(*db, s, cs, i + 1) =~= terms_v(t0) + terms_from(*db, s, cs, i as int));
            assert(ops@ + add_ops_from(cs, i + 1) =~= o0 + add_ops_from(cs, i as int));
        }
        i = i + 1;
    }
    proof {
        assert(terms_v(terms@) + terms_from(*db, s, cs, i as int) =~= terms_v(terms@));
        assert(ops@ + add_ops_from(cs, i as int) =~= ops@);
    }
    LengthExpr { terms, ops }
}

fn lower_length_term(db: &Database, src: &str, n: &SyntaxNode) -> (r: LengthTerm)
    requires
        texts_known(*db, src@, *n),
    ensures
        term_v(r) == lowered_term(*db, src@, *n),
    decreases n,
{
    let ghost cs = n.children@;
    let ghost s = src@;
    let mut atoms: Vec<LengthAtom> = Vec::new();
    let mut ops: Vec<LengthOp> = Vec::new();
    let mut i: usize = 0;
    while i < n.children.len()
        invariant
            i <= cs.len(),
            cs == n.children@,
            s == src@,
            texts_known(*db, s, *n),
            atoms_v(atoms@) + atoms_from(*db, s, cs, i as int) == atoms_from(*db, s, cs, 0),
            ops@ + mul_ops_from(cs, i as int) == mul_ops_from(cs, 0),
        decreases cs.len() - i,
    {
        let c = &n.children[i];
        proof {
            assert(texts_known(*db, s, cs[i as int]));
        }
        let ghost a0 = atoms@;
        let ghost o0 = ops@;
        if kind_is(c, "length_atom") {
            let a = lower_length_atom(db, src, c);
            atoms.push(a);
            proof {
                lemma_atoms_v_push(a0, a);
            }
        }
        if kind_is(c, "mul_op") {
            ops.push(LengthOp::Mul);
        } else if kind_is(c, "div_op") {
            ops.push(LengthOp::Div);
        }
        proof {
            assert(atoms_v(atoms@) + atoms_from(*db, s, cs, i + 1) =~= atoms_v(a0) + atoms_from(*db, s, cs, i as int));
            assert(ops@ + mul_ops_from(cs, i + 1) =~= o0 + mul_ops_from(cs, i as int));
        }
        i = i + 1;
    }
    proof {
        assert(atoms_v(atoms@) + atoms_from(*db, s, cs, i as int) =~= atoms_v(atoms@));
        assert(ops@ + mul_ops_from(cs, i as int) =~= ops@);
    }
    LengthTerm { atoms, ops }
}

fn lower_length_atom(db: &Database, src: &str, n: &SyntaxNode) -> (r: LengthAtom)
    requires
        texts_known(*db, src@, *n),
    ensures
        atom_v(r) == lowered_atom(*db, src@, *n),
    decreases n,
{
    let ghost cs = n.children@;
    let ghost s = src@;
    let ghost p = starts_atom(s);
    let mut i: usize = 0;
    while i < n.children.len()
        invariant
            i <= cs.len(),
            cs == n.children@,
            s == src@,
            p == starts_atom(s),
            texts_known(*db, s, *n),
            first_where(cs, p, 0) == first_where(cs, p, i as int),
        decreases cs.len() - i,
    {
        let c = &n.children[i];
        proof {
            assert(texts_known(*db, s, cs[i as int]));
        }
        if kind_is(c, "const_int") {
            return LengthAtom::Const(lower_const_int(src, c));
        } else if kind_is(c, "depend_id") {
            match binding_ref(db, src, c) {
                Some(r) => {
                    return LengthAtom::Param(r);
                },
                None => {
                    proof {
                        reveal_strlit("depend_id");
                        reveal_strlit("size_expr");
                        reveal_strlit("length_expr");
                        assert("depend_id"@[0] != "size_expr"@[0]);
                        assert("depend_id"@[0] != "length_expr"@[0]);
                    }
                },
            }
        } else if kind_is(c, "size_expr") {
            return lower_size_expr(db, src, c);
        } else if kind_is(c, "length_expr") {
            let e = lower_length_expr(db, src, c);
            return LengthAtom::Paren(Box::new(e));
        }
        i = i + 1;
    }
    LengthAtom::Const(0)
}

// ---------------------------------------------------------------------------
// Invocations.

/// The binding the first binding-naming dependent identifier child names.
pub open spec fn lowered_param(db: Database, s: Seq<char>, n: SyntaxNode) -> Option<NameRef> {
    let cs = n.children@;
    let j = first_where(cs, binds(s), 0);
    if 0 <= j < cs.len() {
        Some(dep_ref(db, s, cs[j]))
    } else {
        None
    }
}

/// The arguments of the `param` children from index `j` on.
pub open spec fn param_refs_from(db: Database, s: Seq<char>, cs: Seq<SyntaxNode>, j: int) -> Seq<NameRef>
    decreases cs.len() - j,
{
    if j < 0 || j >= cs.len() {
        Seq::empty()
    } else {
        (if cs[j].kind@ == "param"@ {
            match lowered_param(db, s, cs[j]) {
                Some(r) => seq![r],
                None => Seq::empty(),
            }
        } else {
            Seq::empty()
        }) + param_refs_from(db, s, cs, j + 1)
    }
}

/// A reference to a definition: the last `var_id` child names it and the
/// last parameter list gives its arguments.
pub open spec fn lowered_invocation(db: Database, s: Seq<char>, n: SyntaxNode) -> CombinatorV {
    let cs = n.children@;
    let v = last_of(cs, "var_id"@);
    let p = last_of(cs, "param_list"@);
    if 0 <= v < cs.len() {
        CombinatorV::Reference {
            name: db.name_for(node_text(s, cs[v])),
            args: if 0 <= p < cs.len() {
                param_refs_from(db, s, cs[p].children@, 0)
            } else {
                Seq::empty()
            },
            span: node_span(n),
        }
    } else {
        CombinatorV::Error
    }
}

fn lower_param(db: &Database, src: &str, n: &SyntaxNode) -> (r: Option<NameRef>)
    requires
        texts_known(*db, src@, *n),
    ensures
        r == lowered_param(*db, src@, *n),
{
    let ghost cs = n.children@;
    let ghost s = src@;
    let ghost p = binds(s);
    let mut i: usize = 0;
    while i < n.children.len()
        invariant
            i <= cs.len(),
            cs == n.children@,
            s == src@,
            p == binds(s),
            texts_known(*db, s, *n),
            first_where(cs, p, 0) == first_where(cs, p, i as int),
        decreases cs.len() - i,
    {
        let c = &n.children[i];
        proof {
            assert(texts_known(*db, s, cs[i as int]));
        }
        if kind_is(c, "depend_id") {
            match binding_ref(db, src, c) {
                Some(r) => {
                    return Some(r);
                },
                None => {},
            }
        }
        i = i + 1;
    }
    None
}

fn lower_param_list(db: &Database, src: &str, n: &SyntaxNode) -> (r: Vec<NameRef>)
    requires
        texts_known(*db, src@, *n),
    ensures
        r@ == param_refs_from(*db, src@, n.children@, 0),
{
    let ghost cs = n.children@;
    let ghost s = src@;
    let mut out: Vec<NameRef> = Vec::new();
    let mut i: usize = 0;
    while i < n.children.len()
        invariant
            i <= cs.len(),
            cs == n.children@,
            s == src@,
            texts_known(*db, s, *n),
            out@ + param_refs_from(*db, s, cs, i as int) == param_refs_from(*db, s, cs, 0),
        decreases cs.len() - i,
    {
        let c = &n.children[i];
        proof {
            assert(texts_known(*db, s, cs[i as int]));
        }
        let ghost before = out@;
        if kind_is(c, "param") {
            match lower_param(db, src, c) {
                Some(r) => {
                    out.push(r);
                },
                None => {},
            }
        }
        proof {
            assert(out@ + param_refs_from(*db, s, cs, i + 1) =~= before + param_refs_from(*db, s, cs, i as int));
        }
        i = i + 1;
    }
    proof {
        assert(out@ + param_refs_from(*db, s, cs, i as int) =~= out@);
    }
    out
}

fn lower_combinator_invocation(db: &Database, src: &str, n: &SyntaxNode) -> (r: Combinator)
    requires
        texts_known(*db, src@, *n),
    ensures
        comb_v(r) == lowered_invocation(*db, src@, *n),
{
    let ghost cs = n.children@;
    let ghost s = src@;
    let ghost pv = is_kind("var_id"@);
    let ghost pp = is_kind("param_list"@);
    let mut name: Option<Name> = None;
    let mut args: Vec<NameRef> = Vec::new();
    let mut i: usize = 0;
    while i < n.children.len()
        invariant
            i <= cs.len(),
            cs == n.children@,
            s == src@,
            pv == is_kind("var_id"@),
            pp == is_kind("param_list"@),
            texts_known(*db, s, *n),
            name == (if last_where(cs, pv, i as int) >= 0 {
                Some(db.name_for(node_text(s, cs[last_where(cs, pv, i as int)])))
            } else {
                None
            }),
            args@ == (if last_where(cs, pp, i as int) >= 0 {
                param_refs_from(*db, s, cs[last_where(cs, pp, i as int)].children@, 0)
            } else {
                Seq::empty()
            }),
        decreases cs.len() - i,
    {
        let c = &n.children[i];
        proof {
            assert(texts_known(*db, s, cs[i as int]));
        }
        if kind_is(c, "var_id") {
            name = Some(db.lookup(text_of_node(src, c)));
        }
        if kind_is(c, "param_list") {
            args = lower_param_list(db, src, c);
        }
        i = i + 1;
    }
    proof {
        lemma_last_where(cs, pv, cs.len() as int);
        lemma_last_where(cs, pp, cs.len() as int);
    }
    match name {
        Some(name) => Combinator::Reference { name, args, span: span_of(n) },
        None => Combinator::Error,
    }
}

// ---------------------------------------------------------------------------
// Constant combinators.

/// The carrier named by the last `int_combinator` child, if it names one.
pub open spec fn int_type_child(s: Seq<char>, cs: Seq<SyntaxNode>) -> Option<IntType> {
    let k = last_of(cs, "int_combinator"@);
    if 0 <= k < cs.len() {
        spec_int_type_from_keyword(node_text(s, cs[k]))
    } else {
        None
    }
}

/// The value of the last `const_int` child, if any.
pub open spec fn const_int_child(s: Seq<char>, cs: Seq<SyntaxNode>) -> Option<u64> {
    let k = last_of(cs, "const_int"@);
    if 0 <= k < cs.len() {
        Some(const_int_value(s, cs[k]))
    } else {
        None
    }
}

/// A carrier with an integer: the last carrier child and the last integer
/// child, when both are there.
pub open spec fn typed_int(s: Seq<char>, n: SyntaxNode) -> Option<(IntType, u64)> {
    match (int_type_child(s, n.children@), const_int_child(s, n.children@)) {
        (Some(t), Some(v)) => Some((t, v)),
        _ => None,
    }
}

/// An enum type with one of its variants: the type names the first
/// `var_id` of the last invocation child, the variant is the last
/// `variant_id` child.
pub open spec fn const_enum_parts(db: Database, s: Seq<char>, n: SyntaxNode) -> Option<(NameRef, NameRef)> {
    let cs = n.children@;
    let k = last_of(cs, "combinator_invocation"@);
    let v = last_of(cs, "variant_id"@);
    let ty = if 0 <= k < cs.len() {
        first_var_ref(db, s, cs[k])
    } else {
        None
    };
    match ty {
        Some(t) => if 0 <= v < cs.len() {
            Some((t, ref_at(db, node_text(s, cs[v]), cs[v])))
        } else {
            None
        },
        None => None,
    }
}

/// The length expression of a fixed count.
pub open spec fn const_length(v: u64) -> LengthExprV {
    LengthExprV { terms: seq![TermV { atoms: seq![AtomV::Const(v)], ops: Seq::empty() }], ops: Seq::empty() }
}

/// Children that hold an inline constant.
pub open spec fn inline_kinds() -> spec_fn(SyntaxNode) -> bool {
    |c: SyntaxNode|
        c.kind@ == "const_int_combinator"@ || c.kind@ == "const_enum_combinator"@ || c.kind@
            == "const_bytes_combinator"@
}

/// Children that hold a constant combinator.
pub open spec fn const_comb_kinds() -> spec_fn(SyntaxNode) -> bool {
    |c: SyntaxNode| c.kind@ == "inline_const_combinator"@ || c.kind@ == "const_id"@
}

/// An inline constant: its type and its value, from the first child that
/// holds one.
pub open spec fn lowered_inline_const(db: Database, s: Seq<char>, n: SyntaxNode) -> (
    Option<CombinatorV>,
    Option<ConstValueV>,
) {
    let cs = n.children@;
    let j = first_where(cs, inline_kinds(), 0);
    if 0 <= j < cs.len() {
        let c = cs[j];
        if c.kind@ == "const_int_combinator"@ {
            match typed_int(s, c) {
                Some((t, v)) => (Some(CombinatorV::Int(t)), Some(ConstValueV::Int(v))),
                None => (None, None),
            }
        } else if c.kind@ == "const_enum_combinator"@ {
            match const_enum_parts(db, s, c) {
                Some((ty, variant)) => (
                    Some(CombinatorV::Reference { name: ty.name, args: Seq::empty(), span: node_span(c) }),
                    Some(ConstValueV::String(variant)),
                ),
                None => (None, None),
            }
        } else {
            match typed_int(s, c) {
                Some((t, l)) => (
                    Some(CombinatorV::Array { element: Box::new(CombinatorV::Int(t)), length: const_length(l) }),
                    Some(ConstValueV::Int(l)),
                ),
                None => (None, None),
            }
        }
    } else {
        (None, None)
    }
}

/// A constant combinator: an inline constant, or a reference to a named
/// constant (with no value of its own).
pub open spec fn lowered_const_comb(db: Database, s: Seq<char>, n: SyntaxNode) -> (
    Option<CombinatorV>,
    Option<ConstValueV>,
) {
    let cs = n.children@;
    let j = first_where(cs, const_comb_kinds(), 0);
    if 0 <= j < cs.len() {
        let c = cs[j];
        if c.kind@ == "inline_const_combinator"@ {
            lowered_inline_const(db, s, c)
        } else {
            (
                Some(
                    CombinatorV::Reference { name: db.name_for(node_text(s, c)), args: Seq::empty(), span: node_span(c) },
                ),
                None,
            )
        }
    } else {
        (None, None)
    }
}

fn lower_const_int_combinator(src: &str, n: &SyntaxNode) -> (r: Option<(IntType, u64)>)
    ensures
        r == typed_int(src@, *n),
{
    let ghost cs = n.children@;
    let ghost s = src@;
    let ghost pt = is_kind("int_combinator"@);
    let ghost pv = is_kind("const_int"@);
    let mut ty: Option<IntType> = None;
    let mut value: Option<u64> = None;
    let mut i: usize = 0;
    while i < n.children.len()
        invariant
            i <= cs.len(),
            cs == n.children@,
            s == src@,
            pt == is_kind("int_combinator"@),
            pv == is_kind("const_int"@),
            ty == (if last_where(cs, pt, i as int) >= 0 {
                spec_int_type_from_keyword(node_text(s, cs[last_where(cs, pt, i as int)]))
            } else {
                None
            }),
            value == (if last_where(cs, pv, i as int) >= 0 {
                Some(const_int_value(s, cs[last_where(cs, pv, i as int)]))
            } else {
                None
            }),
        decreases cs.len() - i,
    {
        let c = &n.children[i];
        if kind_is(c, "int_combinator") {
            ty = IntType::from_keyword(text_of_node(src, c));
        }
        if kind_is(c, "const_int") {
            value = Some(lower_const_int(src, c));
        }
        i = i + 1;
    }
    proof {
        lemma_last_where(cs, pt, cs.len() as int);
        lemma_last_where(cs, pv, cs.len() as int);
    }
    match (ty, value) {
        (Some(t), Some(v)) => Some((t, v)),
        _ => None,
    }
}

fn lower_const_enum_combinator(db: &Database, src: &str, n: &SyntaxNode) -> (r: Option<(NameRef, NameRef)>)
    requires
        texts_known(*db, src@, *n),
    ensures
        r == const_enum_parts(*db, src@, *n),
{
    let ghost cs = n.children@;
    let ghost s = src@;
    let ghost pk = is_kind("combinator_invocation"@);
    let ghost pv = is_kind("variant_id"@);
    let mut ty: Option<NameRef> = None;
    let mut variant: Option<NameRef> = None;
    let mut i: usize = 0;
    while i < n.children.len()
        invariant
            i <= cs.len(),
            cs == n.children@,
            s == src@,
            pk == is_kind("combinator_invocation"@),
            pv == is_kind("variant_id"@),
            texts_known(*db, s, *n),
            ty == (if last_where(cs, pk, i as int) >= 0 {
                first_var_ref(*db, s, cs[last_where(cs, pk, i as int)])
            } else {
                None
            }),
            variant == (if last_where(cs, pv, i as int) >= 0 {
                Some(ref_at(*db, node_text(s, cs[last_where(cs, pv, i as int)]), cs[last_where(cs, pv, i as int)]))
            } else {
                None
            }),
        decreases cs.len() - i,
    {
        let c = &n.children[i];
        proof {
            assert(texts_known(*db, s, cs[i as int]));
        }
        if kind_is(c, "combinator_invocation") {
            ty = extract_var_id(db, src, c);
        }
        if kind_is(c, "variant_id") {
            variant = Some(text_ref(db, src, c));
        }
        i = i + 1;
    }
    proof {
        lemma_last_where(cs, pk, cs.len() as int);
        lemma_last_where(cs, pv, cs.len() as int);
    }
    match (ty, variant) {
        (Some(t), Some(v)) => Some((t, v)),
        _ => None,
    }
}

fn const_length_expr(v: u64) -> (r: LengthExpr)
    ensures
        length_v(r) == const_length(v),
{
    let atoms = vec![LengthAtom::Const(v)];
    let term = LengthTerm { atoms, ops: Vec::new() };
    let r = LengthExpr { terms: vec![term], ops: Vec::new() };
    proof {
        lemma_atoms_v_push(Seq::<LengthAtom>::empty(), LengthAtom::Const(v));
        assert(atoms@ =~= Seq::<LengthAtom>::empty().push(LengthAtom::Const(v)));
        assert(atoms_v(Seq::<LengthAtom>::empty()) =~= Seq::<AtomV>::empty());
        assert(atoms_v(atoms@) =~= seq![AtomV::Const(v)]);
        lemma_terms_v_push(Seq::<LengthTerm>::empty(), term);
        assert(r.terms@ =~= Seq::<LengthTerm>::empty().push(term));
        assert(terms_v(Seq::<LengthTerm>::empty()) =~= Seq::<TermV>::empty());
        assert(terms_v(r.terms@) =~= seq![TermV { atoms: seq![AtomV::Const(v)], ops: Seq::empty() }]);
        assert(term.ops@ =~= Seq::<LengthOp>::empty());
        assert(r.ops@ =~= Seq::<LengthOp>::empty());
    }
    r
}

fn lower_inline_const_combinator(db: &Database, src: &str, n: &SyntaxNode) -> (r: (
    Option<Combinator>,
    Option<ConstValue>,
))
    requires
        texts_known(*db, src@, *n),
    ensures
        (opt_comb_v(r.0), opt_const_v(r.1)) == lowered_inline_const(*db, src@, *n),
{
    let ghost cs = n.children@;
    let ghost s = src@;
    let ghost p = inline_kinds();
    let mut i: usize = 0;
    while i < n.children.len()
        invariant
            i <= cs.len(),
            cs == n.children@,
            s == src@,
            p == inline_kinds(),
            texts_known(*db, s, *n),
            first_where(cs, p, 0) == first_where(cs, p, i as int),
        decreases cs.len() - i,
    {
        let c = &n.children[i];
        proof {
            assert(texts_known(*db, s, cs[i as int]));
        }
        if kind_is(c, "const_int_combinator") {
            return match lower_const_int_combinator(src, c) {
                Some((t, v)) => (Some(Combinator::Int(t)), Some(ConstValue::Int(v))),
                None => (None, None),
            };
        } else if kind_is(c, "const_enum_combinator") {
            return match lower_const_enum_combinator(db, src, c) {
                Some((ty, variant)) => (
                    Some(Combinator::Reference { name: ty.name, args: Vec::new(), span: span_of(c) }),
                    Some(ConstValue::String(variant)),
                ),
                None => (None, None),
            };
        } else if kind_is(c, "const_bytes_combinator") {
            return match lower_const_int_combinator(src, c) {
                Some((t, l)) => {
                    let length = const_length_expr(l);
                    proof {
                        assert(comb_v(Combinator::Int(t)) == CombinatorV::Int(t));
                    }
                    (
                        Some(
                            Combinator::Array(ArrayCombinator { element: Box::new(Combinator::Int(t)), length }),
                        ),
                        Some(ConstValue::Int(l)),
                    )
                },
                None => (None, None),
            };
        }
        i = i + 1;
    }
    (None, None)
}

/// Lowers a constant combinator to its type and value.
pub fn lower_const_combinator(db: &Database, src: &str, n: &SyntaxNode) -> (r: (
    Option<Combinator>,
    Option<ConstValue>,
))
    requires
        texts_known(*db, src@, *n),
    ensures
        (opt_comb_v(r.0), opt_const_v(r.1)) == lowered_const_comb(*db, src@, *n),
{
    let ghost cs = n.children@;
    let ghost s = src@;
    let ghost p = const_comb_kinds();
    let mut i: usize = 0;
    while i < n.children.len()
        invariant
            i <= cs.len(),
            cs == n.children@,
            s == src@,
            p == const_comb_kinds(),
            texts_known(*db, s, *n),
            first_where(cs, p, 0) == first_where(cs, p, i as int),
        decreases cs.len() - i,
    {
        let c = &n.children[i];
        proof {
            assert(texts_known(*db, s, cs[i as int]));
        }
        if kind_is(c, "inline_const_combinator") {
            return lower_inline_const_combinator(db, src, c);
        } else if kind_is(c, "const_id") {
            let name = db.lookup(text_of_node(src, c));
            let r = Combinator::Reference { name, args: Vec::new(), span: span_of(c) };
            return (Some(r), None);
        }
        i = i + 1;
    }
    (None, None)
}

// ---------------------------------------------------------------------------
// Constant arrays.

/// The values of an integer array.
pub open spec fn int_array_values(s: Seq<char>, n: SyntaxNode) -> Seq<ConstValueV>
    decreases n, 0int,
{
    int_values_from(s, n.children@, 0)
}

pub open spec fn int_values_from(s: Seq<char>, cs: Seq<SyntaxNode>, j: int) -> Seq<ConstValueV>
    decreases cs, cs.len() - j,
{
    if j < 0 || j >= cs.len() {
        Seq::empty()
    } else {
        (if cs[j].kind@ == "const_int"@ {
            seq![ConstValueV::Int(const_int_value(s, cs[j]))]
        } else if cs[j].kind@ == "int_array_expr"@ {
            int_array_values(s, cs[j])
        } else if cs[j].kind@ == "repeat_int_array_expr"@ {
            repeat_values(s, cs[j])
        } else {
            Seq::empty()
        }) + int_values_from(s, cs, j + 1)
    }
}

/// `[value; count]`: the first integer child, repeated as often as the
/// last later integer child says.
pub open spec fn repeat_values(s: Seq<char>, n: SyntaxNode) -> Seq<ConstValueV> {
    let cs = n.children@;
    let a = first_of(cs, "const_int"@);
    let b = last_of(cs, "const_int"@);
    if 0 <= a < b < cs.len() {
        Seq::new(const_int_value(s, cs[b]) as nat, |i: int| ConstValueV::Int(const_int_value(s, cs[a])))
    } else {
        Seq::empty()
    }
}

/// The values of an array pattern.
pub open spec fn pattern_values_from(s: Seq<char>, cs: Seq<SyntaxNode>, j: int) -> Seq<ConstValueV>
    decreases cs.len() - j,
{
    if j < 0 || j >= cs.len() {
        Seq::empty()
    } else {
        (if cs[j].kind@ == "const_int_array"@ || cs[j].kind@ == "int_array_expr"@ {
            int_array_values(s, cs[j])
        } else if cs[j].kind@ == "repeat_int_array_expr"@ {
            repeat_values(s, cs[j])
        } else {
            Seq::empty()
        }) + pattern_values_from(s, cs, j + 1)
    }
}

/// Index of the first character at or after `i` that is not `c`.
pub open spec fn skip_from(t: Seq<char>, c: char, i: int) -> int
    decreases t.len() - i,
{
    if i < 0 || i >= t.len() {
        t.len() as int
    } else if t[i] != c {
        i
    } else {
        skip_from(t, c, i + 1)
    }
}

/// End of `t[lo..e]` once trailing characters `c` are dropped.
pub open spec fn skip_back(t: Seq<char>, c: char, lo: int, e: int) -> int
    decreases e - lo,
{
    if e <= lo {
        lo
    } else if t[e - 1] != c {
        e
    } else {
        skip_back(t, c, lo, e - 1)
    }
}

/// Text with its leading and trailing double quotes dropped.
pub open spec fn trim_quotes(t: Seq<char>) -> Seq<char> {
    let a = skip_from(t, '"', 0);
    t.subrange(a, skip_back(t, '"', a, t.len() as int))
}

proof fn lemma_skip_from(t: Seq<char>, c: char, i: int)
    requires
        0 <= i <= t.len(),
    ensures
        i <= skip_from(t, c, i) <= t.len(),
    decreases t.len() - i,
{
    if i < t.len() && t[i] == c {
        lemma_skip_from(t, c, i + 1);
    }
}

proof fn lemma_skip_back(t: Seq<char>, c: char, lo: int, e: int)
    requires
        0 <= lo <= e <= t.len(),
    ensures
        lo <= skip_back(t, c, lo, e) <= e,
    decreases e - lo,
{
    if e > lo && t[e - 1] == c {
        lemma_skip_back(t, c, lo, e - 1);
    }
}

/// The character codes of a text, as integer values.
pub open spec fn char_values(t: Seq<char>) -> Seq<ConstValueV> {
    Seq::new(t.len(), |i: int| ConstValueV::Int((t[i] as u32) as u64))
}

/// The values of a constant array: integer arrays and the characters of
/// string arrays.
pub open spec fn array_values_from(s: Seq<char>, cs: Seq<SyntaxNode>, j: int) -> Seq<ConstValueV>
    decreases cs.len() - j,
{
    if j < 0 || j >= cs.len() {
        Seq::empty()
    } else {
        (if cs[j].kind@ == "const_int_array"@ {
            int_array_values(s, cs[j])
        } else if cs[j].kind@ == "const_char_array"@ {
            char_values(trim_quotes(node_text(s, cs[j])))
        } else {
            Seq::empty()
        }) + array_values_from(s, cs, j + 1)
    }
}

fn lower_repeat_int_array_values(src: &str, n: &SyntaxNode) -> (r: Vec<ConstValue>)
    ensures
        consts_v(r@) == repeat_values(src@, *n),
{
    let ghost cs = n.children@;
    let ghost s = src@;
    let ghost p = is_kind("const_int"@);
    let ghost a = first_where(cs, p, 0);
    proof {
        lemma_first_where(cs, p, 0);
    }
    let mut value: Option<u64> = None;
    let mut count: Option<u64> = None;
    let mut i: usize = 0;
    while i < n.children.len()
        invariant
            i <= cs.len(),
            cs == n.children@,
            s == src@,
            p == is_kind("const_int"@),
            a == first_where(cs, p, 0),
            a == -1 || (0 <= a < cs.len() && p(cs[a])),
            forall|k: int| 0 <= k < cs.len() && (a == -1 || k < a) ==> !p(#[trigger] cs[k]),
            value == (if 0 <= a < i {
                Some(const_int_value(s, cs[a]))
            } else {
                None
            }),
            count == (if 0 <= a < last_where(cs, p, i as int) {
                Some(const_int_value(s, cs[last_where(cs, p, i as int)]))
            } else {
                None
            }),
        decreases cs.len() - i,
    {
        let c = &n.children[i];
        proof {
            lemma_last_where(cs, p, i as int);
        }
        if kind_is(c, "const_int") {
            let v = lower_const_int(src, c);
            if value.is_none() {
                value = Some(v);
            } else {
                count = Some(v);
            }
        }
        i = i + 1;
    }
    proof {
        lemma_last_where(cs, p, cs.len() as int);
    }
    let mut out: Vec<ConstValue> = Vec::new();
    match (value, count) {
        (Some(v), Some(c)) => {
            let mut k: u64 = 0;
            while k < c
                invariant
                    k <= c,
                    consts_v(out@) == Seq::new(k as nat, |i: int| ConstValueV::Int(v)),
                decreases c - k,
            {
                let ghost before = out@;
                out.push(ConstValue::Int(v));
                proof {
                    lemma_consts_v_push(before, ConstValue::Int(v));
                    assert(consts_v(out@) =~= Seq::new((k + 1) as nat, |i: int| ConstValueV::Int(v)));
                }
                k = k + 1;
            }
        },
        _ => {
            proof {
                assert(consts_v(out@) =~= Seq::<ConstValueV>::empty());
            }
        },
    }
    out
}

fn lower_const_int_array_values(src: &str, n: &SyntaxNode) -> (r: Vec<ConstValue>)
    ensures
        consts_v(r@) == int_array_values(src@, *n),
    decreases n,
{
    let ghost cs = n.children@;
    let ghost s = src@;
    let mut out: Vec<ConstValue> = Vec::new();
    let mut i: usize = 0;
    while i < n.children.len()
        invariant
            i <= cs.len(),
            cs == n.children@,
            s == src@,
            consts_v(out@) + int_values_from(s, cs, i as int) == int_values_from(s, cs, 0),
        decreases cs.len() - i,
    {
        let c = &n.children[i];
        let ghost before = out@;
        if kind_is(c, "const_int") {
            let v = ConstValue::Int(lower_const_int(src, c));
            out.push(v);
            proof {
                lemma_consts_v_push(before, v);
            }
        } else if kind_is(c, "int_array_expr") {
            let mut more = lower_const_int_array_values(src, c);
            let ghost m = more@;
            out.append(&mut more);
            proof {
                lemma_consts_v_append(before, m);
            }
        } else if kind_is(c, "repeat_int_array_expr") {
            let mut more = lower_repeat_int_array_values(src, c);
            let ghost m = more@;
            out.append(&mut more);
            proof {
                lemma_consts_v_append(before, m);
            }
        }
        proof {
            assert(consts_v(out@) + int_values_from(s, cs, i + 1) =~= consts_v(before) + int_values_from(
                s,
                cs,
                i as int,
            ));
        }
        i = i + 1;
    }
    proof {
        assert(consts_v(out@) + int_values_from(s, cs, i as int) =~= consts_v(out@));
    }
    out
}

fn lower_const_array_pattern(src: &str, n: &SyntaxNode) -> (r: Vec<ConstValue>)
    ensures
        consts_v(r@) == pattern_values_from(src@, n.children@, 0),
{
    let ghost cs = n.children@;
    let ghost s = src@;
    let mut out: Vec<ConstValue> = Vec::new();
    let mut i: usize = 0;
    while i < n.children.len()
        invariant
            i <= cs.len(),
            cs == n.children@,
            s == src@,
            consts_v(out@) + pattern_values_from(s, cs, i as int) == pattern_values_from(s, cs, 0),
        decreases cs.len() - i,
    {
        let c = &n.children[i];
        let ghost before = out@;
        if kind_is(c, "const_int_array") || kind_is(c, "int_array_expr") {
            let mut more = lower_const_int_array_values(src, c);
            let ghost m = more@;
            out.append(&mut more);
            proof {
                lemma_consts_v_append(before, m);
            }
        } else if kind_is(c, "repeat_int_array_expr") {
            let mut more = lower_repeat_int_array_values(src, c);
            let ghost m = more@;
            out.append(&mut more);
            proof {
                lemma_consts_v_append(before, m);
            }
        }
        proof {
            assert(consts_v(out@) + pattern_values_from(s, cs, i + 1) =~= consts_v(before) + pattern_values_from(
                s,
                cs,
                i as int,
            ));
        }
        i = i + 1;
    }
    proof {
        assert(consts_v(out@) + pattern_values_from(s, cs, i as int) =~= consts_v(out@));
    }
    out
}

fn char_array_values(text: &str) -> (r: Vec<ConstValue>)
    ensures
        consts_v(r@) == char_values(trim_quotes(text@)),
{
    let cs = str_chars(text);
    let ghost t = text@;
    let mut a: usize = 0;
    while a < cs.len() && cs[a] == '"'
        invariant
            a <= cs@.len(),
            cs@ == t,
            skip_from(t, '"', 0) == skip_from(t, '"', a as int),
        decreases cs@.len() - a,
    {
        a = a + 1;
    }
    let mut e: usize = cs.len();
    while e > a && cs[e - 1] == '"'
        invariant
            a <= e <= cs@.len(),
            cs@ == t,
            skip_from(t, '"', 0) == a,
            skip_back(t, '"', a as int, t.len() as int) == skip_back(t, '"', a as int, e as int),
        decreases e - a,
    {
        e = e - 1;
    }
    proof {
        assert(trim_quotes(t) =~= t.subrange(a as int, e as int));
    }
    let mut out: Vec<ConstValue> = Vec::new();
    let mut i: usize = a;
    while i < e
        invariant
            a <= i <= e <= cs@.len(),
            cs@ == t,
            consts_v(out@) == char_values(t.subrange(a as int, i as int)),
        decreases e - i,
    {
        let v = ConstValue::Int((cs[i] as u32) as u64);
        let ghost before = out@;
        out.push(v);
        proof {
            lemma_consts_v_push(before, v);
            assert(char_values(t.subrange(a as int, i + 1)) =~= char_values(t.subrange(a as int, i as int)).push(
                ConstValueV::Int((t[i as int] as u32) as u64),
            ));
        }
        i = i + 1;
    }
    out
}

fn lower_const_array_values(src: &str, n: &SyntaxNode) -> (r: Vec<ConstValue>)
    ensures
        consts_v(r@) == array_values_from(src@, n.children@, 0),
{
    let ghost cs = n.children@;
    let ghost s = src@;
    let mut out: Vec<ConstValue> = Vec::new();
    let mut i: usize = 0;
    while i < n.children.len()
        invariant
            i <= cs.len(),
            cs == n.children@,
            s == src@,
            consts_v(out@) + array_values_from(s, cs, i as int) == array_values_from(s, cs, 0),
        decreases cs.len() - i,
    {
        let c = &n.children[i];
        let ghost before = out@;
        if kind_is(c, "const_int_array") {
            let mut more = lower_const_int_array_values(src, c);
            let ghost m = more@;
            out.append(&mut more);
            proof {
                lemma_consts_v_append(before, m);
            }
        } else if kind_is(c, "const_char_array") {
            let mut more = char_array_values(text_of_node(src, c));
            let ghost m = more@;
            out.append(&mut more);
            proof {
                lemma_consts_v_append(before, m);
            }
        }
        proof {
            assert(consts_v(out@) + array_values_from(s, cs, i + 1) =~= consts_v(before) + array_values_from(
                s,
                cs,
                i as int,
            ));
        }
        i = i + 1;
    }
    proof {
        assert(consts_v(out@) + array_values_from(s, cs, i as int) =~= consts_v(out@));
    }
    out
}

// ---------------------------------------------------------------------------
// Enums.

/// A variant's value and the carrier its suffix names: the last integer
/// child (0 without one) and the last suffix child.
pub open spec fn typed_const_int(s: Seq<char>, n: SyntaxNode) -> (ConstValueV, Option<IntType>) {
    let cs = n.children@;
    let k = last_of(cs, "int_type_suffix"@);
    (
        ConstValueV::Int(
            match const_int_child(s, cs) {
                Some(v) => v,
                None => 0,
            },
        ),
        if 0 <= k < cs.len() {
            spec_int_type_from_keyword(node_text(s, cs[k]))
        } else {
            None
        },
    )
}

/// An enum variant: the last `variant_id` child names it and the last
/// typed integer child gives its value.
pub open spec fn lowered_enum_field(db: Database, s: Seq<char>, n: SyntaxNode) -> Option<VariantV> {
    let cs = n.children@;
    let v = last_of(cs, "variant_id"@);
    let t = last_of(cs, "typed_const_int"@);
    if 0 <= v < cs.len() && 0 <= t < cs.len() {
        let typed = typed_const_int(s, cs[t]);
        Some(
            VariantV {
                name: db.name_for(node_text(s, cs[v])),
                value: typed.0,
                repr_type: typed.1,
                span: node_span(cs[v]),
                full_span: node_span(n),
            },
        )
    } else {
        None
    }
}

/// The variants of the `enum_field` children from index `j` on.
pub open spec fn variants_from(db: Database, s: Seq<char>, cs: Seq<SyntaxNode>, j: int) -> Seq<VariantV>
    decreases cs.len() - j,
{
    if j < 0 || j >= cs.len() {
        Seq::empty()
    } else {
        (if cs[j].kind@ == "enum_field"@ {
            match lowered_enum_field(db, s, cs[j]) {
                Some(v) => seq![v],
                None => Seq::empty(),
            }
        } else {
            Seq::empty()
        }) + variants_from(db, s, cs, j + 1)
    }
}

/// The carrier of the first variant that names one.
pub open spec fn first_repr(vs: Seq<VariantV>) -> Option<IntType>
    decreases vs.len(),
{
    if vs.len() == 0 {
        None
    } else {
        match first_repr(vs.drop_last()) {
            Some(t) => Some(t),
            None => vs.last().repr_type,
        }
    }
}

/// Children that hold an enum's variants.
pub open spec fn enum_body_kinds() -> spec_fn(SyntaxNode) -> bool {
    |c: SyntaxNode| c.kind@ == "exhaustive_enum"@ || c.kind@ == "non_exhaustive_enum"@
}

/// An enum: the variants of its last body child, exhaustive unless that
/// body is the non-exhaustive kind, with the carrier of its first variant
/// that names one.
pub open spec fn lowered_enum_def(db: Database, s: Seq<char>, n: SyntaxNode) -> EnumDefV {
    let cs = n.children@;
    let k = last_where(cs, enum_body_kinds(), cs.len() as int);
    if 0 <= k < cs.len() {
        let vs = variants_from(db, s, cs[k].children@, 0);
        EnumDefV { variants: vs, is_exhaustive: cs[k].kind@ == "exhaustive_enum"@, repr_type: first_repr(vs) }
    } else {
        EnumDefV { variants: Seq::empty(), is_exhaustive: true, repr_type: None }
    }
}

/// The constant field an enum variant becomes inside a combinator.
pub open spec fn variant_field(v: VariantV, ty: IntType) -> FieldV {
    FieldV {
        name: v.name,
        is_dependent: false,
        is_const: true,
        ty: CombinatorV::Int(ty),
        const_value: Some(v.value),
        span: v.span,
        full_span: v.full_span,
    }
}

/// The fields of an enum used as a combinator: one constant field per
/// variant, of the enum's carrier (`u8` without one).
pub open spec fn enum_fields(e: EnumDefV) -> Seq<FieldV> {
    let ty = match e.repr_type {
        Some(t) => t,
        None => IntType::U8,
    };
    Seq::new(e.variants.len(), |i: int| variant_field(e.variants[i], ty))
}

fn lower_typed_const_int(src: &str, n: &SyntaxNode) -> (r: (ConstValue, Option<IntType>))
    ensures
        (const_v(r.0), r.1) == typed_const_int(src@, *n),
{
    let ghost cs = n.children@;
    let ghost s = src@;
    let ghost pv = is_kind("const_int"@);
    let ghost pt = is_kind("int_type_suffix"@);
    let mut value: u64 = 0;
    let mut ty: Option<IntType> = None;
    let mut i: usize = 0;
    while i < n.children.len()
        invariant
            i <= cs.len(),
            cs == n.children@,
            s == src@,
            pv == is_kind("const_int"@),
            pt == is_kind("int_type_suffix"@),
            value == (if last_where(cs, pv, i as int) >= 0 {
                const_int_value(s, cs[last_where(cs, pv, i as int)])
            } else {
                0
            }),
            ty == (if last_where(cs, pt, i as int) >= 0 {
                spec_int_type_from_keyword(node_text(s, cs[last_where(cs, pt, i as int)]))
            } else {
                None
            }),
        decreases cs.len() - i,
    {
        let c = &n.children[i];
        if kind_is(c, "const_int") {
            value = lower_const_int(src, c);
        }
        if kind_is(c, "int_type_suffix") {
            ty = IntType::from_keyword(text_of_node(src, c));
        }
        i = i + 1;
    }
    proof {
        lemma_last_where(cs, pv, cs.len() as int);
        lemma_last_where(cs, pt, cs.len() as int);
    }
    (ConstValue::Int(value), ty)
}

fn lower_enum_field(db: &Database, src: &str, n: &SyntaxNode) -> (r: Option<EnumVariant>)
    requires
        texts_known(*db, src@, *n),
    ensures
        match r {
            Some(v) => lowered_enum_field(*db, src@, *n) == Some(variant_v(v)),
            None => lowered_enum_field(*db, src@, *n) is None,
        },
{
    let ghost cs = n.children@;
    let ghost s = src@;
    let ghost pv = is_kind("variant_id"@);
    let ghost pt = is_kind("typed_const_int"@);
    let mut name: Option<(Name, Span)> = None;
    let mut typed: Option<(ConstValue, Option<IntType>)> = None;
    let mut i: usize = 0;
    while i < n.children.len()
        invariant
            i <= cs.len(),
            cs == n.children@,
            s == src@,
            pv == is_kind("variant_id"@),
            pt == is_kind("typed_const_int"@),
            texts_known(*db, s, *n),
            name == (if last_where(cs, pv, i as int) >= 0 {
                Some(
                    (
                        db.name_for(node_text(s, cs[last_where(cs, pv, i as int)])),
                        node_span(cs[last_where(cs, pv, i as int)]),
                    ),
                )
            } else {
                None
            }),
            match typed {
                Some(t) => last_where(cs, pt, i as int) >= 0 && (const_v(t.0), t.1) == typed_const_int(
                    s,
                    cs[last_where(cs, pt, i as int)],
                ),
                None => last_where(cs, pt, i as int) < 0,
            },
        decreases cs.len() - i,
    {
        let c = &n.children[i];
        proof {
            assert(texts_known(*db, s, cs[i as int]));
        }
        if kind_is(c, "variant_id") {
            name = Some((db.lookup(text_of_node(src, c)), span_of(c)));
        }
        if kind_is(c, "typed_const_int") {
            typed = Some(lower_typed_const_int(src, c));
        }
        i = i + 1;
    }
    proof {
        lemma_last_where(cs, pv, cs.len() as int);
        lemma_last_where(cs, pt, cs.len() as int);
    }
    match (name, typed) {
        (Some((name, span)), Some((value, repr_type))) => Some(
            EnumVariant { name, value, repr_type, span, full_span: span_of(n) },
        ),
        _ => None,
    }
}

proof fn lemma_first_repr_push(vs: Seq<VariantV>, v: VariantV)
    ensures
        first_repr(vs.push(v)) == (match first_repr(vs) {
            Some(t) => Some(t),
            None => v.repr_type,
        }),
{
    assert(vs.push(v).drop_last() =~= vs);
}

fn lower_enum_variants(db: &Database, src: &str, n: &SyntaxNode) -> (r: (Vec<EnumVariant>, Option<IntType>))
    requires
        texts_known(*db, src@, *n),
    ensures
        variants_v(r.0@) == variants_from(*db, src@, n.children@, 0),
        r.1 == first_repr(variants_v(r.0@)),
{
    let ghost cs = n.children@;
    let ghost s = src@;
    let mut variants: Vec<EnumVariant> = Vec::new();
    let mut repr: Option<IntType> = None;
    let mut i: usize = 0;
    while i < n.children.len()
        invariant
            i <= cs.len(),
            cs == n.children@,
            s == src@,
            texts_known(*db, s, *n),
            variants_v(variants@) + variants_from(*db, s, cs, i as int) == variants_from(*db, s, cs, 0),
            repr == first_repr(variants_v(variants@)),
        decreases cs.len() - i,
    {
        let c = &n.children[i];
        proof {
            assert(texts_known(*db, s, cs[i as int]));
        }
        let ghost before = variants@;
        if kind_is(c, "enum_field") {
            match lower_enum_field(db, src, c) {
                Some(v) => {
                    if repr.is_none() {
                        repr = v.repr_type;
                    }
                    variants.push(v);
                    proof {
                        lemma_variants_v_push(before, v);
                        lemma_first_repr_push(variants_v(before), variant_v(v));
                    }
                },
                None => {},
            }
        }
        proof {
            assert(variants_v(variants@) + variants_from(*db, s, cs, i + 1) =~= variants_v(before) + variants_from(
                *db,
                s,
                cs,
                i as int,
            ));
        }
        i = i + 1;
    }
    proof {
        assert(variants_v(variants@) + variants_from(*db, s, cs, i as int) =~= variants_v(variants@));
    }
    (variants, repr)
}

/// Lowers an enum combinator.
pub fn lower_enum_combinator(db: &Database, src: &str, n: &SyntaxNode) -> (r: EnumDef)
    requires
        texts_known(*db, src@, *n),
    ensures
        enum_def_v(r) == lowered_enum_def(*db, src@, *n),
{
    let ghost cs = n.children@;
    let ghost s = src@;
    let ghost p = enum_body_kinds();
    let mut variants: Vec<EnumVariant> = Vec::new();
    let mut is_exhaustive = true;
    let mut repr_type: Option<IntType> = None;
    proof {
        assert(variants_v(variants@) =~= Seq::<VariantV>::empty());
    }
    let mut i: usize = 0;
    while i < n.children.len()
        invariant
            i <= cs.len(),
            cs == n.children@,
            s == src@,
            p == enum_body_kinds(),
            texts_known(*db, s, *n),
            ({
                let k = last_where(cs, p, i as int);
                if k >= 0 {
                    &&& variants_v(variants@) == variants_from(*db, s, cs[k].children@, 0)
                    &&& is_exhaustive == (cs[k].kind@ == "exhaustive_enum"@)
                    &&& repr_type == first_repr(variants_v(variants@))
                } else {
                    &&& variants_v(variants@) == Seq::<VariantV>::empty()
                    &&& is_exhaustive
                    &&& repr_type is None
                }
            }),
        decreases cs.len() - i,
    {
        let c = &n.children[i];
        proof {
            assert(texts_known(*db, s, cs[i as int]));
        }
        if kind_is(c, "exhaustive_enum") {
            is_exhaustive = true;
            let (v, r) = lower_enum_variants(db, src, c);
            variants = v;
            repr_type = r;
        } else if kind_is(c, "non_exhaustive_enum") {
            is_exhaustive = false;
            let (v, r) = lower_enum_variants(db, src, c);
            variants = v;
            repr_type = r;
        }
        i = i + 1;
    }
    proof {
        lemma_last_where(cs, p, cs.len() as int);
    }
    EnumDef { variants, is_exhaustive, repr_type }
}

/// An enum used as a combinator: a struct of one constant field per
/// variant.
pub open spec fn lowered_enum_as_comb(db: Database, s: Seq<char>, n: SyntaxNode) -> CombinatorV {
    CombinatorV::Struct(enum_fields(lowered_enum_def(db, s, n)))
}

fn lower_enum_combinator_as_combinator(db: &Database, src: &str, n: &SyntaxNode) -> (r: Combinator)
    requires
        texts_known(*db, src@, *n),
    ensures
        comb_v(r) == lowered_enum_as_comb(*db, src@, *n),
{
    let e = lower_enum_combinator(db, src, n);
    let ty = match e.repr_type {
        Some(t) => t,
        None => IntType::U8,
    };
    let ghost ev = enum_def_v(e);
    let ghost total = e.variants@;
    let mut variants = e.variants;
    let mut fields: Vec<Field> = Vec::new();
    proof {
        assert(fields_v(fields@) =~= enum_fields(ev).take(0));
        assert(variants@ =~= total.subrange(0, total.len() as int));
    }
    while variants.len() > 0
        invariant
            ev.variants == variants_v(total),
            ty == (match ev.repr_type {
                Some(t) => t,
                None => IntType::U8,
            }),
            variants@.len() <= total.len(),
            variants@ == total.subrange(total.len() - variants@.len(), total.len() as int),
            fields_v(fields@) == enum_fields(ev).take(total.len() - variants@.len()),
        decreases variants@.len(),
    {
        let ghost k = total.len() - variants@.len();
        let v = variants.remove(0);
        proof {
            assert(v == total[k]);
            assert(variants@ =~= total.subrange(total.len() - variants@.len(), total.len() as int));
        }
        let f = Field {
            name: v.name,
            is_dependent: false,
            is_const: true,
            ty: Combinator::Int(ty),
            const_value: Some(v.value),
            span: v.span,
            full_span: v.full_span,
        };
        let ghost before = fields@;
        fields.push(f);
        proof {
            lemma_fields_v_push(before, f);
            assert(comb_v(Combinator::Int(ty)) == CombinatorV::Int(ty));
            assert(field_v(f) == variant_field(ev.variants[k], ty));
            assert(fields_v(fields@) =~= enum_fields(ev).take(k + 1));
        }
    }
    proof {
        assert(enum_fields(ev).take(total.len() as int) =~= enum_fields(ev));
    }
    Combinator::Struct(StructCombinator { fields })
}

// ---------------------------------------------------------------------------
// Combinators.

/// Kinds of the child that decides what a `combinator_inner` is.
pub open spec fn inner_kinds() -> spec_fn(SyntaxNode) -> bool {
    |c: SyntaxNode|
        c.kind@ == "constraint_int_combinator"@ || c.kind@ == "constraint_enum_combinator"@ || c.kind@
            == "struct_combinator"@ || c.kind@ == "choice_combinator"@ || c.kind@ == "array_combinator"@ || c.kind@
            == "vec_combinator"@ || c.kind@ == "option_combinator"@ || c.kind@ == "wrap_combinator"@ || c.kind@
            == "tail_combinator"@ || c.kind@ == "combinator_invocation"@ || c.kind@ == "macro_invocation"@ || c.kind@
            == "enum_combinator"@
}

/// Invocation children that name a type.
pub open spec fn names_type() -> spec_fn(SyntaxNode) -> bool {
    |c: SyntaxNode| c.kind@ == "combinator_invocation"@ && first_of(c.children@, "var_id"@) >= 0
}

/// Children that name a field.
pub open spec fn names_field(s: Seq<char>) -> spec_fn(SyntaxNode) -> bool {
    |c: SyntaxNode| (c.kind@ == "depend_id"@ && binding_of(s, c) is Some) || c.kind@ == "var_id"@
}

/// Children that give a field its type.
pub open spec fn types_field() -> spec_fn(SyntaxNode) -> bool {
    |c: SyntaxNode| c.kind@ == "combinator"@ || c.kind@ == "const_combinator"@
}

/// Children that give a choice arm its pattern.
pub open spec fn gives_pattern(s: Seq<char>) -> spec_fn(SyntaxNode) -> bool {
    |c: SyntaxNode|
        c.kind@ == "variant_id"@ || (c.kind@ == "constraint_elem"@ && lowered_element(s, c) is Some) || c.kind@
            == "const_array"@
}

/// Children that start an argument of `wrap`.
pub open spec fn starts_wrap_arg(db: Database, s: Seq<char>) -> spec_fn(SyntaxNode) -> bool {
    |c: SyntaxNode|
        (c.kind@ == "const_int_combinator"@ && typed_int(s, c) is Some) || (c.kind@ == "const_enum_combinator"@
            && const_enum_parts(db, s, c) is Some) || c.kind@ == "const_bytes_or_array"@ || c.kind@
            == "combinator"@
}

/// A constrained integer: the carrier of the last carrier child, under the
/// last constraint child when there is one.
pub open spec fn lowered_constrained_int(s: Seq<char>, n: SyntaxNode) -> CombinatorV {
    let cs = n.children@;
    let k = last_of(cs, "int_constraint"@);
    match int_type_child(s, cs) {
        Some(t) => if 0 <= k < cs.len() {
            CombinatorV::ConstrainedInt { int_type: t, constraint: lowered_int_constraint(s, cs[k]) }
        } else {
            CombinatorV::Int(t)
        },
        None => CombinatorV::Error,
    }
}

/// A constrained reference: the type the last naming invocation child
/// names, under the last enum constraint child.
pub open spec fn lowered_constrained_enum(db: Database, s: Seq<char>, n: SyntaxNode) -> CombinatorV {
    let cs = n.children@;
    let i = last_where(cs, names_type(), cs.len() as int);
    let e = last_of(cs, "enum_constraint"@);
    let c = if 0 <= e < cs.len() {
        lowered_enum_constraint(db, s, cs[e])
    } else {
        (Seq::empty(), false)
    };
    if 0 <= i < cs.len() {
        match first_var_ref(db, s, cs[i]) {
            Some(r) => CombinatorV::ConstrainedReference { name: r.name, constraint: c.0, negated: c.1, span: node_span(n) },
            None => CombinatorV::Error,
        }
    } else {
        CombinatorV::Error
    }
}

/// The value of the first atom of the first term, when it is a constant.
pub open spec fn leading_const(e: LengthExprV) -> Option<u64> {
    if e.terms.len() > 0 && e.terms[0].atoms.len() > 0 {
        match e.terms[0].atoms[0] {
            AtomV::Const(v) => Some(v),
            _ => None,
        }
    } else {
        None
    }
}

/// A combinator: its last inner child, bound to its last combinator child
/// when there is one.
pub open spec fn lowered_comb(db: Database, s: Seq<char>, n: SyntaxNode) -> CombinatorV
    decreases n, 0int,
{
    let cs = n.children@;
    let i = last_of(cs, "combinator_inner"@);
    let b = last_of(cs, "combinator"@);
    if 0 <= i < cs.len() {
        if 0 <= b < cs.len() {
            CombinatorV::Bind {
                inner: Box::new(lowered_inner(db, s, cs[i])),
                target: Box::new(lowered_comb(db, s, cs[b])),
                span: node_span(n),
            }
        } else {
            lowered_inner(db, s, cs[i])
        }
    } else {
        CombinatorV::Error
    }
}

/// An inner combinator, by the kind of its first deciding child. A macro
/// invocation has no HIR form and lowers to an error.
pub open spec fn lowered_inner(db: Database, s: Seq<char>, n: SyntaxNode) -> CombinatorV
    decreases n, 0int,
{
    let cs = n.children@;
    let j = first_where(cs, inner_kinds(), 0);
    if 0 <= j < cs.len() {
        let c = cs[j];
        if c.kind@ == "constraint_int_combinator"@ {
            lowered_constrained_int(s, c)
        } else if c.kind@ == "constraint_enum_combinator"@ {
            lowered_constrained_enum(db, s, c)
        } else if c.kind@ == "struct_combinator"@ {
            CombinatorV::Struct(fields_from(db, s, c.children@, 0))
        } else if c.kind@ == "choice_combinator"@ {
            lowered_choice(db, s, c)
        } else if c.kind@ == "array_combinator"@ {
            lowered_array(db, s, c)
        } else if c.kind@ == "vec_combinator"@ {
            lowered_vec(db, s, c)
        } else if c.kind@ == "option_combinator"@ {
            lowered_option(db, s, c)
        } else if c.kind@ == "wrap_combinator"@ {
            lowered_wrap(db, s, c)
        } else if c.kind@ == "tail_combinator"@ {
            CombinatorV::Tail
        } else if c.kind@ == "combinator_invocation"@ {
            lowered_invocation(db, s, c)
        } else if c.kind@ == "macro_invocation"@ {
            CombinatorV::Error
        } else {
            lowered_enum_as_comb(db, s, c)
        }
    } else {
        CombinatorV::Error
    }
}

/// The fields of the `field` children from index `j` on.
pub open spec fn fields_from(db: Database, s: Seq<char>, cs: Seq<SyntaxNode>, j: int) -> Seq<FieldV>
    decreases cs, cs.len() - j,
{
    if j < 0 || j >= cs.len() {
        Seq::empty()
    } else {
        (if cs[j].kind@ == "field"@ {
            match lowered_field(db, s, cs[j]) {
                Some(f) => seq![f],
                None => Seq::empty(),
            }
        } else {
            Seq::empty()
        }) + fields_from(db, s, cs, j + 1)
    }
}

/// A struct field: named by its last naming child, typed by its last
/// typing child, with the value of its last constant combinator child.
pub open spec fn lowered_field(db: Database, s: Seq<char>, n: SyntaxNode) -> Option<FieldV>
    decreases n, 0int,
{
    let cs = n.children@;
    let k = last_where(cs, names_field(s), cs.len() as int);
    let t = last_where(cs, types_field(), cs.len() as int);
    let cc = last_of(cs, "const_combinator"@);
    let ty = if 0 <= t < cs.len() {
        if cs[t].kind@ == "combinator"@ {
            Some(lowered_comb(db, s, cs[t]))
        } else {
            lowered_const_comb(db, s, cs[t]).0
        }
    } else {
        None
    };
    if 0 <= k < cs.len() && ty is Some {
        let c = cs[k];
        Some(
            FieldV {
                name: if c.kind@ == "depend_id"@ && binding_of(s, c) is Some {
                    db.name_for(binding_of(s, c)->0)
                } else {
                    db.name_for(node_text(s, c))
                },
                is_dependent: last_of(cs, "depend_id"@) >= 0,
                is_const: last_of(cs, "constant"@) >= 0,
                ty: ty->0,
                const_value: if 0 <= cc < cs.len() {
                    lowered_const_comb(db, s, cs[cc]).1
                } else {
                    None
                },
                span: if c.kind@ == "depend_id"@ && binding_of(s, c) is Some {
                    binding_span(s, c)
                } else {
                    node_span(c)
                },
                full_span: node_span(n),
            },
        )
    } else {
        None
    }
}

/// A choice: the binding its last binding-naming child names, and its arms.
pub open spec fn lowered_choice(db: Database, s: Seq<char>, n: SyntaxNode) -> CombinatorV
    decreases n, 0int,
{
    let cs = n.children@;
    let d = last_where(cs, binds(s), cs.len() as int);
    CombinatorV::Choice {
        discriminant: if 0 <= d < cs.len() {
            Some(dep_ref(db, s, cs[d]))
        } else {
            None
        },
        arms: arms_from(db, s, cs, 0),
    }
}

/// The arms of the `choice_arm` children from index `j` on.
pub open spec fn arms_from(db: Database, s: Seq<char>, cs: Seq<SyntaxNode>, j: int) -> Seq<ArmV>
    decreases cs, cs.len() - j,
{
    if j < 0 || j >= cs.len() {
        Seq::empty()
    } else {
        (if cs[j].kind@ == "choice_arm"@ {
            match lowered_arm(db, s, cs[j]) {
                Some(a) => seq![a],
                None => Seq::empty(),
            }
        } else {
            Seq::empty()
        }) + arms_from(db, s, cs, j + 1)
    }
}

/// The pattern a pattern child of a choice arm gives: `_` is the wildcard,
/// another variant name a variant, a constraint element a constraint, and
/// a constant array its values.
pub open spec fn arm_pattern(db: Database, s: Seq<char>, c: SyntaxNode) -> PatternV {
    if c.kind@ == "variant_id"@ {
        if node_text(s, c) == "_"@ {
            PatternV::Wildcard
        } else {
            PatternV::Variant(ref_at(db, node_text(s, c), c))
        }
    } else if c.kind@ == "constraint_elem"@ {
        PatternV::Constraint(lowered_element(s, c)->0)
    } else {
        PatternV::Array(pattern_values_from(s, c.children@, 0))
    }
}

/// A choice arm: the pattern of its last pattern child and the body of its
/// last combinator child.
pub open spec fn lowered_arm(db: Database, s: Seq<char>, n: SyntaxNode) -> Option<ArmV>
    decreases n, 0int,
{
    let cs = n.children@;
    let k = last_where(cs, gives_pattern(s), cs.len() as int);
    let b = last_of(cs, "combinator"@);
    if 0 <= k < cs.len() && 0 <= b < cs.len() {
        Some(ArmV { pattern: arm_pattern(db, s, cs[k]), body: lowered_comb(db, s, cs[b]), span: node_span(n) })
    } else {
        None
    }
}

/// An array: the element of its last combinator child and the length of
/// its last length child.
pub open spec fn lowered_array(db: Database, s: Seq<char>, n: SyntaxNode) -> CombinatorV
    decreases n, 0int,
{
    let cs = n.children@;
    let e = last_of(cs, "combinator"@);
    let l = last_of(cs, "length_expr"@);
    if 0 <= e < cs.len() && 0 <= l < cs.len() {
        CombinatorV::Array { element: Box::new(lowered_comb(db, s, cs[e])), length: lowered_length(db, s, cs[l]) }
    } else {
        CombinatorV::Error
    }
}

/// `Vec<T>`, from its first combinator child.
pub open spec fn lowered_vec(db: Database, s: Seq<char>, n: SyntaxNode) -> CombinatorV
    decreases n, 0int,
{
    let cs = n.children@;
    let j = first_of(cs, "combinator"@);
    if 0 <= j < cs.len() {
        CombinatorV::Vec(Box::new(lowered_comb(db, s, cs[j])))
    } else {
        CombinatorV::Error
    }
}

/// `Option<T>`, from its first combinator child.
pub open spec fn lowered_option(db: Database, s: Seq<char>, n: SyntaxNode) -> CombinatorV
    decreases n, 0int,
{
    let cs = n.children@;
    let j = first_of(cs, "combinator"@);
    if 0 <= j < cs.len() {
        CombinatorV::Option(Box::new(lowered_comb(db, s, cs[j])))
    } else {
        CombinatorV::Error
    }
}

/// `wrap(...)`, with the arguments of its last argument list.
pub open spec fn lowered_wrap(db: Database, s: Seq<char>, n: SyntaxNode) -> CombinatorV
    decreases n, 0int,
{
    let cs = n.children@;
    let k = last_of(cs, "wrap_args"@);
    CombinatorV::Wrap(
        if 0 <= k < cs.len() {
            wrap_args_from(db, s, cs[k].children@, 0)
        } else {
            Seq::empty()
        },
    )
}

/// The arguments of the `wrap_arg` children from index `j` on.
pub open spec fn wrap_args_from(db: Database, s: Seq<char>, cs: Seq<SyntaxNode>, j: int) -> Seq<WrapArgV>
    decreases cs, cs.len() - j,
{
    if j < 0 || j >= cs.len() {
        Seq::empty()
    } else {
        (if cs[j].kind@ == "wrap_arg"@ {
            match lowered_wrap_arg(db, s, cs[j]) {
                Some(a) => seq![a],
                None => Seq::empty(),
            }
        } else {
            Seq::empty()
        }) + wrap_args_from(db, s, cs, j + 1)
    }
}

/// An argument of `wrap`, from its first child that makes one.
pub open spec fn lowered_wrap_arg(db: Database, s: Seq<char>, n: SyntaxNode) -> Option<WrapArgV>
    decreases n, 0int,
{
    let cs = n.children@;
    let j = first_where(cs, starts_wrap_arg(db, s), 0);
    if 0 <= j < cs.len() {
        let c = cs[j];
        if c.kind@ == "const_int_combinator"@ && typed_int(s, c) is Some {
            let tv = typed_int(s, c)->0;
            Some(WrapArgV::ConstInt { ty: tv.0, value: ConstValueV::Int(tv.1) })
        } else if c.kind@ == "const_enum_combinator"@ && const_enum_parts(db, s, c) is Some {
            let p = const_enum_parts(db, s, c)->0;
            Some(WrapArgV::ConstEnum { ty: p.0, variant: p.1 })
        } else if c.kind@ == "const_bytes_or_array"@ {
            lowered_bytes_or_array(db, s, c)
        } else {
            Some(WrapArgV::Combinator(lowered_comb(db, s, c)))
        }
    } else {
        None
    }
}

/// The carrier of the last of the first `m` combinator children that
/// lowers to a plain integer.
pub open spec fn last_int_comb(db: Database, s: Seq<char>, cs: Seq<SyntaxNode>, m: int) -> Option<IntType>
    decreases cs, m,
{
    if m <= 0 || m > cs.len() {
        None
    } else if cs[m - 1].kind@ == "combinator"@ && lowered_comb(db, s, cs[m - 1]) is Int {
        Some(lowered_comb(db, s, cs[m - 1])->Int_0)
    } else {
        last_int_comb(db, s, cs, m - 1)
    }
}

/// A byte array in `wrap`: with constant values it is a constant byte
/// string whose length is the leading constant of the length expression
/// (or the number of values); without, an array combinator.
pub open spec fn lowered_bytes_or_array(db: Database, s: Seq<char>, n: SyntaxNode) -> Option<WrapArgV>
    decreases n, 0int,
{
    let cs = n.children@;
    let l = last_of(cs, "length_expr"@);
    let k = last_of(cs, "const_array"@);
    let values = if 0 <= k < cs.len() {
        array_values_from(s, cs[k].children@, 0)
    } else {
        Seq::empty()
    };
    match last_int_comb(db, s, cs, cs.len() as int) {
        Some(t) => if 0 <= l < cs.len() {
            let len = lowered_length(db, s, cs[l]);
            if values.len() == 0 {
                Some(WrapArgV::Combinator(CombinatorV::Array { element: Box::new(CombinatorV::Int(t)), length: len }))
            } else {
                Some(
                    WrapArgV::ConstBytes {
                        element_ty: t,
                        length: match leading_const(len) {
                            Some(v) => v,
                            None => values.len() as u64,
                        },
                        values,
                    },
                )
            }
        } else {
            None
        },
        None => None,
    }
}

/// Node kinds that the lowering tells apart are different texts.
proof fn lemma_kinds_distinct()
    ensures
        "depend_id"@ != "var_id"@,
        "combinator"@ != "const_combinator"@,
        "constraint_elem"@ != "const_array"@,
        "const_int_combinator"@ != "const_enum_combinator"@,
        "const_int_combinator"@ != "const_bytes_or_array"@,
        "const_int_combinator"@ != "combinator"@,
        "const_enum_combinator"@ != "const_bytes_or_array"@,
        "const_enum_combinator"@ != "combinator"@,
{
    reveal_strlit("depend_id");
    reveal_strlit("var_id");
    reveal_strlit("combinator");
    reveal_strlit("const_combinator");
    reveal_strlit("constraint_elem");
    reveal_strlit("const_array");
    reveal_strlit("const_int_combinator");
    reveal_strlit("const_enum_combinator");
    reveal_strlit("const_bytes_or_array");
    assert("const_int_combinator"@[6] != "const_bytes_or_array"@[6]);
    assert("depend_id"@[0] != "var_id"@[0]);
    assert("combinator"@[2] != "const_combinator"@[2]);
    assert("constraint_elem"@[5] != "const_array"@[5]);
    assert("const_int_combinator"@[6] != "const_enum_combinator"@[6]);
    assert("const_int_combinator"@[0] != "combinator"@[0] || "const_int_combinator"@.len() != "combinator"@.len());
    assert("const_enum_combinator"@[6] != "const_bytes_or_array"@[6]);
    assert("const_enum_combinator"@.len() != "combinator"@.len());
}

fn lower_constraint_int_combinator(src: &str, n: &SyntaxNode) -> (r: Combinator)
    ensures
        comb_v(r) == lowered_constrained_int(src@, *n),
{
    let ghost cs = n.children@;
    let ghost s = src@;
    let ghost pt = is_kind("int_combinator"@);
    let ghost pc = is_kind("int_constraint"@);
    let mut ty: Option<IntType> = None;
    let mut constraint: Option<IntConstraint> = None;
    let mut i: usize = 0;
    while i < n.children.len()
        invariant
            i <= cs.len(),
            cs == n.children@,
            s == src@,
            pt == is_kind("int_combinator"@),
            pc == is_kind("int_constraint"@),
            ty == (if last_where(cs, pt, i as int) >= 0 {
                spec_int_type_from_keyword(node_text(s, cs[last_where(cs, pt, i as int)]))
            } else {
                None
            }),
            match constraint {
                Some(c) => last_where(cs, pc, i as int) >= 0 && int_constraint_v(c) == lowered_int_constraint(
                    s,
                    cs[last_where(cs, pc, i as int)],
                ),
                None => last_where(cs, pc, i as int) < 0,
            },
        decreases cs.len() - i,
    {
        let c = &n.children[i];
        if kind_is(c, "int_combinator") {
            ty = IntType::from_keyword(text_of_node(src, c));
        }
        if kind_is(c, "int_constraint") {
            constraint = Some(lower_int_constraint(src, c));
        }
        i = i + 1;
    }
    proof {
        lemma_last_where(cs, pt, cs.len() as int);
        lemma_last_where(cs, pc, cs.len() as int);
    }
    match (ty, constraint) {
        (Some(t), Some(c)) => Combinator::ConstrainedInt { int_type: t, constraint: c },
        (Some(t), None) => Combinator::Int(t),
        _ => Combinator::Error,
    }
}

fn lower_constraint_enum_combinator(db: &Database, src: &str, n: &SyntaxNode) -> (r: Combinator)
    requires
        texts_known(*db, src@, *n),
    ensures
        comb_v(r) == lowered_constrained_enum(*db, src@, *n),
{
    let ghost cs = n.children@;
    let ghost s = src@;
    let ghost pn = names_type();
    let ghost pe = is_kind("enum_constraint"@);
    let mut name: Option<NameRef> = None;
    let mut constraint: Option<(Vec<NameRef>, bool)> = None;
    let mut i: usize = 0;
    while i < n.children.len()
        invariant
            i <= cs.len(),
            cs == n.children@,
            s == src@,
            pn == names_type(),
            pe == is_kind("enum_constraint"@),
            texts_known(*db, s, *n),
            name == (if last_where(cs, pn, i as int) >= 0 {
                first_var_ref(*db, s, cs[last_where(cs, pn, i as int)])
            } else {
                None
            }),
            match constraint {
                Some(c) => last_where(cs, pe, i as int) >= 0 && (c.0@, c.1) == lowered_enum_constraint(
                    *db,
                    s,
                    cs[last_where(cs, pe, i as int)],
                ),
                None => last_where(cs, pe, i as int) < 0,
            },
        decreases cs.len() - i,
    {
        let c = &n.children[i];
        proof {
            assert(texts_known(*db, s, cs[i as int]));
            lemma_first_where(cs[i as int].children@, is_kind("var_id"@), 0);
        }
        if kind_is(c, "combinator_invocation") {
            match extract_var_id(db, src, c) {
                Some(r) => {
                    name = Some(r);
                },
                None => {},
            }
        }
        if kind_is(c, "enum_constraint") {
            constraint = Some(lower_enum_constraint(db, src, c));
        }
        i = i + 1;
    }
    proof {
        lemma_last_where(cs, pn, cs.len() as int);
        lemma_last_where(cs, pe, cs.len() as int);
    }
    match name {
        Some(r) => {
            let (names, negated) = match constraint {
                Some(c) => c,
                None => (Vec::new(), false),
            };
            Combinator::ConstrainedReference { name: r.name, constraint: names, negated, span: span_of(n) }
        },
        None => Combinator::Error,
    }
}

/// Lowers a combinator.
pub fn lower_combinator(db: &Database, src: &str, n: &SyntaxNode) -> (r: Combinator)
    requires
        texts_known(*db, src@, *n),
    ensures
        comb_v(r) == lowered_comb(*db, src@, *n),
    decreases n,
{
    let ghost cs = n.children@;
    let ghost s = src@;
    let ghost pi = is_kind("combinator_inner"@);
    let ghost pb = is_kind("combinator"@);
    let mut inner: Option<Combinator> = None;
    let mut target: Option<Combinator> = None;
    let mut i: usize = 0;
    while i < n.children.len()
        invariant
            i <= cs.len(),
            cs == n.children@,
            s == src@,
            pi == is_kind("combinator_inner"@),
            pb == is_kind("combinator"@),
            texts_known(*db, s, *n),
            match inner {
                Some(c) => last_where(cs, pi, i as int) >= 0 && comb_v(c) == lowered_inner(
                    *db,
                    s,
                    cs[last_where(cs, pi, i as int)],
                ),
                None => last_where(cs, pi, i as int) < 0,
            },
            match target {
                Some(c) => last_where(cs, pb, i as int) >= 0 && comb_v(c) == lowered_comb(
                    *db,
                    s,
                    cs[last_where(cs, pb, i as int)],
                ),
                None => last_where(cs, pb, i as int) < 0,
            },
        decreases cs.len() - i,
    {
        let c = &n.children[i];
        proof {
            assert(texts_known(*db, s, cs[i as int]));
        }
        if kind_is(c, "combinator_inner") {
            inner = Some(lower_combinator_inner(db, src, c));
        }
        if kind_is(c, "combinator") {
            target = Some(lower_combinator(db, src, c));
        }
        i = i + 1;
    }
    proof {
        lemma_last_where(cs, pi, cs.len() as int);
        lemma_last_where(cs, pb, cs.len() as int);
    }
    match (inner, target) {
        (Some(i), Some(t)) => Combinator::Bind { inner: Box::new(i), target: Box::new(t), span: span_of(n) },
        (Some(i), None) => i,
        _ => Combinator::Error,
    }
}

fn lower_combinator_inner(db: &Database, src: &str, n: &SyntaxNode) -> (r: Combinator)
    requires
        texts_known(*db, src@, *n),
    ensures
        comb_v(r) == lowered_inner(*db, src@, *n),
    decreases n,
{
    let ghost cs = n.children@;
    let ghost s = src@;
    let ghost p = inner_kinds();
    let mut i: usize = 0;
    while i < n.children.len()
        invariant
            i <= cs.len(),
            cs == n.children@,
            s == src@,
            p == inner_kinds(),
            texts_known(*db, s, *n),
            first_where(cs, p, 0) == first_where(cs, p, i as int),
        decreases cs.len() - i,
    {
        let c = &n.children[i];
        proof {
            assert(texts_known(*db, s, cs[i as int]));
        }
        if kind_is(c, "constraint_int_combinator") {
            return lower_constraint_int_combinator(src, c);
        } else if kind_is(c, "constraint_enum_combinator") {
            return lower_constraint_enum_combinator(db, src, c);
        } else if kind_is(c, "struct_combinator") {
            return lower_struct_combinator(db, src, c);
        } else if kind_is(c, "choice_combinator") {
            return lower_choice_combinator(db, src, c);
        } else if kind_is(c, "array_combinator") {
            return lower_array_combinator(db, src, c);
        } else if kind_is(c, "vec_combinator") {
            return lower_vec_combinator(db, src, c);
        } else if kind_is(c, "option_combinator") {
            return lower_option_combinator(db, src, c);
        } else if kind_is(c, "wrap_combinator") {
            return lower_wrap_combinator(db, src, c);
        } else if kind_is(c, "tail_combinator") {
            return Combinator::Tail;
        } else if kind_is(c, "combinator_invocation") {
            return lower_combinator_invocation(db, src, c);
        } else if kind_is(c, "macro_invocation") {
            // The HIR has no form for macros: an invocation is the error
            // placeholder, which type inference gives the error type
            // without a diagnostic.
            return Combinator::Error;
        } else if kind_is(c, "enum_combinator") {
            return lower_enum_combinator_as_combinator(db, src, c);
        }
        i = i + 1;
    }
    Combinator::Error
}

fn lower_struct_combinator(db: &Database, src: &str, n: &SyntaxNode) -> (r: Combinator)
    requires
        texts_known(*db, src@, *n),
    ensures
        comb_v(r) == CombinatorV::Struct(fields_from(*db, src@, n.children@, 0)),
    decreases n,
{
    let ghost cs = n.children@;
    let ghost s = src@;
    let mut fields: Vec<Field> = Vec::new();
    let mut i: usize = 0;
    while i < n.children.len()
        invariant
            i <= cs.len(),
            cs == n.children@,
            s == src@,
            texts_known(*db, s, *n),
            fields_v(fields@) + fields_from(*db, s, cs, i as int) == fields_from(*db, s, cs, 0),
        decreases cs.len() - i,
    {
        let c = &n.children[i];
        proof {
            assert(texts_known(*db, s, cs[i as int]));
        }
        let ghost before = fields@;
        if kind_is(c, "field") {
            match lower_field(db, src, c) {
                Some(f) => {
                    fields.push(f);
                    proof {
                        lemma_fields_v_push(before, f);
                    }
                },
                None => {},
            }
        }
        proof {
            assert(fields_v(fields@) + fields_from(*db, s, cs, i + 1) =~= fields_v(before) + fields_from(
                *db,
                s,
                cs,
                i as int,
            ));
        }
        i = i + 1;
    }
    proof {
        assert(fields_v(fields@) + fields_from(*db, s, cs, i as int) =~= fields_v(fields@));
    }
    Combinator::Struct(StructCombinator { fields })
}

fn lower_field(db: &Database, src: &str, n: &SyntaxNode) -> (r: Option<Field>)
    requires
        texts_known(*db, src@, *n),
    ensures
        match r {
            Some(f) => lowered_field(*db, src@, *n) == Some(field_v(f)),
            None => lowered_field(*db, src@, *n) is None,
        },
    decreases n,
{
    let ghost cs = n.children@;
    let ghost s = src@;
    let ghost pn = names_field(s);
    let ghost pt = types_field();
    let ghost pc = is_kind("const_combinator"@);
    let ghost pd = is_kind("depend_id"@);
    let ghost pk = is_kind("constant"@);
    proof {
        lemma_kinds_distinct();
    }
    let mut is_const = false;
    let mut is_dependent = false;
    let mut name: Option<(Name, Span)> = None;
    let mut ty: Option<Combinator> = None;
    let mut const_value: Option<ConstValue> = None;
    let mut i: usize = 0;
    while i < n.children.len()
        invariant
            i <= cs.len(),
            cs == n.children@,
            s == src@,
            pn == names_field(s),
            pt == types_field(),
            pc == is_kind("const_combinator"@),
            pd == is_kind("depend_id"@),
            pk == is_kind("constant"@),
            "depend_id"@ != "var_id"@,
            "combinator"@ != "const_combinator"@,
            texts_known(*db, s, *n),
            is_const == (last_where(cs, pk, i as int) >= 0),
            is_dependent == (last_where(cs, pd, i as int) >= 0),
            name == (if last_where(cs, pn, i as int) >= 0 {
                let c = cs[last_where(cs, pn, i as int)];
                Some(
                    (
                        if c.kind@ == "depend_id"@ && binding_of(s, c) is Some {
                            db.name_for(binding_of(s, c)->0)
                        } else {
                            db.name_for(node_text(s, c))
                        },
                        if c.kind@ == "depend_id"@ && binding_of(s, c) is Some {
                            binding_span(s, c)
                        } else {
                            node_span(c)
                        },
                    ),
                )
            } else {
                None
            }),
            opt_comb_v(ty) == (if last_where(cs, pt, i as int) >= 0 {
                let c = cs[last_where(cs, pt, i as int)];
                if c.kind@ == "combinator"@ {
                    Some(lowered_comb(*db, s, c))
                } else {
                    lowered_const_comb(*db, s, c).0
                }
            } else {
                None
            }),
            opt_const_v(const_value) == (if last_where(cs, pc, i as int) >= 0 {
                lowered_const_comb(*db, s, cs[last_where(cs, pc, i as int)]).1
            } else {
                None
            }),
        decreases cs.len() - i,
    {
        let c = &n.children[i];
        proof {
            assert(texts_known(*db, s, cs[i as int]));
        }
        if kind_is(c, "constant") {
            is_const = true;
        }
        if kind_is(c, "depend_id") {
            is_dependent = true;
            match binding_ref(db, src, c) {
                Some(r) => {
                    name = Some((r.name, r.span));
                },
                None => {},
            }
        } else if kind_is(c, "var_id") {
            name = Some((db.lookup(text_of_node(src, c)), span_of(c)));
        }
        if kind_is(c, "combinator") {
            ty = Some(lower_combinator(db, src, c));
        } else if kind_is(c, "const_combinator") {
            let (t, v) = lower_const_combinator(db, src, c);
            ty = t;
            const_value = v;
        }
        i = i + 1;
    }
    proof {
        lemma_last_where(cs, pn, cs.len() as int);
        lemma_last_where(cs, pt, cs.len() as int);
        lemma_last_where(cs, pc, cs.len() as int);
    }
    match (name, ty) {
        (Some((name, span)), Some(ty)) => Some(
            Field { name, is_dependent, is_const, ty, const_value, span, full_span: span_of(n) },
        ),
        _ => None,
    }
}

fn lower_choice_combinator(db: &Database, src: &str, n: &SyntaxNode) -> (r: Combinator)
    requires
        texts_known(*db, src@, *n),
    ensures
        comb_v(r) == lowered_choice(*db, src@, *n),
    decreases n,
{
    let ghost cs = n.children@;
    let ghost s = src@;
    let ghost pd = binds(s);
    let mut discriminant: Option<NameRef> = None;
    let mut arms: Vec<ChoiceArm> = Vec::new();
    let mut i: usize = 0;
    while i < n.children.len()
        invariant
            i <= cs.len(),
            cs == n.children@,
            s == src@,
            pd == binds(s),
            texts_known(*db, s, *n),
            discriminant == (if last_where(cs, pd, i as int) >= 0 {
                Some(dep_ref(*db, s, cs[last_where(cs, pd, i as int)]))
            } else {
                None
            }),
            arms_v(arms@) + arms_from(*db, s, cs, i as int) == arms_from(*db, s, cs, 0),
        decreases cs.len() - i,
    {
        let c = &n.children[i];
        proof {
            assert(texts_known(*db, s, cs[i as int]));
        }
        let ghost before = arms@;
        if kind_is(c, "depend_id") {
            match binding_ref(db, src, c) {
                Some(r) => {
                    discriminant = Some(r);
                },
                None => {},
            }
        }
        if kind_is(c, "choice_arm") {
            match lower_choice_arm(db, src, c) {
                Some(a) => {
                    arms.push(a);
                    proof {
                        lemma_arms_v_push(before, a);
                    }
                },
                None => {},
            }
        }
        proof {
            assert(arms_v(arms@) + arms_from(*db, s, cs, i + 1) =~= arms_v(before) + arms_from(*db, s, cs, i as int));
        }
        i = i + 1;
    }
    proof {
        assert(arms_v(arms@) + arms_from(*db, s, cs, i as int) =~= arms_v(arms@));
        lemma_last_where(cs, pd, cs.len() as int);
    }
    Combinator::Choice(ChoiceCombinator { discriminant, arms })
}

fn lower_choice_arm(db: &Database, src: &str, n: &SyntaxNode) -> (r: Option<ChoiceArm>)
    requires
        texts_known(*db, src@, *n),
    ensures
        match r {
            Some(a) => lowered_arm(*db, src@, *n) == Some(arm_v(a)),
            None => lowered_arm(*db, src@, *n) is None,
        },
    decreases n,
{
    let ghost cs = n.children@;
    let ghost s = src@;
    let ghost pp = gives_pattern(s);
    let ghost pb = is_kind("combinator"@);
    proof {
        lemma_kinds_distinct();
    }
    let mut pattern: Option<ChoicePattern> = None;
    let mut body: Option<Combinator> = None;
    let mut i: usize = 0;
    while i < n.children.len()
        invariant
            i <= cs.len(),
            cs == n.children@,
            s == src@,
            pp == gives_pattern(s),
            pb == is_kind("combinator"@),
            "constraint_elem"@ != "const_array"@,
            texts_known(*db, s, *n),
            match pattern {
                Some(p) => last_where(cs, pp, i as int) >= 0 && pattern_v(p) == arm_pattern(
                    *db,
                    s,
                    cs[last_where(cs, pp, i as int)],
                ),
                None => last_where(cs, pp, i as int) < 0,
            },
            match body {
                Some(b) => last_where(cs, pb, i as int) >= 0 && comb_v(b) == lowered_comb(
                    *db,
                    s,
                    cs[last_where(cs, pb, i as int)],
                ),
                None => last_where(cs, pb, i as int) < 0,
            },
        decreases cs.len() - i,
    {
        let c = &n.children[i];
        proof {
            assert(texts_known(*db, s, cs[i as int]));
        }
        if kind_is(c, "variant_id") {
            let t = text_of_node(src, c);
            pattern = Some(
                if str_eq(t, "_") {
                    ChoicePattern::Wildcard
                } else {
                    ChoicePattern::Variant(NameRef { name: db.lookup(t), span: span_of(c) })
                },
            );
        } else if kind_is(c, "constraint_elem") {
            match lower_constraint_elem(src, c) {
                Some(e) => {
                    pattern = Some(ChoicePattern::Constraint(e));
                },
                None => {},
            }
        } else if kind_is(c, "const_array") {
            let values = lower_const_array_pattern(src, c);
            pattern = Some(ChoicePattern::Array(values));
        }
        if kind_is(c, "combinator") {
            body = Some(lower_combinator(db, src, c));
        }
        i = i + 1;
    }
    proof {
        lemma_last_where(cs, pp, cs.len() as int);
        lemma_last_where(cs, pb, cs.len() as int);
    }
    match (pattern, body) {
        (Some(pattern), Some(body)) => Some(ChoiceArm { pattern, body, span: span_of(n) }),
        _ => None,
    }
}

fn lower_array_combinator(db: &Database, src: &str, n: &SyntaxNode) -> (r: Combinator)
    requires
        texts_known(*db, src@, *n),
    ensures
        comb_v(r) == lowered_array(*db, src@, *n),
    decreases n,
{
    let ghost cs = n.children@;
    let ghost s = src@;
    let ghost pe = is_kind("combinator"@);
    let ghost pl = is_kind("length_expr"@);
    let mut element: Option<Combinator> = None;
    let mut length: Option<LengthExpr> = None;
    let mut i: usize = 0;
    while i < n.children.len()
        invariant
            i <= cs.len(),
            cs == n.children@,
            s == src@,
            pe == is_kind("combinator"@),
            pl == is_kind("length_expr"@),
            texts_known(*db, s, *n),
            match element {
                Some(c) => last_where(cs, pe, i as int) >= 0 && comb_v(c) == lowered_comb(
                    *db,
                    s,
                    cs[last_where(cs, pe, i as int)],
                ),
                None => last_where(cs, pe, i as int) < 0,
            },
            match length {
                Some(l) => last_where(cs, pl, i as int) >= 0 && length_v(l) == lowered_length(
                    *db,
                    s,
                    cs[last_where(cs, pl, i as int)],
                ),
                None => last_where(cs, pl, i as int) < 0,
            },
        decreases cs.len() - i,
    {
        let c = &n.children[i];
        proof {
            assert(texts_known(*db, s, cs[i as int]));
        }
        if kind_is(c, "combinator") {
            element = Some(lower_combinator(db, src, c));
        }
        if kind_is(c, "length_expr") {
            length = Some(lower_length_expr(db, src, c));
        }
        i = i + 1;
    }
    proof {
        lemma_last_where(cs, pe, cs.len() as int);
        lemma_last_where(cs, pl, cs.len() as int);
    }
    match (element, length) {
        (Some(element), Some(length)) => Combinator::Array(ArrayCombinator { element: Box::new(element), length }),
        _ => Combinator::Error,
    }
}

fn lower_vec_combinator(db: &Database, src: &str, n: &SyntaxNode) -> (r: Combinator)
    requires
        texts_known(*db, src@, *n),
    ensures
        comb_v(r) == lowered_vec(*db, src@, *n),
    decreases n,
{
    let ghost cs = n.children@;
    let ghost p = is_kind("combinator"@);
    let mut i: usize = 0;
    while i < n.children.len()
        invariant
            i <= cs.len(),
            cs == n.children@,
            p == is_kind("combinator"@),
            texts_known(*db, src@, *n),
            first_where(cs, p, 0) == first_where(cs, p, i as int),
        decreases cs.len() - i,
    {
        let c = &n.children[i];
        proof {
            assert(texts_known(*db, src@, cs[i as int]));
        }
        if kind_is(c, "combinator") {
            let e = lower_combinator(db, src, c);
            return Combinator::Vec(VecCombinator { element: Box::new(e) });
        }
        i = i + 1;
    }
    Combinator::Error
}

fn lower_option_combinator(db: &Database, src: &str, n: &SyntaxNode) -> (r: Combinator)
    requires
        texts_known(*db, src@, *n),
    ensures
        comb_v(r) == lowered_option(*db, src@, *n),
    decreases n,
{
    let ghost cs = n.children@;
    let ghost p = is_kind("combinator"@);
    let mut i: usize = 0;
    while i < n.children.len()
        invariant
            i <= cs.len(),
            cs == n.children@,
            p == is_kind("combinator"@),
            texts_known(*db, src@, *n),
            first_where(cs, p, 0) == first_where(cs, p, i as int),
        decreases cs.len() - i,
    {
        let c = &n.children[i];
        proof {
            assert(texts_known(*db, src@, cs[i as int]));
        }
        if kind_is(c, "combinator") {
            let e = lower_combinator(db, src, c);
            return Combinator::Option(OptionCombinator { element: Box::new(e) });
        }
        i = i + 1;
    }
    Combinator::Error
}

fn lower_wrap_combinator(db: &Database, src: &str, n: &SyntaxNode) -> (r: Combinator)
    requires
        texts_known(*db, src@, *n),
    ensures
        comb_v(r) == lowered_wrap(*db, src@, *n),
    decreases n,
{
    let ghost cs = n.children@;
    let ghost s = src@;
    let ghost p = is_kind("wrap_args"@);
    let mut args: Vec<WrapArg> = Vec::new();
    proof {
        assert(wrap_args_v(args@) =~= Seq::<WrapArgV>::empty());
    }
    let mut i: usize = 0;
    while i < n.children.len()
        invariant
            i <= cs.len(),
            cs == n.children@,
            s == src@,
            p == is_kind("wrap_args"@),
            texts_known(*db, s, *n),
            wrap_args_v(args@) == (if last_where(cs, p, i as int) >= 0 {
                wrap_args_from(*db, s, cs[last_where(cs, p, i as int)].children@, 0)
            } else {
                Seq::empty()
            }),
        decreases cs.len() - i,
    {
        let c = &n.children[i];
        proof {
            assert(texts_known(*db, s, cs[i as int]));
        }
        if kind_is(c, "wrap_args") {
            args = lower_wrap_args(db, src, c);
        }
        i = i + 1;
    }
    proof {
        lemma_last_where(cs, p, cs.len() as int);
    }
    Combinator::Wrap(WrapCombinator { args })
}

fn lower_wrap_args(db: &Database, src: &str, n: &SyntaxNode) -> (r: Vec<WrapArg>)
    requires
        texts_known(*db, src@, *n),
    ensures
        wrap_args_v(r@) == wrap_args_from(*db, src@, n.children@, 0),
    decreases n,
{
    let ghost cs = n.children@;
    let ghost s = src@;
    let mut args: Vec<WrapArg> = Vec::new();
    let mut i: usize = 0;
    while i < n.children.len()
        invariant
            i <= cs.len(),
            cs == n.children@,
            s == src@,
            texts_known(*db, s, *n),
            wrap_args_v(args@) + wrap_args_from(*db, s, cs, i as int) == wrap_args_from(*db, s, cs, 0),
        decreases cs.len() - i,
    {
        let c = &n.children[i];
        proof {
            assert(texts_known(*db, s, cs[i as int]));
        }
        let ghost before = args@;
        if kind_is(c, "wrap_arg") {
            match lower_wrap_arg(db, src, c) {
                Some(a) => {
                    args.push(a);
                    proof {
                        lemma_wrap_args_v_push(before, a);
                    }
                },
                None => {},
            }
        }
        proof {
            assert(wrap_args_v(args@) + wrap_args_from(*db, s, cs, i + 1) =~= wrap_args_v(before) + wrap_args_from(
                *db,
                s,
                cs,
                i as int,
            ));
        }
        i = i + 1;
    }
    proof {
        assert(wrap_args_v(args@) + wrap_args_from(*db, s, cs, i as int) =~= wrap_args_v(args@));
    }
    args
}

fn lower_wrap_arg(db: &Database, src: &str, n: &SyntaxNode) -> (r: Option<WrapArg>)
    requires
        texts_known(*db, src@, *n),
    ensures
        match r {
            Some(a) => lowered_wrap_arg(*db, src@, *n) == Some(wrap_arg_v(a)),
            None => lowered_wrap_arg(*db, src@, *n) is None,
        },
    decreases n,
{
    let ghost cs = n.children@;
    let ghost s = src@;
    let ghost p = starts_wrap_arg(*db, s);
    proof {
        lemma_kinds_distinct();
    }
    let mut i: usize = 0;
    while i < n.children.len()
        invariant
            i <= cs.len(),
            cs == n.children@,
            s == src@,
            p == starts_wrap_arg(*db, s),
            "const_int_combinator"@ != "const_enum_combinator"@,
            "const_int_combinator"@ != "const_bytes_or_array"@,
            "const_int_combinator"@ != "combinator"@,
            "const_enum_combinator"@ != "const_bytes_or_array"@,
            "const_enum_combinator"@ != "combinator"@,
            texts_known(*db, s, *n),
            first_where(cs, p, 0) == first_where(cs, p, i as int),
        decreases cs.len() - i,
    {
        let c = &n.children[i];
        proof {
            assert(texts_known(*db, s, cs[i as int]));
        }
        if kind_is(c, "const_int_combinator") {
            match lower_const_int_combinator(src, c) {
                Some((ty, v)) => {
                    return Some(WrapArg::ConstInt { ty, value: ConstValue::Int(v) });
                },
                None => {},
            }
        } else if kind_is(c, "const_enum_combinator") {
            match lower_const_enum_combinator(db, src, c) {
                Some((ty, variant)) => {
                    return Some(WrapArg::ConstEnum { ty, variant });
                },
                None => {},
            }
        } else if kind_is(c, "const_bytes_or_array") {
            return lower_const_bytes_or_array(db, src, c);
        } else if kind_is(c, "combinator") {
            return Some(WrapArg::Combinator(lower_combinator(db, src, c)));
        }
        i = i + 1;
    }
    None
}

fn lower_const_bytes_or_array(db: &Database, src: &str, n: &SyntaxNode) -> (r: Option<WrapArg>)
    requires
        texts_known(*db, src@, *n),
    ensures
        match r {
            Some(a) => lowered_bytes_or_array(*db, src@, *n) == Some(wrap_arg_v(a)),
            None => lowered_bytes_or_array(*db, src@, *n) is None,
        },
    decreases n,
{
    let ghost cs = n.children@;
    let ghost s = src@;
    let ghost pl = is_kind("length_expr"@);
    let ghost pa = is_kind("const_array"@);
    let mut element_type: Option<IntType> = None;
    let mut length: Option<LengthExpr> = None;
    let mut values: Vec<ConstValue> = Vec::new();
    proof {
        assert(consts_v(values@) =~= Seq::<ConstValueV>::empty());
    }
    let mut i: usize = 0;
    while i < n.children.len()
        invariant
            i <= cs.len(),
            cs == n.children@,
            s == src@,
            pl == is_kind("length_expr"@),
            pa == is_kind("const_array"@),
            texts_known(*db, s, *n),
            element_type == last_int_comb(*db, s, cs, i as int),
            match length {
                Some(l) => last_where(cs, pl, i as int) >= 0 && length_v(l) == lowered_length(
                    *db,
                    s,
                    cs[last_where(cs, pl, i as int)],
                ),
                None => last_where(cs, pl, i as int) < 0,
            },
            consts_v(values@) == (if last_where(cs, pa, i as int) >= 0 {
                array_values_from(s, cs[last_where(cs, pa, i as int)].children@, 0)
            } else {
                Seq::empty()
            }),
        decreases cs.len() - i,
    {
        let c = &n.children[i];
        proof {
            assert(texts_known(*db, s, cs[i as int]));
        }
        if kind_is(c, "combinator") {
            let comb = lower_combinator(db, src, c);
            match comb {
                Combinator::Int(t) => {
                    element_type = Some(t);
                },
                _ => {},
            }
        }
        if kind_is(c, "length_expr") {
            length = Some(lower_length_expr(db, src, c));
        }
        if kind_is(c, "const_array") {
            values = lower_const_array_values(src, c);
        }
        i = i + 1;
    }
    proof {
        lemma_last_where(cs, pl, cs.len() as int);
        lemma_last_where(cs, pa, cs.len() as int);
        lemma_consts_v_len(values@);
    }
    match (element_type, length) {
        (Some(ty), Some(len)) => {
            if values.len() == 0 {
                proof {
                    assert(comb_v(Combinator::Int(ty)) == CombinatorV::Int(ty));
                }
                Some(
                    WrapArg::Combinator(Combinator::Array(ArrayCombinator { element: Box::new(Combinator::Int(ty)), length: len })),
                )
            } else {
                proof {
                    lemma_terms_v_index(len.terms@);
                    if len.terms@.len() > 0 {
                        lemma_atoms_v_index(len.terms@[0].atoms@);
                    }
                }
                let count = values.len() as u64;
                let length_value = if len.terms.len() > 0 && len.terms[0].atoms.len() > 0 {
                    match &len.terms[0].atoms[0] {
                        LengthAtom::Const(v) => *v,
                        _ => count,
                    }
                } else {
                    count
                };
                Some(WrapArg::ConstBytes { element_ty: ty, length: length_value, values })
            }
        },
        _ => None,
    }
}

// ---------------------------------------------------------------------------
// Definitions.

/// The visibility a modifier spells.
pub open spec fn visibility_of(t: Seq<char>) -> Visibility {
    if t == "public"@ {
        Visibility::Public
    } else if t == "secret"@ {
        Visibility::Secret
    } else {
        Visibility::Default
    }
}

/// Inner combinator children that hold an enum.
pub open spec fn holds_enum() -> spec_fn(SyntaxNode) -> bool {
    |c: SyntaxNode| c.kind@ == "combinator_inner"@ && last_of(c.children@, "enum_combinator"@) >= 0
}

/// The enum a definition body is, when it has no bind target: the last
/// enum under its inner combinator children.
pub open spec fn lowered_top_enum(db: Database, s: Seq<char>, n: SyntaxNode) -> Option<EnumDefV> {
    let cs = n.children@;
    if last_of(cs, "combinator"@) >= 0 {
        None
    } else {
        let i = last_where(cs, holds_enum(), cs.len() as int);
        if 0 <= i < cs.len() {
            let g = cs[i].children@;
            let j = last_of(g, "enum_combinator"@);
            if 0 <= j < g.len() {
                Some(lowered_enum_def(db, s, g[j]))
            } else {
                None
            }
        } else {
            None
        }
    }
}

/// A parameter: named by the binding of its last binding-naming child and
/// typed by its last inner combinator child.
pub open spec fn lowered_param_defn(db: Database, s: Seq<char>, n: SyntaxNode) -> Option<ParamV> {
    let cs = n.children@;
    let k = last_where(cs, binds(s), cs.len() as int);
    let t = last_of(cs, "combinator_inner"@);
    if 0 <= k < cs.len() && 0 <= t < cs.len() {
        Some(
            ParamV {
                name: db.name_for(binding_of(s, cs[k])->0),
                ty: lowered_inner(db, s, cs[t]),
                span: binding_span(s, cs[k]),
                full_span: node_span(n),
            },
        )
    } else {
        None
    }
}

/// The parameters of the `param_defn` children from index `j` on.
pub open spec fn params_from(db: Database, s: Seq<char>, cs: Seq<SyntaxNode>, j: int) -> Seq<ParamV>
    decreases cs.len() - j,
{
    if j < 0 || j >= cs.len() {
        Seq::empty()
    } else {
        (if cs[j].kind@ == "param_defn"@ {
            match lowered_param_defn(db, s, cs[j]) {
                Some(p) => seq![p],
                None => Seq::empty(),
            }
        } else {
            Seq::empty()
        }) + params_from(db, s, cs, j + 1)
    }
}

/// A combinator definition: named by its last `var_id` child, with the
/// visibility of its last modifier, the parameters of its last parameter
/// list, and the body of its last combinator child (an enum when that body
/// is one, an error when there is no body).
pub open spec fn lowered_comb_defn(db: Database, s: Seq<char>, n: SyntaxNode) -> Option<DefinitionV> {
    let cs = n.children@;
    let m = last_of(cs, "modifier"@);
    let v = last_of(cs, "var_id"@);
    let p = last_of(cs, "param_defn_list"@);
    let b = last_of(cs, "combinator"@);
    let params = if 0 <= p < cs.len() {
        params_from(db, s, cs[p].children@, 0)
    } else {
        Seq::empty()
    };
    if 0 <= v < cs.len() {
        Some(
            DefinitionV {
                name: db.name_for(node_text(s, cs[v])),
                visibility: if 0 <= m < cs.len() {
                    visibility_of(node_text(s, cs[m]))
                } else {
                    Visibility::Default
                },
                kind: if 0 <= b < cs.len() {
                    match lowered_top_enum(db, s, cs[b]) {
                        Some(e) => DefinitionKindV::Enum(e),
                        None => DefinitionKindV::Combinator { params, body: lowered_comb(db, s, cs[b]) },
                    }
                } else {
                    DefinitionKindV::Combinator { params, body: CombinatorV::Error }
                },
                name_span: node_span(cs[v]),
                span: node_span(n),
            },
        )
    } else {
        None
    }
}

/// A constant definition: named by its last `const_id` child, with the type
/// and value of its last constant combinator child, when all are there.
pub open spec fn lowered_const_defn(db: Database, s: Seq<char>, n: SyntaxNode) -> Option<DefinitionV> {
    let cs = n.children@;
    let k = last_of(cs, "const_id"@);
    let c = last_of(cs, "const_combinator"@);
    let tv = if 0 <= c < cs.len() {
        lowered_const_comb(db, s, cs[c])
    } else {
        (None, None)
    };
    if 0 <= k < cs.len() && tv.0 is Some && tv.1 is Some {
        Some(
            DefinitionV {
                name: db.name_for(node_text(s, cs[k])),
                visibility: Visibility::Default,
                kind: DefinitionKindV::Const { ty: tv.0->0, value: tv.1->0 },
                name_span: node_span(cs[k]),
                span: node_span(n),
            },
        )
    } else {
        None
    }
}

/// Whether `w` occurs in `t`.
pub open spec fn contains_text(t: Seq<char>, w: Seq<char>) -> bool {
    exists|i: int| 0 <= i && i + w.len() <= t.len() && #[trigger] t.subrange(i, i + w.len()) == w
}

/// An endianness directive: named by its own text, little-endian when that
/// text mentions `LITTLE` and big-endian otherwise.
pub open spec fn lowered_endianness(db: Database, s: Seq<char>, n: SyntaxNode) -> DefinitionV {
    let t = node_text(s, n);
    DefinitionV {
        name: db.name_for(t),
        visibility: Visibility::Default,
        kind: DefinitionKindV::Endianness(
            if contains_text(t, "LITTLE"@) {
                Endianness::Little
            } else {
                Endianness::Big
            },
        ),
        name_span: node_span(n),
        span: node_span(n),
    }
}

pub open spec fn opt_seq<T>(o: Option<T>) -> Seq<T> {
    match o {
        Some(x) => seq![x],
        None => Seq::empty(),
    }
}

/// The definitions one child of a `definition` node makes. Macro
/// definitions have no HIR form and make none.
pub open spec fn definition_piece(db: Database, s: Seq<char>, c: SyntaxNode) -> Seq<DefinitionV> {
    if c.kind@ == "combinator_defn"@ {
        opt_seq(lowered_comb_defn(db, s, c))
    } else if c.kind@ == "const_combinator_defn"@ {
        opt_seq(lowered_const_defn(db, s, c))
    } else if c.kind@ == "endianess_defn"@ {
        seq![lowered_endianness(db, s, c)]
    } else {
        Seq::empty()
    }
}

pub open spec fn definitions_from(db: Database, s: Seq<char>, cs: Seq<SyntaxNode>, j: int) -> Seq<DefinitionV>
    decreases cs.len() - j,
{
    if j < 0 || j >= cs.len() {
        Seq::empty()
    } else {
        definition_piece(db, s, cs[j]) + definitions_from(db, s, cs, j + 1)
    }
}

/// The definitions of the `definition` children from index `j` on.
pub open spec fn file_definitions_from(db: Database, s: Seq<char>, cs: Seq<SyntaxNode>, j: int) -> Seq<
    DefinitionV,
>
    decreases cs.len() - j,
{
    if j < 0 || j >= cs.len() {
        Seq::empty()
    } else {
        (if cs[j].kind@ == "definition"@ {
            definitions_from(db, s, cs[j].children@, 0)
        } else {
            Seq::empty()
        }) + file_definitions_from(db, s, cs, j + 1)
    }
}

/// The definitions of a source file, in source order.
pub open spec fn lowered_file(db: Database, s: Seq<char>, root: SyntaxNode) -> Seq<DefinitionV> {
    file_definitions_from(db, s, root.children@, 0)
}

fn lower_param_defn(db: &Database, src: &str, n: &SyntaxNode) -> (r: Option<Param>)
    requires
        texts_known(*db, src@, *n),
    ensures
        match r {
            Some(p) => lowered_param_defn(*db, src@, *n) == Some(param_v(p)),
            None => lowered_param_defn(*db, src@, *n) is None,
        },
{
    let ghost cs = n.children@;
    let ghost s = src@;
    let ghost pk = binds(s);
    let ghost pt = is_kind("combinator_inner"@);
    let mut name: Option<NameRef> = None;
    let mut ty: Option<Combinator> = None;
    let mut i: usize = 0;
    while i < n.children.len()
        invariant
            i <= cs.len(),
            cs == n.children@,
            s == src@,
            pk == binds(s),
            pt == is_kind("combinator_inner"@),
            texts_known(*db, s, *n),
            name == (if last_where(cs, pk, i as int) >= 0 {
                Some(dep_ref(*db, s, cs[last_where(cs, pk, i as int)]))
            } else {
                None
            }),
            match ty {
                Some(c) => last_where(cs, pt, i as int) >= 0 && comb_v(c) == lowered_inner(
                    *db,
                    s,
                    cs[last_where(cs, pt, i as int)],
                ),
                None => last_where(cs, pt, i as int) < 0,
            },
        decreases cs.len() - i,
    {
        let c = &n.children[i];
        proof {
            assert(texts_known(*db, s, cs[i as int]));
        }
        if kind_is(c, "depend_id") {
            match binding_ref(db, src, c) {
                Some(r) => {
                    name = Some(r);
                },
                None => {},
            }
        }
        if kind_is(c, "combinator_inner") {
            ty = Some(lower_combinator_inner(db, src, c));
        }
        i = i + 1;
    }
    proof {
        lemma_last_where(cs, pk, cs.len() as int);
        lemma_last_where(cs, pt, cs.len() as int);
    }
    match (name, ty) {
        (Some(r), Some(ty)) => Some(Param { name: r.name, ty, span: r.span, full_span: span_of(n) }),
        _ => None,
    }
}

fn lower_param_defn_list(db: &Database, src: &str, n: &SyntaxNode) -> (r: Vec<Param>)
    requires
        texts_known(*db, src@, *n),
    ensures
        params_v(r@) == params_from(*db, src@, n.children@, 0),
{
    let ghost cs = n.children@;
    let ghost s = src@;
    let mut params: Vec<Param> = Vec::new();
    let mut i: usize = 0;
    while i < n.children.len()
        invariant
            i <= cs.len(),
            cs == n.children@,
            s == src@,
            texts_known(*db, s, *n),
            params_v(params@) + params_from(*db, s, cs, i as int) == params_from(*db, s, cs, 0),
        decreases cs.len() - i,
    {
        let c = &n.children[i];
        proof {
            assert(texts_known(*db, s, cs[i as int]));
        }
        let ghost before = params@;
        if kind_is(c, "param_defn") {
            match lower_param_defn(db, src, c) {
                Some(p) => {
                    params.push(p);
                    proof {
                        lemma_params_v_push(before, p);
                    }
                },
                None => {},
            }
        }
        proof {
            assert(params_v(params@) + params_from(*db, s, cs, i + 1) =~= params_v(before) + params_from(
                *db,
                s,
                cs,
                i as int,
            ));
        }
        i = i + 1;
    }
    proof {
        assert(params_v(params@) + params_from(*db, s, cs, i as int) =~= params_v(params@));
    }
    params
}

fn lower_top_level_enum(db: &Database, src: &str, n: &SyntaxNode) -> (r: Option<EnumDef>)
    requires
        texts_known(*db, src@, *n),
    ensures
        match r {
            Some(e) => lowered_top_enum(*db, src@, *n) == Some(enum_def_v(e)),
            None => lowered_top_enum(*db, src@, *n) is None,
        },
{
    let ghost cs = n.children@;
    let ghost s = src@;
    let ghost pb = is_kind("combinator"@);
    let ghost ph = holds_enum();
    let ghost pe = is_kind("enum_combinator"@);
    let mut has_bind_target = false;
    let mut enum_at: Option<(usize, usize)> = None;
    let mut i: usize = 0;
    while i < n.children.len()
        invariant
            i <= cs.len(),
            cs == n.children@,
            pb == is_kind("combinator"@),
            ph == holds_enum(),
            pe == is_kind("enum_combinator"@),
            has_bind_target == (last_where(cs, pb, i as int) >= 0),
            match enum_at {
                Some((a, b)) => a as int == last_where(cs, ph, i as int) && b as int == last_of(
                    cs[a as int].children@,
                    "enum_combinator"@,
                ),
                None => last_where(cs, ph, i as int) < 0,
            },
        decreases cs.len() - i,
    {
        let c = &n.children[i];
        if kind_is(c, "combinator") {
            has_bind_target = true;
        }
        if kind_is(c, "combinator_inner") {
            let ghost g = c.children@;
            let mut last: Option<usize> = None;
            let mut j: usize = 0;
            while j < c.children.len()
                invariant
                    j <= g.len(),
                    g == c.children@,
                    pe == is_kind("enum_combinator"@),
                    match last {
                        Some(k) => k as int == last_where(g, pe, j as int),
                        None => last_where(g, pe, j as int) < 0,
                    },
                decreases g.len() - j,
            {
                if kind_is(&c.children[j], "enum_combinator") {
                    last = Some(j);
                }
                j = j + 1;
            }
            match last {
                Some(k) => {
                    enum_at = Some((i, k));
                },
                None => {},
            }
        }
        i = i + 1;
    }
    proof {
        lemma_last_where(cs, ph, cs.len() as int);
    }
    if has_bind_target {
        return None;
    }
    match enum_at {
        Some((a, b)) => {
            proof {
                let g = cs[a as int].children@;
                lemma_last_where(g, pe, g.len() as int);
                assert(ph(cs[a as int]));
                assert(texts_known(*db, s, cs[a as int]));
                assert(texts_known(*db, s, g[b as int]));
            }
            Some(lower_enum_combinator(db, src, &n.children[a].children[b]))
        },
        None => None,
    }
}

fn lower_combinator_defn(db: &Database, src: &str, n: &SyntaxNode) -> (r: Option<Definition>)
    requires
        texts_known(*db, src@, *n),
    ensures
        match r {
            Some(d) => lowered_comb_defn(*db, src@, *n) == Some(def_v(d)),
            None => lowered_comb_defn(*db, src@, *n) is None,
        },
{
    let ghost cs = n.children@;
    let ghost s = src@;
    let ghost pm = is_kind("modifier"@);
    let ghost pv = is_kind("var_id"@);
    let ghost pp = is_kind("param_defn_list"@);
    let ghost pb = is_kind("combinator"@);
    let mut visibility = Visibility::Default;
    let mut name: Option<(Name, Span)> = None;
    let mut params: Vec<Param> = Vec::new();
    let mut body_at: Option<usize> = None;
    proof {
        assert(params_v(params@) =~= Seq::<ParamV>::empty());
    }
    let mut i: usize = 0;
    while i < n.children.len()
        invariant
            i <= cs.len(),
            cs == n.children@,
            s == src@,
            pm == is_kind("modifier"@),
            pv == is_kind("var_id"@),
            pp == is_kind("param_defn_list"@),
            pb == is_kind("combinator"@),
            texts_known(*db, s, *n),
            visibility == (if last_where(cs, pm, i as int) >= 0 {
                visibility_of(node_text(s, cs[last_where(cs, pm, i as int)]))
            } else {
                Visibility::Default
            }),
            name == (if last_where(cs, pv, i as int) >= 0 {
                let c = cs[last_where(cs, pv, i as int)];
                Some((db.name_for(node_text(s, c)), node_span(c)))
            } else {
                None
            }),
            params_v(params@) == (if last_where(cs, pp, i as int) >= 0 {
                params_from(*db, s, cs[last_where(cs, pp, i as int)].children@, 0)
            } else {
                Seq::empty()
            }),
            body_at == (if last_where(cs, pb, i as int) >= 0 {
                Some(last_where(cs, pb, i as int) as usize)
            } else {
                None
            }),
        decreases cs.len() - i,
    {
        let c = &n.children[i];
        proof {
            assert(texts_known(*db, s, cs[i as int]));
        }
        if kind_is(c, "modifier") {
            let t = text_of_node(src, c);
            visibility = if str_eq(t, "public") {
                Visibility::Public
            } else if str_eq(t, "secret") {
                Visibility::Secret
            } else {
                Visibility::Default
            };
        }
        if kind_is(c, "var_id") {
            name = Some((db.lookup(text_of_node(src, c)), span_of(c)));
        }
        if kind_is(c, "param_defn_list") {
            params = lower_param_defn_list(db, src, c);
        }
        if kind_is(c, "combinator") {
            body_at = Some(i);
        }
        i = i + 1;
    }
    proof {
        lemma_last_where(cs, pm, cs.len() as int);
        lemma_last_where(cs, pv, cs.len() as int);
        lemma_last_where(cs, pp, cs.len() as int);
        lemma_last_where(cs, pb, cs.len() as int);
    }
    match name {
        Some((name, name_span)) => {
            let kind = match body_at {
                Some(b) => {
                    let body = &n.children[b];
                    proof {
                        assert(texts_known(*db, s, cs[b as int]));
                    }
                    match lower_top_level_enum(db, src, body) {
                        Some(e) => DefinitionKind::Enum(e),
                        None => DefinitionKind::Combinator { params, body: lower_combinator(db, src, body) },
                    }
                },
                None => DefinitionKind::Combinator { params, body: Combinator::Error },
            };
            Some(Definition { name, visibility, kind, name_span, span: span_of(n) })
        },
        None => None,
    }
}

fn lower_const_defn(db: &Database, src: &str, n: &SyntaxNode) -> (r: Option<Definition>)
    requires
        texts_known(*db, src@, *n),
    ensures
        match r {
            Some(d) => lowered_const_defn(*db, src@, *n) == Some(def_v(d)),
            None => lowered_const_defn(*db, src@, *n) is None,
        },
{
    let ghost cs = n.children@;
    let ghost s = src@;
    let ghost pk = is_kind("const_id"@);
    let ghost pc = is_kind("const_combinator"@);
    let mut name: Option<(Name, Span)> = None;
    let mut ty: Option<Combinator> = None;
    let mut value: Option<ConstValue> = None;
    let mut i: usize = 0;
    while i < n.children.len()
        invariant
            i <= cs.len(),
            cs == n.children@,
            s == src@,
            pk == is_kind("const_id"@),
            pc == is_kind("const_combinator"@),
            texts_known(*db, s, *n),
            name == (if last_where(cs, pk, i as int) >= 0 {
                let c = cs[last_where(cs, pk, i as int)];
                Some((db.name_for(node_text(s, c)), node_span(c)))
            } else {
                None
            }),
            (opt_comb_v(ty), opt_const_v(value)) == (if last_where(cs, pc, i as int) >= 0 {
                lowered_const_comb(*db, s, cs[last_where(cs, pc, i as int)])
            } else {
                (None, None)
            }),
        decreases cs.len() - i,
    {
        let c = &n.children[i];
        proof {
            assert(texts_known(*db, s, cs[i as int]));
        }
        if kind_is(c, "const_id") {
            name = Some((db.lookup(text_of_node(src, c)), span_of(c)));
        }
        if kind_is(c, "const_combinator") {
            let (t, v) = lower_const_combinator(db, src, c);
            ty = t;
            value = v;
        }
        i = i + 1;
    }
    proof {
        lemma_last_where(cs, pk, cs.len() as int);
        lemma_last_where(cs, pc, cs.len() as int);
    }
    match (name, ty, value) {
        (Some((name, name_span)), Some(ty), Some(value)) => Some(
            Definition {
                name,
                visibility: Visibility::Default,
                kind: DefinitionKind::Const { ty, value },
                name_span,
                span: span_of(n),
            },
        ),
        _ => None,
    }
}

/// Whether `word` occurs in `text`.
fn text_contains(text: &str, word: &str) -> (r: bool)
    ensures
        r == contains_text(text@, word@),
{
    let t = str_chars(text);
    let w = str_chars(word);
    if w.len() > t.len() {
        proof {
            assert forall|i: int| 0 <= i && i + w@.len() <= t@.len() implies #[trigger] t@.subrange(
                i,
                i + w@.len(),
            ) != word@ by {}
        }
        return false;
    }
    let limit = t.len() - w.len();
    let mut i: usize = 0;
    while i <= limit
        invariant
            t@ == text@,
            w@ == word@,
            w@.len() <= t@.len(),
            t@.len() <= usize::MAX,
            limit + w@.len() == t@.len(),
            i <= limit + 1,
            forall|k: int| 0 <= k < i ==> #[trigger] t@.subrange(k, k + w@.len()) != w@,
        decreases limit + 1 - i,
    {
        let mut j: usize = 0;
        let mut same = true;
        while j < w.len()
            invariant
                t@.len() <= usize::MAX,
                i <= limit,
                limit + w@.len() == t@.len(),
                j <= w@.len(),
                same == (forall|k: int| 0 <= k < j ==> t@[i + k] == w@[k]),
            decreases w@.len() - j,
        {
            if t[i + j] != w[j] {
                same = false;
            }
            j = j + 1;
        }
        if same {
            proof {
                assert(t@.subrange(i as int, i + w@.len()) =~= w@);
            }
            return true;
        }
        proof {
            let k = choose|k: int| 0 <= k < w@.len() && t@[i + k] != w@[k];
            assert(t@.subrange(i as int, i + w@.len())[k] != w@[k]);
        }
        i = i + 1;
    }
    false
}

fn lower_endianness_defn(db: &Database, src: &str, n: &SyntaxNode) -> (r: Definition)
    requires
        texts_known(*db, src@, *n),
        n.kind@ == "endianess_defn"@,
    ensures
        def_v(r) == lowered_endianness(*db, src@, *n),
{
    let t = text_of_node(src, n);
    let endianness = if text_contains(t, "LITTLE") {
        Endianness::Little
    } else {
        Endianness::Big
    };
    Definition {
        name: db.lookup(t),
        visibility: Visibility::Default,
        kind: DefinitionKind::Endianness(endianness),
        name_span: span_of(n),
        span: span_of(n),
    }
}

fn lower_definition(db: &Database, src: &str, n: &SyntaxNode) -> (r: Vec<Definition>)
    requires
        texts_known(*db, src@, *n),
    ensures
        defs_v(r@) == definitions_from(*db, src@, n.children@, 0),
{
    let ghost cs = n.children@;
    let ghost s = src@;
    let mut defs: Vec<Definition> = Vec::new();
    let mut i: usize = 0;
    while i < n.children.len()
        invariant
            i <= cs.len(),
            cs == n.children@,
            s == src@,
            texts_known(*db, s, *n),
            defs_v(defs@) + definitions_from(*db, s, cs, i as int) == definitions_from(*db, s, cs, 0),
        decreases cs.len() - i,
    {
        let c = &n.children[i];
        proof {
            assert(texts_known(*db, s, cs[i as int]));
        }
        let ghost before = defs@;
        if kind_is(c, "combinator_defn") {
            match lower_combinator_defn(db, src, c) {
                Some(d) => {
                    defs.push(d);
                },
                None => {},
            }
        } else if kind_is(c, "const_combinator_defn") {
            match lower_const_defn(db, src, c) {
                Some(d) => {
                    defs.push(d);
                },
                None => {},
            }
        } else if kind_is(c, "endianess_defn") {
            defs.push(lower_endianness_defn(db, src, c));
        }
        proof {
            assert(defs_v(defs@) + definitions_from(*db, s, cs, i + 1) =~= defs_v(before) + definitions_from(
                *db,
                s,
                cs,
                i as int,
            ));
        }
        i = i + 1;
    }
    proof {
        assert(defs_v(defs@) + definitions_from(*db, s, cs, i as int) =~= defs_v(defs@));
    }
    defs
}

fn lower_source_file(db: &Database, src: &str, root: &SyntaxNode) -> (r: Vec<Definition>)
    requires
        texts_known(*db, src@, *root),
    ensures
        defs_v(r@) == lowered_file(*db, src@, *root),
{
    let ghost cs = root.children@;
    let ghost s = src@;
    let mut defs: Vec<Definition> = Vec::new();
    let mut i: usize = 0;
    while i < root.children.len()
        invariant
            i <= cs.len(),
            cs == root.children@,
            s == src@,
            texts_known(*db, s, *root),
            defs_v(defs@) + file_definitions_from(*db, s, cs, i as int) == file_definitions_from(*db, s, cs, 0),
        decreases cs.len() - i,
    {
        let c = &root.children[i];
        proof {
            assert(texts_known(*db, s, cs[i as int]));
        }
        let ghost before = defs@;
        if kind_is(c, "definition") {
            let mut more = lower_definition(db, src, c);
            let ghost m = more@;
            defs.append(&mut more);
            proof {
                lemma_defs_v_append(before, m);
            }
        }
        proof {
            assert(defs_v(defs@) + file_definitions_from(*db, s, cs, i + 1) =~= defs_v(before)
                + file_definitions_from(*db, s, cs, i as int));
        }
        i = i + 1;
    }
    proof {
        assert(defs_v(defs@) + file_definitions_from(*db, s, cs, i as int) =~= defs_v(defs@));
    }
    defs
}

/// Lowers a source file to its HIR using an existing syntax tree of it:
/// interns every identifier the tree names in `db`, then builds the file's
/// definitions in source order. Lowering itself reports no diagnostics. The
/// HIR has no form for macros: a macro definition yields no definition, and a
/// macro invocation lowers to the error placeholder.
pub fn lower_to_hir_with_parse(db: &mut Database, text: &str, root: &SyntaxNode) -> (r: FileHir)
    ensures
        texts_known(*final(db), text@, *root),
        old(db).grows_to(&*final(db)),
        defs_v(r.definitions@) == lowered_file(*final(db), text@, *root),
        r.diagnostics@.len() == 0,
{
    intern_tree_texts(db, text, root);
    let definitions = lower_source_file(db, text, root);
    FileHir { definitions, diagnostics: Vec::new() }
}

proof fn lemma_index_of_char_bound(s: Seq<char>, c: char)
    ensures
        index_of_char(s, c) <= s.len(),
    decreases s.len(),
{
    if s.len() > 0 && s[0] != c {
        lemma_index_of_char_bound(s.drop_first(), c);
    }
}

} // verus!
