use vest_db::check::{
    check_file, check_hir, compute_static_size, CheckDiagnostic, CheckDiagnosticKind,
};
use vest_db::db::{Database, Name};
use vest_db::hover::{compute_wire_length, hover_info_in_hir, HoverKind, WireExpr};
use vest_db::input::SourceFile;
use vest_db::parse::parse_file;
use vest_db::lower::{
    intern_tree_texts, lower_combinator, lower_const_combinator, lower_const_int, lower_enum_combinator,
    lower_enum_constraint, lower_int_constraint, lower_length_expr, lower_to_hir_with_parse, parse_u64_text,
};
use vest_db::requests::{
    goto_definition_in_hir, prepare_rename_in_hir, references_in_hir, rename_in_hir, RenameRejection, TextEdit,
};
use vest_db::source::{Position, Range, SourceDocument};
use vest_db::symbols::{
    collect_references, declaration_at_offset, definition_at_offset, file_definitions, references_for_symbol,
    definition_at_offset_in_hir, references_for_symbol_in_hir, resolve_local_symbol, resolve_symbol,
    resolve_symbol_in_hir, symbol_at_offset, symbol_at_offset_in_hir, symbol_occurrence_at_offset_in_hir,
};
use vest_db::syntax::SyntaxNode;
use vest_db::types::{
    ChoicePattern, Combinator, ConstValue, Definition, DefinitionKind, Endianness, FileHir, IntType, LengthAtom,
    LengthExpr, LengthOp, LengthTerm, NameRef, SizeTarget, Span, SymbolId, SymbolOccurrence, SymbolOccurrenceKind,
    Visibility, WrapArg,
};

// ---------------------------------------------------------------------------
// A syntax tree builder for the Vest grammar, shaped as the parser of the
// language server shapes its trees: named nodes with the kinds lowering
// reads, and anonymous nodes for punctuation and keywords.

#[derive(Clone, Copy, PartialEq, Debug)]
enum Tok {
    Ident,
    Number,
    Char,
    Dep,
    Punct,
}

struct Parser<'a> {
    src: &'a str,
    toks: Vec<(Tok, usize, usize)>,
    pos: usize,
}

const INT_KEYWORDS: [&str; 12] =
    ["u8", "u16", "u24", "u32", "u64", "i8", "i16", "i24", "i32", "i64", "btc_varint", "uleb128"];

fn is_int_keyword(t: &str) -> bool {
    INT_KEYWORDS.contains(&t)
}

fn tokenize(src: &str) -> Vec<(Tok, usize, usize)> {
    let b = src.as_bytes();
    let mut out = Vec::new();
    let mut i = 0;
    while i < b.len() {
        let c = b[i];
        if c.is_ascii_whitespace() {
            i += 1;
        } else if c == b'/' && i + 1 < b.len() && b[i + 1] == b'/' {
            while i < b.len() && b[i] != b'\n' {
                i += 1;
            }
        } else if c.is_ascii_alphabetic() || c == b'_' {
            let s = i;
            while i < b.len() && (b[i].is_ascii_alphanumeric() || b[i] == b'_') {
                i += 1;
            }
            out.push((Tok::Ident, s, i));
        } else if c.is_ascii_digit() {
            let s = i;
            while i < b.len() && (b[i].is_ascii_alphanumeric() || b[i] == b'_') {
                i += 1;
            }
            out.push((Tok::Number, s, i));
        } else if c == b'\'' {
            let s = i;
            i += 1;
            while i < b.len() && b[i] != b'\'' {
                i += 1;
            }
            i += 1;
            out.push((Tok::Char, s, i));
        } else if c == b'@' {
            let s = i;
            i += 1;
            while i < b.len() && (b[i].is_ascii_alphanumeric() || b[i] == b'_' || b[i] == b'.') {
                if b[i] == b'.' && i + 1 < b.len() && b[i + 1] == b'.' {
                    break;
                }
                i += 1;
            }
            out.push((Tok::Dep, s, i));
        } else {
            let s = i;
            let rest = &src[i..];
            let len = [">>=", "...", "=>", ".."].iter().find(|p| rest.starts_with(**p)).map(|p| p.len()).unwrap_or(1);
            i += len;
            out.push((Tok::Punct, s, i));
        }
    }
    out
}

fn leaf(kind: &str, start: usize, end: usize) -> SyntaxNode {
    SyntaxNode { kind: kind.to_string(), is_error: false, is_missing: false, start_byte: start, end_byte: end, children: Vec::new() }
}

fn node(kind: &str, children: Vec<SyntaxNode>) -> SyntaxNode {
    let start = children.first().map(|c| c.start_byte).unwrap_or(0);
    let end = children.last().map(|c| c.end_byte).unwrap_or(start);
    SyntaxNode { kind: kind.to_string(), is_error: false, is_missing: false, start_byte: start, end_byte: end, children }
}

impl<'a> Parser<'a> {
    fn new(src: &'a str) -> Self {
        Parser { src, toks: tokenize(src), pos: 0 }
    }

    fn peek_text(&self, k: usize) -> &'a str {
        match self.toks.get(self.pos + k) {
            Some((_, s, e)) => &self.src[*s..*e],
            None => "",
        }
    }

    fn peek_kind(&self) -> Option<Tok> {
        self.toks.get(self.pos).map(|t| t.0)
    }

    fn at(&self, text: &str) -> bool {
        self.peek_text(0) == text
    }

    fn take(&mut self, kind: &str) -> SyntaxNode {
        let (_, s, e) = self.toks[self.pos];
        self.pos += 1;
        leaf(kind, s, e)
    }

    fn punct(&mut self) -> SyntaxNode {
        let text = self.peek_text(0).to_string();
        self.take(&text)
    }

    fn source_file(&mut self) -> SyntaxNode {
        let mut defs = Vec::new();
        while self.pos < self.toks.len() {
            defs.push(self.definition());
        }
        SyntaxNode {
            kind: "source_file".to_string(),
            is_error: false,
            is_missing: false,
            start_byte: 0,
            end_byte: self.src.len(),
            children: defs,
        }
    }

    fn definition(&mut self) -> SyntaxNode {
        let inner = if self.at("const") {
            let kw = self.punct();
            let id = self.take("const_id");
            let colon = self.punct();
            let cc = self.const_combinator();
            node("const_combinator_defn", vec![kw, id, colon, cc])
        } else if self.at("!") {
            let bang = self.punct();
            let name = self.punct();
            node("endianess_defn", vec![bang, name])
        } else {
            let mut children = Vec::new();
            if (self.at("public") || self.at("secret")) && self.toks.get(self.pos + 1).map(|t| t.0) == Some(Tok::Ident) {
                children.push(self.take("modifier"));
            }
            children.push(self.take("var_id"));
            if self.at("(") {
                children.push(self.param_defn_list());
            }
            children.push(self.punct());
            children.push(self.combinator());
            node("combinator_defn", children)
        };
        node("definition", vec![inner])
    }

    fn param_defn_list(&mut self) -> SyntaxNode {
        let mut children = vec![self.punct()];
        loop {
            let dep = self.take("depend_id");
            let colon = self.punct();
            let ty = self.combinator_inner();
            children.push(node("param_defn", vec![dep, colon, ty]));
            if self.at(",") {
                children.push(self.punct());
            } else {
                break;
            }
        }
        children.push(self.punct());
        node("param_defn_list", children)
    }

    fn combinator(&mut self) -> SyntaxNode {
        let inner = self.combinator_inner();
        if self.at(">>=") {
            let op = self.punct();
            let target = self.combinator();
            node("combinator", vec![inner, op, target])
        } else {
            node("combinator", vec![inner])
        }
    }

    fn combinator_inner(&mut self) -> SyntaxNode {
        let t = self.peek_text(0);
        let inner = if is_int_keyword(t) {
            let int = self.take("int_combinator");
            if self.at("|") {
                let bar = self.punct();
                let c = self.int_constraint();
                node("constraint_int_combinator", vec![int, bar, c])
            } else {
                node("constraint_int_combinator", vec![int])
            }
        } else if t == "{" {
            self.struct_combinator()
        } else if t == "choose" {
            self.choice_combinator()
        } else if t == "[" {
            let open = self.punct();
            let element = self.combinator();
            let semi = self.punct();
            let length = self.length_expr();
            let close = self.punct();
            node("array_combinator", vec![open, element, semi, length, close])
        } else if t == "Vec" || t == "Option" {
            let kind = if t == "Vec" { "vec_combinator" } else { "option_combinator" };
            let kw = self.punct();
            let open = self.punct();
            let element = self.combinator();
            let close = self.punct();
            node(kind, vec![kw, open, element, close])
        } else if t == "wrap" {
            self.wrap_combinator()
        } else if t == "Tail" {
            let kw = self.punct();
            node("tail_combinator", vec![kw])
        } else if t == "enum" {
            self.enum_combinator()
        } else {
            let invocation = self.invocation();
            if self.at("|") {
                let bar = self.punct();
                let c = self.enum_constraint();
                node("constraint_enum_combinator", vec![invocation, bar, c])
            } else {
                invocation
            }
        };
        node("combinator_inner", vec![inner])
    }

    fn invocation(&mut self) -> SyntaxNode {
        let mut children = vec![self.take("var_id")];
        if self.at("(") {
            let mut list = vec![self.punct()];
            loop {
                let dep = self.take("depend_id");
                list.push(node("param", vec![dep]));
                if self.at(",") {
                    list.push(self.punct());
                } else {
                    break;
                }
            }
            list.push(self.punct());
            children.push(node("param_list", list));
        }
        node("combinator_invocation", children)
    }

    fn const_int(&mut self) -> SyntaxNode {
        let t = self.peek_text(0);
        let kind = if self.peek_kind() == Some(Tok::Char) {
            "ascii"
        } else if t.starts_with("0x") {
            "hex"
        } else {
            "decimal"
        };
        let lit = self.take(kind);
        node("const_int", vec![lit])
    }

    fn starts_int(&self) -> bool {
        matches!(self.peek_kind(), Some(Tok::Number) | Some(Tok::Char))
    }

    fn constraint_elem(&mut self) -> SyntaxNode {
        let mut parts = Vec::new();
        if self.starts_int() {
            parts.push(self.const_int());
        }
        if self.at("..") {
            parts.push(self.punct());
            if self.starts_int() {
                parts.push(self.const_int());
            }
            let range = node("const_int_range", parts);
            node("constraint_elem", vec![range])
        } else {
            node("constraint_elem", parts)
        }
    }

    fn int_constraint(&mut self) -> SyntaxNode {
        if self.at("!") {
            let bang = self.punct();
            let inner = self.int_constraint();
            node("int_constraint", vec![bang, inner])
        } else if self.at("{") {
            let mut set = vec![self.punct()];
            while !self.at("}") {
                set.push(self.constraint_elem());
                if self.at(",") {
                    set.push(self.punct());
                }
            }
            set.push(self.punct());
            node("int_constraint", vec![node("constraint_elem_set", set)])
        } else {
            let elem = self.constraint_elem();
            node("int_constraint", vec![elem])
        }
    }

    fn enum_constraint(&mut self) -> SyntaxNode {
        if self.at("!") {
            let bang = self.punct();
            let inner = self.enum_constraint();
            node("enum_constraint", vec![bang, inner])
        } else if self.at("{") {
            let mut set = vec![self.punct()];
            while !self.at("}") {
                let v = self.take("variant_id");
                set.push(node("enum_constraint_elem", vec![v]));
                if self.at(",") {
                    set.push(self.punct());
                }
            }
            set.push(self.punct());
            node("enum_constraint", vec![node("enum_constraint_set", set)])
        } else {
            let v = self.take("variant_id");
            node("enum_constraint", vec![node("enum_constraint_elem", vec![v])])
        }
    }

    fn const_combinator(&mut self) -> SyntaxNode {
        let int = self.take("int_combinator");
        let eq = self.punct();
        let value = self.const_int();
        let cic = node("const_int_combinator", vec![int, eq, value]);
        node("const_combinator", vec![node("inline_const_combinator", vec![cic])])
    }

    fn struct_combinator(&mut self) -> SyntaxNode {
        let mut children = vec![self.punct()];
        while !self.at("}") {
            let mut parts = Vec::new();
            let is_const = self.at("const");
            if is_const {
                parts.push(self.take("constant"));
            }
            if self.peek_kind() == Some(Tok::Dep) {
                parts.push(self.take("depend_id"));
            } else {
                parts.push(self.take("var_id"));
            }
            parts.push(self.punct());
            if is_const {
                parts.push(self.const_combinator());
            } else {
                parts.push(self.combinator());
            }
            children.push(node("field", parts));
            if self.at(",") {
                children.push(self.punct());
            }
        }
        children.push(self.punct());
        node("struct_combinator", children)
    }

    fn int_array(&mut self) -> SyntaxNode {
        let mut parts = vec![self.punct()];
        while !self.at("]") {
            parts.push(self.const_int());
            if self.at(",") {
                parts.push(self.punct());
            }
        }
        parts.push(self.punct());
        node("const_int_array", parts)
    }

    fn choice_combinator(&mut self) -> SyntaxNode {
        let mut children = vec![self.punct()];
        if self.at("(") {
            children.push(self.punct());
            children.push(self.take("depend_id"));
            children.push(self.punct());
        }
        children.push(self.punct());
        while !self.at("}") {
            let pattern = if self.at("[") {
                let array = self.int_array();
                node("const_array", vec![array])
            } else if self.starts_int() || self.at("..") {
                self.constraint_elem()
            } else {
                self.take("variant_id")
            };
            let arrow = self.punct();
            let body = self.combinator();
            children.push(node("choice_arm", vec![pattern, arrow, body]));
            if self.at(",") {
                children.push(self.punct());
            }
        }
        children.push(self.punct());
        node("choice_combinator", children)
    }

    fn length_expr(&mut self) -> SyntaxNode {
        let mut parts = vec![self.length_term()];
        while self.at("+") || self.at("-") {
            let kind = if self.at("+") { "add_op" } else { "sub_op" };
            let op = self.punct();
            parts.push(node(kind, vec![op]));
            parts.push(self.length_term());
        }
        node("length_expr", parts)
    }

    fn length_term(&mut self) -> SyntaxNode {
        let mut parts = vec![self.length_atom()];
        while self.at("*") || self.at("/") {
            let kind = if self.at("*") { "mul_op" } else { "div_op" };
            let op = self.punct();
            parts.push(node(kind, vec![op]));
            parts.push(self.length_atom());
        }
        node("length_term", parts)
    }

    fn length_atom(&mut self) -> SyntaxNode {
        let inner = if self.starts_int() {
            vec![self.const_int()]
        } else if self.peek_kind() == Some(Tok::Dep) {
            vec![self.take("depend_id")]
        } else if self.at("|") {
            let open = self.punct();
            let target = if is_int_keyword(self.peek_text(0)) {
                self.take("size_target")
            } else {
                let id = self.take("identifier");
                node("size_target", vec![id])
            };
            let close = self.punct();
            vec![node("size_expr", vec![open, target, close])]
        } else {
            let open = self.punct();
            let e = self.length_expr();
            let close = self.punct();
            vec![open, e, close]
        };
        node("length_atom", inner)
    }

    fn wrap_combinator(&mut self) -> SyntaxNode {
        let kw = self.punct();
        let open = self.punct();
        let mut args = Vec::new();
        loop {
            let arg = if is_int_keyword(self.peek_text(0)) && self.peek_text(1) == "=" {
                let int = self.take("int_combinator");
                let eq = self.punct();
                let value = self.const_int();
                node("const_int_combinator", vec![int, eq, value])
            } else {
                self.combinator()
            };
            args.push(node("wrap_arg", vec![arg]));
            if self.at(",") {
                args.push(self.punct());
            } else {
                break;
            }
        }
        let list = node("wrap_args", args);
        let close = self.punct();
        node("wrap_combinator", vec![kw, open, list, close])
    }

    fn enum_combinator(&mut self) -> SyntaxNode {
        let kw = self.punct();
        let open = self.punct();
        let mut fields = Vec::new();
        let mut exhaustive = true;
        while !self.at("}") {
            if self.at("...") {
                fields.push(self.punct());
                exhaustive = false;
                continue;
            }
            let name = self.take("variant_id");
            let eq = self.punct();
            let mut typed = vec![self.const_int()];
            if self.peek_kind() == Some(Tok::Ident) && is_int_keyword(self.peek_text(0)) {
                typed.push(self.take("int_type_suffix"));
            }
            fields.push(node("enum_field", vec![name, eq, node("typed_const_int", typed)]));
            if self.at(",") {
                fields.push(self.punct());
            }
        }
        let body = node(if exhaustive { "exhaustive_enum" } else { "non_exhaustive_enum" }, fields);
        let close = self.punct();
        node("enum_combinator", vec![kw, open, body, close])
    }
}

/// The syntax tree of a Vest source text.
fn parse(src: &str) -> SyntaxNode {
    Parser::new(src).source_file()
}

/// The HIR of a Vest source text.
fn lower(src: &str) -> (Database, FileHir) {
    let mut db = Database::new();
    let root = parse(src);
    let hir = lower_to_hir_with_parse(&mut db, src, &root);
    (db, hir)
}

// ---------------------------------------------------------------------------
// A compact rendering of lowered definitions.

fn int_name(t: IntType) -> String {
    format!("{t:?}").to_lowercase()
}

fn format_definitions(db: &Database, hir: &FileHir) -> String {
    hir.definitions.iter().map(|def| format_definition(db, def)).collect::<Vec<_>>().join("\n")
}

fn format_definition(db: &Database, def: &Definition) -> String {
    let name = def.name.as_str(db);
    let vis = match def.visibility {
        Visibility::Public => "public ",
        Visibility::Secret => "secret ",
        Visibility::Default => "",
    };
    match &def.kind {
        DefinitionKind::Combinator { params, body } => {
            let params_str = if params.is_empty() {
                String::new()
            } else {
                format!("({})", params.iter().map(|p| p.name.as_str(db)).collect::<Vec<_>>().join(", "))
            };
            format!("{vis}{name}{params_str} = {}", format_combinator(db, body))
        },
        DefinitionKind::Enum(e) => {
            let exhaustive = if e.is_exhaustive { "" } else { " (non-exhaustive)" };
            let variants = e
                .variants
                .iter()
                .map(|v| format!("{} = {}", v.name.as_str(db), format_const_value(db, &v.value)))
                .collect::<Vec<_>>()
                .join(", ");
            format!("{vis}{name} = enum{exhaustive} {{ {variants} }}")
        },
        DefinitionKind::Const { ty, value } => {
            format!("{vis}const {name}: {} = {}", format_combinator(db, ty), format_const_value(db, value))
        },
        DefinitionKind::Endianness(e) => {
            let end = match e {
                Endianness::Little => "LITTLE",
                Endianness::Big => "BIG",
            };
            format!("!{end}_ENDIAN")
        },
    }
}

fn format_combinator(db: &Database, comb: &Combinator) -> String {
    match comb {
        Combinator::Int(t) => int_name(*t),
        Combinator::ConstrainedInt { int_type, .. } => format!("{} | ...", int_name(*int_type)),
        Combinator::Reference { name, args, .. } => {
            let name_str = name.as_str(db);
            if args.is_empty() {
                name_str.to_string()
            } else {
                let args_str = args.iter().map(|a| format!("@{}", a.as_str(db))).collect::<Vec<_>>().join(", ");
                format!("{name_str}({args_str})")
            }
        },
        Combinator::ConstrainedReference { name, .. } => format!("{} | ...", name.as_str(db)),
        Combinator::Struct(s) => {
            let fields = s
                .fields
                .iter()
                .map(|f| {
                    let prefix = if f.is_const {
                        "const "
                    } else if f.is_dependent {
                        "@"
                    } else {
                        ""
                    };
                    format!("{prefix}{}: {}", f.name.as_str(db), format_combinator(db, &f.ty))
                })
                .collect::<Vec<_>>()
                .join(", ");
            format!("{{ {fields} }}")
        },
        Combinator::Choice(c) => {
            let disc = c.discriminant.as_ref().map(|d| format!("(@{})", d.as_str(db))).unwrap_or_default();
            let arms = c
                .arms
                .iter()
                .map(|a| format!("{} => ...", format_pattern(db, &a.pattern)))
                .collect::<Vec<_>>()
                .join(", ");
            format!("choose{disc} {{ {arms} }}")
        },
        Combinator::Array(a) => {
            format!("[{}; {}]", format_combinator(db, &a.element), format_length_expr(db, &a.length))
        },
        Combinator::Vec(v) => format!("Vec<{}>", format_combinator(db, &v.element)),
        Combinator::Option(o) => format!("Option<{}>", format_combinator(db, &o.element)),
        Combinator::Wrap(w) => {
            let args = w
                .args
                .iter()
                .map(|a| match a {
                    WrapArg::Combinator(c) => format_combinator(db, c),
                    WrapArg::ConstInt { ty, value } => format!("{} = {}", int_name(*ty), format_const_value(db, value)),
                    WrapArg::ConstEnum { ty, variant } => format!("{} = {}", ty.as_str(db), variant.as_str(db)),
                    WrapArg::ConstBytes { element_ty, length, .. } => {
                        format!("[{}; {length}] = [...]", int_name(*element_ty))
                    },
                })
                .collect::<Vec<_>>()
                .join(", ");
            format!("wrap({args})")
        },
        Combinator::Tail => "Tail".to_string(),
        Combinator::Bind { inner, target, .. } => {
            format!("{} >>= {}", format_combinator(db, inner), format_combinator(db, target))
        },
        Combinator::Error => "ERROR".to_string(),
    }
}

fn format_pattern(db: &Database, pattern: &ChoicePattern) -> String {
    match pattern {
        ChoicePattern::Variant(v) => v.as_str(db).to_string(),
        ChoicePattern::Wildcard => "_".to_string(),
        ChoicePattern::Constraint(_) => "constraint".to_string(),
        ChoicePattern::Array(vals) => {
            format!("[{}]", vals.iter().map(|c| format_const_value(db, c)).collect::<Vec<_>>().join(", "))
        },
    }
}

fn format_length_expr(db: &Database, expr: &LengthExpr) -> String {
    let mut result = String::new();
    for (i, term) in expr.terms.iter().enumerate() {
        if i > 0 {
            let op = match expr.ops.get(i - 1) {
                Some(LengthOp::Add) => " + ",
                Some(LengthOp::Sub) => " - ",
                _ => " ? ",
            };
            result.push_str(op);
        }
        result.push_str(&format_length_term(db, term));
    }
    result
}

fn format_length_term(db: &Database, term: &LengthTerm) -> String {
    let mut result = String::new();
    for (i, atom) in term.atoms.iter().enumerate() {
        if i > 0 {
            let op = match term.ops.get(i - 1) {
                Some(LengthOp::Mul) => " * ",
                Some(LengthOp::Div) => " / ",
                _ => " ? ",
            };
            result.push_str(op);
        }
        result.push_str(&format_length_atom(db, atom));
    }
    result
}

fn format_length_atom(db: &Database, atom: &LengthAtom) -> String {
    match atom {
        LengthAtom::Const(v) => v.to_string(),
        LengthAtom::Param(p) => format!("@{}", p.as_str(db)),
        LengthAtom::ProjectedParam { base, fields } => {
            let mut s = format!("@{}", base.as_str(db));
            for f in fields {
                s.push('.');
                s.push_str(f.as_str(db));
            }
            s
        },
        LengthAtom::SizeOf(target) => match target {
            SizeTarget::Type(t) => format!("|{}|", int_name(*t)),
            SizeTarget::Named(n) => format!("|{}|", n.as_str(db)),
        },
        LengthAtom::Paren(e) => format!("({})", format_length_expr(db, e)),
    }
}

fn format_const_value(db: &Database, val: &ConstValue) -> String {
    match val {
        ConstValue::Int(v) => v.to_string(),
        ConstValue::String(s) | ConstValue::ByteString(s) => format!("\"{}\"", s.as_str(db)),
        ConstValue::Array(vs) => format!("[{}]", vs.iter().map(|v| format_const_value(db, v)).collect::<Vec<_>>().join(", ")),
    }
}

fn check(source: &str, expected: &str) {
    let (db, hir) = lower(source);
    assert_eq!(format_definitions(&db, &hir), expected);
}

fn name_of(db: &mut Database, text: &str) -> Name {
    Name::new(db, text)
}

// ---------------------------------------------------------------------------

#[test]
fn lower_simple_struct() {
    check("packet = { field: u8, }\n", "packet = { field: u8 }");
}

#[test]
fn lower_struct_with_const_field() {
    check("two = { const a: u8 = 255, b: u16, }\n", "two = { const a: u8, b: u16 }");
}

#[test]
fn lower_struct_with_dependent_field() {
    check("msg = { @len: u16, data: [u8; @len], }\n", "msg = { @len: u16, data: [u8; @len] }");
}

#[test]
fn lower_dotted_dependent_reference_uses_binding_name() {
    check("msg = { @len: u16, data: [u8; @len.value], }\n", "msg = { @len: u16, data: [u8; @len] }");
}

#[test]
fn lower_enum_definition() {
    check("my_enum = enum { A = 0, B = 1, }\n", "my_enum = enum { A = 0, B = 1 }");
}

#[test]
fn lower_choice_combinator() {
    check(
        "choice(@tag: u8) = choose(@tag) { 0 => u16, _ => u32, }\n",
        "choice(tag) = choose(@tag) { constraint => ..., _ => ... }",
    );
}

#[test]
fn lower_array_with_size_expr() {
    check("bytes = [u8; |u16|]\n", "bytes = [u8; |u16|]");
}

#[test]
fn lower_bind_combinator() {
    check("reinterp = [u8; 4] >>= header\n", "reinterp = [u8; 4] >>= header");
}

#[test]
fn lower_vec_combinator() {
    check("items = Vec<u32>\n", "items = Vec<u32>");
}

#[test]
fn lower_option_combinator() {
    check("opt = Option<u16>\n", "opt = Option<u16>");
}

#[test]
fn lower_wrap_combinator() {
    check("wrapped = wrap(u8 = 1, u16)\n", "wrapped = wrap(u8 = 1, u16)");
}

#[test]
fn lower_visibility_modifiers() {
    check("public pub_def = u8\nsecret sec_def = u16\n", "public pub_def = u8\nsecret sec_def = u16");
}

#[test]
fn lower_constrained_int() {
    check("bounded = u16 | { 1..100, 200..300 }\n", "bounded = u16 | ...");
}

#[test]
fn lower_combinator_with_params() {
    check("param_comb(@len: u16 | { 4..0xffff }) = [u8; @len]\n", "param_comb(len) = [u8; @len]");
}

#[test]
fn lower_length_expr_with_arithmetic() {
    check("arith(@a: u16, @b: u8) = [u8; @a - @b + 4]\n", "arith(a, b) = [u8; @a - @b + 4]");
}

#[test]
fn lower_size_of_named() {
    check("sized = [u8; |header|]\n", "sized = [u8; |header|]");
}

#[test]
fn lower_choice_with_array_pattern() {
    check(
        "choice_arr = choose { [0, 1] => u8, [1, 0] => u16, }\n",
        "choice_arr = choose { [0, 1] => ..., [1, 0] => ... }",
    );
}

#[test]
fn lower_tail() {
    check("rest = Tail\n", "rest = Tail");
}

#[test]
fn lower_reference_with_args() {
    check("call = other(@foo, @bar)\n", "call = other(@foo, @bar)");
}

// ---------------------------------------------------------------------------
// Further lowering behaviour.

#[test]
fn lowering_interns_each_identifier_once() {
    let (mut db, hir) = lower("a = b\nb = a\n");
    assert_eq!(hir.definitions.len(), 2);
    let a = name_of(&mut db, "a");
    let b = name_of(&mut db, "b");
    assert_eq!(hir.definitions[0].name, a);
    assert_eq!(hir.definitions[1].name, b);
    match &hir.definitions[0].kind {
        DefinitionKind::Combinator { body: Combinator::Reference { name, .. }, .. } => assert_eq!(*name, b),
        _ => panic!("expected a reference body"),
    }
    assert!(hir.diagnostics.is_empty());
}

#[test]
fn lowering_records_name_and_definition_spans() {
    let src = "first = u8\nsecond = u16\n";
    let (_, hir) = lower(src);
    assert_eq!((hir.definitions[1].name_span.start_byte, hir.definitions[1].name_span.end_byte), (11, 17));
    assert_eq!((hir.definitions[1].span.start_byte, hir.definitions[1].span.end_byte), (11, 23));
}

#[test]
fn lowering_keeps_only_the_binding_of_dotted_dependent_identifiers() {
    let src = "msg = { @len: u16, data: [u8; @len.value], }\n";
    let (_, hir) = lower(src);
    let DefinitionKind::Combinator { body: Combinator::Struct(s), .. } = &hir.definitions[0].kind else {
        panic!("expected a struct");
    };
    let Combinator::Array(a) = &s.fields[1].ty else { panic!("expected an array") };
    match &a.length.terms[0].atoms[0] {
        LengthAtom::Param(r) => assert_eq!((r.span.start_byte, r.span.end_byte), (30, 34)),
        _ => panic!("expected a parameter"),
    }
}

#[test]
fn lowering_reads_hex_ascii_and_typed_enum_values() {
    let (db, hir) = lower("t = enum { A = 0x10 u16, B = 'a', C = '\\x41', }\n");
    let DefinitionKind::Enum(e) = &hir.definitions[0].kind else { panic!("expected an enum") };
    let values: Vec<u64> = e.variants.iter().map(|v| v.value.as_int().unwrap()).collect();
    assert_eq!(values, vec![16, 97, 65]);
    assert_eq!(e.repr_type, Some(IntType::U16));
    assert_eq!(e.variants[0].repr_type, Some(IntType::U16));
    assert_eq!(e.variants[1].repr_type, None);
    assert_eq!(e.variants[1].name.as_str(&db), "B");
}

#[test]
fn lowering_keeps_range_bounds_and_negation() {
    let (_, hir) = lower("r = u8 | ! { ..10, 20.. }\n");
    let DefinitionKind::Combinator { body: Combinator::ConstrainedInt { constraint, .. }, .. } =
        &hir.definitions[0].kind
    else {
        panic!("expected a constrained integer");
    };
    assert!(constraint.negated);
    assert_eq!(constraint.elements.len(), 2);
    match &constraint.elements[0] {
        vest_db::types::ConstraintElement::Range { start, end, .. } => {
            assert!(start.is_none());
            assert_eq!(end.as_ref().and_then(|v| v.as_int()), Some(10));
        },
        _ => panic!("expected a range"),
    }
    match &constraint.elements[1] {
        vest_db::types::ConstraintElement::Range { start, end, .. } => {
            assert_eq!(start.as_ref().and_then(|v| v.as_int()), Some(20));
            assert!(end.is_none());
        },
        _ => panic!("expected a range"),
    }
}

#[test]
fn lowering_makes_non_exhaustive_enums_and_constants() {
    check(
        "const MAGIC: u16 = 0xbeef\nkind = enum { X = 1, ... }\n!LITTLE_ENDIAN\n",
        "const MAGIC: u16 = 48879\nkind = enum (non-exhaustive) { X = 1 }\n!LITTLE_ENDIAN",
    );
}

#[test]
fn lowering_turns_inline_enums_into_constant_fields() {
    check("m = { tag: enum { A = 1, B = 2, }, }\n", "m = { tag: { const A: u8, const B: u8 } }");
}

#[test]
fn lowering_builds_constrained_references() {
    check("t = enum { A = 1, B = 2, }\nx = t | { A }\n", "t = enum { A = 1, B = 2 }\nx = t | ...");
}

#[test]
fn lowering_parenthesized_and_multiplicative_lengths() {
    check("p(@n: u8) = [u8; (@n + 1) * 2 / |u16|]\n", "p(n) = [u8; (@n + 1) * 2 / |u16|]");
}

// ---------------------------------------------------------------------------
// Semantic checks.

fn count_diagnostics(source: &str, predicate: impl Fn(&CheckDiagnosticKind) -> bool) -> usize {
    let (db, hir) = lower(source);
    let diags: Vec<CheckDiagnostic> = check_hir(&db, &hir);
    diags.iter().filter(|d| predicate(&d.kind)).count()
}

fn check_count(source: &str) -> usize {
    let mut db = Database::new();
    let root = parse(source);
    check_file(&mut db, source, &root).len()
}

#[test]
fn test_duplicate_definition() {
    let source = "\nfoo = u8\nfoo = u16\n";
    let count = count_diagnostics(source, |k| matches!(k, CheckDiagnosticKind::DuplicateDefinition(_)));
    assert!(count > 0, "expected DuplicateDefinition diagnostic");
}

#[test]
fn test_undefined_symbol() {
    let source = "\nfoo = {\n    a: bar,\n}\n";
    let count = count_diagnostics(source, |k| matches!(k, CheckDiagnosticKind::UndefinedSymbol(_)));
    assert!(count > 0, "expected UndefinedSymbol diagnostic");
}

#[test]
fn test_const_out_of_range() {
    let source = "\nconst BAR: u8 = 333\n";
    let count = count_diagnostics(source, |k| matches!(k, CheckDiagnosticKind::ConstValueOutOfRange { .. }));
    assert!(count > 0, "expected ConstValueOutOfRange diagnostic");
}

#[test]
fn test_duplicate_field() {
    let source = "\nfmt = {\n    @f1: u8,\n    @f1: u16,\n}\n";
    let count = count_diagnostics(source, |k| matches!(k, CheckDiagnosticKind::DuplicateField(_)));
    assert!(count > 0, "expected DuplicateField diagnostic");
}

#[test]
fn test_enum_duplicate_variant() {
    let source = "\nt = enum {\n    A = 1,\n    A = 2,\n}\n";
    let count = count_diagnostics(source, |k| matches!(k, CheckDiagnosticKind::DuplicateEnumVariant(_)));
    assert!(count > 0, "expected DuplicateEnumVariant diagnostic");
}

#[test]
fn test_choice_non_exhaustive() {
    let source = "\nt = enum {\n    A = 1,\n    B = 2,\n    C = 3,\n}\n\nfmt(@tag: t) = choose(@tag) {\n    A => u8,\n}\n";
    let count = count_diagnostics(source, |k| matches!(k, CheckDiagnosticKind::ChoiceNonExhaustive { .. }));
    assert!(count > 0, "expected ChoiceNonExhaustive diagnostic");
}

#[test]
fn test_choice_undefined_discriminant() {
    let source = "\nfmt = choose(@tag) {\n    1 => u8,\n    2 => u16,\n}\n";
    let count = count_diagnostics(source, |k| matches!(k, CheckDiagnosticKind::ChoiceDiscriminantUndefined(_)));
    assert!(count > 0, "expected ChoiceDiscriminantUndefined diagnostic");
}

#[test]
fn test_invocation_arg_count() {
    let source = "\nfoo(@a: u8) = {\n    payload: [u8; @a],\n}\n\nbar = {\n    @a: u8,\n    @b: u8,\n    f: foo(@a, @b),\n}\n";
    let count = count_diagnostics(source, |k| matches!(k, CheckDiagnosticKind::InvocationArgCountMismatch { .. }));
    assert!(count > 0, "expected InvocationArgCountMismatch diagnostic");
}

#[test]
fn test_length_expr_undefined() {
    let source = "\nfmt = {\n    b: [u8; @a],\n}\n";
    let count = count_diagnostics(source, |k| matches!(k, CheckDiagnosticKind::LengthExprUndefined(_)));
    assert!(count > 0, "expected LengthExprUndefined diagnostic");
}

#[test]
fn test_size_expr_undefined() {
    let source = "\nfoo = {\n    data: [u8; |undefined_type|],\n}\n";
    let count = count_diagnostics(source, |k| matches!(k, CheckDiagnosticKind::SizeExprUndefined(_)));
    assert!(count > 0, "expected SizeExprUndefined diagnostic");
}

#[test]
fn test_size_expr_not_static() {
    let source = "\nopaque_payload = {\n    @len: u16,\n    body: [u8; @len],\n}\n\nbad = {\n    body: [u8; |opaque_payload|],\n}\n";
    let count = count_diagnostics(source, |k| matches!(k, CheckDiagnosticKind::SizeExprNotStatic(_)));
    assert!(count > 0, "expected SizeExprNotStatic diagnostic");
}

#[test]
fn test_valid_file() {
    let source = "\nt = enum {\n    A = 1,\n    B = 2,\n}\n\nmsg(@tag: t) = choose(@tag) {\n    A => u8,\n    B => u16,\n}\n";
    assert_eq!(check_count(source), 0, "expected no diagnostics");
}

#[test]
fn test_forward_reference_static_size_computes() {
    let source = "\nouter = inner\ninner = u8\n";
    let (mut db, hir) = lower(source);
    let outer = name_of(&mut db, "outer");
    assert_eq!(compute_static_size(&db, &hir, outer), Some(1));
}

#[test]
fn test_large_integer_range_overlap_reports_without_enumeration() {
    let source = "\nfmt(@tag: u32) = choose(@tag) {\n    0..4294967295 => u8,\n    42 => u16,\n}\n";
    let count = count_diagnostics(source, |k| matches!(k, CheckDiagnosticKind::ChoicePatternOverlap));
    assert!(count > 0, "expected ChoicePatternOverlap diagnostic");
}

#[test]
fn test_invalid_int_constraint_reports_non_empty_span() {
    let source = "fmt = u8 | { .. }\n";
    let (db, hir) = lower(source);
    let diag = check_hir(&db, &hir)
        .into_iter()
        .find(|diag| matches!(diag.kind, CheckDiagnosticKind::InvalidIntConstraint))
        .expect("expected InvalidIntConstraint diagnostic");
    assert!(diag.span.start_byte < diag.span.end_byte);
    assert_eq!(&source[diag.span.start_byte..diag.span.end_byte], "..");
}

#[test]
fn test_bind_source_not_raw_reports_non_empty_span() {
    let source = "fmt = u8 >>= u16\n";
    let (db, hir) = lower(source);
    let diag = check_hir(&db, &hir)
        .into_iter()
        .find(|diag| matches!(diag.kind, CheckDiagnosticKind::BindSourceNotRaw))
        .expect("expected BindSourceNotRaw diagnostic");
    assert!(diag.span.start_byte < diag.span.end_byte);
    assert!(source[diag.span.start_byte..diag.span.end_byte].contains(">>="));
}

#[test]
fn test_check_file_query_tracks_source_updates() {
    let mut db = Database::new();
    let initial_text = "fmt = u8\n";
    let initial = check_file(&mut db, initial_text, &parse(initial_text));
    assert!(initial.is_empty());

    let updated_text = "fmt = missing\n";
    let updated = check_file(&mut db, updated_text, &parse(updated_text));
    assert!(
        updated.iter().any(|diag| diag.message.contains("undefined type")),
        "expected semantic diagnostics after source update"
    );
}

#[test]
fn static_size_of_records_and_arrays() {
    let (mut db, hir) = lower("pair = { x: u16, y: u32, }\nblob = [u8; 7]\n");
    let pair = name_of(&mut db, "pair");
    let blob = name_of(&mut db, "blob");
    assert_eq!(compute_static_size(&db, &hir, pair), Some(6));
    assert_eq!(compute_static_size(&db, &hir, blob), Some(7));
}

#[test]
fn an_operator_without_operand_has_no_static_length() {
    let source = "bad = [u8; 4 + 4]\n";
    let mut root = parse(source);
    // Drop the second term: an operator with nothing after it.
    let length = &mut root.children[0].children[0].children[2].children[0].children[0].children[3];
    assert_eq!(length.kind, "length_expr");
    length.children.truncate(2);
    let mut db = Database::new();
    let diags = check_file(&mut db, source, &root);
    assert!(diags.is_empty());
    let hir = lower_to_hir_with_parse(&mut db, source, &root);
    let bad = name_of(&mut db, "bad");
    assert_eq!(compute_static_size(&db, &hir, bad), None);
}

// ---------------------------------------------------------------------------
// Symbols.

fn render_occurrences(occurrences: &[SymbolOccurrence]) -> String {
    occurrences
        .iter()
        .map(|occurrence| {
            let kind = match occurrence.kind {
                SymbolOccurrenceKind::Declaration => "declaration",
                SymbolOccurrenceKind::Reference => "reference",
            };
            format!("{kind}@{}..{}", occurrence.span.start_byte, occurrence.span.end_byte)
        })
        .collect::<Vec<_>>()
        .join("\n")
}

fn setup(source: &str) -> (Database, SyntaxNode) {
    (Database::new(), parse(source))
}

#[test]
fn resolve_existing_symbol() {
    let source = "packet = { field: u8, }\nother = u16\n";
    let (mut db, root) = setup(source);
    let name = name_of(&mut db, "packet");
    let def = resolve_symbol(&mut db, source, &root, name);
    assert!(def.is_some());
    assert_eq!(def.unwrap().name.as_str(&db), "packet");
}

#[test]
fn resolve_missing_symbol_returns_none() {
    let source = "packet = { field: u8, }\n";
    let (mut db, root) = setup(source);
    let name = name_of(&mut db, "missing");
    let def = resolve_symbol(&mut db, source, &root, name);
    assert!(def.is_none());
}

#[test]
fn resolve_local_param() {
    let source = "msg(@len: u16) = [u8; @len]\n";
    let (mut db, root) = setup(source);
    let name = name_of(&mut db, "msg");
    let def = resolve_symbol(&mut db, source, &root, name).unwrap();
    let param_name = name_of(&mut db, "len");
    let span = resolve_local_symbol(&db, &def, param_name);
    assert!(span.is_some());
}

#[test]
fn resolve_local_field() {
    let source = "packet = { @len: u16, data: [u8; @len], }\n";
    let (mut db, root) = setup(source);
    let name = name_of(&mut db, "packet");
    let def = resolve_symbol(&mut db, source, &root, name).unwrap();
    let field_name = name_of(&mut db, "len");
    let span = resolve_local_symbol(&db, &def, field_name);
    assert!(span.is_some());
}

#[test]
fn resolve_local_enum_variant() {
    let source = "my_enum = enum { A = 0, B = 1, }\n";
    let (mut db, root) = setup(source);
    let name = name_of(&mut db, "my_enum");
    let def = resolve_symbol(&mut db, source, &root, name).unwrap();
    let variant_name = name_of(&mut db, "A");
    let span = resolve_local_symbol(&db, &def, variant_name);
    assert!(span.is_some());
}

#[test]
fn declaration_at_offset_prefers_top_level_name_span() {
    let source = "packet = { packet: u8, }\n";
    let (mut db, root) = setup(source);
    let name = name_of(&mut db, "packet");
    let def = resolve_symbol(&mut db, source, &root, name).unwrap();
    let span = declaration_at_offset(&def, 1).unwrap();
    assert_eq!(span, Span::new(0, 6));
}

#[test]
fn declaration_at_offset_prefers_field_name_over_shadowed_param() {
    let source = "msg(@len: u16) = { @len: u8, data: [u8; @len], }\n";
    let (mut db, root) = setup(source);
    let name = name_of(&mut db, "msg");
    let def = resolve_symbol(&mut db, source, &root, name).unwrap();
    let span = declaration_at_offset(&def, 20).unwrap();
    assert_eq!(span, Span::new(19, 23));
}

#[test]
fn file_definitions_returns_all() {
    let source = "a = u8\nb = u16\nc = u32\n";
    let (mut db, root) = setup(source);
    let defs = file_definitions(&mut db, source, &root);
    assert_eq!(defs.len(), 3);
}

#[test]
fn definition_at_offset_finds_correct_def() {
    let source = "first = u8\nsecond = u16\n";
    let (mut db, root) = setup(source);
    // "second" starts at offset 11
    let def = definition_at_offset(&mut db, source, &root, 12);
    assert!(def.is_some());
    assert_eq!(def.unwrap().name.as_str(&db), "second");
}

#[test]
fn symbol_at_offset_and_references_for_top_level_symbol() {
    let (_, hir) = lower("other = u8\npacket = { field: other, next: other, }\n");
    let symbol = symbol_at_offset_in_hir(&hir, 30).unwrap();
    let occurrences = references_for_symbol_in_hir(&hir, symbol, true);
    assert_eq!(render_occurrences(&occurrences), "declaration@0..5\nreference@29..34\nreference@42..47");
}

#[test]
fn symbol_at_offset_resolves_shadowed_field_references() {
    let (mut db, hir) = lower("msg(@len: u16) = { @len: u8, data: [u8; @len], rest: [u8; @len], }\n");
    let symbol = symbol_at_offset_in_hir(&hir, 41).unwrap();
    let occurrences = references_for_symbol_in_hir(&hir, symbol, true);
    assert!(
        symbol
            == SymbolId::Field {
                owner: name_of(&mut db, "msg"),
                name: name_of(&mut db, "len"),
                declaration: Span::new(19, 23),
                is_dependent: true,
            }
    );
    assert_eq!(render_occurrences(&occurrences), "declaration@19..23\nreference@40..44\nreference@58..62");
}

#[test]
fn symbol_references_for_dotted_dependent_id_use_base_binding_span() {
    let (_, hir) = lower("msg = { @len: u16, data: [u8; @len.value], }\n");
    let symbol = symbol_at_offset_in_hir(&hir, 31).unwrap();
    let occurrences = references_for_symbol_in_hir(&hir, symbol, true);
    assert_eq!(render_occurrences(&occurrences), "declaration@8..12\nreference@30..34");
    assert!(symbol_at_offset_in_hir(&hir, 35).is_none());
}

#[test]
fn collect_references_finds_all_refs() {
    let mut db = Database::new();
    let name1 = name_of(&mut db, "other");
    let name2 = name_of(&mut db, "param");
    let comb = Combinator::Reference { name: name1, args: vec![NameRef::new(name2, Span::new(10, 16))], span: Span::empty() };
    let refs = collect_references(&comb);
    assert_eq!(refs.len(), 2);
}

#[test]
fn file_level_symbol_queries_lower_the_tree() {
    let source = "other = u8\npacket = { field: other, next: other, }\n";
    let (mut db, root) = setup(source);
    let symbol = symbol_at_offset(&mut db, source, &root, 30).unwrap();
    let with_declaration = references_for_symbol(&mut db, source, &root, symbol, true);
    let without_declaration = references_for_symbol(&mut db, source, &root, symbol, false);
    assert_eq!(render_occurrences(&with_declaration), "declaration@0..5\nreference@29..34\nreference@42..47");
    assert_eq!(render_occurrences(&without_declaration), "reference@29..34\nreference@42..47");
    assert!(definition_at_offset(&mut db, source, &root, 10).is_none());
}

// ---------------------------------------------------------------------------
// Wire length and hover.

#[test]
fn compute_wire_length_for_primitive_definition_is_exact() {
    let (mut db, hir) = lower("msg = u16\n");
    let msg = name_of(&mut db, "msg");
    let wire = compute_wire_length(&db, &hir, msg).expect("wire length should exist");
    assert_eq!(wire.exact, Some(WireExpr::Const(2)));
    assert_eq!(wire.min, 2);
    assert_eq!(wire.max, Some(2));
}

#[test]
fn compute_wire_length_for_dependent_struct_tracks_expr_and_bounds() {
    let (mut db, hir) = lower("msg = {\n    @len: u8 | 0..0xf0,\n    payload: [u8; @len],\n}\n");
    let msg = name_of(&mut db, "msg");
    let wire = compute_wire_length(&db, &hir, msg).expect("wire length should exist");
    assert_eq!(wire.exact.expect("exact expression should exist").render(&db), "1 + @len");
    assert_eq!(wire.min, 1);
    assert_eq!(wire.max, Some(241));
}

#[test]
fn compute_wire_length_for_choice_uses_branch_range() {
    let (mut db, hir) = lower("msg(@tag: u8) = choose(@tag) { 0 => u8, _ => u16, }\n");
    let msg = name_of(&mut db, "msg");
    let wire = compute_wire_length(&db, &hir, msg).expect("wire length should exist");
    assert!(wire.exact.is_none());
    assert_eq!(wire.min, 1);
    assert_eq!(wire.max, Some(2));
}

#[test]
fn hover_info_for_field_uses_field_definition_not_shadowed_top_level_name() {
    let source = "field = u8\npacket = { field: u16, }\n";
    let offset = source.rfind("field").expect("field label should exist");
    let (db, hir) = lower(source);
    let hover = hover_info_in_hir(&db, &hir, offset).expect("hover should exist");
    assert_eq!(hover.kind, HoverKind::Field);
    assert_eq!(hover.wire_length.expect("wire length").exact, Some(WireExpr::Const(2)));
}

#[test]
fn hover_info_for_reference_uses_definition_span() {
    let source = "other = u8\npacket = { field: other, }\n";
    let offset = source.rfind("other").expect("reference should exist");
    let (db, hir) = lower(source);
    let hover = hover_info_in_hir(&db, &hir, offset).expect("hover should exist");
    assert_eq!(hover.kind, HoverKind::Format);
    assert_eq!(hover.snippet_span, Span::new(0, 10));
    assert_eq!(hover.wire_length.expect("wire length").exact, Some(WireExpr::Const(1)));
}

// ---------------------------------------------------------------------------
// Editor requests.

fn render_ranges(ranges: &[Range]) -> String {
    ranges
        .iter()
        .map(|r| format!("{}:{}-{}:{}", r.start.line, r.start.character, r.end.line, r.end.character))
        .collect::<Vec<_>>()
        .join("\n")
}

fn render_edits(edits: &[TextEdit]) -> String {
    let mut edits = edits.iter().collect::<Vec<_>>();
    edits.sort_by_key(|e| (e.range.start.line, e.range.start.character, e.range.end.line, e.range.end.character));
    edits
        .iter()
        .map(|e| {
            format!(
                "{}:{}-{}:{} => {}",
                e.range.start.line, e.range.start.character, e.range.end.line, e.range.end.character, e.new_text
            )
        })
        .collect::<Vec<_>>()
        .join("\n")
}

/// The HIR and the open document of a source text.
fn open(source: &str) -> (Database, FileHir, SourceDocument) {
    let (db, hir) = lower(source);
    (db, hir, SourceDocument::new(1, source.into()))
}

const OTHER_AND_PACKET: &str = "other = u8\npacket = { field: other, next: other, }\n";
const SHADOWED_TWO_FIELDS: &str = "msg(@len: u16) = {\n    @len: u8,\n    data: [u8; @len],\n}\n";
const SHADOWED_THREE_FIELDS: &str = "msg(@len: u16) = {\n    @len: u8,\n    data: [u8; @len],\n    rest: [u8; @len],\n}\n";
const DOTTED_LINES: &str = "msg = {\n    @len: u16,\n    data: [u8; @len.value],\n}\n";
const PACKET_WITH_FIELD: &str = "packet = { field: u8, }\n";

#[test]
fn goto_definition_resolves_type_reference() {
    let (_, hir, document) = open(OTHER_AND_PACKET);
    let range = goto_definition_in_hir(&hir, &document, Position::new(1, 18)).expect("definition should exist");
    assert_eq!(range.start.line, 0);
    assert_eq!(range.start.character, 0);
}

#[test]
fn goto_definition_resolves_dependent_parameter_reference() {
    let (_, hir, document) = open("msg(@len: u16) = [u8; @len]\n");
    let range = goto_definition_in_hir(&hir, &document, Position::new(0, 23)).expect("definition should exist");
    assert_eq!(range.start.line, 0);
    assert_eq!(range.start.character, 4);
}

#[test]
fn goto_definition_resolves_dotted_dependent_reference() {
    let (_, hir, document) = open("msg = { @len: u16, data: [u8; @len.value], }\n");
    let range = goto_definition_in_hir(&hir, &document, Position::new(0, 31)).expect("definition should exist");
    assert_eq!(range.start.line, 0);
    assert_eq!(range.start.character, 8);
}

#[test]
fn goto_definition_resolves_enum_definition_reference() {
    let (_, hir, document) = open("my_enum = enum { A = 0, }\npacket = my_enum\n");
    let range = goto_definition_in_hir(&hir, &document, Position::new(1, 10)).expect("definition should exist");
    assert_eq!(range.start.line, 0);
    assert_eq!(range.start.character, 0);
}

#[test]
fn goto_definition_on_top_level_declaration_prefers_definition_name() {
    let (_, hir, document) = open("packet = {\n    packet: u8,\n}\n");
    let range = goto_definition_in_hir(&hir, &document, Position::new(0, 1)).expect("definition should exist");
    assert_eq!(range.start.line, 0);
    assert_eq!(range.start.character, 0);
}

#[test]
fn goto_definition_on_field_declaration_prefers_field_over_shadowed_param() {
    let (_, hir, document) = open(SHADOWED_TWO_FIELDS);
    let range = goto_definition_in_hir(&hir, &document, Position::new(1, 5)).expect("definition should exist");
    assert_eq!(range.start.line, 1);
    assert_eq!(range.start.character, 4);
}

#[test]
fn goto_definition_on_shadowed_field_reference_prefers_field() {
    let (_, hir, document) = open(SHADOWED_TWO_FIELDS);
    let range = goto_definition_in_hir(&hir, &document, Position::new(2, 16)).expect("definition should exist");
    assert_eq!(range.start.line, 1);
    assert_eq!(range.start.character, 4);
}

#[test]
fn references_return_top_level_locations_with_optional_declaration() {
    let (_, hir, document) = open(OTHER_AND_PACKET);
    let with_declaration = references_in_hir(&hir, &document, Position::new(1, 20), true).expect("references should exist");
    let without_declaration =
        references_in_hir(&hir, &document, Position::new(1, 20), false).expect("references should exist");
    assert_eq!(render_ranges(&with_declaration), "0:0-0:5\n1:18-1:23\n1:31-1:36");
    assert_eq!(render_ranges(&without_declaration), "1:18-1:23\n1:31-1:36");
}

#[test]
fn references_return_shadowed_local_locations() {
    let (_, hir, document) = open(SHADOWED_THREE_FIELDS);
    let references = references_in_hir(&hir, &document, Position::new(2, 16), true).expect("references should exist");
    assert_eq!(render_ranges(&references), "1:4-1:8\n2:15-2:19\n3:15-3:19");
}

#[test]
fn rename_returns_edits_for_top_level_symbol() {
    let (_, hir, document) = open(OTHER_AND_PACKET);
    let edits = rename_in_hir(&hir, &document, Position::new(1, 20), "size").expect("rename should succeed");
    assert_eq!(render_edits(&edits), "0:0-0:5 => size\n1:18-1:23 => size\n1:31-1:36 => size");
}

#[test]
fn prepare_rename_returns_reference_range_and_placeholder() {
    let (db, hir, document) = open(OTHER_AND_PACKET);
    let response = prepare_rename_in_hir(&db, &hir, &document, Position::new(1, 20)).expect("prepare rename should exist");
    assert_eq!(response.placeholder, "other");
    assert_eq!(response.range.start, Position::new(1, 18));
    assert_eq!(response.range.end, Position::new(1, 23));
}

#[test]
fn prepare_rename_returns_dotted_dependent_base_range() {
    let (db, hir, document) = open(DOTTED_LINES);
    let response = prepare_rename_in_hir(&db, &hir, &document, Position::new(2, 16)).expect("prepare rename should exist");
    assert_eq!(response.placeholder, "len");
    assert_eq!(response.range.start, Position::new(2, 16));
    assert_eq!(response.range.end, Position::new(2, 19));
}

#[test]
fn rename_returns_edits_for_shadowed_local_symbol() {
    let (_, hir, document) = open(SHADOWED_THREE_FIELDS);
    let edits = rename_in_hir(&hir, &document, Position::new(2, 16), "size").expect("rename should succeed");
    assert_eq!(render_edits(&edits), "1:4-1:8 => @size\n2:15-2:19 => @size\n3:15-3:19 => @size");
}

#[test]
fn rename_accepts_sigiled_new_name_for_dependent_symbol() {
    let (_, hir, document) = open(SHADOWED_TWO_FIELDS);
    let edits = rename_in_hir(&hir, &document, Position::new(2, 16), "@size").expect("rename should succeed");
    assert_eq!(render_edits(&edits), "1:4-1:8 => @size\n2:15-2:19 => @size");
}

#[test]
fn rename_preserves_dotted_dependent_suffixes() {
    let (_, hir, document) = open(DOTTED_LINES);
    let edits = rename_in_hir(&hir, &document, Position::new(2, 16), "size").expect("rename should succeed");
    assert_eq!(render_edits(&edits), "1:4-1:8 => @size\n2:15-2:19 => @size");
}

#[test]
fn rename_rejects_invalid_new_name() {
    let (_, hir, document) = open(PACKET_WITH_FIELD);
    let err = rename_in_hir(&hir, &document, Position::new(0, 1), "9bad").err().unwrap();
    assert_eq!(err, RenameRejection::InvalidName);
}

#[test]
fn rename_rejects_reserved_new_name() {
    let (_, hir, document) = open(PACKET_WITH_FIELD);
    let err = rename_in_hir(&hir, &document, Position::new(0, 1), "enum").err().unwrap();
    assert_eq!(err, RenameRejection::InvalidName);
}

#[test]
fn rename_rejects_non_symbol_location() {
    let (_, hir, document) = open(PACKET_WITH_FIELD);
    let err = rename_in_hir(&hir, &document, Position::new(0, 9), "size").err().unwrap();
    assert_eq!(err, RenameRejection::NoSymbol);
}

#[test]
fn rename_rejects_position_outside_document() {
    let (_, hir, document) = open(PACKET_WITH_FIELD);
    let err = rename_in_hir(&hir, &document, Position::new(7, 0), "size").err().unwrap();
    assert_eq!(err, RenameRejection::PositionOutOfDocument);
}

#[test]
fn goto_definition_returns_none_for_non_identifier() {
    let (_, hir, document) = open(PACKET_WITH_FIELD);
    assert!(goto_definition_in_hir(&hir, &document, Position::new(0, 9)).is_none());
}

// ---------------------------------------------------------------------------
// Parse metadata.

fn source_file(version: i32, text: &str) -> SourceFile {
    SourceFile::new("file:///test.vest".into(), version, text.into())
}

/// The tree of a file that ends inside a struct: the parser skips it as
/// one error node.
fn unterminated_tree(text: &str) -> SyntaxNode {
    let error = SyntaxNode {
        kind: "ERROR".into(),
        is_error: true,
        is_missing: false,
        start_byte: 0,
        end_byte: text.len(),
        children: Vec::new(),
    };
    SyntaxNode {
        kind: "source_file".into(),
        is_error: false,
        is_missing: false,
        start_byte: 0,
        end_byte: text.len(),
        children: vec![error],
    }
}

#[test]
fn parse_valid_source_has_no_errors() {
    let source = source_file(1, "packet = { field: u8, }\n");
    let result = parse_file(&source, &parse(source.text()), &Vec::new());
    assert!(!result.has_errors);
    assert!(result.diagnostics.is_empty());
}

#[test]
fn parse_invalid_source_has_errors() {
    let source = source_file(1, "packet = {\n    field: u8\n");
    let result = parse_file(&source, &unterminated_tree(source.text()), &Vec::new());
    assert!(result.has_errors);
    let rendered = result
        .diagnostics
        .iter()
        .map(|d| format!("{} @ {}..{}", d.message, d.start_byte, d.end_byte))
        .collect::<Vec<_>>()
        .join("\n");
    assert_eq!(rendered, "Unexpected end of file @ 24..24");
}

#[test]
fn parse_result_is_memoized() {
    let source = source_file(1, "packet = { field: u8, }\n");
    let tree = parse(source.text());
    let result1 = parse_file(&source, &tree, &Vec::new());
    let result2 = parse_file(&source, &tree, &Vec::new());
    assert_eq!(result1.has_errors, result2.has_errors);
    assert_eq!(result1.diagnostics, result2.diagnostics);
}

#[test]
fn parse_result_invalidated_on_text_change() {
    let source = source_file(1, "packet = { field: u8, }\n");
    let result1 = parse_file(&source, &parse(source.text()), &Vec::new());
    assert!(!result1.has_errors);

    let updated = source_file(1, "packet = {\n    field: u8\n");
    let result2 = parse_file(&updated, &unterminated_tree(updated.text()), &Vec::new());
    assert!(result2.has_errors);
}

#[test]
fn version_changes_do_not_change_parse_output() {
    let source = source_file(1, "packet = { field: u8, }\n");
    let tree = parse(source.text());
    let result1 = parse_file(&source, &tree, &Vec::new());
    let source2 = source_file(2, "packet = { field: u8, }\n");
    let result2 = parse_file(&source2, &tree, &Vec::new());
    assert_eq!(result1.diagnostics.as_slice(), result2.diagnostics.as_slice());
    assert_eq!(result1.semantic_tokens.as_slice(), result2.semantic_tokens.as_slice());
    assert_eq!(result1.has_errors, result2.has_errors);
    assert_eq!(result2.source.version(), 2);
    assert_eq!(result2.source.uri(), "file:///test.vest");
}

#[test]
fn missing_nodes_count_as_errors_deep_in_the_tree() {
    let source = source_file(1, "packet = { field: u8, }\n");
    let mut tree = parse(source.text());
    let field = &mut tree.children[0].children[0].children[2].children[0].children[0].children[1];
    assert_eq!(field.kind, "field");
    field.children.push(SyntaxNode {
        kind: ",".into(),
        is_error: false,
        is_missing: true,
        start_byte: 20,
        end_byte: 20,
        children: Vec::new(),
    });
    let result = parse_file(&source, &tree, &Vec::new());
    assert!(result.has_errors);
    assert_eq!(result.diagnostics.len(), 1);
    assert_eq!(result.diagnostics[0].message, "Expected ,");
}

// ---------------------------------------------------------------------------
// Lowering of single constructs, and lookups in a lowered file.

fn find_kind<'t>(n: &'t SyntaxNode, kind: &str) -> Option<&'t SyntaxNode> {
    if n.kind == kind {
        return Some(n);
    }
    n.children.iter().find_map(|c| find_kind(c, kind))
}

const PIECES: &str =
    "p(@n: u8) = { a: u8 | { 1..5, 9 }, b: [u8; @n * 2], c: t | !{ A }, }\nt = enum { A = 1, B = 0x20, }\nconst C: u16 = 7\n";

#[test]
fn lowering_single_constructs_agrees_with_the_whole_file() {
    let root = parse(PIECES);
    let mut db = Database::new();
    intern_tree_texts(&mut db, PIECES, &root);
    let hir = lower_to_hir_with_parse(&mut db, PIECES, &root);

    let DefinitionKind::Combinator { body, .. } = &hir.definitions[0].kind else { panic!("expected a combinator") };
    let piece = lower_combinator(&db, PIECES, find_kind(&root, "combinator").unwrap());
    assert_eq!(format_combinator(&db, &piece), format_combinator(&db, body));
    assert_eq!(format_combinator(&db, &piece), "{ a: u8 | ..., b: [u8; @n * 2], c: t | ... }");

    let constraint = lower_int_constraint(PIECES, find_kind(&root, "int_constraint").unwrap());
    assert!(!constraint.negated);
    assert_eq!(constraint.elements.len(), 2);
    match &constraint.elements[0] {
        vest_db::types::ConstraintElement::Range { start, end, .. } => {
            assert_eq!(start.as_ref().and_then(|v| v.as_int()), Some(1));
            assert_eq!(end.as_ref().and_then(|v| v.as_int()), Some(5));
        },
        _ => panic!("expected a range"),
    }
    match &constraint.elements[1] {
        vest_db::types::ConstraintElement::Single { value, .. } => assert_eq!(value.as_int(), Some(9)),
        _ => panic!("expected a single value"),
    }
    assert_eq!(lower_const_int(PIECES, find_kind(&root, "const_int").unwrap()), 1);

    let length = lower_length_expr(&db, PIECES, find_kind(&root, "length_expr").unwrap());
    assert_eq!(format_length_expr(&db, &length), "@n * 2");

    let (variants, negated) = lower_enum_constraint(&db, PIECES, find_kind(&root, "enum_constraint").unwrap());
    assert!(negated);
    assert_eq!(variants.iter().map(|v| v.name.as_str(&db)).collect::<Vec<_>>(), vec!["A"]);

    let e = lower_enum_combinator(&db, PIECES, find_kind(&root, "enum_combinator").unwrap());
    assert!(e.is_exhaustive);
    assert_eq!(e.variants.iter().map(|v| v.value.as_int().unwrap()).collect::<Vec<_>>(), vec![1, 32]);

    let (ty, value) = lower_const_combinator(&db, PIECES, find_kind(&root, "const_combinator").unwrap());
    assert!(matches!(ty, Some(Combinator::Int(IntType::U16))));
    assert_eq!(value.and_then(|v| v.as_int()), Some(7));
}

#[test]
fn integer_texts_read_in_both_bases() {
    assert_eq!(parse_u64_text("1234", false), Some(1234));
    assert_eq!(parse_u64_text("ff", true), Some(255));
    assert_eq!(parse_u64_text("FF", true), Some(255));
    assert_eq!(parse_u64_text("ff", false), None);
    assert_eq!(parse_u64_text("", false), None);
    assert_eq!(parse_u64_text("18446744073709551615", false), Some(u64::MAX));
    assert_eq!(parse_u64_text("18446744073709551616", false), None);
}

#[test]
fn lookups_in_a_lowered_file() {
    let (mut db, hir) = lower(PIECES);
    let t = name_of(&mut db, "t");
    let missing = name_of(&mut db, "missing");
    let found = resolve_symbol_in_hir(&hir, t).unwrap();
    assert_eq!(found.name, t);
    assert!(matches!(found.kind, DefinitionKind::Enum(_)));
    assert!(resolve_symbol_in_hir(&hir, missing).is_none());

    let offset = PIECES.find("enum").unwrap();
    assert_eq!(definition_at_offset_in_hir(&hir, offset).unwrap().name, t);
    assert!(definition_at_offset_in_hir(&hir, PIECES.len() + 5).is_none());

    let use_of_t = PIECES.find("t |").unwrap();
    let occ = symbol_occurrence_at_offset_in_hir(&hir, use_of_t).unwrap();
    assert_eq!(occ.kind, SymbolOccurrenceKind::Reference);
    assert_eq!(occ.symbol.name(), t);
    assert_eq!((occ.span.start_byte, occ.span.end_byte), (use_of_t, use_of_t + "t | !{ A }".len()));
}

#[test]
fn check_reports_what_every_definition_owes() {
    let src = "a = { x: Option<missing_one>, y: u8, y: u16, z: [missing_two; 2], }\nb(@p: u8, @p: u16) = u8 | { 300 }\n";
    let (mut db, hir) = lower(src);
    let diags = check_hir(&db, &hir);
    let missing_one = name_of(&mut db, "missing_one");
    let missing_two = name_of(&mut db, "missing_two");
    let y = name_of(&mut db, "y");
    let p = name_of(&mut db, "p");
    let at = |needle: &str| src.find(needle).unwrap();
    assert!(diags.iter().any(|d| matches!(d.kind, CheckDiagnosticKind::UndefinedSymbol(n) if n == missing_one)
        && d.span.start_byte == at("missing_one")));
    assert!(diags.iter().any(|d| matches!(d.kind, CheckDiagnosticKind::UndefinedSymbol(n) if n == missing_two)
        && d.span.start_byte == at("missing_two")));
    assert_eq!(diags.iter().filter(|d| matches!(d.kind, CheckDiagnosticKind::DuplicateField(n) if n == y)).count(), 1);
    assert_eq!(diags.iter().filter(|d| matches!(d.kind, CheckDiagnosticKind::DuplicateField(n) if n == p)).count(), 1);
    assert!(diags.iter().any(|d| matches!(d.kind, CheckDiagnosticKind::IntLiteralOutOfRange { value: 300, int_type: IntType::U8 })));
}

#[test]
fn check_reports_undefined_size_targets() {
    let src = "s = [u8; |nowhere| * 2]
";
    let (mut db, hir) = lower(src);
    let diags = check_hir(&db, &hir);
    let nowhere = name_of(&mut db, "nowhere");
    assert!(diags.iter().any(|d| matches!(d.kind, CheckDiagnosticKind::SizeExprUndefined(n) if n == nowhere)
        && d.span.start_byte == src.find("nowhere").unwrap()));
}

#[test]
fn check_reports_names_out_of_scope() {
    let src = "c = { @tag: u8, body: choose(@other) { 1 => u8, }, data: [u8; @missing], }\n";
    let (mut db, hir) = lower(src);
    let diags = check_hir(&db, &hir);
    let other = name_of(&mut db, "other");
    let missing = name_of(&mut db, "missing");
    assert!(diags.iter().any(|d| matches!(d.kind, CheckDiagnosticKind::ChoiceDiscriminantUndefined(n) if n == other)));
    assert!(diags.iter().any(|d| matches!(d.kind, CheckDiagnosticKind::LengthExprUndefined(n) if n == missing)
        && d.span.start_byte == src.find("@missing").unwrap()));
    let in_scope = "p(@n: u8) = { @len: u16, a: [u8; @len], b: [u8; @n], }\n";
    let (db2, hir2) = lower(in_scope);
    let diags2 = check_hir(&db2, &hir2);
    assert!(!diags2.iter().any(|d| matches!(d.kind, CheckDiagnosticKind::LengthExprUndefined(_))));
}

#[test]
fn duplicate_byte_array_patterns_are_reported() {
    let source = "f(@k: [u8; 2]) = choose(@k) { [1, 2] => u8, [1, 2] => u16, }\n";
    let count = count_diagnostics(source, |k| matches!(k, CheckDiagnosticKind::ChoicePatternDuplicate));
    assert_eq!(count, 1);
}

#[test]
fn duplicate_labeled_arms_are_reported() {
    let source = "f = choose { A => u8, B => u16, A => u32, }\n";
    let count = count_diagnostics(source, |k| matches!(k, CheckDiagnosticKind::ChoicePatternDuplicate));
    assert_eq!(count, 1);
}

#[test]
fn mixed_enum_suffixes_are_reported() {
    let source = "t = enum { A = 1 u8, B = 2 u16, }\n";
    let count = count_diagnostics(source, |k| matches!(k, CheckDiagnosticKind::EnumTypeSuffixMismatch));
    assert!(count > 0);
}

#[test]
fn inexact_division_has_no_static_length() {
    let (mut db, hir) = lower("s = [u8; 7 / 2]\nt = [u8; 8 / 2]\n");
    let s = name_of(&mut db, "s");
    let t = name_of(&mut db, "t");
    assert_eq!(compute_static_size(&db, &hir, s), None);
    assert_eq!(compute_static_size(&db, &hir, t), Some(4));
}

#[test]
fn byte_array_patterns_are_accepted_on_bytes() {
    let source = "f(@n: u8, @k: [u8; @n]) = choose(@k) { [1, 2] => u8, [1, 2, 3] => u16, _ => u32, }\n";
    assert_eq!(count_diagnostics(source, |k| matches!(k, CheckDiagnosticKind::ChoicePatternTypeMismatch)), 0);
    assert_eq!(check_count(source), 0);
}

#[test]
fn choices_need_a_wildcard_unless_a_closed_enum_is_covered() {
    let non_exhaustive = |source: &str| {
        count_diagnostics(source, |k| matches!(k, CheckDiagnosticKind::ChoiceNonExhaustive { .. }))
    };
    assert_eq!(non_exhaustive("g(@t: u8) = choose(@t) { 1 => u8, 2 => u8, }\n"), 1);
    assert_eq!(non_exhaustive("g(@t: u8) = choose(@t) { 1 => u8, _ => u8, }\n"), 0);
    assert_eq!(non_exhaustive("e = enum { A = 1, ... }\nh(@t: e) = choose(@t) { A => u8, }\n"), 1);
    assert_eq!(non_exhaustive("e = enum { A = 1, ... }\nh(@t: e) = choose(@t) { A => u8, _ => u8, }\n"), 0);
    assert_eq!(non_exhaustive("f(@k: [u8; 2]) = choose(@k) { [1, 2] => u8, }\n"), 1);
}

fn only_diagnostic(source: &str) -> (Database, CheckDiagnostic) {
    let (db, hir) = lower(source);
    let mut diags = check_hir(&db, &hir);
    assert_eq!(diags.len(), 1, "expected exactly one diagnostic for {source:?}");
    let d = diags.remove(0);
    (db, d)
}

#[test]
fn files_with_one_error_get_exactly_one_diagnostic() {
    let (mut db, d) = only_diagnostic("\nfoo = u8\nfoo = u16\n");
    assert!(matches!(d.kind, CheckDiagnosticKind::DuplicateDefinition(n) if n == name_of(&mut db, "foo")));
    assert_eq!((d.span.start_byte, d.span.end_byte), (10, 13));
    assert_eq!(d.message, "duplicate definition `foo`");

    let (mut db, d) = only_diagnostic("\nfoo = {\n    a: bar,\n}\n");
    assert!(matches!(d.kind, CheckDiagnosticKind::UndefinedSymbol(n) if n == name_of(&mut db, "bar")));
    assert_eq!(d.message, "undefined type `bar`");

    let (_, d) = only_diagnostic("\nconst BAR: u8 = 333\n");
    assert!(matches!(d.kind, CheckDiagnosticKind::ConstValueOutOfRange { value: 333, int_type: IntType::U8 }));

    let (mut db, d) = only_diagnostic("\nfmt = {\n    @f1: u8,\n    @f1: u16,\n}\n");
    assert!(matches!(d.kind, CheckDiagnosticKind::DuplicateField(n) if n == name_of(&mut db, "f1")));
    assert_eq!((d.span.start_byte, d.span.end_byte), (26, 29));

    let (_, d) = only_diagnostic("\nt = enum {\n    A = 1,\n    A = 2,\n}\n");
    assert!(matches!(d.kind, CheckDiagnosticKind::DuplicateEnumVariant(_)));
    assert_eq!(d.message, "duplicate enum variant `A`");

    let (mut db, d) = only_diagnostic(
        "\nt = enum {\n    A = 1,\n    B = 2,\n    C = 3,\n}\n\nfmt(@tag: t) = choose(@tag) {\n    A => u8,\n}\n",
    );
    let (b, c) = (name_of(&mut db, "B"), name_of(&mut db, "C"));
    match d.kind {
        CheckDiagnosticKind::ChoiceNonExhaustive { missing } => assert_eq!(missing, vec![b, c]),
        _ => panic!("expected a non-exhaustive choice"),
    }

    let (_, d) = only_diagnostic(
        "\nfoo(@a: u8) = {\n    payload: [u8; @a],\n}\n\nbar = {\n    @a: u8,\n    @b: u8,\n    f: foo(@a, @b),\n}\n",
    );
    assert!(matches!(d.kind, CheckDiagnosticKind::InvocationArgCountMismatch { expected: 1, actual: 2 }));
    assert_eq!(d.message, "expected 1 argument(s), found 2");
}

#[test]
fn recursive_references_are_not_reported_as_undefined() {
    let count = count_diagnostics("a = b\nb = a\n", |k| matches!(k, CheckDiagnosticKind::UndefinedSymbol(_)));
    assert_eq!(count, 0);
    let count = count_diagnostics("a = b\nb = c\n", |k| matches!(k, CheckDiagnosticKind::UndefinedSymbol(_)));
    assert_eq!(count, 1);
}
