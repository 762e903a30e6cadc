//! Observations about the named definition nodes of a source file.
//!
//! It does not judge identity: that happens at query time. It only reports what is
//! observed now: symbol path, kind of node, line span, and a structural hash.
//!
//! Rust, TypeScript/TSX, Go, PHP, Python, Java and Ruby are supported; other files
//! degrade to file-level anchors.
//!
//! The structural hash is an FNV-1a hash over the node's token stream with
//! identifiers, comments and white space normalised away, seeded with name-free
//! structural discriminators (kind, arity, return-type presence). So renaming a
//! function or its locals leaves the hash unchanged, while a change of structure or
//! of a literal breaks it.
use crate::syntax::{
    above_is_before, child_by_field, child_by_kind, end_of, find_field, find_kind,
    find_named, first_named, is_leaf, just_under, node_text, parent, parent_of, parse, row_text,
    run_end_bounds, subtree_end, syntax, utf8, SyntaxRow, SyntaxRowView,
};
pub use crate::syntax::LangSupport;
use crate::text;
use vstd::prelude::*;

verus! {

pub const RUST: LangSupport = LangSupport::Rust;

pub const TYPESCRIPT: LangSupport = LangSupport::TypeScript;

pub const TSX: LangSupport = LangSupport::Tsx;

pub const GO: LangSupport = LangSupport::Go;

pub const PHP: LangSupport = LangSupport::Php;

pub const PYTHON: LangSupport = LangSupport::Python;

pub const JAVA: LangSupport = LangSupport::Java;

pub const RUBY: LangSupport = LangSupport::Ruby;

/// A named definition node observed in a source file.
#[derive(Debug, PartialEq, Eq)]
pub struct Definition {
    /// Name-based coordinate, e.g. `AuthService::authenticate`. The `::` join is an
    /// internal coordinate, not language syntax.
    pub symbol_path: String,
    /// `function`, `method`, `struct`, `class`, `enum`, `union`, `trait`, `interface`
    /// or `module`.
    pub node_kind: String,
    /// 1-based inclusive row span.
    pub line_span: (u32, u32),
    pub structural_hash: String,
}

/// The value of a `Definition`.
pub ghost struct DefinitionView {
    pub symbol_path: Seq<char>,
    pub node_kind: Seq<char>,
    pub line_span: (u32, u32),
    pub structural_hash: Seq<char>,
}

impl DeepView for Definition {
    type V = DefinitionView;

    open spec fn deep_view(&self) -> DefinitionView {
        DefinitionView {
            symbol_path: self.symbol_path@,
            node_kind: self.node_kind@,
            line_span: self.line_span,
            structural_hash: self.structural_hash@,
        }
    }
}

impl View for Definition {
    type V = DefinitionView;

    open spec fn view(&self) -> DefinitionView {
        self.deep_view()
    }
}

impl Clone for Definition {
    fn clone(&self) -> (r: Self)
        ensures
            r@ == self@,
    {
        Definition {
            symbol_path: self.symbol_path.clone(),
            node_kind: self.node_kind.clone(),
            line_span: self.line_span,
            structural_hash: self.structural_hash.clone(),
        }
    }
}

// ---- Rust ---------------------------------------------------------------------
/// The label of a Rust definition node, by its kind.
///
/// `function_signature_item` is a body-less method declaration in a trait.
pub open spec fn rust_label(kind: Seq<char>, in_method: bool) -> Option<Seq<char>> {
    if kind == "function_item"@ || kind == "function_signature_item"@ {
        Some(if in_method {
            "method"@
        } else {
            "function"@
        })
    } else if kind == "struct_item"@ {
        Some("struct"@)
    } else if kind == "enum_item"@ {
        Some("enum"@)
    } else if kind == "union_item"@ {
        Some("union"@)
    } else if kind == "trait_item"@ {
        Some("trait"@)
    } else if kind == "mod_item"@ {
        Some("module"@)
    } else {
        None
    }
}

fn rust_classify(kind: &str, in_method: bool) -> (r: Option<&'static str>)
    ensures
        r.deep_view() == rust_label(kind@, in_method),
{
    if text::same(kind, "function_item") || text::same(kind, "function_signature_item") {
        Some(if in_method {
            "method"
        } else {
            "function"
        })
    } else if text::same(kind, "struct_item") {
        Some("struct")
    } else if text::same(kind, "enum_item") {
        Some("enum")
    } else if text::same(kind, "union_item") {
        Some("union")
    } else if text::same(kind, "trait_item") {
        Some("trait")
    } else if text::same(kind, "mod_item") {
        Some("module")
    } else {
        None
    }
}

/// The field of a Rust node whose text qualifies the names inside it.
pub open spec fn rust_scope_field(kind: Seq<char>) -> Option<Seq<char>> {
    if kind == "mod_item"@ || kind == "trait_item"@ {
        Some("name"@)
    } else if kind == "impl_item"@ {
        Some("type"@)
    } else {
        None
    }
}

fn rust_scope_segment(kind: &str) -> (r: Option<&'static str>)
    ensures
        r.deep_view() == rust_scope_field(kind@),
{
    if text::same(kind, "mod_item") || text::same(kind, "trait_item") {
        Some("name")
    } else if text::same(kind, "impl_item") {
        Some("type")
    } else {
        None
    }
}

/// Functions inside these nodes are methods.
pub open spec fn rust_opens(kind: Seq<char>) -> bool {
    kind == "impl_item"@ || kind == "trait_item"@
}

fn rust_opens_method_scope(kind: &str) -> (r: bool)
    ensures
        r == rust_opens(kind@),
{
    text::same(kind, "impl_item") || text::same(kind, "trait_item")
}

/// Functions inside these nodes are no methods.
pub open spec fn rust_resets(kind: Seq<char>) -> bool {
    kind == "mod_item"@ || kind == "function_item"@
}

fn rust_resets_method_scope(kind: &str) -> (r: bool)
    ensures
        r == rust_resets(kind@),
{
    text::same(kind, "mod_item") || text::same(kind, "function_item")
}

/// These leaves are names.
pub open spec fn rust_names(kind: Seq<char>) -> bool {
    kind == "identifier"@ || kind == "type_identifier"@ || kind == "field_identifier"@ || kind == "shorthand_field_identifier"@
}

fn rust_is_identifier(kind: &str) -> (r: bool)
    ensures
        r == rust_names(kind@),
{
    text::same(kind, "identifier") || text::same(kind, "type_identifier") || text::same(kind, "field_identifier") || text::same(kind, "shorthand_field_identifier")
}

/// These nodes are comments.
pub open spec fn rust_comments(kind: Seq<char>) -> bool {
    kind == "line_comment"@ || kind == "block_comment"@
}

fn rust_is_comment(kind: &str) -> (r: bool)
    ensures
        r == rust_comments(kind@),
{
    text::same(kind, "line_comment") || text::same(kind, "block_comment")
}

// ---- TypeScript and TSX -------------------------------------------------------
/// The label of a TypeScript and TSX definition node, by its kind.
pub open spec fn ts_label(kind: Seq<char>, in_method: bool) -> Option<Seq<char>> {
    if kind == "function_declaration"@ || kind == "generator_function_declaration"@ {
        Some(if in_method {
            "method"@
        } else {
            "function"@
        })
    } else if kind == "method_definition"@ || kind == "method_signature"@ || kind == "abstract_method_signature"@ {
        Some("method"@)
    } else if kind == "class_declaration"@ || kind == "abstract_class_declaration"@ {
        Some("class"@)
    } else if kind == "interface_declaration"@ {
        Some("interface"@)
    } else if kind == "enum_declaration"@ {
        Some("enum"@)
    } else if kind == "internal_module"@ {
        Some("module"@)
    } else {
        None
    }
}

fn ts_classify(kind: &str, in_method: bool) -> (r: Option<&'static str>)
    ensures
        r.deep_view() == ts_label(kind@, in_method),
{
    if text::same(kind, "function_declaration") || text::same(kind, "generator_function_declaration") {
        Some(if in_method {
            "method"
        } else {
            "function"
        })
    } else if text::same(kind, "method_definition") || text::same(kind, "method_signature") || text::same(kind, "abstract_method_signature") {
        Some("method")
    } else if text::same(kind, "class_declaration") || text::same(kind, "abstract_class_declaration") {
        Some("class")
    } else if text::same(kind, "interface_declaration") {
        Some("interface")
    } else if text::same(kind, "enum_declaration") {
        Some("enum")
    } else if text::same(kind, "internal_module") {
        Some("module")
    } else {
        None
    }
}

/// The field of a TypeScript and TSX node whose text qualifies the names inside it.
pub open spec fn ts_scope_field(kind: Seq<char>) -> Option<Seq<char>> {
    if kind == "class_declaration"@ || kind == "abstract_class_declaration"@ || kind == "interface_declaration"@ || kind == "internal_module"@ {
        Some("name"@)
    } else {
        None
    }
}

fn ts_scope_segment(kind: &str) -> (r: Option<&'static str>)
    ensures
        r.deep_view() == ts_scope_field(kind@),
{
    if text::same(kind, "class_declaration") || text::same(kind, "abstract_class_declaration") || text::same(kind, "interface_declaration") || text::same(kind, "internal_module") {
        Some("name")
    } else {
        None
    }
}

/// Functions inside these nodes are methods.
pub open spec fn ts_opens(kind: Seq<char>) -> bool {
    kind == "class_declaration"@ || kind == "abstract_class_declaration"@ || kind == "interface_declaration"@
}

fn ts_opens_method_scope(kind: &str) -> (r: bool)
    ensures
        r == ts_opens(kind@),
{
    text::same(kind, "class_declaration") || text::same(kind, "abstract_class_declaration") || text::same(kind, "interface_declaration")
}

/// Functions inside these nodes are no methods.
pub open spec fn ts_resets(kind: Seq<char>) -> bool {
    kind == "function_declaration"@ || kind == "generator_function_declaration"@ || kind == "method_definition"@ || kind == "method_signature"@ || kind == "abstract_method_signature"@ || kind == "internal_module"@
}

fn ts_resets_method_scope(kind: &str) -> (r: bool)
    ensures
        r == ts_resets(kind@),
{
    text::same(kind, "function_declaration") || text::same(kind, "generator_function_declaration") || text::same(kind, "method_definition") || text::same(kind, "method_signature") || text::same(kind, "abstract_method_signature") || text::same(kind, "internal_module")
}

/// These leaves are names.
pub open spec fn ts_names(kind: Seq<char>) -> bool {
    kind == "identifier"@ || kind == "type_identifier"@ || kind == "property_identifier"@ || kind == "shorthand_property_identifier"@ || kind == "private_property_identifier"@
}

fn ts_is_identifier(kind: &str) -> (r: bool)
    ensures
        r == ts_names(kind@),
{
    text::same(kind, "identifier") || text::same(kind, "type_identifier") || text::same(kind, "property_identifier") || text::same(kind, "shorthand_property_identifier") || text::same(kind, "private_property_identifier")
}

/// These nodes are comments.
pub open spec fn ts_comments(kind: Seq<char>) -> bool {
    kind == "comment"@
}

fn ts_is_comment(kind: &str) -> (r: bool)
    ensures
        r == ts_comments(kind@),
{
    text::same(kind, "comment")
}

// ---- Go -----------------------------------------------------------------------
/// The label of a Go definition node, by its kind.
///
/// A free `method_declaration` (receiver-based) and an interface's `method_elem`
/// signature both anchor as methods.
pub open spec fn go_label(kind: Seq<char>, in_method: bool) -> Option<Seq<char>> {
    if kind == "function_declaration"@ {
        Some("function"@)
    } else if kind == "method_declaration"@ || kind == "method_elem"@ {
        Some("method"@)
    } else {
        None
    }
}

fn go_classify(kind: &str, in_method: bool) -> (r: Option<&'static str>)
    ensures
        r.deep_view() == go_label(kind@, in_method),
{
    if text::same(kind, "function_declaration") {
        Some("function")
    } else if text::same(kind, "method_declaration") || text::same(kind, "method_elem") {
        Some("method")
    } else {
        None
    }
}

/// The field of a Go node whose text qualifies the names inside it.
pub open spec fn go_scope_field(kind: Seq<char>) -> Option<Seq<char>> {
    if kind == "type_spec"@ {
        Some("name"@)
    } else {
        None
    }
}

fn go_scope_segment(kind: &str) -> (r: Option<&'static str>)
    ensures
        r.deep_view() == go_scope_field(kind@),
{
    if text::same(kind, "type_spec") {
        Some("name")
    } else {
        None
    }
}

/// These leaves are names.
pub open spec fn go_names(kind: Seq<char>) -> bool {
    kind == "identifier"@ || kind == "type_identifier"@ || kind == "field_identifier"@ || kind == "package_identifier"@
}

fn go_is_identifier(kind: &str) -> (r: bool)
    ensures
        r == go_names(kind@),
{
    text::same(kind, "identifier") || text::same(kind, "type_identifier") || text::same(kind, "field_identifier") || text::same(kind, "package_identifier")
}

/// These nodes are comments.
pub open spec fn go_comments(kind: Seq<char>) -> bool {
    kind == "comment"@
}

fn go_is_comment(kind: &str) -> (r: bool)
    ensures
        r == go_comments(kind@),
{
    text::same(kind, "comment")
}

// ---- PHP ----------------------------------------------------------------------
/// The label of a PHP definition node, by its kind.
///
/// A class body uses `method_declaration`; free functions are
/// `function_definition`.
pub open spec fn php_label(kind: Seq<char>, in_method: bool) -> Option<Seq<char>> {
    if kind == "function_definition"@ {
        Some("function"@)
    } else if kind == "method_declaration"@ {
        Some("method"@)
    } else if kind == "class_declaration"@ {
        Some("class"@)
    } else if kind == "interface_declaration"@ {
        Some("interface"@)
    } else if kind == "trait_declaration"@ {
        Some("trait"@)
    } else if kind == "enum_declaration"@ {
        Some("enum"@)
    } else if kind == "namespace_definition"@ {
        Some("module"@)
    } else {
        None
    }
}

fn php_classify(kind: &str, in_method: bool) -> (r: Option<&'static str>)
    ensures
        r.deep_view() == php_label(kind@, in_method),
{
    if text::same(kind, "function_definition") {
        Some("function")
    } else if text::same(kind, "method_declaration") {
        Some("method")
    } else if text::same(kind, "class_declaration") {
        Some("class")
    } else if text::same(kind, "interface_declaration") {
        Some("interface")
    } else if text::same(kind, "trait_declaration") {
        Some("trait")
    } else if text::same(kind, "enum_declaration") {
        Some("enum")
    } else if text::same(kind, "namespace_definition") {
        Some("module")
    } else {
        None
    }
}

/// The field of a PHP node whose text qualifies the names inside it.
pub open spec fn php_scope_field(kind: Seq<char>) -> Option<Seq<char>> {
    if kind == "class_declaration"@ || kind == "interface_declaration"@ || kind == "trait_declaration"@ || kind == "enum_declaration"@ || kind == "namespace_definition"@ {
        Some("name"@)
    } else {
        None
    }
}

fn php_scope_segment(kind: &str) -> (r: Option<&'static str>)
    ensures
        r.deep_view() == php_scope_field(kind@),
{
    if text::same(kind, "class_declaration") || text::same(kind, "interface_declaration") || text::same(kind, "trait_declaration") || text::same(kind, "enum_declaration") || text::same(kind, "namespace_definition") {
        Some("name")
    } else {
        None
    }
}

/// Functions inside these nodes are methods.
pub open spec fn php_opens(kind: Seq<char>) -> bool {
    kind == "class_declaration"@ || kind == "interface_declaration"@ || kind == "trait_declaration"@ || kind == "enum_declaration"@
}

fn php_opens_method_scope(kind: &str) -> (r: bool)
    ensures
        r == php_opens(kind@),
{
    text::same(kind, "class_declaration") || text::same(kind, "interface_declaration") || text::same(kind, "trait_declaration") || text::same(kind, "enum_declaration")
}

/// Functions inside these nodes are no methods.
pub open spec fn php_resets(kind: Seq<char>) -> bool {
    kind == "function_definition"@ || kind == "method_declaration"@
}

fn php_resets_method_scope(kind: &str) -> (r: bool)
    ensures
        r == php_resets(kind@),
{
    text::same(kind, "function_definition") || text::same(kind, "method_declaration")
}

/// These leaves are names.
pub open spec fn php_names(kind: Seq<char>) -> bool {
    kind == "name"@
}

fn php_is_identifier(kind: &str) -> (r: bool)
    ensures
        r == php_names(kind@),
{
    text::same(kind, "name")
}

/// These nodes are comments.
pub open spec fn php_comments(kind: Seq<char>) -> bool {
    kind == "comment"@
}

fn php_is_comment(kind: &str) -> (r: bool)
    ensures
        r == php_comments(kind@),
{
    text::same(kind, "comment")
}

// ---- Python -------------------------------------------------------------------
/// The label of a Python definition node, by its kind.
///
/// A `.py` file is itself the module; there is no module node to anchor.
pub open spec fn python_label(kind: Seq<char>, in_method: bool) -> Option<Seq<char>> {
    if kind == "function_definition"@ {
        Some(if in_method {
            "method"@
        } else {
            "function"@
        })
    } else if kind == "class_definition"@ {
        Some("class"@)
    } else {
        None
    }
}

fn python_classify(kind: &str, in_method: bool) -> (r: Option<&'static str>)
    ensures
        r.deep_view() == python_label(kind@, in_method),
{
    if text::same(kind, "function_definition") {
        Some(if in_method {
            "method"
        } else {
            "function"
        })
    } else if text::same(kind, "class_definition") {
        Some("class")
    } else {
        None
    }
}

/// The field of a Python node whose text qualifies the names inside it.
pub open spec fn python_scope_field(kind: Seq<char>) -> Option<Seq<char>> {
    if kind == "class_definition"@ || kind == "function_definition"@ {
        Some("name"@)
    } else {
        None
    }
}

fn python_scope_segment(kind: &str) -> (r: Option<&'static str>)
    ensures
        r.deep_view() == python_scope_field(kind@),
{
    if text::same(kind, "class_definition") || text::same(kind, "function_definition") {
        Some("name")
    } else {
        None
    }
}

/// Functions inside these nodes are methods.
pub open spec fn python_opens(kind: Seq<char>) -> bool {
    kind == "class_definition"@
}

fn python_opens_method_scope(kind: &str) -> (r: bool)
    ensures
        r == python_opens(kind@),
{
    text::same(kind, "class_definition")
}

/// Functions inside these nodes are no methods.
pub open spec fn python_resets(kind: Seq<char>) -> bool {
    kind == "function_definition"@
}

fn python_resets_method_scope(kind: &str) -> (r: bool)
    ensures
        r == python_resets(kind@),
{
    text::same(kind, "function_definition")
}

/// These leaves are names.
pub open spec fn python_names(kind: Seq<char>) -> bool {
    kind == "identifier"@
}

fn python_is_identifier(kind: &str) -> (r: bool)
    ensures
        r == python_names(kind@),
{
    text::same(kind, "identifier")
}

/// These nodes are comments.
pub open spec fn python_comments(kind: Seq<char>) -> bool {
    kind == "comment"@
}

fn python_is_comment(kind: &str) -> (r: bool)
    ensures
        r == python_comments(kind@),
{
    text::same(kind, "comment")
}

// ---- Java ---------------------------------------------------------------------
/// The label of a Java definition node, by its kind.
///
/// A constructor is a method whose name is the type's; `@interface Foo` anchors like
/// an interface.
pub open spec fn java_label(kind: Seq<char>, in_method: bool) -> Option<Seq<char>> {
    if kind == "method_declaration"@ || kind == "constructor_declaration"@ || kind == "compact_constructor_declaration"@ {
        Some("method"@)
    } else if kind == "class_declaration"@ || kind == "record_declaration"@ {
        Some("class"@)
    } else if kind == "interface_declaration"@ || kind == "annotation_type_declaration"@ {
        Some("interface"@)
    } else if kind == "enum_declaration"@ {
        Some("enum"@)
    } else {
        None
    }
}

fn java_classify(kind: &str, in_method: bool) -> (r: Option<&'static str>)
    ensures
        r.deep_view() == java_label(kind@, in_method),
{
    if text::same(kind, "method_declaration") || text::same(kind, "constructor_declaration") || text::same(kind, "compact_constructor_declaration") {
        Some("method")
    } else if text::same(kind, "class_declaration") || text::same(kind, "record_declaration") {
        Some("class")
    } else if text::same(kind, "interface_declaration") || text::same(kind, "annotation_type_declaration") {
        Some("interface")
    } else if text::same(kind, "enum_declaration") {
        Some("enum")
    } else {
        None
    }
}

/// The field of a Java node whose text qualifies the names inside it.
pub open spec fn java_scope_field(kind: Seq<char>) -> Option<Seq<char>> {
    if kind == "class_declaration"@ || kind == "record_declaration"@ || kind == "interface_declaration"@ || kind == "annotation_type_declaration"@ || kind == "enum_declaration"@ {
        Some("name"@)
    } else {
        None
    }
}

fn java_scope_segment(kind: &str) -> (r: Option<&'static str>)
    ensures
        r.deep_view() == java_scope_field(kind@),
{
    if text::same(kind, "class_declaration") || text::same(kind, "record_declaration") || text::same(kind, "interface_declaration") || text::same(kind, "annotation_type_declaration") || text::same(kind, "enum_declaration") {
        Some("name")
    } else {
        None
    }
}

/// These leaves are names.
pub open spec fn java_names(kind: Seq<char>) -> bool {
    kind == "identifier"@ || kind == "type_identifier"@
}

fn java_is_identifier(kind: &str) -> (r: bool)
    ensures
        r == java_names(kind@),
{
    text::same(kind, "identifier") || text::same(kind, "type_identifier")
}

/// These nodes are comments.
pub open spec fn java_comments(kind: Seq<char>) -> bool {
    kind == "line_comment"@ || kind == "block_comment"@ || kind == "comment"@
}

fn java_is_comment(kind: &str) -> (r: bool)
    ensures
        r == java_comments(kind@),
{
    text::same(kind, "line_comment") || text::same(kind, "block_comment") || text::same(kind, "comment")
}

// ---- Ruby ---------------------------------------------------------------------
/// The label of a Ruby definition node, by its kind.
///
/// A top-level `def` is labelled a function; `def self.create` always belongs to an
/// owner.
pub open spec fn ruby_label(kind: Seq<char>, in_method: bool) -> Option<Seq<char>> {
    if kind == "method"@ {
        Some(if in_method {
            "method"@
        } else {
            "function"@
        })
    } else if kind == "singleton_method"@ {
        Some("method"@)
    } else if kind == "class"@ {
        Some("class"@)
    } else if kind == "module"@ {
        Some("module"@)
    } else {
        None
    }
}

fn ruby_classify(kind: &str, in_method: bool) -> (r: Option<&'static str>)
    ensures
        r.deep_view() == ruby_label(kind@, in_method),
{
    if text::same(kind, "method") {
        Some(if in_method {
            "method"
        } else {
            "function"
        })
    } else if text::same(kind, "singleton_method") {
        Some("method")
    } else if text::same(kind, "class") {
        Some("class")
    } else if text::same(kind, "module") {
        Some("module")
    } else {
        None
    }
}

/// The field of a Ruby node whose text qualifies the names inside it.
pub open spec fn ruby_scope_field(kind: Seq<char>) -> Option<Seq<char>> {
    if kind == "class"@ || kind == "module"@ {
        Some("name"@)
    } else if kind == "singleton_class"@ {
        Some("value"@)
    } else {
        None
    }
}

fn ruby_scope_segment(kind: &str) -> (r: Option<&'static str>)
    ensures
        r.deep_view() == ruby_scope_field(kind@),
{
    if text::same(kind, "class") || text::same(kind, "module") {
        Some("name")
    } else if text::same(kind, "singleton_class") {
        Some("value")
    } else {
        None
    }
}

/// Functions inside these nodes are methods.
pub open spec fn ruby_opens(kind: Seq<char>) -> bool {
    kind == "class"@ || kind == "module"@ || kind == "singleton_class"@
}

fn ruby_opens_method_scope(kind: &str) -> (r: bool)
    ensures
        r == ruby_opens(kind@),
{
    text::same(kind, "class") || text::same(kind, "module") || text::same(kind, "singleton_class")
}

/// Functions inside these nodes are no methods.
pub open spec fn ruby_resets(kind: Seq<char>) -> bool {
    kind == "method"@ || kind == "singleton_method"@
}

fn ruby_resets_method_scope(kind: &str) -> (r: bool)
    ensures
        r == ruby_resets(kind@),
{
    text::same(kind, "method") || text::same(kind, "singleton_method")
}

/// These leaves are names.
pub open spec fn ruby_names(kind: Seq<char>) -> bool {
    kind == "identifier"@ || kind == "constant"@ || kind == "instance_variable"@ || kind == "class_variable"@ || kind == "global_variable"@ || kind == "hash_key_symbol"@
}

fn ruby_is_identifier(kind: &str) -> (r: bool)
    ensures
        r == ruby_names(kind@),
{
    text::same(kind, "identifier") || text::same(kind, "constant") || text::same(kind, "instance_variable") || text::same(kind, "class_variable") || text::same(kind, "global_variable") || text::same(kind, "hash_key_symbol")
}

/// These nodes are comments.
pub open spec fn ruby_comments(kind: Seq<char>) -> bool {
    kind == "comment"@
}

fn ruby_is_comment(kind: &str) -> (r: bool)
    ensures
        r == ruby_comments(kind@),
{
    text::same(kind, "comment")
}

// ---- Every language -----------------------------------------------------------
/// Descending into this node makes its functions methods.
pub open spec fn opens_methods(lang: LangSupport, kind: Seq<char>) -> bool {
    match lang {
        LangSupport::Rust => rust_opens(kind),
        LangSupport::TypeScript | LangSupport::Tsx => ts_opens(kind),
        LangSupport::Go => false,
        LangSupport::Php => php_opens(kind),
        LangSupport::Python => python_opens(kind),
        LangSupport::Java => false,
        LangSupport::Ruby => ruby_opens(kind),
    }
}

fn opens_method_scope(lang: LangSupport, kind: &str) -> (r: bool)
    ensures
        r == opens_methods(lang, kind@),
{
    match lang {
        LangSupport::Rust => rust_opens_method_scope(kind),
        LangSupport::TypeScript | LangSupport::Tsx => ts_opens_method_scope(kind),
        LangSupport::Go => false,
        LangSupport::Php => php_opens_method_scope(kind),
        LangSupport::Python => python_opens_method_scope(kind),
        LangSupport::Java => false,
        LangSupport::Ruby => ruby_opens_method_scope(kind),
    }
}

/// Descending into this node ends method context.
pub open spec fn resets_methods(lang: LangSupport, kind: Seq<char>) -> bool {
    match lang {
        LangSupport::Rust => rust_resets(kind),
        LangSupport::TypeScript | LangSupport::Tsx => ts_resets(kind),
        LangSupport::Go => false,
        LangSupport::Php => php_resets(kind),
        LangSupport::Python => python_resets(kind),
        LangSupport::Java => false,
        LangSupport::Ruby => ruby_resets(kind),
    }
}

fn resets_method_scope(lang: LangSupport, kind: &str) -> (r: bool)
    ensures
        r == resets_methods(lang, kind@),
{
    match lang {
        LangSupport::Rust => rust_resets_method_scope(kind),
        LangSupport::TypeScript | LangSupport::Tsx => ts_resets_method_scope(kind),
        LangSupport::Go => false,
        LangSupport::Php => php_resets_method_scope(kind),
        LangSupport::Python => python_resets_method_scope(kind),
        LangSupport::Java => false,
        LangSupport::Ruby => ruby_resets_method_scope(kind),
    }
}

/// A leaf of this kind is a name.
pub open spec fn is_name(lang: LangSupport, kind: Seq<char>) -> bool {
    match lang {
        LangSupport::Rust => rust_names(kind),
        LangSupport::TypeScript | LangSupport::Tsx => ts_names(kind),
        LangSupport::Go => go_names(kind),
        LangSupport::Php => php_names(kind),
        LangSupport::Python => python_names(kind),
        LangSupport::Java => java_names(kind),
        LangSupport::Ruby => ruby_names(kind),
    }
}

fn is_identifier(lang: LangSupport, kind: &str) -> (r: bool)
    ensures
        r == is_name(lang, kind@),
{
    match lang {
        LangSupport::Rust => rust_is_identifier(kind),
        LangSupport::TypeScript | LangSupport::Tsx => ts_is_identifier(kind),
        LangSupport::Go => go_is_identifier(kind),
        LangSupport::Php => php_is_identifier(kind),
        LangSupport::Python => python_is_identifier(kind),
        LangSupport::Java => java_is_identifier(kind),
        LangSupport::Ruby => ruby_is_identifier(kind),
    }
}

/// A node of this kind is a comment.
pub open spec fn is_remark(lang: LangSupport, kind: Seq<char>) -> bool {
    match lang {
        LangSupport::Rust => rust_comments(kind),
        LangSupport::TypeScript | LangSupport::Tsx => ts_comments(kind),
        LangSupport::Go => go_comments(kind),
        LangSupport::Php => php_comments(kind),
        LangSupport::Python => python_comments(kind),
        LangSupport::Java => java_comments(kind),
        LangSupport::Ruby => ruby_comments(kind),
    }
}

fn is_comment(lang: LangSupport, kind: &str) -> (r: bool)
    ensures
        r == is_remark(lang, kind@),
{
    match lang {
        LangSupport::Rust => rust_is_comment(kind),
        LangSupport::TypeScript | LangSupport::Tsx => ts_is_comment(kind),
        LangSupport::Go => go_is_comment(kind),
        LangSupport::Php => php_is_comment(kind),
        LangSupport::Python => python_is_comment(kind),
        LangSupport::Java => java_is_comment(kind),
        LangSupport::Ruby => ruby_is_comment(kind),
    }
}

/// The field of a node whose text qualifies the names inside it.
pub open spec fn scope_field(lang: LangSupport, kind: Seq<char>) -> Option<Seq<char>> {
    match lang {
        LangSupport::Rust => rust_scope_field(kind),
        LangSupport::TypeScript | LangSupport::Tsx => ts_scope_field(kind),
        LangSupport::Go => go_scope_field(kind),
        LangSupport::Php => php_scope_field(kind),
        LangSupport::Python => python_scope_field(kind),
        LangSupport::Java => java_scope_field(kind),
        LangSupport::Ruby => ruby_scope_field(kind),
    }
}

fn scope_segment_field(lang: LangSupport, kind: &str) -> (r: Option<&'static str>)
    ensures
        r.deep_view() == scope_field(lang, kind@),
{
    match lang {
        LangSupport::Rust => rust_scope_segment(kind),
        LangSupport::TypeScript | LangSupport::Tsx => ts_scope_segment(kind),
        LangSupport::Go => go_scope_segment(kind),
        LangSupport::Php => php_scope_segment(kind),
        LangSupport::Python => python_scope_segment(kind),
        LangSupport::Java => java_scope_segment(kind),
        LangSupport::Ruby => ruby_scope_segment(kind),
    }
}

/// The label that node `i` is anchored under. Go's `type_spec` is a struct or an
/// interface depending on its `type` child; every other label goes by the kind.
pub open spec fn label(lang: LangSupport, rows: Seq<SyntaxRowView>, i: int, in_method: bool) -> Option<
    Seq<char>,
> {
    let kind = rows[i].kind;
    match lang {
        LangSupport::Go => if kind == "type_spec"@ {
            match child_by_field(rows, i, "type"@) {
                Some(t) => if rows[t].kind == "struct_type"@ {
                    Some("struct"@)
                } else if rows[t].kind == "interface_type"@ {
                    Some("interface"@)
                } else {
                    None
                },
                None => None,
            }
        } else {
            go_label(kind, in_method)
        },
        LangSupport::Rust => rust_label(kind, in_method),
        LangSupport::TypeScript | LangSupport::Tsx => ts_label(kind, in_method),
        LangSupport::Php => php_label(kind, in_method),
        LangSupport::Python => python_label(kind, in_method),
        LangSupport::Java => java_label(kind, in_method),
        LangSupport::Ruby => ruby_label(kind, in_method),
    }
}

fn classify(lang: LangSupport, rows: &Vec<SyntaxRow>, i: usize, in_method: bool) -> (r: Option<
    &'static str,
>)
    requires
        i < rows.len(),
    ensures
        r.deep_view() == label(lang, rows.deep_view(), i as int, in_method),
{
    let kind = rows[i].kind.as_str();
    assert(rows.deep_view()[i as int] == rows[i as int]@);
    match lang {
        LangSupport::Go => if text::same(kind, "type_spec") {
            match find_field(rows, i, "type") {
                Some(t) => {
                    assert(rows.deep_view()[t as int] == rows[t as int]@);
                    if text::same(rows[t].kind.as_str(), "struct_type") {
                        Some("struct")
                    } else if text::same(rows[t].kind.as_str(), "interface_type") {
                        Some("interface")
                    } else {
                        None
                    }
                },
                None => None,
            }
        } else {
            go_classify(kind, in_method)
        },
        LangSupport::Rust => rust_classify(kind, in_method),
        LangSupport::TypeScript | LangSupport::Tsx => ts_classify(kind, in_method),
        LangSupport::Php => php_classify(kind, in_method),
        LangSupport::Python => python_classify(kind, in_method),
        LangSupport::Java => java_classify(kind, in_method),
        LangSupport::Ruby => ruby_classify(kind, in_method),
    }
}

/// The text of the child that fills `field`.
pub open spec fn field_text(rows: Seq<SyntaxRowView>, source: Seq<char>, i: int, field: Seq<char>) -> Option<
    Seq<char>,
> {
    match child_by_field(rows, i, field) {
        Some(c) => row_text(source, rows[c]),
        None => None,
    }
}

fn text_of_field(rows: &Vec<SyntaxRow>, source: &str, i: usize, field: &str) -> (r: Option<String>)
    requires
        i < rows.len(),
    ensures
        r.deep_view() == field_text(rows.deep_view(), source@, i as int, field@),
{
    match find_field(rows, i, field) {
        Some(c) => node_text(rows, source, c),
        None => None,
    }
}

/// The name of a definition.
fn node_name(rows: &Vec<SyntaxRow>, source: &str, i: usize) -> (r: Option<String>)
    requires
        i < rows.len(),
    ensures
        r.deep_view() == field_text(rows.deep_view(), source@, i as int, "name"@),
{
    text_of_field(rows, source, i, "name")
}

/// The path segment that node `i` adds to the names inside it.
pub open spec fn segment(lang: LangSupport, rows: Seq<SyntaxRowView>, source: Seq<char>, i: int) -> Option<
    Seq<char>,
> {
    match scope_field(lang, rows[i].kind) {
        Some(field) => field_text(rows, source, i, field),
        None => None,
    }
}

fn scope_segment(lang: LangSupport, rows: &Vec<SyntaxRow>, source: &str, i: usize) -> (r: Option<String>)
    requires
        i < rows.len(),
    ensures
        r.deep_view() == segment(lang, rows.deep_view(), source@, i as int),
{
    assert(rows.deep_view()[i as int] == rows[i as int]@);
    match scope_segment_field(lang, rows[i].kind.as_str()) {
        Some(field) => text_of_field(rows, source, i, field),
        None => None,
    }
}

/// A Go method's receiver type, e.g. `Client` for `func (c *Client) Connect()`: the
/// type of the receiver's first parameter, without a leading `*`.
pub open spec fn go_receiver(rows: Seq<SyntaxRowView>, source: Seq<char>, i: int) -> Option<Seq<char>> {
    match child_by_field(rows, i, "receiver"@) {
        None => None,
        Some(receiver) => match child_by_kind(rows, receiver, "parameter_declaration"@) {
            None => None,
            Some(param) => match child_by_field(rows, param, "type"@) {
                None => None,
                Some(ty) => if rows[ty].kind == "pointer_type"@ {
                    match first_named(rows, ty) {
                        Some(base) => row_text(source, rows[base]),
                        None => row_text(source, rows[ty]),
                    }
                } else {
                    row_text(source, rows[ty])
                },
            },
        },
    }
}

fn go_def_prefix(rows: &Vec<SyntaxRow>, source: &str, i: usize) -> (r: Option<String>)
    requires
        i < rows.len(),
    ensures
        r.deep_view() == go_receiver(rows.deep_view(), source@, i as int),
{
    let receiver: usize = match find_field(rows, i, "receiver") {
        Some(c) => c,
        None => {
            return None;
        },
    };
    let param: usize = match find_kind(rows, receiver, "parameter_declaration") {
        Some(c) => c,
        None => {
            return None;
        },
    };
    let ty: usize = match find_field(rows, param, "type") {
        Some(c) => c,
        None => {
            return None;
        },
    };
    assert(rows.deep_view()[ty as int] == rows[ty as int]@);
    if text::same(rows[ty].kind.as_str(), "pointer_type") {
        match find_named(rows, ty) {
            Some(base) => node_text(rows, source, base),
            None => node_text(rows, source, ty),
        }
    } else {
        node_text(rows, source, ty)
    }
}

/// An extra path segment for the definition itself, not inherited by what is inside
/// it: a Go method's receiver type, or the receiver of a Ruby singleton method, e.g.
/// `self` in `def self.create`.
pub open spec fn own_prefix(lang: LangSupport, rows: Seq<SyntaxRowView>, source: Seq<char>, i: int) -> Option<
    Seq<char>,
> {
    match lang {
        LangSupport::Go => if rows[i].kind == "method_declaration"@ {
            go_receiver(rows, source, i)
        } else {
            None
        },
        LangSupport::Ruby => if rows[i].kind == "singleton_method"@ {
            field_text(rows, source, i, "object"@)
        } else {
            None
        },
        _ => None,
    }
}

fn def_prefix(lang: LangSupport, rows: &Vec<SyntaxRow>, source: &str, i: usize) -> (r: Option<String>)
    requires
        i < rows.len(),
    ensures
        r.deep_view() == own_prefix(lang, rows.deep_view(), source@, i as int),
{
    assert(rows.deep_view()[i as int] == rows[i as int]@);
    match lang {
        LangSupport::Go => if text::same(rows[i].kind.as_str(), "method_declaration") {
            go_def_prefix(rows, source, i)
        } else {
            None
        },
        LangSupport::Ruby => if text::same(rows[i].kind.as_str(), "singleton_method") {
            text_of_field(rows, source, i, "object")
        } else {
            None
        },
        _ => None,
    }
}

/// The node whose rows are reported for definition `i`: in Python the enclosing
/// `decorated_definition`, so that decorator lines count; otherwise the node itself.
pub open spec fn span_of(lang: LangSupport, rows: Seq<SyntaxRowView>, i: int) -> int {
    match parent_of(rows, i) {
        Some(p) => if lang == LangSupport::Python && rows[p].kind == "decorated_definition"@ {
            p
        } else {
            i
        },
        None => i,
    }
}

fn span_node(lang: LangSupport, rows: &Vec<SyntaxRow>, i: usize) -> (r: usize)
    requires
        i < rows.len(),
    ensures
        r == span_of(lang, rows.deep_view(), i as int),
        r < rows.len(),
{
    if lang == LangSupport::Python {
        if let Some(p) = parent(rows, i) {
            assert(rows.deep_view()[p as int] == rows[p as int]@);
            if text::same(rows[p].kind.as_str(), "decorated_definition") {
                return p;
            }
        }
    }
    i
}

/// The 1-based line number of a row, in 32 bits.
pub open spec fn line_of(row: usize) -> u32 {
    ((row as nat % 0x1_0000_0000 + 1) % 0x1_0000_0000) as u32
}

fn line_number(row: usize) -> (r: u32)
    ensures
        r == line_of(row),
{
    let low: u64 = row as u64 % 0x1_0000_0000;
    ((low + 1) % 0x1_0000_0000) as u32
}

/// The path segments of the nodes around node `i`, outermost first. The root of the
/// tree adds none.
pub open spec fn scope_of(lang: LangSupport, rows: Seq<SyntaxRowView>, source: Seq<char>, i: int) -> Seq<
    Seq<char>,
>
    decreases i,
    via scope_of_decreases
{
    match parent_of(rows, i) {
        Some(p) => if p > 0 {
            match segment(lang, rows, source, p) {
                Some(s) => scope_of(lang, rows, source, p).push(s),
                None => scope_of(lang, rows, source, p),
            }
        } else {
            Seq::empty()
        },
        None => Seq::empty(),
    }
}

#[via_fn]
proof fn scope_of_decreases(lang: LangSupport, rows: Seq<SyntaxRowView>, source: Seq<char>, i: int) {
    above_is_before(rows, i - 1, rows[i].depth);
}

fn scope_path(lang: LangSupport, rows: &Vec<SyntaxRow>, source: &str, i: usize) -> (r: Vec<String>)
    requires
        i < rows.len(),
    ensures
        r.deep_view() == scope_of(lang, rows.deep_view(), source@, i as int),
    decreases i,
{
    let top: Vec<String> = Vec::new();
    assert(top.deep_view() =~= Seq::empty());
    match parent(rows, i) {
        Some(p) => if p > 0 {
            let mut out = scope_path(lang, rows, source, p);
            let ghost before = out.deep_view();
            if let Some(s) = scope_segment(lang, rows, source, p) {
                out.push(s);
                assert(out.deep_view() =~= before.push(s@));
            }
            out
        } else {
            top
        },
        None => top,
    }
}

/// Whether node `i` stands in method context: the nearest node around it that opens
/// or ends one decides.
pub open spec fn method_context(lang: LangSupport, rows: Seq<SyntaxRowView>, i: int) -> bool
    decreases i,
    via method_context_decreases
{
    match parent_of(rows, i) {
        Some(p) => p > 0 && (opens_methods(lang, rows[p].kind) || (!resets_methods(lang, rows[p].kind)
            && method_context(lang, rows, p))),
        None => false,
    }
}

#[via_fn]
proof fn method_context_decreases(lang: LangSupport, rows: Seq<SyntaxRowView>, i: int) {
    above_is_before(rows, i - 1, rows[i].depth);
}

fn in_method(lang: LangSupport, rows: &Vec<SyntaxRow>, i: usize) -> (r: bool)
    requires
        i < rows.len(),
    ensures
        r == method_context(lang, rows.deep_view(), i as int),
    decreases i,
{
    match parent(rows, i) {
        Some(p) => if p == 0 {
            false
        } else {
            assert(rows.deep_view()[p as int] == rows[p as int]@);
            let kind = rows[p].kind.as_str();
            if opens_method_scope(lang, kind) {
                true
            } else if resets_method_scope(lang, kind) {
                false
            } else {
                in_method(lang, rows, p)
            }
        },
        None => false,
    }
}

// ---- Structural hash --------------------------------------------------------

/// FNV-1a over bytes, from the state `hash`.
pub open spec fn fnv(hash: u64, bytes: Seq<u8>) -> u64
    decreases bytes.len(),
{
    if bytes.len() == 0 {
        hash
    } else {
        let mixed = fnv(hash, bytes.drop_last()) ^ (bytes.last() as u64);
        mixed.wrapping_mul(0x0000_0100_0000_01b3)
    }
}

/// The FNV-1a offset basis.
pub const FNV_OFFSET: u64 = 0xcbf2_9ce4_8422_2325;

/// Feeds bytes into an FNV-1a state.
fn fnv_write(hash: &mut u64, bytes: &[u8])
    ensures
        *final(hash) == fnv(*old(hash), bytes@),
{
    let start: u64 = *hash;
    let mut h: u64 = start;
    assert(bytes@.take(0) =~= Seq::empty());
    for i in 0..bytes.len()
        invariant
            h == fnv(start, bytes@.take(i as int)),
    {
        assert(bytes@.take(i + 1).drop_last() =~= bytes@.take(i as int));
        h = h ^ (bytes[i] as u64);
        h = h.wrapping_mul(0x0000_0100_0000_01b3);
    }
    assert(bytes@.take(bytes@.len() as int) =~= bytes@);
    *hash = h;
}

/// How many rows from `j` up to `end` lie just under `depth`, are named and are no
/// comments.
pub open spec fn params_from(
    lang: LangSupport,
    rows: Seq<SyntaxRowView>,
    j: int,
    end: int,
    depth: u32,
) -> nat
    decreases end - j,
{
    if j >= end {
        0
    } else {
        params_from(lang, rows, j + 1, end, depth) + (if rows[j].depth == depth + 1 && rows[j].named
            && !is_remark(lang, rows[j].kind) {
            1nat
        } else {
            0nat
        })
    }
}

/// How many parameters the list at node `i` holds: its named children, but for comments.
pub open spec fn param_count(lang: LangSupport, rows: Seq<SyntaxRowView>, i: int) -> nat {
    params_from(lang, rows, i + 1, end_of(rows, i), rows[i].depth)
}

/// Counts the parameters in the list at node `i`.
fn count_params(lang: LangSupport, rows: &Vec<SyntaxRow>, i: usize) -> (r: usize)
    requires
        i < rows.len(),
    ensures
        r == param_count(lang, rows.deep_view(), i as int),
{
    let ghost s = rows.deep_view();
    let end: usize = subtree_end(rows, i);
    let mut n: usize = 0;
    let mut j: usize = i + 1;
    while j < end
        invariant
            i < j <= end <= rows.len(),
            s == rows.deep_view(),
            end == end_of(s, i as int),
            n < j,
            param_count(lang, s, i as int) == n + params_from(
                lang,
                s,
                j as int,
                end as int,
                s[i as int].depth,
            ),
        decreases end - j,
    {
        assert(s[j as int] == rows[j as int]@);
        assert(s[i as int] == rows[i as int]@);
        if just_under(&rows[j], rows[i].depth) && rows[j].named && !is_comment(
            lang,
            rows[j].kind.as_str(),
        ) {
            n = n + 1;
        }
        j = j + 1;
    }
    n
}

/// A name-free shape of node `i`: how many parameters it takes, and whether it has a
/// return type. The parameter list fills `parameters`; the return type `return_type`,
/// or `result` in Go.
pub open spec fn shape(lang: LangSupport, rows: Seq<SyntaxRowView>, i: int) -> u32 {
    let arity = match child_by_field(rows, i, "parameters"@) {
        Some(p) => param_count(lang, rows, p),
        None => 0,
    };
    let has_return = child_by_field(rows, i, "return_type"@) is Some || child_by_field(
        rows,
        i,
        "result"@,
    ) is Some;
    ((arity % 0x8000_0000) * 2 + (if has_return {
        1nat
    } else {
        0nat
    })) as u32
}

fn signature_shape(lang: LangSupport, rows: &Vec<SyntaxRow>, i: usize) -> (r: u32)
    requires
        i < rows.len(),
    ensures
        r == shape(lang, rows.deep_view(), i as int),
{
    let arity: usize = match find_field(rows, i, "parameters") {
        Some(p) => count_params(lang, rows, p),
        None => 0,
    };
    let has_return = find_field(rows, i, "return_type").is_some() || find_field(
        rows,
        i,
        "result",
    ).is_some();
    let low: u32 = (arity % 0x8000_0000) as u32;
    low * 2 + (if has_return {
        1
    } else {
        0
    })
}

/// The four bytes of a 32-bit number, least significant first.
pub open spec fn le_bytes(n: u32) -> Seq<u8> {
    seq![
        (n as nat % 256) as u8,
        (n as nat / 256 % 256) as u8,
        (n as nat / 0x1_0000 % 256) as u8,
        (n as nat / 0x100_0000 % 256) as u8,
    ]
}

/// What a leaf adds to the token stream: a placeholder for a name, its text for
/// anything else, and a separator.
pub open spec fn token(lang: LangSupport, source: Seq<char>, row: SyntaxRowView) -> Seq<u8> {
    (if is_name(lang, row.kind) {
        utf8("\u{1}id"@)
    } else {
        match row_text(source, row) {
            Some(t) => utf8(t),
            None => Seq::empty(),
        }
    }).push(0x1f)
}

/// The token stream of the rows from `j` up to `end`: the tokens of the leaves, whole
/// comments left out.
pub open spec fn tokens(
    lang: LangSupport,
    rows: Seq<SyntaxRowView>,
    source: Seq<char>,
    j: int,
    end: int,
) -> Seq<u8>
    decreases
        (if j < end {
            end - j
        } else {
            0
        }),
    via tokens_decreases
{
    if j < 0 || j >= end || end > rows.len() {
        Seq::empty()
    } else if is_remark(lang, rows[j].kind) {
        tokens(lang, rows, source, end_of(rows, j), end)
    } else if is_leaf(rows, j) {
        token(lang, source, rows[j]) + tokens(lang, rows, source, j + 1, end)
    } else {
        tokens(lang, rows, source, j + 1, end)
    }
}

#[via_fn]
proof fn tokens_decreases(
    lang: LangSupport,
    rows: Seq<SyntaxRowView>,
    source: Seq<char>,
    j: int,
    end: int,
) {
    if 0 <= j < rows.len() {
        run_end_bounds(rows, j + 1, rows[j].depth);
    }
}

/// The token stream of node `i`.
fn hash_tokens(lang: LangSupport, rows: &Vec<SyntaxRow>, source: &str, i: usize) -> (r: Vec<u8>)
    requires
        i < rows.len(),
    ensures
        r@ == tokens(lang, rows.deep_view(), source@, i as int, end_of(rows.deep_view(), i as int)),
{
    let ghost s = rows.deep_view();
    let mut out: Vec<u8> = Vec::new();
    let end: usize = subtree_end(rows, i);
    let mut j: usize = i;
    let ghost whole = tokens(lang, s, source@, i as int, end as int);
    assert(out@ + whole =~= whole);
    while j < end
        invariant
            i <= j,
            end <= rows.len(),
            s == rows.deep_view(),
            whole == out@ + tokens(lang, s, source@, j as int, end as int),
        decreases
            (if j < end {
                end - j
            } else {
                0
            }),
    {
        assert(s[j as int] == rows[j as int]@);
        let kind = rows[j].kind.as_str();
        if is_comment(lang, kind) {
            j = subtree_end(rows, j);
        } else {
            let next: usize = subtree_end(rows, j);
            let ghost before = out@;
            if next == j + 1 {
                if is_identifier(lang, kind) {
                    push_bytes(&mut out, "\u{1}id");
                } else if let Some(t) = node_text(rows, source, j) {
                    push_bytes(&mut out, t.as_str());
                }
                out.push(0x1f);
                assert(out@ =~= before + token(lang, source@, s[j as int]));
                assert(out@ + tokens(lang, s, source@, j + 1, end as int) =~= before + tokens(
                    lang,
                    s,
                    source@,
                    j as int,
                    end as int,
                ));
            }
            j = j + 1;
        }
    }
    assert(out@ =~= whole);
    out
}

/// Appends the UTF-8 bytes of a text.
fn push_bytes(out: &mut Vec<u8>, s: &str)
    ensures
        final(out)@ == old(out)@ + utf8(s@),
{
    let bytes = s.as_bytes();
    let ghost before = out@;
    for k in 0..bytes.len()
        invariant
            bytes@ == utf8(s@),
            out@ == before + bytes@.take(k as int),
    {
        out.push(bytes[k]);
        assert(out@ =~= before + bytes@.take(k + 1));
    }
    assert(bytes@.take(bytes@.len() as int) =~= bytes@);
}

/// What the hash of node `i` is taken over: its kind, its shape and its token stream.
pub open spec fn hash_input(lang: LangSupport, rows: Seq<SyntaxRowView>, source: Seq<char>, i: int) -> Seq<
    u8,
> {
    utf8(rows[i].kind).push(0x1e) + le_bytes(shape(lang, rows, i)).push(0x1e) + tokens(
        lang,
        rows,
        source,
        i,
        end_of(rows, i),
    )
}

/// The `n` low hexadecimal digits of `v`, most significant first.
pub open spec fn hex(v: nat, n: nat) -> Seq<char>
    decreases n,
{
    if n == 0 {
        Seq::empty()
    } else {
        hex(v / 16, (n - 1) as nat).push(text::digit_char(v % 16))
    }
}

fn hex_digits(v: u64, n: u32) -> (r: String)
    ensures
        r@ == hex(v as nat, n as nat),
    decreases n,
{
    if n == 0 {
        let r = String::new();
        assert(r@ =~= Seq::empty());
        r
    } else {
        let mut out = hex_digits(v / 16, n - 1);
        out.push(text::digit_of(v % 16));
        out
    }
}

/// The structural hash of node `i`, as sixteen hexadecimal digits.
pub open spec fn hash_of(lang: LangSupport, rows: Seq<SyntaxRowView>, source: Seq<char>, i: int) -> Seq<
    char,
> {
    hex(fnv(FNV_OFFSET, hash_input(lang, rows, source, i)) as nat, 16)
}

/// Hashes node `i`.
pub fn structural_hash(lang: LangSupport, rows: &Vec<SyntaxRow>, source: &str, i: usize) -> (r: String)
    requires
        i < rows.len(),
    ensures
        r@ == hash_of(lang, rows.deep_view(), source@, i as int),
{
    let ghost s = rows.deep_view();
    assert(s[i as int] == rows[i as int]@);
    let mut input: Vec<u8> = Vec::new();
    push_bytes(&mut input, rows[i].kind.as_str());
    input.push(0x1e);
    let n: u32 = signature_shape(lang, rows, i);
    input.push((n % 256) as u8);
    input.push((n / 256 % 256) as u8);
    input.push((n / 0x1_0000 % 256) as u8);
    input.push((n / 0x100_0000 % 256) as u8);
    input.push(0x1e);
    let mut stream = hash_tokens(lang, rows, source, i);
    let ghost t = stream@;
    input.append(&mut stream);
    assert(input@ =~= hash_input(lang, s, source@, i as int));
    let mut hash: u64 = FNV_OFFSET;
    fnv_write(&mut hash, input.as_slice());
    hex_digits(hash, 16)
}

// ---- Definitions ------------------------------------------------------------

/// The definition that node `i` is, if it is one: it has a label and a name.
pub open spec fn definition(lang: LangSupport, rows: Seq<SyntaxRowView>, source: Seq<char>, i: int) -> Option<
    DefinitionView,
> {
    match (label(lang, rows, i, method_context(lang, rows, i)), field_text(rows, source, i, "name"@)) {
        (Some(kind), Some(name)) => Some(
            DefinitionView {
                symbol_path: text::joined(
                    match own_prefix(lang, rows, source, i) {
                        Some(prefix) => scope_of(lang, rows, source, i).push(prefix),
                        None => scope_of(lang, rows, source, i),
                    }.push(name),
                    "::"@,
                ),
                node_kind: kind,
                line_span: (
                    line_of(rows[span_of(lang, rows, i)].start_row),
                    line_of(rows[span_of(lang, rows, i)].end_row),
                ),
                structural_hash: hash_of(lang, rows, source, i),
            },
        ),
        _ => None,
    }
}

/// The definitions among the first `n` nodes, in preorder. The root is none.
pub open spec fn definitions_before(
    lang: LangSupport,
    rows: Seq<SyntaxRowView>,
    source: Seq<char>,
    n: int,
) -> Seq<DefinitionView>
    decreases n,
{
    if n <= 1 {
        Seq::empty()
    } else {
        match definition(lang, rows, source, n - 1) {
            Some(d) => definitions_before(lang, rows, source, n - 1).push(d),
            None => definitions_before(lang, rows, source, n - 1),
        }
    }
}

/// The definitions of a syntax tree, in preorder.
pub open spec fn definitions(lang: LangSupport, rows: Seq<SyntaxRowView>, source: Seq<char>) -> Seq<
    DefinitionView,
> {
    definitions_before(lang, rows, source, rows.len() as int)
}

/// The definition that node `i` is.
fn definition_of(lang: LangSupport, rows: &Vec<SyntaxRow>, source: &str, i: usize) -> (r: Option<
    Definition,
>)
    requires
        i < rows.len(),
    ensures
        r.deep_view() == definition(lang, rows.deep_view(), source@, i as int),
{
    let ghost s = rows.deep_view();
    if classify(lang, rows, i, false).is_none() {
        return None;
    }
    let kind = match classify(lang, rows, i, in_method(lang, rows, i)) {
        Some(kind) => kind,
        None => {
            return None;
        },
    };
    let name = match node_name(rows, source, i) {
        Some(name) => name,
        None => {
            return None;
        },
    };
    let mut path = scope_path(lang, rows, source, i);
    let ghost scope = path.deep_view();
    if let Some(prefix) = def_prefix(lang, rows, source, i) {
        path.push(prefix);
        assert(path.deep_view() =~= scope.push(prefix@));
    }
    let ghost owner = path.deep_view();
    path.push(name);
    assert(path.deep_view() =~= owner.push(name@));
    let span: usize = span_node(lang, rows, i);
    assert(s[span as int] == rows[span as int]@);
    Some(
        Definition {
            symbol_path: text::join(&path, "::"),
            node_kind: text::owned(kind),
            line_span: (line_number(rows[span].start_row), line_number(rows[span].end_row)),
            structural_hash: structural_hash(lang, rows, source, i),
        },
    )
}

/// Lists the definitions of a syntax tree in preorder.
pub fn walk(lang: LangSupport, rows: &Vec<SyntaxRow>, source: &str) -> (r: Vec<Definition>)
    ensures
        r.deep_view() == definitions(lang, rows.deep_view(), source@),
{
    let ghost s = rows.deep_view();
    let mut out: Vec<Definition> = Vec::new();
    assert(out.deep_view() =~= Seq::empty());
    let mut i: usize = 1;
    while i < rows.len()
        invariant
            1 <= i,
            i <= rows.len() || i == 1,
            s == rows.deep_view(),
            out.deep_view() == definitions_before(lang, s, source@, i as int),
        decreases rows.len() - i,
    {
        let ghost before = out.deep_view();
        if let Some(d) = definition_of(lang, rows, source, i) {
            out.push(d);
            assert(out.deep_view() =~= before.push(d@));
        }
        i = i + 1;
    }
    out
}

/// The definitions of a source text: those of its syntax tree, or none where it has
/// no tree.
pub open spec fn source_definitions(lang: LangSupport, source: Seq<char>) -> Seq<DefinitionView> {
    match syntax(source, lang) {
        Some(rows) => definitions(lang, rows, source),
        None => Seq::empty(),
    }
}

/// Extracts every named definition node of a source text. Extraction never fails:
/// a text that cannot be parsed has no definitions.
pub fn extract_definitions(source: &str, lang: &LangSupport) -> (r: Vec<Definition>)
    ensures
        r.deep_view() == source_definitions(*lang, source@),
{
    match parse(source, *lang) {
        Some(rows) => walk(*lang, &rows, source),
        None => {
            let none: Vec<Definition> = Vec::new();
            assert(none.deep_view() =~= Seq::empty());
            none
        },
    }
}

/// A definition's span holds a line.
pub open spec fn encloses(d: DefinitionView, line: u32) -> bool {
    d.line_span.0 <= line <= d.line_span.1
}

/// How many lines a definition spans, less one.
pub open spec fn width(d: DefinitionView) -> int {
    d.line_span.1 - d.line_span.0
}

/// The innermost of the definitions that enclose a line: of those that span the fewest
/// lines the last, since a definition comes after the one it is nested in.
pub open spec fn innermost_of(defs: Seq<DefinitionView>, line: u32) -> Option<DefinitionView>
    decreases defs.len(),
{
    if defs.len() == 0 {
        None
    } else {
        let best = innermost_of(defs.drop_last(), line);
        let last = defs.last();
        if encloses(last, line) && (best matches Some(b) ==> width(last) <= width(b)) {
            Some(last)
        } else {
            best
        }
    }
}

/// The innermost definition encloses the line, and none that does spans fewer lines;
/// there is one wherever any definition encloses the line.
pub proof fn innermost_is_least(defs: Seq<DefinitionView>, line: u32)
    ensures
        match innermost_of(defs, line) {
            Some(d) => defs.contains(d) && encloses(d, line) && forall|j: int|
                0 <= j < defs.len() && encloses(#[trigger] defs[j], line) ==> width(d) <= width(defs[j]),
            None => forall|j: int| 0 <= j < defs.len() ==> !encloses(#[trigger] defs[j], line),
        },
    decreases defs.len(),
{
    if defs.len() > 0 {
        let front = defs.drop_last();
        innermost_is_least(front, line);
        assert(defs[defs.len() - 1] == defs.last());
        if let Some(d) = innermost_of(front, line) {
            assert(defs[front.index_of(d)] == d);
        }
        assert forall|j: int| 0 <= j < front.len() implies #[trigger] defs[j] == front[j] by {}
    }
}

/// Picks the innermost of the definitions that enclose a 1-based line.
pub fn innermost(defs: &Vec<Definition>, line: u32) -> (r: Option<Definition>)
    ensures
        r.deep_view() == innermost_of(defs.deep_view(), line),
{
    let ghost s = defs.deep_view();
    let mut best: Option<usize> = None;
    assert(s.take(0) =~= Seq::empty());
    for i in 0..defs.len()
        invariant
            s == defs.deep_view(),
            best matches Some(b) ==> b < i && encloses(s[b as int], line),
            innermost_of(s.take(i as int), line) == (match best {
                Some(b) => Some(s[b as int]),
                None => None,
            }),
    {
        assert(s.take(i + 1).drop_last() =~= s.take(i as int));
        assert(s.take(i + 1).last() == s[i as int]);
        assert(s[i as int] == defs[i as int]@);
        let d = &defs[i];
        if d.line_span.0 <= line && line <= d.line_span.1 {
            let better = match best {
                Some(b) => {
                    assert(s[b as int] == defs[b as int]@);
                    d.line_span.1 - d.line_span.0 <= defs[b].line_span.1 - defs[b].line_span.0
                },
                None => true,
            };
            if better {
                best = Some(i);
            }
        }
    }
    assert(s.take(s.len() as int) =~= s);
    match best {
        Some(b) => Some(defs[b].clone()),
        None => None,
    }
}

/// The innermost definition whose span encloses the given 1-based `line`, if any.
pub fn definition_at_line(source: &str, line: u32, lang: &LangSupport) -> (r: Option<Definition>)
    ensures
        r.deep_view() == innermost_of(source_definitions(*lang, source@), line),
{
    let defs = extract_definitions(source, lang);
    innermost(&defs, line)
}

// ---- Language of a file -----------------------------------------------------

/// What stands after the last `/` or `\`.
pub open spec fn file_name(path: Seq<char>) -> Seq<char>
    decreases path.len(),
{
    if path.len() == 0 || path.last() == '/' || path.last() == '\\' {
        Seq::empty()
    } else {
        file_name(path.drop_last()).push(path.last())
    }
}

/// The language of a file extension.
pub open spec fn extension_language(ext: Seq<char>) -> Option<LangSupport> {
    if ext == "rs"@ {
        Some(LangSupport::Rust)
    } else if ext == "ts"@ || ext == "mts"@ || ext == "cts"@ {
        Some(LangSupport::TypeScript)
    } else if ext == "tsx"@ {
        Some(LangSupport::Tsx)
    } else if ext == "go"@ {
        Some(LangSupport::Go)
    } else if ext == "php"@ || ext == "phtml"@ {
        Some(LangSupport::Php)
    } else if ext == "py"@ || ext == "pyi"@ {
        Some(LangSupport::Python)
    } else if ext == "java"@ {
        Some(LangSupport::Java)
    } else if ext == "rb"@ {
        Some(LangSupport::Ruby)
    } else {
        None
    }
}

/// The language of a path: by what follows the last dot of the file name.
pub open spec fn path_language(path: Seq<char>) -> Option<LangSupport> {
    match text::rparted(file_name(path), "."@) {
        Some((_, ext)) => extension_language(ext),
        None => None,
    }
}

/// Cuts the file name out of a path.
fn base_name(path: &str) -> (r: String)
    ensures
        r@ == file_name(path@),
{
    let v = text::chars_of(path);
    let mut i: usize = v.len();
    let ghost all = path@;
    assert(all.take(all.len() as int) =~= all);
    assert(all.skip(all.len() as int) =~= Seq::empty());
    assert(file_name(all) =~= file_name(all) + Seq::empty());
    while i > 0 && v[i - 1] != '/' && v[i - 1] != '\\'
        invariant
            i <= v.len(),
            v@ == all,
            file_name(all) == file_name(all.take(i as int)) + all.skip(i as int),
        decreases i,
    {
        assert(all.take(i as int).drop_last() =~= all.take(i - 1));
        assert(file_name(all.take(i - 1)).push(all[i - 1]) + all.skip(i as int) =~= file_name(
            all.take(i - 1),
        ) + all.skip(i - 1));
        i = i - 1;
    }
    assert(file_name(all.take(i as int)) =~= Seq::empty());
    let r = text::string_between(&v, i, v.len());
    assert(r@ =~= file_name(all));
    r
}

/// Picks the language support for a path by file extension, or `None` when the file
/// has no node-anchoring support.
pub fn language_for_path(path: &str) -> (r: Option<LangSupport>)
    ensures
        r == path_language(path@),
{
    let name = base_name(path);
    let ext = match text::rsplit_once(name.as_str(), ".") {
        Some((_, ext)) => ext,
        None => {
            return None;
        },
    };
    let ext = ext.as_str();
    if text::same(ext, "rs") {
        Some(LangSupport::Rust)
    } else if text::same(ext, "ts") || text::same(ext, "mts") || text::same(ext, "cts") {
        Some(LangSupport::TypeScript)
    } else if text::same(ext, "tsx") {
        Some(LangSupport::Tsx)
    } else if text::same(ext, "go") {
        Some(LangSupport::Go)
    } else if text::same(ext, "php") || text::same(ext, "phtml") {
        Some(LangSupport::Php)
    } else if text::same(ext, "py") || text::same(ext, "pyi") {
        Some(LangSupport::Python)
    } else if text::same(ext, "java") {
        Some(LangSupport::Java)
    } else if text::same(ext, "rb") {
        Some(LangSupport::Ruby)
    } else {
        None
    }
}

/// The last of the definitions around a line that span the fewest lines is the innermost:
/// none after it that spans the line is as narrow.
pub proof fn innermost_is_last(defs: Seq<DefinitionView>, line: u32) -> (k: int)
    ensures
        innermost_of(defs, line) matches Some(d) ==> 0 <= k < defs.len() && defs[k] == d && forall|j: int|
            k < j < defs.len() && (#[trigger] defs[j]).line_span.0 <= line && line <= defs[j].line_span.1
                ==> defs[j].line_span.1 - defs[j].line_span.0 > d.line_span.1 - d.line_span.0,
    decreases defs.len(),
{
    if defs.len() == 0 {
        0
    } else {
        let front = defs.drop_last();
        let k = innermost_is_last(front, line);
        let last = defs.last();
        let best = innermost_of(front, line);
        if encloses(last, line) && (best matches Some(b) ==> width(last) <= width(b)) {
            defs.len() - 1
        } else {
            assert forall|j: int|
                best is Some && k < j < defs.len() && (#[trigger] defs[j]).line_span.0 <= line && line
                    <= defs[j].line_span.1 implies defs[j].line_span.1 - defs[j].line_span.0
                > best->0.line_span.1 - best->0.line_span.0 by {
                if j < front.len() {
                    assert(front[j] == defs[j]);
                }
            }
            k
        }
    }
}

/// The language of a file goes by what follows the last dot, wherever the file lies and
/// whatever it is called.
pub proof fn extensions_name_languages(stem: Seq<char>)
    ensures
        path_language(stem + seq!['.'] + seq!['r', 's']) == Some(LangSupport::Rust),
        path_language(stem + seq!['.'] + seq!['t', 's']) == Some(LangSupport::TypeScript),
        path_language(stem + seq!['.'] + seq!['m', 't', 's']) == Some(LangSupport::TypeScript),
        path_language(stem + seq!['.'] + seq!['c', 't', 's']) == Some(LangSupport::TypeScript),
        path_language(stem + seq!['.'] + seq!['t', 's', 'x']) == Some(LangSupport::Tsx),
        path_language(stem + seq!['.'] + seq!['g', 'o']) == Some(LangSupport::Go),
        path_language(stem + seq!['.'] + seq!['p', 'h', 'p']) == Some(LangSupport::Php),
        path_language(stem + seq!['.'] + seq!['p', 'h', 't', 'm', 'l']) == Some(LangSupport::Php),
        path_language(stem + seq!['.'] + seq!['p', 'y']) == Some(LangSupport::Python),
        path_language(stem + seq!['.'] + seq!['p', 'y', 'i']) == Some(LangSupport::Python),
        path_language(stem + seq!['.'] + seq!['j', 'a', 'v', 'a']) == Some(LangSupport::Java),
        path_language(stem + seq!['.'] + seq!['r', 'b']) == Some(LangSupport::Ruby),
{
    extension_is_read(stem, seq!['r', 's']);
    extension_is_read(stem, seq!['t', 's']);
    extension_is_read(stem, seq!['m', 't', 's']);
    extension_is_read(stem, seq!['c', 't', 's']);
    extension_is_read(stem, seq!['t', 's', 'x']);
    extension_is_read(stem, seq!['g', 'o']);
    extension_is_read(stem, seq!['p', 'h', 'p']);
    extension_is_read(stem, seq!['p', 'h', 't', 'm', 'l']);
    extension_is_read(stem, seq!['p', 'y']);
    extension_is_read(stem, seq!['p', 'y', 'i']);
    extension_is_read(stem, seq!['j', 'a', 'v', 'a']);
    extension_is_read(stem, seq!['r', 'b']);
    extensions_differ();
}

proof fn extensions_differ()
    ensures
        extension_language(seq!['r', 's']) == Some(LangSupport::Rust),
        extension_language(seq!['t', 's']) == Some(LangSupport::TypeScript),
        extension_language(seq!['m', 't', 's']) == Some(LangSupport::TypeScript),
        extension_language(seq!['c', 't', 's']) == Some(LangSupport::TypeScript),
        extension_language(seq!['t', 's', 'x']) == Some(LangSupport::Tsx),
        extension_language(seq!['g', 'o']) == Some(LangSupport::Go),
        extension_language(seq!['p', 'h', 'p']) == Some(LangSupport::Php),
        extension_language(seq!['p', 'h', 't', 'm', 'l']) == Some(LangSupport::Php),
        extension_language(seq!['p', 'y']) == Some(LangSupport::Python),
        extension_language(seq!['p', 'y', 'i']) == Some(LangSupport::Python),
        extension_language(seq!['j', 'a', 'v', 'a']) == Some(LangSupport::Java),
        extension_language(seq!['r', 'b']) == Some(LangSupport::Ruby),
{
    reveal_strlit("rs");
    assert("rs"@.len() == 2);
    reveal_strlit("ts");
    assert("ts"@.len() == 2);
    reveal_strlit("mts");
    assert("mts"@.len() == 3);
    reveal_strlit("cts");
    assert("cts"@.len() == 3);
    reveal_strlit("tsx");
    assert("tsx"@.len() == 3);
    reveal_strlit("go");
    assert("go"@.len() == 2);
    reveal_strlit("php");
    assert("php"@.len() == 3);
    reveal_strlit("phtml");
    assert("phtml"@.len() == 5);
    reveal_strlit("py");
    assert("py"@.len() == 2);
    reveal_strlit("pyi");
    assert("pyi"@.len() == 3);
    reveal_strlit("java");
    assert("java"@.len() == 4);
    reveal_strlit("rb");
    assert("rb"@.len() == 2);
    assert("rs"@[0] != "ts"@[0]);
    assert("rs"@[0] != "go"@[0]);
    assert("rs"@[0] != "py"@[0]);
    assert("rs"@[1] != "rb"@[1]);
    assert("ts"@[0] != "go"@[0]);
    assert("ts"@[0] != "py"@[0]);
    assert("ts"@[0] != "rb"@[0]);
    assert("mts"@[0] != "cts"@[0]);
    assert("mts"@[0] != "tsx"@[0]);
    assert("mts"@[0] != "php"@[0]);
    assert("mts"@[0] != "pyi"@[0]);
    assert("cts"@[0] != "tsx"@[0]);
    assert("cts"@[0] != "php"@[0]);
    assert("cts"@[0] != "pyi"@[0]);
    assert("tsx"@[0] != "php"@[0]);
    assert("tsx"@[0] != "pyi"@[0]);
    assert("go"@[0] != "py"@[0]);
    assert("go"@[0] != "rb"@[0]);
    assert("php"@[1] != "pyi"@[1]);
    assert("py"@[0] != "rb"@[0]);
    assert("rs"@ =~= seq!['r', 's']);
    assert("ts"@ =~= seq!['t', 's']);
    assert("mts"@ =~= seq!['m', 't', 's']);
    assert("cts"@ =~= seq!['c', 't', 's']);
    assert("tsx"@ =~= seq!['t', 's', 'x']);
    assert("go"@ =~= seq!['g', 'o']);
    assert("php"@ =~= seq!['p', 'h', 'p']);
    assert("phtml"@ =~= seq!['p', 'h', 't', 'm', 'l']);
    assert("py"@ =~= seq!['p', 'y']);
    assert("pyi"@ =~= seq!['p', 'y', 'i']);
    assert("java"@ =~= seq!['j', 'a', 'v', 'a']);
    assert("rb"@ =~= seq!['r', 'b']);
}

/// A file whose name has no dot, or whose extension is none of these, has no language.
pub proof fn other_files_have_no_language(stem: Seq<char>, ext: Seq<char>)
    requires
        !ext.contains('/') && !ext.contains('\\') && !ext.contains('.'),
        ext != seq!['r', 's'],
        ext != seq!['t', 's'],
        ext != seq!['m', 't', 's'],
        ext != seq!['c', 't', 's'],
        ext != seq!['t', 's', 'x'],
        ext != seq!['g', 'o'],
        ext != seq!['p', 'h', 'p'],
        ext != seq!['p', 'h', 't', 'm', 'l'],
        ext != seq!['p', 'y'],
        ext != seq!['p', 'y', 'i'],
        ext != seq!['j', 'a', 'v', 'a'],
        ext != seq!['r', 'b'],
    ensures
        path_language(stem + seq!['.'] + ext) is None,
{
    extension_is_read(stem, ext);
    reveal_strlit("rs");
    reveal_strlit("ts");
    reveal_strlit("mts");
    reveal_strlit("cts");
    reveal_strlit("tsx");
    reveal_strlit("go");
    reveal_strlit("php");
    reveal_strlit("phtml");
    reveal_strlit("py");
    reveal_strlit("pyi");
    reveal_strlit("java");
    reveal_strlit("rb");
    assert("rs"@ =~= seq!['r', 's']);
    assert("ts"@ =~= seq!['t', 's']);
    assert("mts"@ =~= seq!['m', 't', 's']);
    assert("cts"@ =~= seq!['c', 't', 's']);
    assert("tsx"@ =~= seq!['t', 's', 'x']);
    assert("go"@ =~= seq!['g', 'o']);
    assert("php"@ =~= seq!['p', 'h', 'p']);
    assert("phtml"@ =~= seq!['p', 'h', 't', 'm', 'l']);
    assert("py"@ =~= seq!['p', 'y']);
    assert("pyi"@ =~= seq!['p', 'y', 'i']);
    assert("java"@ =~= seq!['j', 'a', 'v', 'a']);
    assert("rb"@ =~= seq!['r', 'b']);
}

proof fn extension_is_read(stem: Seq<char>, ext: Seq<char>)
    requires
        !ext.contains('/') && !ext.contains('\\') && !ext.contains('.'),
    ensures
        path_language(stem + seq!['.'] + ext) == extension_language(ext),
{
    reveal_strlit(".");
    assert("."@ =~= seq!['.']);
    file_name_keeps_end(stem + seq!['.'], ext);
    file_name_keeps_end(stem, seq!['.']);
    assert(file_name(stem) + seq!['.'] + ext =~= file_name(stem + seq!['.'] + ext));
    crate::text::facts::parted_at_mark(file_name(stem), '.', ext);
}

proof fn file_name_keeps_end(stem: Seq<char>, end: Seq<char>)
    requires
        !end.contains('/') && !end.contains('\\'),
    ensures
        file_name(stem + end) == file_name(stem) + end,
    decreases end.len(),
{
    let s = stem + end;
    if end.len() > 0 {
        let front = end.drop_last();
        assert(s.drop_last() =~= stem + front);
        assert(s.last() == end.last());
        assert(end.contains(end[end.len() - 1]));
        assert forall|c: char| front.contains(c) implies end.contains(c) by {
            assert(end[front.index_of(c)] == c);
        }
        file_name_keeps_end(stem, front);
        assert(file_name(s) =~= file_name(stem) + end);
    } else {
        assert(s =~= stem);
        assert(file_name(stem) + end =~= file_name(stem));
    }
}

} // verus!
