//! elenchus — the verified core of a small three-valued consistency checker:
//! the `.vrf` DSL grammar and the compiler that lowers it to a canonical
//! `Impossible`-clause IR.
pub mod text;
pub mod keywords;
pub mod kw;
pub mod ast;
pub mod scan;
pub mod diag;
pub mod syntax;
pub mod grammar;
pub mod ir;
pub mod table;
pub mod error;
pub mod hash;
pub mod closure;
pub mod lower;
pub mod sig;
pub mod compiler;
pub mod strtable;
pub mod paths;
pub mod binding;
pub mod resolve;
pub mod pipeline;
pub mod setargs;
pub mod render;
pub mod laws;

pub use crate::ast::{Atom, Body, CloseKind, Conn, ListOp, Literal, Located, Program, Quant, Statement};
pub use crate::compiler::Compiler;
pub use crate::diag::{Diagnostic, Diagnostics};
pub use crate::error::{CompileError, UnknownValue, levenshtein};
pub use crate::grammar::parse;
pub use crate::hash::hash_hex;
pub use crate::ir::{
    AtomId, AtomKey, Check, Clause, Compiled, Fact, Lit, Origin, PlaceholderInfo, PlaceholderStatus, PortBinding, Rule,
    UnusedImport, Value,
};
pub use crate::keywords::{Card, Keyword, card_for, is_reserved, is_top_level, keywords, top_level_forms, top_level_menu};
pub use crate::paths::normalize_import_path;
pub use crate::pipeline::{compile_source, compile_source_with, read_data_bindings, read_data_source};
pub use crate::resolve::{MemoryResolver, Resolver, compile, compile_with};

