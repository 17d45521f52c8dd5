pub mod uint;
pub mod verbs;
pub mod expr;
pub mod flags;
pub mod vars;
pub mod eval;
pub mod exec;
pub mod runtime;
pub mod errors;
pub mod hir;
pub mod names;
pub mod fs;
pub mod modctx;
pub mod modmap;
pub mod context;
pub mod lower;
pub mod func;
pub mod lowering;
pub mod parser;
pub mod resolve;
pub mod builder;
pub mod semantics;
