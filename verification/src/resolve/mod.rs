//! Module tree, item table and path resolution for one crate target.

pub mod calls;
pub mod db;
pub mod ids;
pub mod item;
pub mod parse;
pub mod tree;

pub use calls::CallVisitor;
pub use db::{Db, Impl, Module};
pub use ids::{ImplId, ItemId, ModuleId};
pub use item::{ModuleItem, ItemKind, ItemSource};
pub use parse::SourceText;
