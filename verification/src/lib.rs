//! A queryable model of lexical scoping for one parsed JavaScript file:
//! which names are declared where, every read and write of each name, how
//! scopes nest, and which scopes belong to closures.
//!
//! The model is an arena ([`SemanticModelData`]) that is filled once and
//! then frozen behind a reference count ([`SemanticModel`]). [`Scope`],
//! [`Binding`], [`Reference`] and [`Closure`] are cheap handles made of a
//! share of that arena and an index.

pub mod binding;
pub mod closure;
pub mod laws;
pub mod model;
pub mod scope;
pub mod semantic_model;
pub mod syntax;
pub mod traversal;
pub mod update;
pub mod view;

pub use binding::{Binding, Reference};
pub use closure::Closure;
pub use model::SemanticModelData;
pub use scope::{Scope, ScopeBindingsIter, ScopeDescendentsIter};
pub use semantic_model::{SemanticModel, SemanticScopeExtensions};
pub use syntax::JsNode;
pub use view::{ReferenceKind, SemanticModelScopeReference};
