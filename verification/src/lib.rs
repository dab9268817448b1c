//! Validation of YAML and JSON documents against schemas written in a
//! GraphQL-like schema definition language.
pub mod text;
pub mod diagnostics;
pub mod pointer;
pub mod ordered_map;
pub mod ir;
pub mod numeric;
pub mod value;
pub mod pattern;
pub mod rules;
pub mod content;
pub mod validator;
pub mod syntax;
pub mod sdl;
pub mod literals;
pub mod compiler;
pub mod cycles;
pub mod voyager;
pub mod facade;
