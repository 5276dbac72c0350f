use vstd::prelude::*;

pub mod config;
pub mod diagnostics;
pub mod fs;
pub mod label;
pub mod span;
pub mod text;
pub mod strmap;
pub mod pipeline;
pub mod preserve;
pub mod reader;
pub mod registry;
pub mod mappings;
pub mod notebook;
pub mod ir;
pub mod writer;
pub mod yaml;
pub mod frontmatter;
