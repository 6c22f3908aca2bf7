//! Conversion of bytecode-level execution coverage over generated code into
//! statement coverage of the original sources, bridged by a source map.

pub mod assoc;
pub mod decode;
pub mod laws;
pub mod link;
pub mod lines;
pub mod mapping;
pub mod nesting;
pub mod paths;
pub mod project;
pub mod report;
pub mod resolve;
pub mod script;
pub mod text;
pub mod timer;
pub mod tree;
