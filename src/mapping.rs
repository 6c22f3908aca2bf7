//! The decoded source-map input of the resolver, and the statement records
//! it produces.
use vstd::prelude::*;

verus! {

/// One decoded source-map token: a position in the generated code, the index
/// of its original source (if any), and the position in that source.
#[derive(Clone, Copy, Debug, PartialEq, Eq)]
pub struct Token {
    pub dst_line: u32,
    pub dst_col: u32,
    pub src_id: Option<u32>,
    pub src_line: u32,
    pub src_col: u32,
}

/// One original source of a source map: its path and, where the map embeds
/// it, its text.
#[derive(Clone, Debug)]
pub struct SourceFile {
    pub path: String,
    pub contents: Option<String>,
}

/// What the resolver reads of a decoded source map.
#[derive(Clone, Debug)]
pub struct SourceMapData {
    pub file: Option<String>,
    pub sources: Vec<SourceFile>,
    pub tokens: Vec<Token>,
}

/// A statement: the span of generated code a token covers, the span of
/// original code it stands for (0-based lines and columns, ends inclusive),
/// its execution count and the index of its token.
#[derive(Clone, Debug)]
pub struct MappingItem {
    pub source: String,
    pub generated_column: u32,
    pub last_generated_column: u32,
    pub original_line: u32,
    pub original_column: u32,
    pub last_original_line: u32,
    pub last_original_column: u32,
    pub count: u32,
    pub idx: usize,
}

/// The mathematical content of a `MappingItem`.
pub struct ItemView {
    pub source: Seq<char>,
    pub gs: int,
    pub ge: int,
    pub osl: int,
    pub osc: int,
    pub oel: int,
    pub oec: int,
    pub count: int,
    pub idx: int,
}

impl View for MappingItem {
    type V = ItemView;

    open spec fn view(&self) -> ItemView {
        ItemView {
            source: self.source@,
            gs: self.generated_column as int,
            ge: self.last_generated_column as int,
            osl: self.original_line as int,
            osc: self.original_column as int,
            oel: self.last_original_line as int,
            oec: self.last_original_column as int,
            count: self.count as int,
            idx: self.idx as int,
        }
    }
}

pub open spec fn views(items: Seq<MappingItem>) -> Seq<ItemView> {
    items.map_values(|m: MappingItem| m@)
}

} // verus!
