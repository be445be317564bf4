//! Plain-value model of the modules and chunks that the pass reads and writes.

use vstd::prelude::*;

verus! {

/// How a module was authored; only decides the size weight of the module.
#[derive(Clone, Copy, Debug, PartialEq, Eq, Structural)]
pub enum ModuleType {
    Js,
    JsDynamic,
    JsEsm,
    Jsx,
    JsxDynamic,
    JsxEsm,
    Ts,
    Tsx,
    Css,
    Json,
    Asset,
    Other,
}

/// Modules whose code grows a lot when it is transformed.
pub open spec fn expands_on_transform(t: ModuleType) -> bool {
    t == ModuleType::Jsx || t == ModuleType::JsxDynamic || t == ModuleType::JsxEsm
        || t == ModuleType::Tsx
}

impl ModuleType {
    /// Whether a module of this type counts five times its size (instead of
    /// one and a half times) in the estimate of a window.
    pub fn expands_on_transform(&self) -> (r: bool)
        ensures
            r == expands_on_transform(*self),
    {
        match self {
            ModuleType::Jsx | ModuleType::JsxDynamic | ModuleType::JsxEsm | ModuleType::Tsx => true,
            _ => false,
        }
    }
}

/// A module of the module graph. Its identity is its index in the module list.
#[derive(Clone, Copy, Debug, PartialEq, Eq, Structural)]
pub struct Module {
    pub module_type: ModuleType,
    /// Size in bytes of the module's JavaScript output.
    pub size: u64,
}

/// Twice the weighted size of a module: 10 times its size for a module that
/// expands on transform (weight 5), 3 times otherwise (weight 1.5).
pub open spec fn double_weight(m: Module) -> int {
    if expands_on_transform(m.module_type) {
        10 * m.size
    } else {
        3 * m.size
    }
}

impl Module {
    pub fn double_weight(&self) -> (r: u128)
        ensures
            r == double_weight(*self),
    {
        if self.module_type.expands_on_transform() {
            10 * (self.size as u128)
        } else {
            3 * (self.size as u128)
        }
    }
}

#[derive(Clone, Copy, Debug, PartialEq, Eq, Structural)]
pub enum ChunkKind {
    Normal,
    HotUpdate,
}

/// A chunk of the chunk registry. Its key is its index in the registry.
#[derive(Clone, Debug)]
pub struct Chunk {
    pub name: Option<String>,
    pub kind: ChunkKind,
    /// Human-readable reasons why the chunk exists.
    pub reasons: Vec<String>,
}

/// The record of one split: `child` was derived from `parent`, and the split
/// saw `parent_modules` as the parent's modules at that moment.
#[derive(Clone, Debug)]
pub struct SplitRecord {
    pub parent: usize,
    pub child: usize,
    pub parent_modules: Vec<usize>,
}

} // verus!
