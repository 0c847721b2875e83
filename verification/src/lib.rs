//! A verified lighting-blend engine for map tiles: a handle-keyed worklist
//! of corner light snapshots, a pure blend pass that classifies each tile
//! and builds its colour matrix, and a two-phase compute-then-flush
//! protocol that hands each completed entry back for external writeback
//! exactly once. Light values are carried in fixed-point units of
//! [`sample::UNIT`]; the host binding converts at the boundary.

pub mod blend;
pub mod registry;
pub mod sample;
