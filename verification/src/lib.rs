//! A 2D rigid-shape collision engine: convex polygon colliders tested by
//! the separating-axis theorem with a minimum-translation result, a quad
//! tree broad phase over axis-aligned boxes, and a fixed-step physics
//! scheduler that integrates constant forces, runs detection passes at
//! integer sub-steps, and resolves overlaps with layer filtering, ghost
//! (non-pushing) collisions, duplicate suppression, and per-body collision
//! bookkeeping. Coordinates are fixed-point integers, so every contract
//! here is exact.

pub mod vec2;
pub mod bbox;
pub mod sat;
pub mod collider;
pub mod quadtree;
pub mod world;
pub mod manager;
