//! A surface-area-heuristic kd-tree over axis-aligned bounding boxes,
//! with exact integer coordinates and exact rational ray parameters.
//!
//! The tree indexes a collection of intersectable objects by their bounds,
//! and answers nearest-hit and any-hit ray queries by pruning the candidate
//! set down to the objects of the leaves whose boxes the ray meets, then
//! resolving exact hits with a linear scan over those candidates.

pub mod math;

pub mod plane;

pub mod aabb;

pub mod candidate;

pub mod ray;

pub mod hittable;

pub mod kdtree;

pub mod config;
