//! Pareto ranking of points in an objective space, and the layout of the
//! ranked points as a two-dimensional drawing.
//!
//! Every objective is minimized: a lower score is better. Scores are
//! integers; fractional scores are brought to a fixed grid before they are
//! handed in.

pub mod bbox;
pub mod dominance;
pub mod invariance;
pub mod label;
pub mod layers;
pub mod lines;
pub mod point;
pub mod problem;
pub mod ranker;
pub mod scene;

pub use crate::bbox::BoundingBox;
pub use crate::point::ParetoPoint;
pub use crate::problem::DimensionMismatch;
pub use crate::problem::ParetoProblem;
pub use crate::scene::Primitive;
pub use crate::scene::Scene;
