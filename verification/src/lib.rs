//! A planar-sweep "beam table": given labeled line segments with integer
//! coordinates, a Bentley-Ottmann style sweep decomposes the plane into
//! vertical beams between consecutive event x-coordinates and records the
//! ordered list of segments crossing each beam. Per-beam inside/outside
//! bit-masks support boolean region algebra, and a mask can be turned back
//! into boundary segments.
//!
//! All arithmetic is exact integer arithmetic on a grid chosen by the
//! caller, so point equality and event identity need no tolerances;
//! intersection parameters are exact fractions, and interpolated points and
//! y-intercepts are rounded to the grid under one documented rounding rule.
//! A crossing's swap event is scheduled with its column rounded up, so the
//! re-insertion lands the pair in its post-crossing order.

pub mod events;
pub mod geometry;
pub mod laws;
pub mod num;
pub mod table;
