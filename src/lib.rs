//! Line of sight from a point light among axis-aligned rectangular occluders: the polygon of
//! what the light sees, traced by casting rays past every corner. Coordinates are whole scene
//! units and every computation is exact: intersection points are rationals, and ray directions
//! are integer vectors ordered by angle.
pub mod geometry;
pub mod rays;
pub mod visibility;
pub mod scene;
