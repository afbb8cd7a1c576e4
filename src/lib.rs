//! A strided n-dimensional array: shape and stride algebra, owned, shared and
//! borrowed storage, subviews, broadcasting, elementwise traversal and
//! general matrix multiplication.
pub mod array;
pub mod shape;
pub mod zip;
pub mod views;
pub mod linalg;
