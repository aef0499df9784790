pub mod dag;
pub mod abundance;
pub mod tree;
