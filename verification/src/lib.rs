//! A small s-expression language for parametric 2D/3D shapes, with a
//! voxelization backend that turns the language's geometric values into
//! discrete block positions and block-placement command text.

pub mod num;
pub mod render;
pub mod lex;
pub mod parse;
pub mod eval;
pub mod interp;
pub mod mc;
pub mod scad;
pub mod out;
