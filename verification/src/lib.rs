//! Verified core of a two-body gravity viewer.
//!
//! Numbers are single-precision encodings ([`single`]) with correctly rounded
//! arithmetic on them ([`arith`], [`vector`]). On these stand the stars and
//! their force law ([`body`]), the free-look camera ([`look`], [`camera`]),
//! the keyboard policy ([`controls`]) and the window ([`window`]).

pub mod arith;
pub mod body;
pub mod camera;
pub mod controls;
pub mod look;
pub mod single;
pub mod vector;
pub mod window;
