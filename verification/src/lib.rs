//! Text overlays: how a message is styled, timed, typed out and taken away.
pub mod asked;
pub mod bignum;
pub mod bounds;
pub mod config;
pub mod decimal;
pub mod double;
pub mod drawing;
pub mod error;
pub mod exits;
pub mod hud;
pub mod ipc;
pub mod listen;
pub mod message;
pub mod mixing;
pub mod near;
pub mod order;
pub mod outputs;
pub mod overrides;
pub mod pacing;
pub mod paths;
pub mod presets;
pub mod rhythm;
pub mod rounding;
pub mod sizes;
pub mod sound;
pub mod spec;
pub mod synth;
pub mod terms;
pub mod text;
pub mod timbre;
pub mod timeline;
pub mod untype;
pub mod whole;
pub mod wording;
