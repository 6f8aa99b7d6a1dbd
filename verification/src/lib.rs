//! The core of the Cove runtime.
//!
//! A lowered program ([`ir`]) runs on a stack of eight-byte words ([`frame`])
//! over a heap of handles ([`slot`]); [`heap`] is the collector of the slots a
//! tree of values lives in. What a program may ask of the world outside goes
//! through a registry ([`host`]) that holds every call to a declared schema
//! ([`schema`], [`shipped`]), to what was granted and to a budget ([`budget`]);
//! [`console`], [`env`], [`documents`] and [`files`] are the hosts themselves.
//! [`find`] searches bytes in linear time, and [`float`] settles what the
//! lesser and the greater of two floats are.
//!
//! Nothing here reads a disk, writes a stream or looks at a clock of its own
//! accord, except to time a host: a run pauses, and says what it waits for.

pub mod budget;
pub mod console;
pub mod documents;
pub mod env;
pub mod error;
pub mod factor;
pub mod files;
pub mod find;
pub mod float;
pub mod frame;
pub mod heap;
pub mod host;
pub mod ir;
pub mod names;
pub mod paths;
pub mod schema;
pub mod shipped;
pub mod slot;
pub mod text;
pub mod trace;
pub mod value;

