pub mod tag;
pub mod order;
pub mod entries;
pub mod compound;
pub mod value;
pub mod wire;
pub mod node;
pub mod store;
pub mod shape;
pub mod tree;
pub mod frame;
pub mod attach;
pub mod ops;
pub mod encode;
pub mod parse;
pub mod read;
pub mod decode;
pub mod roundtrip;
pub mod serial;
pub mod schema;
pub mod auth;
pub mod directories;
pub mod text;
pub mod update;
pub mod list;
pub mod equal;
pub mod stringified;
pub mod pretty;
pub mod reference;
pub mod reference_mut;
pub mod download;
pub mod copy;
pub mod laws;
pub mod count;
pub mod truncation;
