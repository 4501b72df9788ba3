//! Content-addressed object encoding: byte layouts with niches for nested
//! options, length prefixes, terminators, byte-wise ordering, hashes, and the
//! in-memory tries built on top of them.
pub mod error;
pub mod input;
pub mod traits;
pub mod primitives;
pub mod seqs;
pub mod ordering;
pub mod option;
pub mod hash;
pub mod array_map;
pub mod hamt;
pub mod amt;
pub mod amt_ops;
pub mod u63;
pub mod sequence;
pub mod length_prefixed;
pub mod ln_option;
pub mod extra_none;
pub mod tuple;
pub mod tuple_of_arrays;
pub mod incr_byte_niche;
pub mod decr_byte_niche;
pub mod niches;
pub mod default_chain;
pub mod none_terminated;
pub mod default_terminated;
pub mod monostate;
pub mod marker;
pub mod extras;
pub mod shared;
pub mod fetch;
pub mod encrypted;
pub mod append_tree;
pub mod ascii;
pub mod text;
pub mod item_order;
pub mod vec_deque;
pub mod amt_set;
