//! Fixed-arity array storage indexed by niche integers, the bitmaps behind
//! it, and the building blocks of path-compressed tries over it.
//!
//! [`FixedArray`] is a full-width array (one slot per index);
//! [`PackedArray`] stores only the present elements; [`GappedArray`] keeps
//! spare capacity and gaps so that mutation rarely moves elements. All three
//! are generic over the [`Arity`] trait, which pairs a niche index type with
//! a bitmap backing. A trie [`Node`] holds its children in one of the three
//! containers; over an [`EdgeStore`], [`get_node`] and [`get`] look keys up,
//! [`iter()`] lists the valued keys in order from a start key,
//! [`validate()`] checks the structural invariant, and [`hash()`] computes
//! the Merkle hash under a [`TrieHasher`], sealing edges on the way up.

pub mod count;
pub mod word;
pub mod niche;
pub mod range;
pub mod bitmap;
pub mod native;
pub mod u256;
pub mod arity;
pub mod fixed;
pub mod packed;
pub mod gapped;
pub mod compact;
pub mod logical;
pub mod children;
pub mod path;
pub mod key;
pub mod node;
pub mod store;
pub mod ops;
pub mod hash;
pub mod validate;
pub mod iter;
pub mod repr;
pub mod laws;

pub use arity::{Arity, Arity128, Arity16, Arity256, Arity32, Arity64, Arity8};
pub use bitmap::{BitIter, Bitmap, Bits};
pub use children::{ChildMap, ChildStore, Fixed, Gapped, Packed};
pub use compact::{Compact, CompactError};
pub use fixed::FixedArray;
pub use gapped::GappedArray;
pub use niche::{Niche, TryFromIntError, U3, U4, U5, U6, U7};
pub use hash::{hash, hash_sealed_node, HashInput, TrieHasher};
pub use iter::iter;
pub use node::Node;
pub use ops::{get, get_node};
pub use store::{EdgeStore, InMemory, MemEdge};
pub use packed::PackedArray;
pub use path::{common_prefix, join, Path, PrefixOverlap};
pub use range::{NicheRange, NicheRangeInclusive};
pub use u256::U256;
pub use validate::{node_violation, validate, ValidateError, Violation, ViolationKind};
