//! Allotment routing table: a multi-level trie for longest-prefix match.
//!
//! Every table of the trie embeds a complete binary heap in an array. A
//! route is handed down ("allotted") to every slot below its own that no
//! longer route has taken, so that a lookup reads one slot per table.
//!
//! The tables and the routes of a [`ArtRoot`] live in two arenas; a slot
//! names a table or a route by its place there. The operations are stated
//! over a mathematical model of the arenas, [`model::Art`]:
//!
//! - `prefix`, `field`, `heap`, `table`: prefixes, the index arithmetic and
//!   one table;
//! - `model`, `descent`, `walk`: the model, and what insertion, deletion,
//!   lookup and traversal are on it;
//! - `allot`, `root`, `iter`: the executable table;
//! - `placement`, `shape`, `home`, `grow`: where routes stand, and what the
//!   steps of an operation change;
//! - `exact`, `emits`, `count`, `effect`, `batch`, `empty`: the exact-match
//!   content of a table is a map from prefixes to routes, and a traversal
//!   yields each of its routes once;
//! - `fresh`, `sound`, `full`, `longest`: a lookup finds only stored routes
//!   that cover the query, and the longest of them in a full table, which
//!   insertions keep full.

pub mod prefix;
pub mod field;
pub mod heap;
pub mod table;

pub mod model;
pub mod descent;
pub mod walk;

pub mod allot;
pub mod root;
pub mod iter;

pub mod placement;
pub mod shape;
pub mod home;
pub mod grow;

pub mod exact;
pub mod emits;
pub mod count;
pub mod effect;
pub mod batch;
pub mod empty;

pub mod fresh;
pub mod sound;
pub mod full;
pub mod longest;

pub use crate::allot::art_allot;
pub use crate::iter::ArtIter;
pub use crate::prefix::{Prefix, RawPrefix};
pub use crate::root::{ArtNode, ArtRoot};
pub use crate::table::{art_bindex, art_findex, ArtEntry, ArtTable};
