//! A single-file row store: fixed-size pages on a backing device, a bitmap
//! allocator with a bounded write-back cache, a B-tree index from row
//! identifiers to cell locations, and a record layer that spreads the values of
//! a record over content pages and overflow chains.
//!
//! Every executable function carries a contract over mathematical models
//! (sequences of bytes, maps from page counts to page images, maps from keys
//! to values), and every contract is proved.
//!
//! The modules, from the device upwards:
//!
//! - [`codec`]: big-endian integers in byte buffers;
//! - [`page`], [`device`]: the page and the store of pages;
//! - [`bitmap`], [`manage`], [`room`]: page allocation, the page cache, and
//!   how many pages a store can still hand out;
//! - [`overflow`], [`content`], [`chain`]: the page images of the record
//!   layer, and payloads that go on in overflow chains;
//! - [`btree`], [`removal`]: the index, with [`tree`] and [`shrink`] for what
//!   it means that pages hold a tree, and why the operations keep it one;
//! - [`cells`], [`table`]: records as linked cells, and the table;
//! - [`token`]: a tokenizer for the textual form of queries.

pub mod codec;
pub mod error;
pub mod page;
pub mod device;
pub mod bitmap;
pub mod manage;
pub mod room;
pub mod overflow;
pub mod content;
pub mod chain;
pub mod btree;
pub mod tree;
pub mod shrink;
pub mod removal;
pub mod cells;
pub mod table;
pub mod token;
