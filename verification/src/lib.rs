//! An in-process entity-component data store: a generational entity
//! registry, a runtime borrow-checked resource cell, masked component
//! storages with a bitset-driven join algebra, a deferred-update queue,
//! and a dependency-aware task-graph builder.

pub mod bit;
pub mod cell;
pub mod dispatcher;
pub mod entities;
pub mod entity;
pub mod error;
pub mod join;
pub mod lazy;
pub mod mask;
pub mod resource;
pub mod split;
pub mod storage;

pub use bit::{bit_average, bit_average_u32, bit_average_u64, BitIter, BitProducer};
pub use cell::{Cell, Ref, RefMut};
pub use dispatcher::Builder;
pub use entities::Entities;
pub use entity::{Entity, Generation, Index};
pub use error::Error;
pub use join::JoinIter;
pub use lazy::LazyQueue;
pub use mask::Mask;
pub use resource::ResourceId;
pub use split::Split;
pub use storage::{
    AnyStorage, BTreeStorage, Component, DenseVecStorage, DistinctStorage, HashMapStorage,
    MaskedStorage, Storage, StorageWrapper, TryDefault, VecStorage,
};
