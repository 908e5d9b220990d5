//! Knowledge rooms of tiles with dependencies, status and confidence.
//!
//! The verified core: parsing and rendering the markdown tile format,
//! the queries a room answers about its tiles (failures, frontier, gaps,
//! what to work on next), the shape of the dependency graph, and the
//! bookkeeping of a knowledge base of rooms.
pub mod text;
pub mod tile;
pub mod room;
pub mod knowledge_base;
