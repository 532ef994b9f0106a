//! A JSON document shown as a collapsible tree: the projection of a value
//! into addressed nodes, and the navigation state that a viewer keeps over
//! them.

pub mod address;
pub mod event;
pub mod navigation;
pub mod node;
pub mod project;
pub mod rows;
pub mod state;
pub mod value;
