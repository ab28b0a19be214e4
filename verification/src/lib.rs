//! Entity-component storage and GPU batch bookkeeping: the data structures of the
//! tearchan engine, with their contracts proved by Verus.

pub mod component;
pub mod group;
pub mod buffer;
pub mod zip;
pub mod entity;
pub mod bitmap;
pub mod image;
pub mod registry;
pub mod horde;
pub mod object_manager;
