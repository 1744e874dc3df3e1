//! Layout of one virtual address space: a sorted catalog of non-overlapping
//! regions, each backed by a shared data source, with first-fit and
//! fixed-address placement and removal.

pub mod address_space;
