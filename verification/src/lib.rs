//! Disjoint sets over the elements `0..n`, in two classic forms.
//!
//! [`quickfind::QuickFind`] keeps one tag per element, so a query is one
//! comparison and a union relabels the whole table.
//! [`quickunion::QuickUnion`] keeps a forest of parent links, so a union is one
//! write and a query climbs two trees.
//!
//! Both are described by the same model, a sequence of labels with one entry
//! per element ([`partition`]); the forest behind the second form is described
//! in [`forest`], and [`agreement`] sets the two side by side.

pub mod partition;
pub mod forest;
pub mod quickfind;
pub mod quickunion;
pub mod agreement;
