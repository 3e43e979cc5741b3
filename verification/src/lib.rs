//! The selection and visibility engine behind a collapsible tree of changed
//! files, with the small rules by which diff lines are sorted into kinds and
//! a popup is centred.

pub mod components;
pub mod git_utils;
pub mod strings;
