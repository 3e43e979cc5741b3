pub mod filetree;
pub mod statustree;
