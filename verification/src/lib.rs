pub mod node;
pub mod arena;
pub mod parent_dir;
pub mod shape;
pub mod splay;
pub mod expose;
pub mod link;
pub mod cut;
pub mod path_query;
pub mod select;
pub mod query;

