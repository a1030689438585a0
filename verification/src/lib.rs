pub mod text;
pub mod paths;
pub mod path_laws;
pub mod order;
pub mod context;
pub mod error;
pub mod mappings;
pub mod ops;
pub mod steps;
pub mod dotsymize;
pub mod links_back;
pub mod filter;
pub mod dangling;
pub mod cli;
pub mod commands;
