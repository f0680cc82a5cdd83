pub mod text;
pub mod replace;
pub mod order;
pub mod placeholders;
pub mod tags;
pub mod index;
pub mod pages;
pub mod command;
