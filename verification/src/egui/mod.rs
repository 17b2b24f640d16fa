pub mod cycle;
pub mod hello;
pub mod page2;
pub mod select_word;
