pub mod sentences;
