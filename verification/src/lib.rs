pub mod clause_audio;
pub mod cli;
pub mod egui;
pub mod excerpts;
pub mod mp3s;
pub mod text;
