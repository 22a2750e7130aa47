pub mod coordinates;
pub mod text;
pub mod knowledge;
pub mod vault;
pub mod conversation;
pub mod data;
pub mod history;
pub mod edits;
pub mod streaming;
pub mod protocol;
pub mod change_tracking;
pub mod layers;
pub mod brush;
pub mod features;
pub mod terrain;
pub mod editor;
pub mod bridge;
pub mod workspace;
pub mod persistence;
pub mod status;
pub mod panels;
