pub mod text;
pub mod json;
pub mod ui;
pub mod x;
pub mod cookies;
pub mod digest;
pub mod llm;
pub mod store;
