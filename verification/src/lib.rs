pub mod text;
pub mod constraint;
pub mod router;
pub mod matching;
pub mod overlap;
pub mod routes;
pub mod render;
