pub mod columns;
pub mod compat;
pub mod markdown;
