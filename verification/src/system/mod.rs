pub mod growth;
pub mod numeric;
pub mod path;
