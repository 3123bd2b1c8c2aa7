pub mod factor;
pub mod numeric;
