pub mod relation_type;
