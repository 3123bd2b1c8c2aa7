pub mod id_generator;
