pub mod index_object;
pub mod path_network;
pub mod undirected;
