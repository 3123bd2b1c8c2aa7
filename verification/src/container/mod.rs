pub mod undirected;
