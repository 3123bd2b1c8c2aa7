pub mod pathtype;
