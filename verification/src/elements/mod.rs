pub mod relative;
