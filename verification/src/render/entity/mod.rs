pub mod comosition;
pub mod component;
pub mod connection;
pub mod port;
pub mod grouping;
pub mod layout;
