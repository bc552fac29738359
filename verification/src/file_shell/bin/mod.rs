pub mod cd;
pub mod cat;
pub mod check;
pub mod cp;
pub mod debug;
pub mod ls;
pub mod mkdir;
pub mod rm;
pub mod touch;
pub mod write;
