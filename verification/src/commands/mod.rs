pub mod init;
pub mod list;
pub mod new;
pub mod query;
pub mod switch;
