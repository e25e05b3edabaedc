pub mod login;
pub mod status;
