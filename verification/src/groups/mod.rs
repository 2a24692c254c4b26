pub mod class_group;
pub mod rsa_group;
pub mod rsa_order;

pub use rsa_group::RsaGroup;
