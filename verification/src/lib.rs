//! Encoding and decoding of the LDAP Simple Paged Results control value
//! (object identifier 1.2.840.113556.1.4.319): a BER SEQUENCE holding a page
//! size INTEGER and an opaque cookie OCTET STRING.

pub mod ber;
pub mod paged;

pub use paged::Control;
pub use paged::DecodeError;
pub use paged::PagedResults;
pub use paged::PAGED_RESULTS_OID;
