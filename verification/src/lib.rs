//! Gröbner bases over prime fields: exact polynomial arithmetic under a
//! budget, the field kernel of the F4 engine, and the certificate emitter.

pub mod arithmetic;
pub mod cert;
pub mod certificate;
pub mod compute;
pub mod exact;
pub mod field;
pub mod ideal;
pub mod monomial;
pub mod poly;
pub mod product;
pub mod verify;
