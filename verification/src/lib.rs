//! Verified core logic of the Rubbl astronomy data-format libraries: FITS
//! header scanning, MIRIAD data-set headers, masks and UV streams, and the
//! small vocabulary types that go with them.

pub mod bytes;
pub mod casatables;
pub mod cli;
pub mod fits;
pub mod io;
pub mod text;
pub mod visdata;
pub mod vk_miriad;
pub mod miriad;
pub mod notify;
pub mod num;
