//! Verified scraping logic for the Wenku8 light-novel library.
pub mod chapters;
pub mod consts;
pub mod details;
pub mod encode;
pub mod filters;
pub mod home;
pub mod listing;
pub mod mewx;
pub mod net;
pub mod model;
pub mod number;
pub mod source;
pub mod text;
pub mod util;
