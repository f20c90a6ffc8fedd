//! Path clean-up and archive building for a browser folder zipper, together with
//! the plain-value logic of two small companion web apps.

pub mod text;
pub mod paths;
pub mod archive;
pub mod labels;
pub mod orbit;
pub mod stars;
