//! Dot detection and distance lookup for a laser-triangulation rangefinder.
//!
//! A laser projects a dot into the view of a camera. Where the dot shows on
//! a horizontal scan line of the picture tells how far away the surface is
//! that it falls on.
//!
//! - [`color`] sorts averaged pixels into white, red and other.
//! - [`bucket`] holds a region of the scan line while it is assembled.
//! - [`cluster`] joins the blocks of a scan line into regions of one colour.
//! - [`locate`] picks the region that shows the dot.
//! - [`scan`] goes from the bytes of a picture to the dot on its scan line.
//! - [`lookup`] is the calibration table from a position to a distance.
//! - [`calibration`] reads the text that the table is made from.

pub mod bucket;
pub mod calibration;
pub mod cluster;
pub mod color;
pub mod locate;
pub mod lookup;
pub mod scan;
