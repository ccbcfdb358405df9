//! The saving stage: what a finished pipeline hands to the writer.

use vstd::prelude::*;
use vstd::view::View as _;
use crate::raster::{RasterImage, View};

verus! {

/// The saving stage, with the destination path.
pub struct Save {
    pub path: String,
}

impl Save {
    pub fn new(path: String) -> (r: Save)
        ensures
            r.path@ == path@,
    {
        Save { path }
    }

    /// The raster to write: the single layer that joining leaves; `None` when
    /// the view does not hold exactly one layer.
    pub fn output<'a>(&self, view: &'a View) -> (r: Option<&'a RasterImage>)
        ensures
            r is Some <==> view.layers@.len() == 1,
            r matches Some(img) ==> *img == view.layers@[0].image,
    {
        if view.layers.len() == 1 {
            Some(&view.layers[0].image)
        } else {
            None
        }
    }
}

} // verus!
