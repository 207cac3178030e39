//! Uniform data shared by the GUI's shaders.

use crate::math::Vec2u;
use vstd::prelude::*;

verus! {

/// Viewport uniform passed as push constant to GUI materials that do
/// pixel→NDC conversion in the vertex shader.
#[derive(Clone, Copy, Debug, Default, PartialEq, Eq, Structural)]
pub struct ViewportParams {
    /// Framebuffer size in physical pixels.
    pub fb_size: Vec2u,
}

impl ViewportParams {
    /// The uniform for a framebuffer of `fb_size` physical pixels.
    pub fn new(fb_size: Vec2u) -> (r: Self)
        ensures
            r.fb_size == fb_size,
    {
        ViewportParams { fb_size }
    }
}

} // verus!
