use vstd::prelude::*;

verus! {

/// A failure reported by a device, such as a texture it could not create.
#[derive(Debug)]
pub struct DrawingError {
    pub message: String,
}

/// A texture that a device backend owns.
pub trait Texture: Sized {
    /// Width and height in pixels.
    fn get_size(&self) -> (u16, u16);

    /// Replaces the pixels of the sub-rectangle at `(offset_x, offset_y)` of size
    /// `width` x `height` with `memory`.
    fn update(
        &mut self,
        memory: &[u8],
        offset_x: u16,
        offset_y: u16,
        width: u16,
        height: u16,
    ) -> Result<(), DrawingError>;
}

} // verus!
