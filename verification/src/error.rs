use vstd::prelude::*;

verus! {

/// Why a transform refused its arguments. A refused call leaves every buffer
/// as it found it.
#[derive(Clone, Copy, Debug, PartialEq, Eq, Structural)]
pub enum KernelError {
    /// A region named by the arguments does not lie inside the buffer it
    /// addresses.
    OutOfBounds,
    /// The arguments describe no transform at all, such as an empty glyph set
    /// with pixels to map.
    InvalidArgument,
}

} // verus!
