use vstd::prelude::*;

verus! {

/// The ways a filter pass or a buffer allocation can fail.
///
/// A failed pass yields no usable output stream; the caller decides whether
/// to retry from the beginning or to discard the whole operation.
#[derive(Clone, Copy, Debug, PartialEq, Eq, Structural)]
pub enum FilterError {
    /// A raster buffer could not be created with the requested shape.
    AllocationFailure,
    /// A malformed operator sequence was met while `sanitize` was disabled.
    StructuralError,
    /// A form invocation cycle was met while recursing into forms.
    CycleDetected,
    /// A caller-supplied hook failed; carries the hook's error payload.
    HookFailure(u32),
    /// A referenced form resource could not be resolved to a body.
    ResourceResolutionFailure,
}

} // verus!
