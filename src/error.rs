use vstd::prelude::*;

verus! {

/// The message of a failed image load.
pub open spec fn load_failed_msg() -> Seq<char> {
    "Failed to load image"@
}

/// The message of a failed render.
pub open spec fn blur_failed_msg() -> Seq<char> {
    "Failed to blur image"@
}

/// An error of loading a scene or of rendering it, with a message for the
/// caller.
#[derive(Clone, Debug)]
pub struct ImageHandlingError {
    pub msg: String,
}

impl ImageHandlingError {
    /// The error reported when the source image cannot be decoded.
    pub fn load_failed() -> (r: ImageHandlingError)
        ensures
            r.msg@ == load_failed_msg(),
    {
        ImageHandlingError { msg: "Failed to load image".to_owned() }
    }

    /// The error reported when a render cannot produce its output.
    pub fn blur_failed() -> (r: ImageHandlingError)
        ensures
            r.msg@ == blur_failed_msg(),
    {
        ImageHandlingError { msg: "Failed to blur image".to_owned() }
    }

    /// The error's message.
    pub fn message(&self) -> (r: String)
        ensures
            r@ == self.msg@,
    {
        self.msg.clone()
    }
}

} // verus!
