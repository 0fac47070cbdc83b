//! What can end a detection call.

use vstd::prelude::*;

verus! {

/// Which part of an encoded image could not be read.
#[derive(Clone, Copy, Debug, PartialEq, Eq, Structural)]
pub enum DecodeFault {
    /// The text is not base64.
    Base64,
    /// The bytes are not an image.
    Image,
}

/// Why a crop rectangle was refused.
#[derive(Clone, Copy, Debug, PartialEq, Eq, Structural)]
pub enum CropFault {
    /// The requested width or height is zero.
    ZeroSize,
    /// Nothing of the rectangle lies inside the image.
    OutsideImage,
}

/// The ways a detection call fails. Each ends the call; none is retried.
#[derive(Clone, Copy, Debug, PartialEq, Eq, Structural)]
pub enum DetectError {
    /// The encoded image is malformed.
    Decode(DecodeFault),
    /// The crop has no area inside the image.
    InvalidCrop(CropFault),
    /// The model asks for no input channel.
    Channel,
    /// No directory holds both the model and its configuration.
    ModelNotFound,
    /// The configuration does not have the expected fields.
    ConfigParse,
    /// The engine could not load the model.
    ModelLoad,
    /// The engine failed while running the model.
    Inference,
    /// The output is not a grid of rank four that matches its data.
    Shape,
}

/// A fault of decoding together with what the decoder said of it.
#[derive(Debug)]
pub struct DecodeFailure {
    pub fault: DecodeFault,
    /// The decoder's own words.
    pub detail: String,
}

impl DecodeFailure {
    /// The error that the failure is.
    pub open spec fn error(&self) -> DetectError {
        DetectError::Decode(self.fault)
    }

    /// The error that the failure is.
    pub fn kind(&self) -> (e: DetectError)
        ensures
            e == self.error(),
    {
        DetectError::Decode(self.fault)
    }

    /// The error's message, a colon and the decoder's words.
    pub fn message(&self) -> (r: String)
        ensures
            r@ == self.error().text() + ": "@ + self.detail@,
    {
        let mut text = String::from_str(self.kind().message());
        text.append(": ");
        text.append(self.detail.as_str());
        text
    }
}

impl DetectError {
    /// What `message` returns for the error.
    pub open spec fn text(self) -> Seq<char> {
        match self {
            DetectError::Decode(DecodeFault::Base64) => "Failed to decode image data"@,
            DetectError::Decode(DecodeFault::Image) => "Failed to parse PNG"@,
            DetectError::InvalidCrop(CropFault::ZeroSize) => "Crop width/height must be > 0"@,
            DetectError::InvalidCrop(CropFault::OutsideImage) => "Crop is outside image bounds"@,
            DetectError::Channel => "Model expects at least one input channel"@,
            DetectError::ModelNotFound =>
                "Unable to find model files; expected model.onnx and model.config.json"@,
            DetectError::ConfigParse => "Config parse error"@,
            DetectError::ModelLoad => "Failed to load model"@,
            DetectError::Inference => "Inference failed"@,
            DetectError::Shape => "Unexpected output shape"@,
        }
    }

    /// A sentence for the caller.
    pub fn message(&self) -> (r: &'static str)
        ensures
            r@ == self.text(),
    {
        match self {
            DetectError::Decode(DecodeFault::Base64) => "Failed to decode image data",
            DetectError::Decode(DecodeFault::Image) => "Failed to parse PNG",
            DetectError::InvalidCrop(CropFault::ZeroSize) => "Crop width/height must be > 0",
            DetectError::InvalidCrop(CropFault::OutsideImage) => "Crop is outside image bounds",
            DetectError::Channel => "Model expects at least one input channel",
            DetectError::ModelNotFound =>
                "Unable to find model files; expected model.onnx and model.config.json",
            DetectError::ConfigParse => "Config parse error",
            DetectError::ModelLoad => "Failed to load model",
            DetectError::Inference => "Inference failed",
            DetectError::Shape => "Unexpected output shape",
        }
    }
}

} // verus!
