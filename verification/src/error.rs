//! Requests that the device cannot serve.

use vstd::prelude::*;

verus! {

/// Why a request to the device is refused.
#[derive(Clone, Copy, Debug, PartialEq, Eq, Structural)]
pub enum DeviceError {
    NoBootFrames,
    TooManyBootFrames,
    EmptyBootFrame,
    BootJpegTooLarge,
    BootContainerTooLarge,
    EmptyStandby,
    StandbyTooLarge,
    EmptyBootContainer,
    BootDelayTooShort,
    BrightnessOutOfRange,
    InvalidTemperature,
    NoResponse,
    ControlNotFound,
    ImageNotFound,
}

impl DeviceError {
    /// The text shown for an error.
    pub open spec fn text(self) -> Seq<char> {
        match self {
            DeviceError::NoBootFrames => "boot GIF has no frames"@,
            DeviceError::TooManyBootFrames => "boot GIF has more than 255 frames"@,
            DeviceError::EmptyBootFrame => "boot GIF has an empty frame"@,
            DeviceError::BootJpegTooLarge => "boot JPEG is too large"@,
            DeviceError::BootContainerTooLarge => "boot container is too large"@,
            DeviceError::EmptyStandby => "standby JPEG is empty"@,
            DeviceError::StandbyTooLarge => "standby JPEG is too large"@,
            DeviceError::EmptyBootContainer => "boot container is empty"@,
            DeviceError::BootDelayTooShort => "boot frame delay must be at least 80 ms"@,
            DeviceError::BrightnessOutOfRange => "brightness must be between 0 and 100"@,
            DeviceError::InvalidTemperature => "invalid liquid-temperature response"@,
            DeviceError::NoResponse => "device did not respond"@,
            DeviceError::ControlNotFound => "TH420 control interface not found (VID 264A PID 233C)"@,
            DeviceError::ImageNotFound => "TH420 image interface not found"@,
        }
    }

    /// The text shown for this error.
    pub fn message(self) -> (res: &'static str)
        ensures
            res@ == self.text(),
    {
        match self {
            DeviceError::NoBootFrames => "boot GIF has no frames",
            DeviceError::TooManyBootFrames => "boot GIF has more than 255 frames",
            DeviceError::EmptyBootFrame => "boot GIF has an empty frame",
            DeviceError::BootJpegTooLarge => "boot JPEG is too large",
            DeviceError::BootContainerTooLarge => "boot container is too large",
            DeviceError::EmptyStandby => "standby JPEG is empty",
            DeviceError::StandbyTooLarge => "standby JPEG is too large",
            DeviceError::EmptyBootContainer => "boot container is empty",
            DeviceError::BootDelayTooShort => "boot frame delay must be at least 80 ms",
            DeviceError::BrightnessOutOfRange => "brightness must be between 0 and 100",
            DeviceError::InvalidTemperature => "invalid liquid-temperature response",
            DeviceError::NoResponse => "device did not respond",
            DeviceError::ControlNotFound => "TH420 control interface not found (VID 264A PID 233C)",
            DeviceError::ImageNotFound => "TH420 image interface not found",
        }
    }
}

} // verus!
