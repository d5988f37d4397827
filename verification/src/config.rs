//! The configuration of the segmenter and the choice of its backend.
use crate::error::{config_error, Error};
use crate::number::{one, Number};
use crate::single::Single;
use vstd::arithmetic::power2::{lemma2_to64, lemma_pow2_adds, pow2};
use vstd::prelude::*;

verus! {

/// Where inference should run.
#[derive(Debug, Clone, Copy, PartialEq, Eq, Structural)]
pub enum DevicePreference {
    /// The fastest device at hand, with a fallback to slower ones.
    Auto,
    Cpu,
    Mps,
}

/// The precision in which inference should run.
#[derive(Debug, Clone, Copy, PartialEq, Eq, Structural)]
pub enum PrecisionPreference {
    /// Half precision on the accelerator, single precision on the CPU.
    Auto,
    F32,
    F16,
}

/// A device of LibTorch.
#[derive(Debug, Clone, Copy, PartialEq, Eq, Structural)]
pub enum Device {
    Cpu,
    Mps,
}

/// A number format of LibTorch.
#[derive(Debug, Clone, Copy, PartialEq, Eq, Structural)]
pub enum Kind {
    Float,
    Half,
}

/// A device together with the precision that is used on it.
#[derive(Debug, Clone, Copy, PartialEq, Eq, Structural)]
pub enum Backend {
    CpuF32,
    MpsF32,
    MpsF16,
}

/// The settings of the segmenter.
#[derive(Debug, Clone, Copy)]
pub struct Yolo26Config {
    pub input_width: u32,
    pub input_height: u32,
    pub confidence_threshold: Single,
    pub mask_threshold: Single,
    pub device: DevicePreference,
    pub precision: PrecisionPreference,
}

impl Default for Yolo26Config {
    /// A square input of 640 pixels, a confidence of at least 0.25, a mask
    /// threshold of 0.5, and the fastest backend at hand.
    fn default() -> (config: Self)
        ensures
            config.input_width == 640,
            config.input_height == 640,
            config.confidence_threshold.bits == 0x3e80_0000,
            config.mask_threshold.bits == 0x3f00_0000,
            config.device == DevicePreference::Auto,
            config.precision == PrecisionPreference::Auto,
            config_fault(config) is None,
    {
        proof {
            lemma2_to64();
            lemma_pow2_adds(23, 1049);
            lemma_pow2_adds(23, 1050);
            lemma_pow2_adds(2, 1072);
            lemma_pow2_adds(1, 1073);
            assert(0x3e80_0000u32 / 0x80_0000 == 125);
            assert(0x3e80_0000u32 % 0x80_0000 == 0);
            assert(0x3f00_0000u32 / 0x80_0000 == 126);
            assert(0x3f00_0000u32 % 0x80_0000 == 0);
        }
        Yolo26Config {
            input_width: 640,
            input_height: 640,
            confidence_threshold: Single { bits: 0x3e80_0000 },
            mask_threshold: Single { bits: 0x3f00_0000 },
            device: DevicePreference::Auto,
            precision: PrecisionPreference::Auto,
        }
    }
}

impl Backend {
    pub open spec fn device_spec(self) -> Device {
        match self {
            Backend::CpuF32 => Device::Cpu,
            Backend::MpsF32 | Backend::MpsF16 => Device::Mps,
        }
    }

    pub open spec fn kind_spec(self) -> Kind {
        match self {
            Backend::MpsF16 => Kind::Half,
            Backend::CpuF32 | Backend::MpsF32 => Kind::Float,
        }
    }

    /// The device on which the backend runs.
    pub fn device(self) -> (device: Device)
        ensures
            device == self.device_spec(),
    {
        match self {
            Backend::CpuF32 => Device::Cpu,
            Backend::MpsF32 | Backend::MpsF16 => Device::Mps,
        }
    }

    /// The number format in which the backend computes.
    pub fn kind(self) -> (kind: Kind)
        ensures
            kind == self.kind_spec(),
    {
        match self {
            Backend::MpsF16 => Kind::Half,
            Backend::CpuF32 | Backend::MpsF32 => Kind::Float,
        }
    }

    pub open spec fn name_spec(self) -> Seq<char> {
        match self {
            Backend::CpuF32 => "cpu-f32"@,
            Backend::MpsF32 => "mps-f32"@,
            Backend::MpsF16 => "mps-f16"@,
        }
    }

    /// The name under which the backend is shown.
    pub fn name(self) -> (name: &'static str)
        ensures
            name@ == self.name_spec(),
    {
        match self {
            Backend::CpuF32 => "cpu-f32",
            Backend::MpsF32 => "mps-f32",
            Backend::MpsF16 => "mps-f16",
        }
    }
}

/// Whether a number lies between 0 and 1, both included.
pub open spec fn in_unit_interval(number: Number) -> bool {
    number is Finite && 0 <= number.signed() <= one()
}

proof fn lemma_single_one(bits: u32)
    requires
        bits == 0x3f80_0000,
    ensures
        (Single { bits })@ == (Number::Finite { negative: false, units: one() }),
{
    lemma2_to64();
    lemma_pow2_adds(23, 1051);
    assert(0x3f80_0000u32 / 0x80_0000 == 127);
    assert(0x3f80_0000u32 % 0x80_0000 == 0);
}

/// Whether a setting lies between 0 and 1.
fn is_unit(value: Single) -> (unit: bool)
    ensures
        unit == in_unit_interval(value@),
{
    let zero: Single = Single { bits: 0 };
    let one: Single = Single { bits: 0x3f80_0000 };
    proof {
        lemma_single_one(one.bits);
        assert(0 * pow2(925) == 0) by (nonlinear_arith);
        assert(zero@ == (Number::Finite { negative: false, units: 0 }));
    }
    value.is_finite() && !value.below(zero) && !one.below(value)
}

/// What is wrong with a configuration, if anything; of several faults the first.
pub open spec fn config_fault(config: Yolo26Config) -> Option<Seq<char>> {
    if config.input_width == 0 || config.input_height == 0 {
        Some("input dimensions must be positive"@)
    } else if !in_unit_interval(config.confidence_threshold@) {
        Some("confidence threshold must be between 0 and 1"@)
    } else if !in_unit_interval(config.mask_threshold@) {
        Some("mask threshold must be between 0 and 1"@)
    } else if config.device == DevicePreference::Cpu && config.precision
        == PrecisionPreference::F16 {
        Some("FP16 is only supported by the MPS backend in this application"@)
    } else {
        None
    }
}

/// Checks that a configuration can be used.
pub fn validate_config(config: &Yolo26Config) -> (result: Result<(), Error>)
    ensures
        match config_fault(*config) {
            None => result == Ok::<(), Error>(()),
            Some(fault) => result matches Err(Error::Config(text)) && text@ == fault,
        },
        result is Ok <==> {
            &&& config.input_width > 0
            &&& config.input_height > 0
            &&& is_share(config.confidence_threshold@)
            &&& is_share(config.mask_threshold@)
            &&& !(config.device is Cpu && config.precision is F16)
        },
        config.input_width == 0 || config.input_height == 0 ==> (result matches Err(Error::Config(
            text,
        )) && text@ == "input dimensions must be positive"@),
        config.input_width > 0 && config.input_height > 0 && !is_share(
            config.confidence_threshold@,
        ) ==> (result matches Err(Error::Config(text)) && text@
            == "confidence threshold must be between 0 and 1"@),
        config.input_width > 0 && config.input_height > 0 && is_share(config.confidence_threshold@)
            && !is_share(config.mask_threshold@) ==> (result matches Err(Error::Config(text))
            && text@ == "mask threshold must be between 0 and 1"@),
        config.input_width > 0 && config.input_height > 0 && is_share(config.confidence_threshold@)
            && is_share(config.mask_threshold@) && config.device is Cpu && config.precision is F16
            ==> (result matches Err(Error::Config(text)) && text@
            == "FP16 is only supported by the MPS backend in this application"@),
{
    if config.input_width == 0 || config.input_height == 0 {
        return Err(config_error("input dimensions must be positive"));
    }
    if !is_unit(config.confidence_threshold) {
        return Err(config_error("confidence threshold must be between 0 and 1"));
    }
    if !is_unit(config.mask_threshold) {
        return Err(config_error("mask threshold must be between 0 and 1"));
    }
    if config.device == DevicePreference::Cpu && config.precision == PrecisionPreference::F16 {
        return Err(
            config_error("FP16 is only supported by the MPS backend in this application"),
        );
    }
    Ok(())
}

/// The backend for these preferences; none where MPS is demanded and missing.
pub open spec fn preferred_backend(
    device: DevicePreference,
    precision: PrecisionPreference,
    mps_available: bool,
) -> Option<Backend> {
    if device == DevicePreference::Cpu {
        Some(Backend::CpuF32)
    } else if mps_available {
        Some(
            if precision == PrecisionPreference::F32 {
                Backend::MpsF32
            } else {
                Backend::MpsF16
            },
        )
    } else if device == DevicePreference::Auto {
        Some(Backend::CpuF32)
    } else {
        None
    }
}

/// Picks the backend, where `mps_available` tells whether LibTorch has MPS.
pub fn choose_backend(
    device: DevicePreference,
    precision: PrecisionPreference,
    mps_available: bool,
) -> (result: Result<Backend, Error>)
    ensures
        match preferred_backend(device, precision, mps_available) {
            Some(backend) => result == Ok::<Backend, Error>(backend),
            None => result matches Err(Error::Config(text)) && text@
                == "MPS was requested but this LibTorch build has no MPS backend"@,
        },
        device is Cpu ==> result == Ok::<Backend, Error>(Backend::CpuF32),
        device is Auto && !mps_available ==> result == Ok::<Backend, Error>(Backend::CpuF32),
        device is Mps && !mps_available ==> result is Err,
        !(device is Cpu) && mps_available && precision is F32 ==> result == Ok::<Backend, Error>(
            Backend::MpsF32,
        ),
        !(device is Cpu) && mps_available && !(precision is F32) ==> result == Ok::<Backend, Error>(
            Backend::MpsF16,
        ),
{
    match device {
        DevicePreference::Cpu => Ok(Backend::CpuF32),
        DevicePreference::Mps => {
            if !mps_available {
                return Err(
                    config_error("MPS was requested but this LibTorch build has no MPS backend"),
                );
            }
            match precision {
                PrecisionPreference::F32 => Ok(Backend::MpsF32),
                PrecisionPreference::Auto | PrecisionPreference::F16 => Ok(Backend::MpsF16),
            }
        },
        DevicePreference::Auto => {
            if !mps_available {
                return Ok(Backend::CpuF32);
            }
            match precision {
                PrecisionPreference::F32 => Ok(Backend::MpsF32),
                PrecisionPreference::Auto | PrecisionPreference::F16 => Ok(Backend::MpsF16),
            }
        },
    }
}

/// Half precision is never used on the CPU, and is what MPS uses unless single
/// precision was asked for.
pub proof fn law_precision_follows_device(
    device: DevicePreference,
    precision: PrecisionPreference,
    mps_available: bool,
)
    ensures
        preferred_backend(device, precision, mps_available) matches Some(backend) ==> {
            &&& backend.device_spec() == Device::Cpu ==> backend.kind_spec() == Kind::Float
            &&& backend.device_spec() == Device::Mps ==> (backend.kind_spec() == Kind::Float
                <==> precision == PrecisionPreference::F32)
            &&& backend.device_spec() == Device::Mps <==> mps_available && device
                != DevicePreference::Cpu
        },
{
}

/// The number lies between 0 and 1, both included.
pub open spec fn is_share(number: Number) -> bool {
    number matches Number::Finite { negative, units } && (units == 0 || (!negative && units <= pow2(
        1074,
    )))
}

/// Settings are accepted exactly where both sides of the input are positive, both
/// thresholds lie between 0 and 1, and half precision is not asked for on the CPU.
pub proof fn law_settings_accepted(config: Yolo26Config)
    ensures
        config_fault(config) is None <==> {
            &&& config.input_width > 0
            &&& config.input_height > 0
            &&& is_share(config.confidence_threshold@)
            &&& is_share(config.mask_threshold@)
            &&& !(config.device is Cpu && config.precision is F16)
        },
{
}

/// Whatever the device, settings with positive sides and thresholds in range are
/// accepted unless half precision is asked for by name.
pub proof fn law_other_precisions_accepted(config: Yolo26Config)
    requires
        config.input_width > 0,
        config.input_height > 0,
        is_share(config.confidence_threshold@),
        is_share(config.mask_threshold@),
        config.precision is Auto || config.precision is F32,
    ensures
        config_fault(config) is None,
{
}

/// Neither the size of the input, as long as it is positive, nor the precision on
/// other devices than the CPU has a say in whether settings are accepted.
pub proof fn law_acceptance_ignores_size(config: Yolo26Config, width: u32, height: u32)
    requires
        config.input_width > 0,
        config.input_height > 0,
        width > 0,
        height > 0,
    ensures
        config_fault(config) == config_fault(
            Yolo26Config { input_width: width, input_height: height, ..config },
        ),
{
}

/// A backend is found unless MPS is asked for by name and missing. It is on MPS
/// exactly where MPS is there and the CPU was not asked for, and it computes in half
/// precision exactly where it is on MPS and single precision was not asked for.
pub proof fn law_backend_of_preferences(
    device: DevicePreference,
    precision: PrecisionPreference,
    mps_available: bool,
)
    ensures
        preferred_backend(device, precision, mps_available) is None <==> device is Mps
            && !mps_available,
        preferred_backend(device, precision, mps_available) matches Some(backend) ==> {
            &&& (backend is MpsF16 || backend is MpsF32) <==> mps_available && !(device is Cpu)
            &&& backend is MpsF16 <==> mps_available && !(device is Cpu) && !(precision is F32)
        },
{
}

} // verus!
