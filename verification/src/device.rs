//! Decisions about where the model runs and where libtorch comes from.

use vstd::prelude::*;

verus! {

/// The device a loaded model is recorded as running on.
#[derive(Clone, Copy, Debug, PartialEq, Eq, Structural)]
pub enum YOLODevice {
    Cpu,
    Gpu,
}

/// The kind of torch device a model was loaded on.
#[derive(Clone, Copy, Debug, PartialEq, Eq, Structural)]
pub enum TorchDevice {
    Cpu,
    Cuda,
    Other,
}

/// How the loader records the device: a model on CUDA and a model on the
/// CPU are both recorded as `Gpu`; other devices are not supported.
pub fn yolo_device(d: TorchDevice) -> (r: YOLODevice)
    requires
        d != TorchDevice::Other,
    ensures
        r == YOLODevice::Gpu,
{
    match d {
        TorchDevice::Cuda => YOLODevice::Gpu,
        TorchDevice::Cpu => YOLODevice::Gpu,
        TorchDevice::Other => YOLODevice::Gpu,
    }
}

/// The path of the CUDA library of a libtorch installation.
pub fn torch_cuda_dll_path(libtorch: &str) -> (r: String)
    ensures
        r@ == libtorch@ + "\\lib\\torch_cuda.dll"@,
{
    let mut r = String::from_str(libtorch);
    r.append("\\lib\\torch_cuda.dll");
    r
}

/// What the loader does to pick the device.
#[derive(Clone, Copy, Debug, PartialEq, Eq, Structural)]
pub enum DeviceStep {
    /// Load the model on the CPU.
    UseCpu,
    /// Load the CUDA library, then use CUDA where it is available.
    LoadCuda,
    /// CUDA was asked for and its library is missing: stop.
    Abort,
}

/// The device decision: the CPU unless CUDA is asked for, and then CUDA only
/// where its library is present.
pub fn device_step(cuda: bool, cuda_dll_present: bool) -> (r: DeviceStep)
    ensures
        !cuda ==> r == DeviceStep::UseCpu,
        cuda && cuda_dll_present ==> r == DeviceStep::LoadCuda,
        cuda && !cuda_dll_present ==> r == DeviceStep::Abort,
{
    if !cuda {
        DeviceStep::UseCpu
    } else if cuda_dll_present {
        DeviceStep::LoadCuda
    } else {
        DeviceStep::Abort
    }
}

/// Where the launcher takes libtorch from.
#[derive(Clone, Copy, Debug, PartialEq, Eq, Structural)]
pub enum LibtorchSource {
    /// `LIBTORCH` is set: use it as it is.
    Environment,
    /// A `libtorch` directory is in the working directory: point the
    /// environment at it.
    LocalDirectory,
    /// Neither: download and unpack libtorch, then point the environment at it.
    Download,
}

/// The launcher's choice of libtorch.
pub fn libtorch_source(env_set: bool, local_dir_exists: bool) -> (r: LibtorchSource)
    ensures
        env_set ==> r == LibtorchSource::Environment,
        !env_set && local_dir_exists ==> r == LibtorchSource::LocalDirectory,
        !env_set && !local_dir_exists ==> r == LibtorchSource::Download,
{
    if env_set {
        LibtorchSource::Environment
    } else if local_dir_exists {
        LibtorchSource::LocalDirectory
    } else {
        LibtorchSource::Download
    }
}

} // verus!
