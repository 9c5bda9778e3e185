use yolo_binding::cli::{run, ArgState};
use yolo_binding::device::{
    device_step, libtorch_source, torch_cuda_dll_path, yolo_device, DeviceStep, LibtorchSource,
    TorchDevice, YOLODevice,
};
use yolo_binding::legacy::pick_class;

fn words(ws: &[&str]) -> Vec<String> {
    ws.iter().map(|w| w.to_string()).collect()
}

#[test]
fn run_file_mode() {
    let a = run(&words(&["yolo", "m.jit", "-p", "in.png", "out.png"])).unwrap();
    assert_eq!(a.state, ArgState::FileInput);
    assert_eq!(a.model_path, "m.jit");
    assert_eq!(a.input, "in.png");
    assert_eq!(a.output, "out.png");
    assert_eq!(a.confidence, None);
    assert_eq!(a.threshold, None);
}

#[test]
fn run_dir_mode_with_options() {
    let a = run(&words(&["yolo", "m.jit", "-d", "imgs", "out", "-C", "0.6", "-C", "0.4"])).unwrap();
    assert_eq!(a.state, ArgState::DirInput);
    assert_eq!(a.confidence.as_deref(), Some("0.4"));
    assert_eq!(a.threshold, None);
    let b = run(&words(&["yolo", "m.jit", "-d", "imgs", "out", "-T", "0.6", "-C", "0.3"])).unwrap();
    assert_eq!(b.confidence.as_deref(), Some("0.3"));
    assert_eq!(b.threshold.as_deref(), Some("0.6"));
}

#[test]
fn run_errors() {
    let usage = "Usage: yolo [model_path] [-p input_image_path output_image_path | -d input_dir_path output_dir_path] < [-C confidence] [-T threshold] >";
    assert_eq!(run(&words(&["yolo", "m", "-p", "i"])).unwrap_err(), usage);
    assert_eq!(
        run(&words(&["yolo", "m", "-p", "i", "o", "-C", "1", "-T", "2", "x"])).unwrap_err(),
        usage
    );
    assert_eq!(run(&words(&["yolo", "m", "-p", "i", "o", "-C"])).unwrap_err(), "Missing value for -C");
    assert_eq!(run(&words(&["yolo", "m", "-p", "i", "o", "-T"])).unwrap_err(), "Missing value for -T");
    assert_eq!(run(&words(&["yolo", "m", "-p", "i", "o", "-X", "1"])).unwrap_err(), "Unknown argument: -X");
    assert_eq!(
        run(&words(&["yolo", "m", "-q", "i", "o"])).unwrap_err(),
        "Invalid option. Use -p for image paths or -d for directory paths."
    );
    // Options are read before the mode.
    assert_eq!(run(&words(&["yolo", "m", "-q", "i", "o", "-Z"])).unwrap_err(), "Unknown argument: -Z");
}

#[test]
fn device_decisions() {
    assert_eq!(yolo_device(TorchDevice::Cpu), YOLODevice::Gpu);
    assert_eq!(yolo_device(TorchDevice::Cuda), YOLODevice::Gpu);
    assert_eq!(torch_cuda_dll_path(r"C:\libtorch"), r"C:\libtorch\lib\torch_cuda.dll");
    assert_eq!(device_step(false, false), DeviceStep::UseCpu);
    assert_eq!(device_step(true, true), DeviceStep::LoadCuda);
    assert_eq!(device_step(true, false), DeviceStep::Abort);
    assert_eq!(libtorch_source(true, false), LibtorchSource::Environment);
    assert_eq!(libtorch_source(false, true), LibtorchSource::LocalDirectory);
    assert_eq!(libtorch_source(false, false), LibtorchSource::Download);
}

#[test]
fn pick_class_first_strongest() {
    assert_eq!(pick_class(&vec![3, 7, 7, 2], 0, 5), Some((1, 7)));
    assert_eq!(pick_class(&vec![3, 7, 7, 2], 0, 7), None);
    assert_eq!(pick_class(&vec![1, 1], 1, 0), Some((-4, 1)));
    assert_eq!(pick_class(&vec![], 4, 9), None);
}
