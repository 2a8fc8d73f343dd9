use waybar_widgets::resources::{
    format_info, memory_percent, parse_device, parse_gpu_info, Device, GpuReadError,
};

#[test]
fn devices_by_name() {
    assert_eq!(parse_device("CPU"), Some(Device::CPU));
    assert_eq!(parse_device("GPU"), Some(Device::GPU));
    assert_eq!(parse_device("cpu"), None);
}

#[test]
fn cpu_line_with_spacer() {
    assert_eq!(
        format_info(&Device::CPU, 5, 45, 30),
        "{ \"text\": \"\u{f4bc}\u{2009} <b>5%</b>  45\u{b0}C\u{200a}<b>|</b>\u{200a}30%\u{2009}\u{2004}\u{efc5}\u{2004}\", \"tooltip\": \"\", \"class\": \"\" } "
    );
}

#[test]
fn gpu_line_without_spacer() {
    assert_eq!(
        format_info(&Device::GPU, 10, -3, 100),
        "{ \"text\": \"\u{f08ae}\u{2009} <b>10%</b> -3\u{b0}C\u{200a}<b>|</b>\u{200a}100%\u{2009}\u{2004}\u{efc5}\u{2004}\", \"tooltip\": \"\", \"class\": \"\" } "
    );
}

#[test]
fn memory_percent_rounds_toward_zero() {
    assert_eq!(memory_percent(512, 1024), 50);
    assert_eq!(memory_percent(1, 3), 33);
    assert_eq!(memory_percent(0, 7), 0);
    assert_eq!(memory_percent(16_000_000_000, 32_000_000_000), 50);
    // `u64::MAX as i64` is -1.
    assert_eq!(memory_percent(5, u64::MAX), -500);
}

#[test]
fn gpu_readings() {
    assert_eq!(parse_gpu_info("\"12\"\n\"34\""), Ok((12, 34)));
    assert_eq!(parse_gpu_info("7\n 8 "), Ok((7, 8)));
    assert_eq!(parse_gpu_info("1\n2\n3"), Ok((1, 2)));
}

#[test]
fn gpu_errors() {
    assert_eq!(parse_gpu_info("12"), Err(GpuReadError::TooFewValues));
    assert_eq!(parse_gpu_info("12\nabc"), Err(GpuReadError::NotAnInteger));
    assert_eq!(parse_gpu_info(""), Err(GpuReadError::NotAnInteger));
    assert_eq!(parse_gpu_info("1\n2\nx"), Err(GpuReadError::NotAnInteger));
}

#[test]
fn resource_line_is_one_line() {
    for (u, t, m) in [(0, 0, 0), (9, 100, 5), (i32::MIN, i32::MAX, -1)] {
        assert!(!format_info(&Device::CPU, u, t, m).contains('\n'));
        assert!(!format_info(&Device::GPU, u, t, m).contains('\n'));
    }
}
