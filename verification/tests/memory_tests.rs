use rsrs::memory::{
    event_line, format_bytes, kib_field, matrix_bytes, memory_trace_enabled, parse_kib,
    process_memory_usage, trace_delta_bytes, trace_growth_due, trace_line, ProcessMemoryUsage,
};

fn float_format(bytes: u64) -> String {
    const KIB: f64 = 1024.0;
    const MIB: f64 = 1024.0 * 1024.0;
    const GIB: f64 = 1024.0 * 1024.0 * 1024.0;
    let bytes_f64 = bytes as f64;
    if bytes_f64 >= GIB {
        format!("{:.2} GiB", bytes_f64 / GIB)
    } else if bytes_f64 >= MIB {
        format!("{:.2} MiB", bytes_f64 / MIB)
    } else if bytes_f64 >= KIB {
        format!("{:.2} KiB", bytes_f64 / KIB)
    } else {
        format!("{bytes} B")
    }
}

#[test]
fn format_bytes_units() {
    assert_eq!(format_bytes(0), "0 B");
    assert_eq!(format_bytes(1023), "1023 B");
    assert_eq!(format_bytes(1024), "1.00 KiB");
    assert_eq!(format_bytes(1536), "1.50 KiB");
    assert_eq!(format_bytes(1024 * 1024), "1.00 MiB");
    assert_eq!(format_bytes(3 * 1024 * 1024 * 1024), "3.00 GiB");
    assert_eq!(format_bytes(1048575), "1024.00 KiB");
}

#[test]
fn format_bytes_matches_float_formatting() {
    let mut values: Vec<u64> = vec![
        1, 9, 10, 999, 1000, 1023, 1024, 1025, 1029, 1030, 1034, 1035, 2047, 2048, 5 * 1024 + 5,
        1179648, 3 * 131072, 9 * 131072, 11 * 131072, 1073741823, 1073741824, 1073741825,
        (1u64 << 53) - 1, 1u64 << 53, (1u64 << 53) + 1, (1u64 << 53) + 3, (1u64 << 60) + 12345,
        u64::MAX, u64::MAX - 1, u64::MAX / 3, 1u64 << 63,
    ];
    for k in 0..64u32 {
        values.push(1u64 << k);
        values.push((1u64 << k).wrapping_mul(3) / 2);
        values.push((1u64 << k) * 5 / 4 + 7);
    }
    let mut x: u64 = 0x9e3779b97f4a7c15;
    for _ in 0..20000 {
        x ^= x << 13;
        x ^= x >> 7;
        x ^= x << 17;
        values.push(x >> (x % 64));
    }
    for h in 0..5000u64 {
        // sizes whose scaled value is a whole number of thousandths ending in 5
        values.push(h * 1024 + 5 * 1024 / 1000);
        values.push(h * 131072 / 10);
        values.push(h * 1048576 + 1048576 / 8);
    }
    for v in values {
        assert_eq!(format_bytes(v), float_format(v), "bytes = {v}");
    }
}

#[test]
fn matrix_bytes_counts_entries() {
    assert_eq!(matrix_bytes(3, 4, 8), 96);
    assert_eq!(matrix_bytes(0, 4, 8), 0);
    assert_eq!(matrix_bytes(1000, 1000, 16), 16_000_000);
}

const STATUS: &str = "Name:\tbash\nVmPeak:\t  10000 kB\nVmHWM:\t    2048 kB\nVmRSS:\t    1536 kB\nThreads:\t1\n";

#[test]
fn parse_kib_reads_status_fields() {
    assert_eq!(parse_kib(STATUS, "VmRSS:"), Some(1536 * 1024));
    assert_eq!(parse_kib(STATUS, "VmHWM:"), Some(2048 * 1024));
    assert_eq!(parse_kib(STATUS, "VmSwap:"), None);
    assert_eq!(kib_field(STATUS, "Threads:"), Some(1));
}

#[test]
fn parse_kib_skips_lines_without_a_number() {
    let text = "VmRSS: unknown kB\r\nVmRSS:\t+42 kB\r\n";
    assert_eq!(parse_kib(text, "VmRSS:"), Some(42 * 1024));
    assert_eq!(parse_kib("VmRSS:\n", "VmRSS:"), None);
    assert_eq!(parse_kib("VmRSS: -5 kB", "VmRSS:"), None);
    assert_eq!(parse_kib("VmRSS: 18446744073709551616 kB\nVmRSS: 7", "VmRSS:"), Some(7 * 1024));
    assert_eq!(parse_kib("", "VmRSS:"), None);
    assert_eq!(parse_kib("  VmRSS: 3", "VmRSS:"), None);
    assert_eq!(parse_kib("VmRSS:\u{3000}12\u{a0}kB", "VmRSS:"), Some(12 * 1024));
    assert_eq!(parse_kib("VmRSS:12kB", "VmRSS:"), None);
    assert_eq!(parse_kib("VmRSS: 12\rkB", "VmRSS:"), Some(12 * 1024));
}

#[test]
fn process_memory_usage_from_status() {
    let usage = process_memory_usage(STATUS);
    assert_eq!(usage.resident_bytes, Some(1536 * 1024));
    assert_eq!(usage.peak_resident_bytes, Some(2048 * 1024));
    let empty = process_memory_usage("");
    assert_eq!(empty.resident_bytes, None);
    assert_eq!(empty.peak_resident_bytes, None);
}

#[test]
fn trace_settings() {
    assert!(!memory_trace_enabled(None));
    assert!(!memory_trace_enabled(Some("0")));
    assert!(memory_trace_enabled(Some("1")));
    assert!(memory_trace_enabled(Some("00")));
    assert!(memory_trace_enabled(Some("")));
    assert_eq!(trace_delta_bytes(None), 4 * 1024 * 1024);
    assert_eq!(trace_delta_bytes(Some("16")), 16 * 1024 * 1024);
    assert_eq!(trace_delta_bytes(Some("x")), 4 * 1024 * 1024);
    assert_eq!(trace_delta_bytes(Some(" 16")), 4 * 1024 * 1024);
}

#[test]
fn trace_growth_due_on_first_and_large_growth() {
    assert!(trace_growth_due(0, 5, 100));
    assert!(!trace_growth_due(1000, 1050, 100));
    assert!(trace_growth_due(1000, 1100, 100));
    assert!(!trace_growth_due(1000, 900, 0));
    assert!(trace_growth_due(1000, 1000, 0));
    assert!(!trace_growth_due(u64::MAX - 1, u64::MAX - 1, 100));
    assert!(trace_growth_due(u64::MAX - 1, u64::MAX, 100));
}

#[test]
fn report_lines() {
    assert_eq!(
        trace_line("step", 2048, Some(1024 * 1024), Some(512)),
        "Memory trace [step]: rss = 2.00 KiB, peak = 1.00 MiB, est tmp ~= 512 B"
    );
    assert_eq!(
        trace_line("step", 2048, None, None),
        "Memory trace [step]: rss = 2.00 KiB, peak = unavailable"
    );
    let usage = ProcessMemoryUsage {
        resident_bytes: None,
        peak_resident_bytes: Some(3 * 1024 * 1024 * 1024),
    };
    assert_eq!(
        event_line("lu", usage, None),
        "Memory event [lu]: rss = unavailable, peak = 3.00 GiB"
    );
    assert_eq!(
        event_line("lu", usage, Some(1536)),
        "Memory event [lu]: rss = unavailable, peak = 3.00 GiB, est tmp ~= 1.50 KiB"
    );
}
