//! Tests of hex dumps.

use netdump::format::{format_hex, format_hex_ascii, hex_bytes_per_line};

#[test]
fn test_format_hex_16() {
    let data = (0u8..32).collect::<Vec<_>>();
    let s = format_hex(&data, 16);
    let lines: Vec<&str> = s.lines().collect();
    assert_eq!(lines.len(), 2);
    assert!(lines[0].starts_with("    0000:"));
    assert!(lines[1].starts_with("    0010:"));
    assert!(lines[0].len() > 55 && lines[0].len() < 65);
}

#[test]
fn test_format_hex_32() {
    let data = (0u8..64).collect::<Vec<_>>();
    let s = format_hex(&data, 32);
    let lines: Vec<&str> = s.lines().collect();
    assert_eq!(lines.len(), 2);
    assert!(lines[0].len() > 100 && lines[0].len() < 115);
}

#[test]
fn test_format_hex_partial_last_line() {
    let data = (0u8..40).collect::<Vec<_>>();
    let s = format_hex(&data, 32);
    let lines: Vec<&str> = s.lines().collect();
    assert_eq!(lines.len(), 2);
    // Second line has only 8 bytes
    assert!(lines[1].starts_with("    0020:"));
}

#[test]
fn test_format_hex_ascii_32() {
    let data = (0u8..64).collect::<Vec<_>>();
    let s = format_hex_ascii(&data, 32);
    let lines: Vec<&str> = s.lines().collect();
    assert_eq!(lines.len(), 2);
    assert!(lines[0].len() > 130 && lines[0].len() < 150);
}

#[test]
fn test_hex_bytes_per_line() {
    assert_eq!(hex_bytes_per_line(80), 16);
    assert_eq!(hex_bytes_per_line(140), 32);
    assert_eq!(hex_bytes_per_line(200), 48);
    // Clamp to 64 max
    assert_eq!(hex_bytes_per_line(500), 64);
}
