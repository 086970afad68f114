//! Tests for value buffers, text rendering, the round trip between
//! rendering and parsing, and the variable-store computations.

use uvt::data::ArgOperation;
use uvt::data::OperationTarget;
use uvt::data::OperationType;
use uvt::data::UefiValue;
use uvt::parse::parse_operation;
use uvt::store::apply_write;
use uvt::store::image_base_name;
use uvt::store::read_slice;

fn chars(s: &str) -> Vec<char> {
    s.chars().collect()
}

fn text(v: &[char]) -> String {
    v.iter().collect()
}

#[test]
fn value_buffer_is_little_endian() {
    assert_eq!(UefiValue::from_usize(0x01020304, 4).0, vec![0x04, 0x03, 0x02, 0x01]);
    assert_eq!(UefiValue::from_usize(0xff, 1).0, vec![0xff]);
    assert_eq!(UefiValue::from_usize(0, 2).0, vec![0, 0]);
}

#[test]
fn value_buffer_keeps_only_the_low_bytes() {
    assert_eq!(UefiValue::from_usize(0x1ff, 1).0, vec![0xff]);
}

#[test]
fn value_renders_with_two_digits_per_byte() {
    let v = UefiValue(vec![0x04, 0x03, 0x02, 0x01]);
    assert_eq!(text(&v.to_string_with_size(4)), "0x01020304");
    let v = UefiValue(vec![0x05]);
    assert_eq!(text(&v.to_string_with_size(1)), "0x05");
    let v = UefiValue(vec![0x00, 0x00]);
    assert_eq!(text(&v.to_string_with_size(2)), "0x0000");
}

#[test]
fn operation_renders_with_its_value() {
    let op = ArgOperation {
        action: OperationType::Write(0x01020304),
        target: OperationTarget { id: None, name: chars("Lang"), offset: 0, size: 4 },
    };
    let v = UefiValue::from_usize(0x01020304, 4);
    assert_eq!(text(&op.to_string_with_val(&v)), "Lang:0x0000(4)=0x01020304");

    let op = ArgOperation {
        action: OperationType::Get,
        target: OperationTarget { id: Some(2), name: chars("Lang"), offset: 0x12, size: 1 },
    };
    let v = UefiValue(vec![0xff]);
    assert_eq!(text(&op.to_string_with_val(&v)), "Lang(2):0x0012=0xff");
}

#[test]
fn rendering_then_parsing_recovers_the_operation() {
    let cases = [
        ArgOperation {
            action: OperationType::Write(0x01020304),
            target: OperationTarget { id: None, name: chars("Lang"), offset: 0, size: 4 },
        },
        ArgOperation {
            action: OperationType::Write(0xff),
            target: OperationTarget { id: Some(3), name: chars("Cfg"), offset: 0x2b, size: 1 },
        },
        ArgOperation {
            action: OperationType::Write(0xffff_ffff_ffff_ffff),
            target: OperationTarget { id: None, name: chars("Big"), offset: 0x1000, size: 8 },
        },
    ];
    for op in cases {
        let value = match op.action {
            OperationType::Write(v) => UefiValue::from_usize(v as usize, op.target.size as usize),
            OperationType::Get => unreachable!(),
        };
        let token = op.to_string_with_val(&value);
        let parsed = parse_operation(&token).unwrap();
        assert_eq!(parsed, op, "token was {:?}", text(&token));
    }
}

#[test]
fn read_slice_extracts_the_addressed_range() {
    let content = vec![1u8, 2, 3, 4];
    assert_eq!(read_slice(&content, 1, 2).unwrap().0, vec![2, 3]);
    assert_eq!(read_slice(&content, 0, 4).unwrap().0, vec![1, 2, 3, 4]);
    assert!(read_slice(&content, 3, 2).is_none());
}

#[test]
fn apply_write_skips_equal_values_unless_forced() {
    let content = vec![1u8, 2, 3, 4];
    let value = UefiValue(vec![2, 3]);
    let (unchanged, written) = apply_write(content.clone(), 1, 2, &value, false).unwrap();
    assert!(!written);
    assert_eq!(unchanged, content);
    let (same, written) = apply_write(content.clone(), 1, 2, &value, true).unwrap();
    assert!(written);
    assert_eq!(same, content);
}

#[test]
fn apply_write_replaces_differing_values() {
    let content = vec![1u8, 2, 3, 4];
    let value = UefiValue(vec![9, 8]);
    let (new_content, written) = apply_write(content, 1, 2, &value, false).unwrap();
    assert!(written);
    assert_eq!(new_content, vec![1, 9, 8, 4]);
    assert!(apply_write(vec![1u8], 1, 1, &UefiValue(vec![9]), false).is_none());
}

#[test]
fn image_path_trims_to_base_name() {
    assert_eq!(image_base_name(&chars("\\EFI\\Tools\\uvt.efi")), chars("uvt"));
    assert_eq!(image_base_name(&chars("uvt.efi")), chars("uvt"));
    assert_eq!(image_base_name(&chars("uvt")), chars("uvt"));
}
