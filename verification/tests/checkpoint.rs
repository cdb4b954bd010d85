use nn::checkpoint::{load_bytes, save_bytes, CheckpointError, ParamRecord};

fn record(path: &str, shape: &[usize], vals: &[f32]) -> ParamRecord {
    ParamRecord {
        path: path.to_string(),
        shape: shape.to_vec(),
        bits: vals.iter().map(|v| v.to_bits()).collect(),
    }
}

fn zeroed(path: &str, shape: &[usize], n: usize) -> ParamRecord {
    ParamRecord { path: path.to_string(), shape: shape.to_vec(), bits: vec![0; n] }
}

fn model() -> Vec<ParamRecord> {
    vec![
        record("0.weight", &[2, 2], &[1.0, -2.5, 3.25, 4.0]),
        record("0.bias", &[2], &[0.5, -0.125]),
    ]
}

fn with_header(header: &str, data: &[u8]) -> Vec<u8> {
    let mut out = (header.len() as u32).to_le_bytes().to_vec();
    out.extend_from_slice(header.as_bytes());
    out.extend_from_slice(data);
    out
}

#[test]
fn save_writes_length_manifest_and_data() {
    let bytes = save_bytes(&model());
    let header = r#"{"version":1,"params":[{"path":"0.weight","shape":[2,2],"offset":0,"len":4},{"path":"0.bias","shape":[2],"offset":16,"len":2}]}"#;
    assert_eq!(&bytes[0..4], &(header.len() as u32).to_le_bytes());
    assert_eq!(&bytes[4..4 + header.len()], header.as_bytes());
    let data = &bytes[4 + header.len()..];
    assert_eq!(data.len(), 6 * 4);
    assert_eq!(&data[0..4], &1.0f32.to_le_bytes());
    assert_eq!(&data[20..24], &(-0.125f32).to_le_bytes());
}

#[test]
fn save_of_no_params() {
    let bytes = save_bytes(&Vec::new());
    let header = r#"{"version":1,"params":[]}"#;
    assert_eq!(bytes, with_header(header, &[]));
}

#[test]
fn checkpoint_round_trip() {
    let saved = model();
    let bytes = save_bytes(&saved);
    let mut fresh = vec![zeroed("0.weight", &[2, 2], 4), zeroed("0.bias", &[2], 2)];
    assert!(load_bytes(&mut fresh, &bytes).is_ok());
    for (a, b) in saved.iter().zip(fresh.iter()) {
        assert_eq!(a.path, b.path);
        assert_eq!(a.shape, b.shape);
        assert_eq!(a.bits, b.bits);
    }
}

#[test]
fn load_finds_entries_by_path_in_any_order() {
    let bytes = save_bytes(&model());
    let mut fresh = vec![zeroed("0.bias", &[2], 2), zeroed("0.weight", &[2, 2], 4)];
    assert!(load_bytes(&mut fresh, &bytes).is_ok());
    assert_eq!(fresh[0].bits, vec![0.5f32.to_bits(), (-0.125f32).to_bits()]);
    assert_eq!(fresh[1].bits[3], 4.0f32.to_bits());
}

#[test]
fn load_tolerates_whitespace_in_manifest() {
    let header = " { \"version\" : 1 ,\n \"params\" : [ { \"len\" : 1 , \"path\" : \"w\" , \"offset\" : 0 , \"shape\" : [ 1 ] } ] } ";
    let bytes = with_header(header, &7.0f32.to_le_bytes());
    let mut target = vec![zeroed("w", &[1], 1)];
    assert!(load_bytes(&mut target, &bytes).is_ok());
    assert_eq!(target[0].bits, vec![7.0f32.to_bits()]);
}

#[test]
fn load_short_input_is_truncated() {
    let mut target = vec![zeroed("w", &[1], 1)];
    assert!(matches!(load_bytes(&mut target, &[1, 0]), Err(CheckpointError::Truncated)));
    let bytes = with_header("{}", &[]);
    assert!(matches!(load_bytes(&mut target, &bytes[..5]), Err(CheckpointError::Truncated)));
}

#[test]
fn load_missing_data_is_truncated() {
    let mut bytes = save_bytes(&model());
    bytes.truncate(bytes.len() - 4);
    let mut fresh = vec![zeroed("0.weight", &[2, 2], 4), zeroed("0.bias", &[2], 2)];
    assert!(matches!(load_bytes(&mut fresh, &bytes), Err(CheckpointError::Truncated)));
    // The weight that came before the short one was already written.
    assert_eq!(fresh[0].bits[0], 1.0f32.to_bits());
}

#[test]
fn load_invalid_utf8_header_is_bad_header() {
    let mut bytes = vec![2, 0, 0, 0, 0xff, 0xfe];
    bytes.extend_from_slice(&[0; 4]);
    let mut target = vec![zeroed("w", &[1], 1)];
    assert!(matches!(load_bytes(&mut target, &bytes), Err(CheckpointError::BadHeader(_))));
}

#[test]
fn load_malformed_manifest_is_bad_header() {
    let mut target = vec![zeroed("w", &[1], 1)];
    for header in [
        r#"{"params":[]}"#,
        r#"{"version":1,"params":[{"path":"w","shape":[1],"offset":0,"len":1,"dtype":3}]}"#,
        r#"{"version":1,"params":[{"path":"w","shape":[1],"offset":0,"len":1}"#,
        r#"{"version":x,"params":[]}"#,
        r#"{"version":1,"params":[{"path":"w","shape":[1 2],"offset":0,"len":1}]}"#,
    ] {
        let bytes = with_header(header, &[0; 4]);
        assert!(
            matches!(load_bytes(&mut target, &bytes), Err(CheckpointError::BadHeader(_))),
            "{header}"
        );
    }
    assert_eq!(target[0].bits, vec![0]);
}

#[test]
fn load_rejects_a_manifest_outside_the_written_form() {
    let mut target = vec![zeroed("w", &[1], 1)];
    for header in [
        r#"{"version":1,"params":[{"path":"w","shape":[1],"offset":0,"len":1}]"#,
        r#"{"version":1,"params":[{"path":"w","shape":[1],"offset":0,"len":1}]}x"#,
        r#"{"version":1,"params":[{"path":"w","shape":[1],"len":1}]}"#,
        r#"{"version":1,"params":[{"path":"w","shape":[1],"offset":0,"len":1,"path":"w"}]}"#,
    ] {
        let bytes = with_header(header, &[0; 4]);
        assert!(
            matches!(load_bytes(&mut target, &bytes), Err(CheckpointError::BadHeader(_))),
            "{header}"
        );
    }
    assert_eq!(target[0].bits, vec![0]);
}

#[test]
fn load_unknown_param() {
    let bytes = save_bytes(&model());
    let mut target = vec![zeroed("0.weight", &[2, 2], 4), zeroed("1.bias", &[2], 2)];
    match load_bytes(&mut target, &bytes) {
        Err(CheckpointError::UnknownParam(p)) => assert_eq!(p, "1.bias"),
        other => panic!("unexpected {other:?}"),
    }
}

#[test]
fn load_shape_mismatch_reports_both_shapes() {
    let bytes = save_bytes(&model());
    let mut target = vec![zeroed("0.weight", &[4, 1], 4), zeroed("0.bias", &[2], 2)];
    match load_bytes(&mut target, &bytes) {
        Err(CheckpointError::ShapeMismatch { path, want, got }) => {
            assert_eq!(path, "0.weight");
            assert_eq!(want, vec![4, 1]);
            assert_eq!(got, vec![2, 2]);
        }
        other => panic!("unexpected {other:?}"),
    }
    assert_eq!(target[0].bits, vec![0; 4]);
}

#[test]
fn load_extra_entries_are_ignored() {
    let bytes = save_bytes(&model());
    let mut target = vec![zeroed("0.bias", &[2], 2)];
    assert!(load_bytes(&mut target, &bytes).is_ok());
    assert_eq!(target[0].bits[0], 0.5f32.to_bits());
}

#[test]
fn overrun_detects_entries_longer_than_their_parameter() {
    let bytes = save_bytes(&model());
    let fresh = vec![zeroed("0.weight", &[2, 2], 4), zeroed("0.bias", &[2], 2)];
    assert!(!nn::checkpoint::load_overruns(&fresh, &bytes));
    // The manifest says 4 values but the parameter only holds 3.
    let short = vec![zeroed("0.weight", &[2, 2], 3)];
    assert!(nn::checkpoint::load_overruns(&short, &bytes));
    // An error before the long entry is reached wins.
    let unknown_first = vec![zeroed("x", &[1], 1), zeroed("0.weight", &[2, 2], 3)];
    assert!(!nn::checkpoint::load_overruns(&unknown_first, &bytes));
    // A byte range whose end overflows the address arithmetic.
    let header = format!(
        r#"{{"version":1,"params":[{{"path":"w","shape":[1],"offset":{},"len":1}}]}}"#,
        usize::MAX - 2
    );
    let huge = with_header(&header, &[0; 4]);
    assert!(nn::checkpoint::load_overruns(&vec![zeroed("w", &[1], 1)], &huge));
}

#[test]
fn manifest_offsets_are_byte_offsets() {
    // A [16, 2] weight then a [16] bias: the bias starts 32 values = 128 bytes in.
    let w: Vec<f32> = (0..32).map(|k| k as f32).collect();
    let b: Vec<f32> = (0..16).map(|k| -(k as f32)).collect();
    let bytes = save_bytes(&vec![record("0.weight", &[16, 2], &w), record("0.bias", &[16], &b)]);
    let header = r#"{"version":1,"params":[{"path":"0.weight","shape":[16,2],"offset":0,"len":32},{"path":"0.bias","shape":[16],"offset":128,"len":16}]}"#;
    assert_eq!(&bytes[4..4 + header.len()], header.as_bytes());
    let data = &bytes[4 + header.len()..];
    assert_eq!(&data[128..132], &(-0.0f32).to_le_bytes());
    assert_eq!(&data[132..136], &(-1.0f32).to_le_bytes());
}

#[test]
fn load_reads_values_at_the_byte_offset() {
    // Two values stored after four padding bytes: offset 4 selects them.
    let header = r#"{"version":1,"params":[{"path":"w","shape":[2],"offset":4,"len":2}]}"#;
    let mut data = vec![0xaa; 4];
    data.extend_from_slice(&1.5f32.to_le_bytes());
    data.extend_from_slice(&2.5f32.to_le_bytes());
    let bytes = with_header(header, &data);
    let mut target = vec![zeroed("w", &[2], 2)];
    assert!(load_bytes(&mut target, &bytes).is_ok());
    assert_eq!(target[0].bits, vec![1.5f32.to_bits(), 2.5f32.to_bits()]);
}
