use nn::adapter::{adapter_note, AdapterNote};
use nn::autograd::{ParamId, ParamIdCounter};
use nn::layers::{fan, join_path};
use nn::bench::{escape, machine_json};

#[test]
fn param_ids_count_up_from_one() {
    let mut c = ParamIdCounter::new();
    let a = ParamId::new(&mut c);
    let b = ParamId::new(&mut c);
    let d = ParamId::new(&mut c);
    assert_eq!(a, ParamId(1));
    assert_eq!(b, ParamId(2));
    assert_eq!(d, ParamId(3));
    assert_ne!(a, b);
}

#[test]
fn fan_of_weight_and_vector() {
    assert_eq!(fan(&[4, 3]), (3, 4));
    assert_eq!(fan(&[5]), (5, 5));
}

#[test]
fn join_path_with_and_without_suffix() {
    assert_eq!(join_path("0", "weight"), "0.weight");
    assert_eq!(join_path("layer", ""), "layer");
    assert_eq!(join_path("", "bias"), ".bias");
}

#[test]
fn escape_writes_json_string_contents() {
    assert_eq!(escape(r#"a"b"#), r#"a\"b"#);
    assert_eq!(escape(r"a\b"), r"a\\b");
    assert_eq!(escape("plain [2, 3]"), "plain [2, 3]");
    assert_eq!(escape("l1\nl2\tx\r"), r"l1\nl2\tx\r");
    assert_eq!(escape("\u{1}\u{1f}"), r"\u0001\u001f");
    assert_eq!(escape("é\"ß"), "é\\\"ß");
    assert_eq!(escape(""), "");
}

#[test]
fn machine_json_object() {
    let with_gpu = machine_json("Linux 6.1", "6.1.0", "Intel \"X\"", 8, 16, 32189, Some(("RTX", 12227)));
    assert_eq!(
        with_gpu,
        r#"{"os":"Linux 6.1","kernel":"6.1.0","cpu_brand":"Intel \"X\"","cpu_cores_physical":8,"cpu_cores_logical":16,"ram_total_mb":32189,"gpu":{"available":true,"name":"RTX","vram_total_mb":12227}}"#
    );
    let without = machine_json("?", "?", "?", 0, 0, 0, None);
    assert_eq!(
        without,
        r#"{"os":"?","kernel":"?","cpu_brand":"?","cpu_cores_physical":0,"cpu_cores_logical":0,"ram_total_mb":0,"gpu":{"available":false}}"#
    );
}

#[test]
fn adapter_notes() {
    assert_eq!(adapter_note(0x8086, true), AdapterNote::IntegratedWarning);
    assert_eq!(adapter_note(0x10DE, true), AdapterNote::NvidiaConfirmed);
    assert_eq!(adapter_note(0x10DE, false), AdapterNote::NvidiaConfirmed);
    assert_eq!(adapter_note(0x1002, false), AdapterNote::Nothing);
}
