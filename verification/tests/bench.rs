use nn::bench::{parse_args, results_json};

fn args(words: &[&str]) -> Vec<String> {
    words.iter().map(|w| w.to_string()).collect()
}

#[test]
fn parse_args_defaults_when_no_flags() {
    let (label, out) = parse_args(&args(&["prog"]), "local", "results/run.json");
    assert_eq!(label, "local");
    assert_eq!(out, "results/run.json");
}

#[test]
fn parse_args_reads_label_and_out() {
    let (label, out) =
        parse_args(&args(&["prog", "--out", "x.json", "--label", "ci"]), "local", "r.json");
    assert_eq!(label, "ci");
    assert_eq!(out, "x.json");
}

#[test]
fn parse_args_skips_unknown_words_and_dangling_flags() {
    let (label, out) = parse_args(&args(&["prog", "-v", "--label"]), "d", "o");
    assert_eq!((label.as_str(), out.as_str()), ("d", "o"));
    let (label2, _) = parse_args(&args(&["prog", "--label", "a", "--label", "b"]), "d", "o");
    assert_eq!(label2, "b");
    // The program name itself is never read as a flag.
    let (label3, _) = parse_args(&args(&["--label", "x"]), "d", "o");
    assert_eq!(label3, "d");
}

#[test]
fn results_document_layout() {
    let runs = vec![r#"{"op":"a"}"#.to_string(), r#"{"op":"b"}"#.to_string()];
    let doc = results_json("nn \"s\"", 1700000000, "default", "x86_64", r#"{"os":"x"}"#, &runs);
    let expected = [
        "{\n",
        "  \"schema\": 2,\n",
        "  \"label\": \"nn \\\"s\\\"\",\n",
        "  \"metadata\": {\n",
        "    \"timestamp\": 1700000000,\n",
        "    \"features\": \"default\",\n",
        "    \"arch\": \"x86_64\"\n",
        "  },\n",
        "  \"machine\": {\"os\":\"x\"},\n",
        "  \"runs\": [\n",
        "    {\"op\":\"a\"},\n",
        "    {\"op\":\"b\"}\n",
        "  ]\n",
        "}\n",
    ]
    .concat();
    assert_eq!(doc, expected);
    let empty = results_json("l", 0, "f", "a", "{}", &Vec::new());
    assert!(empty.ends_with("  \"runs\": [\n  ]\n}\n"));
}
