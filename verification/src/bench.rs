//! Text handling of the benchmark harness: its command line, JSON string
//! escaping, and the machine object of its JSON report.
use vstd::prelude::*;
use vstd::string::{StrSliceExecFns, StringExecFns};

verus! {

/// The hexadecimal digits, lowest first.
pub open spec fn hex_digits() -> Seq<char> {
    seq!['0', '1', '2', '3', '4', '5', '6', '7', '8', '9', 'a', 'b', 'c', 'd', 'e', 'f']
}

/// Characters that cannot stand as they are inside a JSON string: the
/// double quote, the backslash and the control characters below U+0020.
pub open spec fn needs_escape(c: char) -> bool {
    c == '"' || c == '\\' || (c as u32) < 0x20
}

/// How `c` is written inside a JSON string: `\"`, `\\`, `\n`, `\r`, `\t`,
/// `\u00XX` (lower-case hex) for the other control characters, else `c`.
pub open spec fn escaped_char(c: char) -> Seq<char> {
    if c == '"' {
        seq!['\\', '"']
    } else if c == '\\' {
        seq!['\\', '\\']
    } else if c == '\n' {
        seq!['\\', 'n']
    } else if c == '\r' {
        seq!['\\', 'r']
    } else if c == '\t' {
        seq!['\\', 't']
    } else if (c as u32) < 0x20 {
        seq![
            '\\',
            'u',
            '0',
            '0',
            hex_digits()[((c as u32) / 16) as int],
            hex_digits()[((c as u32) % 16) as int],
        ]
    } else {
        seq![c]
    }
}

/// `s` written as the contents of a JSON string: every character in turn,
/// escaped as `escaped_char` says.
pub open spec fn json_escaped(s: Seq<char>) -> Seq<char>
    decreases s.len(),
{
    if s.len() == 0 {
        seq![]
    } else {
        json_escaped(s.drop_last()) + escaped_char(s.last())
    }
}

/// The escape sequence of a character that needs one.
fn escape_sequence(c: char) -> (r: String)
    requires
        needs_escape(c),
    ensures
        r@ == escaped_char(c),
{
    proof {
        reveal_strlit("\\\"");
        reveal_strlit("\\\\");
        reveal_strlit("\\n");
        reveal_strlit("\\r");
        reveal_strlit("\\t");
        reveal_strlit("\\u00");
        reveal_strlit("0123456789abcdef");
    }
    if c == '"' {
        "\\\"".to_owned()
    } else if c == '\\' {
        "\\\\".to_owned()
    } else if c == '\n' {
        "\\n".to_owned()
    } else if c == '\r' {
        "\\r".to_owned()
    } else if c == '\t' {
        "\\t".to_owned()
    } else {
        let code = c as u32;
        let hex = "0123456789abcdef";
        assert(hex@ =~= hex_digits());
        let hi = (code / 16) as usize;
        let lo = (code % 16) as usize;
        let mut out = "\\u00".to_owned();
        out.append(hex.substring_char(hi, hi + 1));
        out.append(hex.substring_char(lo, lo + 1));
        assert(out@ =~= escaped_char(c));
        out
    }
}

/// `s` written as the contents of a JSON string of the report: double
/// quotes, backslashes and control characters are escaped, so that `s`
/// between double quotes is a JSON string that decodes back to `s`.
pub fn escape(s: &str) -> (r: String)
    ensures
        r@ == json_escaped(s@),
{
    let n = s.unicode_len();
    let mut out = String::new();
    let mut start: usize = 0;
    let mut i: usize = 0;
    proof {
        assert(s@.subrange(0, 0) =~= Seq::<char>::empty());
        assert(out@ + s@.subrange(0, 0) =~= json_escaped(s@.subrange(0, 0)));
    }
    while i < n
        invariant
            n == s@.len(),
            start <= i <= n,
            out@ + s@.subrange(start as int, i as int) == json_escaped(s@.subrange(0, i as int)),
        decreases n - i,
    {
        let c = s.get_char(i);
        proof {
            assert(s@.subrange(0, i + 1).drop_last() =~= s@.subrange(0, i as int));
            assert(s@.subrange(0, i + 1).last() == c);
        }
        if c == '"' || c == '\\' || (c as u32) < 0x20 {
            let piece = s.substring_char(start, i);
            out.append(piece);
            let esc = escape_sequence(c);
            out.append(esc.as_str());
            start = i + 1;
            proof {
                assert(s@.subrange(start as int, i + 1) =~= Seq::<char>::empty());
                assert(out@ + s@.subrange(start as int, i + 1) =~= json_escaped(
                    s@.subrange(0, i + 1),
                ));
            }
        } else {
            proof {
                assert(escaped_char(c) == seq![c]);
                assert(s@.subrange(start as int, i + 1) =~= s@.subrange(
                    start as int,
                    i as int,
                ).push(c));
                assert(out@ + s@.subrange(start as int, i + 1) =~= json_escaped(
                    s@.subrange(0, i + 1),
                ));
            }
        }
        i = i + 1;
    }
    let rest = s.substring_char(start, n);
    out.append(rest);
    proof {
        assert(s@.subrange(0, n as int) =~= s@);
    }
    out
}

/// The views of a list of owned strings.
pub open spec fn arg_views(args: Seq<String>) -> Seq<Seq<char>> {
    args.map_values(|a: String| a@)
}

/// The `(label, out)` pair after scanning `args` from position `i`, with
/// `label` and `out` as the values so far: `--label V` and `--out V` set
/// the value (a later flag wins), a flag without a value after it and any
/// other word are skipped.
pub open spec fn scan_args(args: Seq<Seq<char>>, i: int, label: Seq<char>, out: Seq<char>) -> (
    Seq<char>,
    Seq<char>,
)
    decreases args.len() - i,
{
    if i < 0 || i >= args.len() {
        (label, out)
    } else if args[i] == "--label"@ && i + 1 < args.len() {
        scan_args(args, i + 2, args[i + 1], out)
    } else if args[i] == "--out"@ && i + 1 < args.len() {
        scan_args(args, i + 2, label, args[i + 1])
    } else {
        scan_args(args, i + 1, label, out)
    }
}

/// The run label and the output path from a command line `args` whose
/// first word is the program's name: `--label <v>` and `--out <v>`
/// override the defaults.
pub fn parse_args(args: &Vec<String>, default_label: &str, default_out: &str) -> (r: (
    String,
    String,
))
    ensures
        (r.0@, r.1@) == scan_args(arg_views(args@), 1, default_label@, default_out@),
{
    let ghost views = arg_views(args@);
    let label_flag = "--label".to_owned();
    let out_flag = "--out".to_owned();
    let mut label = default_label.to_owned();
    let mut out = default_out.to_owned();
    let mut i: usize = 1;
    while i < args.len()
        invariant
            views == arg_views(args@),
            label_flag@ == "--label"@,
            out_flag@ == "--out"@,
            1 <= i,
            scan_args(views, 1, default_label@, default_out@) == scan_args(
                views,
                i as int,
                label@,
                out@,
            ),
        decreases args.len() - i,
    {
        assert(views[i as int] == args@[i as int]@);
        if args[i] == label_flag && i + 1 < args.len() {
            assert(views[i + 1] == args@[i + 1]@);
            label = args[i + 1].clone();
            i = i + 2;
        } else if args[i] == out_flag && i + 1 < args.len() {
            assert(views[i + 1] == args@[i + 1]@);
            out = args[i + 1].clone();
            i = i + 2;
        } else {
            i = i + 1;
        }
    }
    (label, out)
}

/// The decimal digits of `n`, most significant first, without leading
/// zeros.
pub open spec fn decimal_text(n: nat) -> Seq<char>
    decreases n,
{
    if n < 10 {
        seq![hex_digits()[n as int]]
    } else {
        decimal_text(n / 10) + seq![hex_digits()[(n % 10) as int]]
    }
}

/// Append the decimal digits of `n` to `out`.
pub(crate) fn push_decimal_text(out: &mut String, n: u64)
    ensures
        final(out)@ == old(out)@ + decimal_text(n as nat),
    decreases n,
{
    if n >= 10 {
        push_decimal_text(out, n / 10);
    }
    let digits = "0123456789abcdef";
    proof {
        reveal_strlit("0123456789abcdef");
    }
    assert(digits@ =~= hex_digits());
    let d = (n % 10) as usize;
    out.append(digits.substring_char(d, d + 1));
    assert(out@ =~= old(out)@ + decimal_text(n as nat));
}

/// The `"gpu"` member of the machine object: the GPU's escaped name and its
/// memory in MiB, or that none is available.
pub open spec fn gpu_json_text(gpu: Option<(Seq<char>, u64)>) -> Seq<char> {
    match gpu {
        Some((name, vram)) => "{\"available\":true,\"name\":\""@ + json_escaped(name)
            + "\",\"vram_total_mb\":"@ + decimal_text(vram as nat) + "}"@,
        None => "{\"available\":false}"@,
    }
}

/// The `"machine"` object of the report: escaped OS, kernel and CPU names,
/// core counts and memory in decimal, and the GPU member.
pub open spec fn machine_json_text(
    os: Seq<char>,
    kernel: Seq<char>,
    cpu_brand: Seq<char>,
    cores_physical: usize,
    cores_logical: usize,
    ram_total_mb: u64,
    gpu: Option<(Seq<char>, u64)>,
) -> Seq<char> {
    "{\"os\":\""@ + json_escaped(os) + "\",\"kernel\":\""@ + json_escaped(kernel)
        + "\",\"cpu_brand\":\""@ + json_escaped(cpu_brand) + "\",\"cpu_cores_physical\":"@
        + decimal_text(cores_physical as nat) + ",\"cpu_cores_logical\":"@ + decimal_text(
        cores_logical as nat,
    ) + ",\"ram_total_mb\":"@ + decimal_text(ram_total_mb as nat) + ",\"gpu\":"@
        + gpu_json_text(gpu) + "}"@
}

/// The views of the GPU description.
pub open spec fn gpu_view(gpu: Option<(&str, u64)>) -> Option<(Seq<char>, u64)> {
    match gpu {
        Some((name, vram)) => Some((name@, vram)),
        None => None,
    }
}

/// The JSON object describing the machine a benchmark ran on.
pub fn machine_json(
    os: &str,
    kernel: &str,
    cpu_brand: &str,
    cores_physical: usize,
    cores_logical: usize,
    ram_total_mb: u64,
    gpu: Option<(&str, u64)>,
) -> (r: String)
    ensures
        r@ == machine_json_text(
            os@,
            kernel@,
            cpu_brand@,
            cores_physical,
            cores_logical,
            ram_total_mb,
            gpu_view(gpu),
        ),
{
    let mut out = "{\"os\":\"".to_owned();
    out.append(escape(os).as_str());
    out.append("\",\"kernel\":\"");
    out.append(escape(kernel).as_str());
    out.append("\",\"cpu_brand\":\"");
    out.append(escape(cpu_brand).as_str());
    out.append("\",\"cpu_cores_physical\":");
    push_decimal_text(&mut out, cores_physical as u64);
    out.append(",\"cpu_cores_logical\":");
    push_decimal_text(&mut out, cores_logical as u64);
    out.append(",\"ram_total_mb\":");
    push_decimal_text(&mut out, ram_total_mb);
    out.append(",\"gpu\":");
    match gpu {
        Some((name, vram)) => {
            out.append("{\"available\":true,\"name\":\"");
            out.append(escape(name).as_str());
            out.append("\",\"vram_total_mb\":");
            push_decimal_text(&mut out, vram);
            out.append("}");
        },
        None => {
            out.append("{\"available\":false}");
        },
    }
    out.append("}");
    out
}

/// The line of run `i` in the report's run list: indented, followed by a
/// comma unless it is the last run.
pub open spec fn run_line(runs: Seq<Seq<char>>, i: int) -> Seq<char> {
    "    "@ + runs[i] + if i + 1 == runs.len() {
        "\n"@
    } else {
        ",\n"@
    }
}

/// The lines of the first `n` runs.
pub open spec fn run_lines(runs: Seq<Seq<char>>, n: int) -> Seq<char>
    decreases n,
{
    if n <= 0 {
        seq![]
    } else {
        run_lines(runs, n - 1) + run_line(runs, n - 1)
    }
}

/// The schema-2 report document: label, metadata (timestamp, features,
/// architecture), the machine object and the run objects, one per line.
pub open spec fn results_json_text(
    label: Seq<char>,
    timestamp: u64,
    features: Seq<char>,
    arch: Seq<char>,
    machine: Seq<char>,
    runs: Seq<Seq<char>>,
) -> Seq<char> {
    "{\n  \"schema\": 2,\n  \"label\": \""@ + json_escaped(label)
        + "\",\n  \"metadata\": {\n    \"timestamp\": "@ + decimal_text(timestamp as nat)
        + ",\n    \"features\": \""@ + json_escaped(features) + "\",\n    \"arch\": \""@
        + json_escaped(arch) + "\"\n  },\n  \"machine\": "@ + machine + ",\n  \"runs\": [\n"@
        + run_lines(runs, runs.len() as int) + "  ]\n}\n"@
}

/// `rs`, each indented by four spaces, joined by `,` and a line break.
pub open spec fn indented_joined(rs: Seq<Seq<char>>) -> Seq<char>
    decreases rs.len(),
{
    if rs.len() == 0 {
        seq![]
    } else if rs.len() == 1 {
        "    "@ + rs[0]
    } else {
        indented_joined(rs.drop_last()) + ",\n    "@ + rs.last()
    }
}

/// The block of run lines of a report: the runs joined as above and ended
/// by a line break, or nothing when there are no runs.
pub open spec fn runs_block(rs: Seq<Seq<char>>) -> Seq<char> {
    if rs.len() == 0 {
        seq![]
    } else {
        indented_joined(rs) + "\n"@
    }
}

proof fn lemma_run_lines_joined(runs: Seq<Seq<char>>, n: int)
    requires
        1 <= n <= runs.len(),
    ensures
        run_lines(runs, n) == indented_joined(runs.take(n)) + if n == runs.len() {
            "\n"@
        } else {
            ",\n"@
        },
    decreases n,
{
    if n == 1 {
        assert(run_lines(runs, 0) =~= seq![]);
        assert(runs.take(1)[0] == runs[0]);
        assert(run_lines(runs, 1) =~= indented_joined(runs.take(1)) + if 1 == runs.len() {
            "\n"@
        } else {
            ",\n"@
        });
    } else {
        lemma_run_lines_joined(runs, n - 1);
        reveal_strlit(",\n");
        reveal_strlit("    ");
        reveal_strlit(",\n    ");
        assert(",\n"@ + "    "@ =~= ",\n    "@);
        assert(runs.take(n).drop_last() =~= runs.take(n - 1));
        assert(runs.take(n).last() == runs[n - 1]);
        assert(run_lines(runs, n) =~= indented_joined(runs.take(n)) + if n == runs.len() {
            "\n"@
        } else {
            ",\n"@
        });
    }
}

/// A report lists its runs last, in order, one per line, each indented by
/// four spaces, with a comma after every run but the last, between
/// `"runs": [` and the closing `]` and `}`.
pub proof fn law_report_runs_last(
    label: Seq<char>,
    timestamp: u64,
    features: Seq<char>,
    arch: Seq<char>,
    machine: Seq<char>,
    runs: Seq<Seq<char>>,
)
    ensures
        exists|pre: Seq<char>|
            results_json_text(label, timestamp, features, arch, machine, runs) == pre
                + ",\n  \"runs\": [\n"@ + runs_block(runs) + "  ]\n}\n"@,
{
    let pre = "{\n  \"schema\": 2,\n  \"label\": \""@ + json_escaped(label)
        + "\",\n  \"metadata\": {\n    \"timestamp\": "@ + decimal_text(timestamp as nat)
        + ",\n    \"features\": \""@ + json_escaped(features) + "\",\n    \"arch\": \""@
        + json_escaped(arch) + "\"\n  },\n  \"machine\": "@ + machine;
    if runs.len() == 0 {
        assert(run_lines(runs, 0) =~= seq![]);
    } else {
        lemma_run_lines_joined(runs, runs.len() as int);
        assert(runs.take(runs.len() as int) =~= runs);
    }
    assert(results_json_text(label, timestamp, features, arch, machine, runs) =~= pre
        + ",\n  \"runs\": [\n"@ + runs_block(runs) + "  ]\n}\n"@);
}

/// The views of a list of strings.
pub open spec fn str_views(runs: Seq<String>) -> Seq<Seq<char>> {
    runs.map_values(|r: String| r@)
}

/// The report document written for a benchmark run: `machine` and each of
/// `runs` are JSON objects already; the label, features and architecture
/// are escaped into JSON strings.
pub fn results_json(
    label: &str,
    timestamp: u64,
    features: &str,
    arch: &str,
    machine: &str,
    runs: &Vec<String>,
) -> (r: String)
    ensures
        r@ == results_json_text(label@, timestamp, features@, arch@, machine@, str_views(runs@)),
{
    let ghost rs = str_views(runs@);
    let mut out = "{\n  \"schema\": 2,\n  \"label\": \"".to_owned();
    out.append(escape(label).as_str());
    out.append("\",\n  \"metadata\": {\n    \"timestamp\": ");
    push_decimal_text(&mut out, timestamp);
    out.append(",\n    \"features\": \"");
    out.append(escape(features).as_str());
    out.append("\",\n    \"arch\": \"");
    out.append(escape(arch).as_str());
    out.append("\"\n  },\n  \"machine\": ");
    out.append(machine);
    out.append(",\n  \"runs\": [\n");
    let ghost head = out@;
    let mut i: usize = 0;
    while i < runs.len()
        invariant
            rs == str_views(runs@),
            i <= runs@.len(),
            out@ == head + run_lines(rs, i as int),
        decreases runs.len() - i,
    {
        out.append("    ");
        out.append(runs[i].as_str());
        if i + 1 == runs.len() {
            out.append("\n");
        } else {
            out.append(",\n");
        }
        assert(rs[i as int] == runs@[i as int]@);
        assert(out@ =~= head + run_lines(rs, i + 1));
        i = i + 1;
    }
    out.append("  ]\n}\n");
    out
}

} // verus!
