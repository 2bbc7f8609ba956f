//! Tests of the converter and manifest logic.
use iem_tool::converter::{
    channel_of, group_channels, is_raw_measurement_extension, measurement_fields,
    standardize_name, trim_number_text,
};
use iem_tool::manifest::{json_string, manifest_entries, manifest_to_json, ManifestEntry, ScannedFile};

fn scanned(parts: &[&str], size: u64) -> ScannedFile {
    ScannedFile { components: parts.iter().map(|s| s.to_string()).collect(), size }
}

#[test]
fn parse_handles_mixed_separators() {
    let body = "# header line\n20 -9.5\n100,\t2.0\n1000;3\n\nbad line here\n20000  -4\n";
    let fields = measurement_fields(body);
    // "bad line here" has two fields but they are not numbers: the caller drops it.
    let pts: Vec<(f64, f64)> = fields
        .iter()
        .filter_map(|(a, b)| match (a.parse::<f64>(), b.parse::<f64>()) {
            (Ok(f), Ok(d)) if f.is_finite() && d.is_finite() => Some((f, d)),
            _ => None,
        })
        .collect();
    assert_eq!(pts.len(), 4);
    assert_eq!(pts[0], (20.0, -9.5));
    assert_eq!(pts[1], (100.0, 2.0));
    assert_eq!(pts[2], (1000.0, 3.0));
    assert_eq!(pts[3], (20000.0, -4.0));
}

#[test]
fn measurement_fields_keep_text_of_data_lines() {
    let body = "# header line\n20 -9.5\n100,\t2.0\n1000;3\n\nbad line here\n20000  -4\n* note\n/ path\nonly\r\n  7 8 9  \r\n";
    let fields = measurement_fields(body);
    let expect: Vec<(String, String)> = vec![
        ("20", "-9.5"),
        ("100", "2.0"),
        ("1000", "3"),
        ("bad", "line"),
        ("20000", "-4"),
        ("7", "8"),
    ]
    .into_iter()
    .map(|(a, b)| (a.to_string(), b.to_string()))
    .collect();
    assert_eq!(fields, expect);
}

#[test]
fn measurement_fields_of_empty_body() {
    assert!(measurement_fields("").is_empty());
    assert!(measurement_fields("\n\n   \n").is_empty());
}

#[test]
fn channel_detection() {
    assert_eq!(
        channel_of("SOME IEM [1]"),
        ("SOME IEM".to_string(), Some('1'))
    );
    assert_eq!(
        channel_of("SOME IEM [2]"),
        ("SOME IEM".to_string(), Some('2'))
    );
    assert_eq!(channel_of("SOME IEM"), ("SOME IEM".to_string(), None));
}

#[test]
fn channel_marker_only_at_end() {
    assert_eq!(channel_of("A [1] B"), ("A [1] B".to_string(), None));
    assert_eq!(channel_of(" [2]"), ("".to_string(), Some('2')));
    assert_eq!(channel_of("X [1] [2]"), ("X [1]".to_string(), Some('2')));
}

#[test]
fn standardize_name_strips_channel_and_uppercases() {
    assert_eq!(standardize_name("moondrop aria [1]"), "MOONDROP ARIA");
    assert_eq!(standardize_name("  Sony   WF 1000XM4 "), "SONY WF 1000XM4");
}

#[test]
fn standardize_name_strips_extension() {
    assert_eq!(standardize_name("Moondrop Aria.txt"), "MOONDROP ARIA");
    // the extension goes first, then the channel marker before it
    assert_eq!(standardize_name("moondrop aria [1].txt"), "MOONDROP ARIA");
    assert_eq!(standardize_name("Truthear Hexa.CSV"), "TRUTHEAR HEXA");
    // only the text after the last dot is an extension
    assert_eq!(standardize_name("IE 600 v1.2.txt"), "IE 600 V1.2");
    // a leading dot starts the name and is no extension
    assert_eq!(standardize_name(".hidden"), ".HIDDEN");
    assert_eq!(standardize_name(".."), "..");
    assert_eq!(standardize_name("name."), "NAME");
}

#[test]
fn measurement_fields_final_carriage_return() {
    // a carriage return that ends the text without a line feed stays on the
    // line; the separators then decide what the fields are
    let fields = measurement_fields("20 -9.5\r\n100 2.0\r");
    let expect: Vec<(String, String)> = vec![("20", "-9.5"), ("100", "2.0")]
        .into_iter()
        .map(|(a, b)| (a.to_string(), b.to_string()))
        .collect();
    assert_eq!(fields, expect);
}

#[test]
fn standardize_name_markers_in_order() {
    // each marker is removed once, in its turn
    assert_eq!(standardize_name("foo L"), "FOO");
    assert_eq!(standardize_name("foo Left"), "FOO");
    assert_eq!(standardize_name("foo_R"), "FOO");
    assert_eq!(standardize_name("foo (L)"), "FOO");
    assert_eq!(standardize_name("foo L R"), "FOO L");
    assert_eq!(standardize_name("foo l"), "FOO L");
    assert_eq!(standardize_name("\tbar\n baz\u{3000}qux "), "BAR BAZ QUX");
    assert_eq!(standardize_name("straße"), "STRASSE");
    assert_eq!(standardize_name(""), "");
}

#[test]
fn raw_measurement_extensions() {
    assert!(is_raw_measurement_extension("txt"));
    assert!(is_raw_measurement_extension("CSV"));
    assert!(is_raw_measurement_extension("TxT"));
    assert!(!is_raw_measurement_extension("md"));
    assert!(!is_raw_measurement_extension("txt2"));
    assert!(!is_raw_measurement_extension(""));
}

#[test]
fn number_text_is_compact() {
    assert_eq!(trim_number_text("1.5000"), "1.5");
    assert_eq!(trim_number_text("20.0000"), "20");
    assert_eq!(trim_number_text("-9.5000"), "-9.5");
    assert_eq!(trim_number_text("0.0000"), "0");
    assert_eq!(trim_number_text("100"), "1");
}

#[test]
fn groups_pair_channels_by_base() {
    let stems: Vec<String> = ["ZETA [2]", "ALPHA", "ZETA [1]", "BETA [1]", "ZETA", "BETA [2]"]
        .iter()
        .map(|s| s.to_string())
        .collect();
    let groups = group_channels(&stems);
    let got: Vec<(String, Vec<usize>)> = groups.into_iter().map(|g| (g.base, g.members)).collect();
    assert_eq!(
        got,
        vec![
            ("ALPHA".to_string(), vec![1]),
            ("BETA".to_string(), vec![3, 5]),
            ("ZETA".to_string(), vec![4, 2, 0]),
        ]
    );
}

#[test]
fn groups_of_no_stems() {
    assert!(group_channels(&Vec::new()).is_empty());
}

#[test]
fn groups_keep_list_order_within_a_channel() {
    let stems: Vec<String> = ["B [1]", "B [1]", "A", "B"].iter().map(|s| s.to_string()).collect();
    let got: Vec<(String, Vec<usize>)> =
        group_channels(&stems).into_iter().map(|g| (g.base, g.members)).collect();
    assert_eq!(got, vec![("A".to_string(), vec![2]), ("B".to_string(), vec![3, 0, 1])]);
}

#[test]
fn manifest_scan_sorts_and_sizes() {
    let files = vec![
        scanned(&["BRAND B", "ZED.txt"], 5),
        scanned(&["BRAND A", "ALPHA.txt"], 12),
        scanned(&["BRAND A", "note.md"], 9),
    ];
    let entries = manifest_entries(&files, "data");
    assert_eq!(entries.len(), 2, "only .txt files counted");
    // sorted by path: BRAND A before BRAND B
    assert_eq!(entries[0].file, "data/BRAND A/ALPHA.txt");
    assert_eq!(entries[1].file, "data/BRAND B/ZED.txt");
    assert_eq!(entries[1].size, 5);

    // JSON shape
    let json = manifest_to_json(&entries);
    assert!(json.starts_with("[\n  {\n    \"file\": \"data/BRAND A/ALPHA.txt\","));
    assert!(json.trim_end().ends_with("]"));
    let count = json.matches("\"file\"").count();
    assert_eq!(count, 2);
}

#[test]
fn empty_manifest_is_empty_array() {
    assert_eq!(manifest_to_json(&[]), "[]");
}

#[test]
fn manifest_json_exact_layout() {
    let entries = vec![
        ManifestEntry { file: "data/A/x.txt".to_string(), size: 0 },
        ManifestEntry { file: "data/B/y \"q\".txt".to_string(), size: 1234567890123 },
    ];
    assert_eq!(
        manifest_to_json(&entries),
        "[\n  {\n    \"file\": \"data/A/x.txt\",\n    \"size\": 0\n  },\n  {\n    \"file\": \"data/B/y \\\"q\\\".txt\",\n    \"size\": 1234567890123\n  }\n]"
    );
    let one = vec![ManifestEntry { file: "f".to_string(), size: u64::MAX }];
    assert_eq!(
        manifest_to_json(&one),
        "[\n  {\n    \"file\": \"f\",\n    \"size\": 18446744073709551615\n  }\n]"
    );
}

#[test]
fn json_string_escapes() {
    assert_eq!(json_string("a\"b\\c\nd\re\tf/é"), "\"a\\\"b\\\\c\\nd\\re\\tf/é\"");
    assert_eq!(json_string(""), "\"\"");
}

#[test]
fn manifest_extension_rules() {
    let files = vec![
        scanned(&["b", "UPPER.TXT"], 1),
        scanned(&["a", ".txt"], 2),
        scanned(&["a", "x.txt.bak"], 3),
        scanned(&["a", "y.md.txt"], 4),
        scanned(&["c", "noext"], 5),
        scanned(&["..", ".."], 6),
    ];
    let entries = manifest_entries(&files, "data/");
    let got: Vec<(String, u64)> = entries.iter().map(|e| (e.file.clone(), e.size)).collect();
    assert_eq!(
        got,
        vec![("data/a/y.md.txt".to_string(), 4), ("data/b/UPPER.TXT".to_string(), 1)]
    );
}

#[test]
fn manifest_without_prefix_and_stable_order() {
    let files = vec![
        scanned(&["Z.txt"], 1),
        scanned(&["a.txt"], 2),
        scanned(&["B.txt"], 3),
        scanned(&["a.txt"], 4),
    ];
    let got: Vec<(String, u64)> =
        manifest_entries(&files, "").iter().map(|e| (e.file.clone(), e.size)).collect();
    assert_eq!(
        got,
        vec![
            ("B.txt".to_string(), 3),
            ("Z.txt".to_string(), 1),
            ("a.txt".to_string(), 2),
            ("a.txt".to_string(), 4),
        ]
    );
}
