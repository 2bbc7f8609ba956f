//! Tests of the ParametricEQ scanner and the GraphicEQ texts.
use iem_tool::biquad::FilterType;
use iem_tool::engine::Bank;
use iem_tool::graphiceq::{filter_type_from_token, graphiceq_line, graphiceq_pairs, scan_parametric_eq};

fn approx(a: f64, b: f64, tol: f64) -> bool {
    (a - b).abs() <= tol
}

fn num(s: &Option<String>) -> Option<f64> {
    s.as_ref().and_then(|t| t.parse::<f64>().ok())
}

#[test]
fn parses_preamp_filters_and_skips_off_and_comments() {
    let text = "\
# a synthetic parametric spec
Preamp: -6.5 dB
Filter 1: ON PK Fc 105 Hz Gain -3.0 dB Q 0.70
Filter 2: OFF PK Fc 500 Hz Gain 2.0 dB Q 1.00
Filter 3: ON LSC Fc 100 Hz Gain 4.0 dB Q 0.71
Filter 4: ON HSC Fc 8000 Hz Gain -2.0 dB Q 0.71
";
    let eq = scan_parametric_eq(text);
    let preamp = eq
        .preamps
        .iter()
        .filter_map(|toks| toks.iter().find_map(|t| t.parse::<f64>().ok()))
        .last();
    assert_eq!(preamp, Some(-6.5));
    assert_eq!(eq.bands.len(), 3, "the OFF filter must be skipped");
    assert!(matches!(eq.bands[0].ftype, FilterType::Peaking));
    assert!(approx(num(&eq.bands[0].fc).unwrap(), 105.0, 1e-9));
    assert!(approx(num(&eq.bands[0].gain).unwrap(), -3.0, 1e-9));
    assert!(approx(num(&eq.bands[0].q).unwrap(), 0.70, 1e-9));
    assert!(matches!(eq.bands[1].ftype, FilterType::LowShelf));
    assert!(matches!(eq.bands[2].ftype, FilterType::HighShelf));
}

#[test]
fn empty_input_has_no_bands() {
    let eq = scan_parametric_eq("nothing to see here\nPreamp: 0 dB\n");
    assert!(eq.bands.is_empty());
}

#[test]
fn scan_keeps_value_tokens_as_text() {
    let text = "Preamp -3 dB\r\nPreamp: none\nFilter: on bell fc 1000 gain 2 q 1.5\nFilter 9: ON XX Fc 1 Gain 1 Q 1\nFilter 2: ON NO Fc 60\nFilter 3: ON\n#Filter 4: ON PK Fc 1 Gain 1 Q 1\n";
    let eq = scan_parametric_eq(text);
    assert_eq!(
        eq.preamps,
        vec![vec!["-3".to_string(), "dB".to_string()], vec!["none".to_string()]]
    );
    assert_eq!(eq.bands.len(), 2);
    assert_eq!(eq.bands[0].ftype, FilterType::Peaking);
    assert_eq!(eq.bands[0].fc, Some("1000".to_string()));
    assert_eq!(eq.bands[0].gain, Some("2".to_string()));
    assert_eq!(eq.bands[0].q, Some("1.5".to_string()));
    assert_eq!(eq.bands[1].ftype, FilterType::Notch);
    assert_eq!(eq.bands[1].fc, Some("60".to_string()));
    assert_eq!(eq.bands[1].gain, None);
    assert_eq!(eq.bands[1].q, None);
}

#[test]
fn filter_tokens_any_case() {
    assert_eq!(filter_type_from_token("pk"), Some(FilterType::Peaking));
    assert_eq!(filter_type_from_token("Modal"), Some(FilterType::Peaking));
    assert_eq!(filter_type_from_token("lsq"), Some(FilterType::LowShelf));
    assert_eq!(filter_type_from_token("HighShelf"), Some(FilterType::HighShelf));
    assert_eq!(filter_type_from_token("LPQ"), Some(FilterType::LowPass));
    assert_eq!(filter_type_from_token("hp"), Some(FilterType::HighPass));
    assert_eq!(filter_type_from_token("notch"), Some(FilterType::Notch));
    assert_eq!(filter_type_from_token("PKX"), None);
    assert_eq!(filter_type_from_token(""), None);
}

#[test]
fn filter_codes() {
    assert_eq!(FilterType::from_i32(0), FilterType::Peaking);
    assert_eq!(FilterType::from_i32(1), FilterType::LowShelf);
    assert_eq!(FilterType::from_i32(2), FilterType::HighShelf);
    assert_eq!(FilterType::from_i32(3), FilterType::LowPass);
    assert_eq!(FilterType::from_i32(4), FilterType::HighPass);
    assert_eq!(FilterType::from_i32(5), FilterType::Notch);
    assert_eq!(FilterType::from_i32(6), FilterType::Peaking);
    assert_eq!(FilterType::from_i32(-1), FilterType::Peaking);
}

#[test]
fn bank_codes() {
    assert_eq!(Bank::from_code(0), Bank::Eq);
    assert_eq!(Bank::from_code(1), Bank::Sim);
    assert_eq!(Bank::from_code(2), Bank::Xo);
    assert_eq!(Bank::from_code(7), Bank::Eq);
}

#[test]
fn output_formats_are_well_formed() {
    // 16 points, frequency rounded and gain written with one decimal
    let points: Vec<(i64, String)> = (0..16)
        .map(|i| {
            let f = 20.0 * 1000f64.powf(i as f64 / 15.0);
            (f.round() as i64, format!("{:.1}", -(i as f64) * 0.37))
        })
        .collect();

    let line = graphiceq_line(&points);
    assert!(line.starts_with("GraphicEQ: "));
    assert_eq!(line.matches(';').count(), 15, "16 points -> 15 separators");

    let pairs = graphiceq_pairs(&points);
    assert_eq!(pairs.lines().count(), 16);
    for l in pairs.lines() {
        let mut it = l.split_whitespace();
        assert!(it.next().unwrap().parse::<i64>().is_ok());
        assert!(it.next().unwrap().parse::<f64>().is_ok());
    }
}

#[test]
fn graphiceq_texts_exact() {
    let points = vec![(20i64, "-1.0".to_string()), (-5, "0.5".to_string()), (20000, "3.0".to_string())];
    assert_eq!(graphiceq_line(&points), "GraphicEQ: 20 -1.0; -5 0.5; 20000 3.0");
    assert_eq!(graphiceq_pairs(&points), "20 -1.0\n-5 0.5\n20000 3.0\n");
    assert_eq!(graphiceq_line(&[]), "GraphicEQ: ");
    assert_eq!(graphiceq_pairs(&[]), "");
    assert_eq!(graphiceq_line(&[(i64::MIN, "x".to_string())]), "GraphicEQ: -9223372036854775808 x");
}
