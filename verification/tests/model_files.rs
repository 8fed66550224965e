//! Reading model archives.

use mixlyzer::detect::error::PhraseError;
use mixlyzer::detect::model::{model_candidates, ModelSettings, PhraseModel, DEFAULT_MODEL_RELATIVE_PATH, NPZ_FORMAT};
use mixlyzer::detect::npz::{parse, parse_npy, NpyArray, Npz};
use mixlyzer::number::binary64::Binary64;

fn f(x: f64) -> Binary64 {
    Binary64::from_bits(x.to_bits())
}

#[test]
fn settings_fall_back_to_the_production_defaults_when_json_is_unusable() {
    let settings = ModelSettings::from_json("not json at all");
    assert_eq!(settings, ModelSettings::default());
}

#[test]
fn a_null_max_boundaries_means_no_cap() {
    let settings = ModelSettings::from_json(r#"{"max_boundaries": null}"#);
    assert_eq!(settings.max_boundaries, None);
    let capped = ModelSettings::from_json(r#"{"max_boundaries": 12}"#);
    assert_eq!(capped.max_boundaries, Some(12));
}

#[test]
fn settings_are_read_from_the_artifact_not_assumed() {
    let settings = ModelSettings::from_json(
        r#"{"sr": 44100, "edge_beats": 4, "boundary_context_beats": [2, 3]}"#,
    );
    assert_eq!(settings.sample_rate, 44_100);
    assert_eq!(settings.edge_beats, 4);
    assert_eq!(settings.boundary_context_beats, vec![2, 3]);
}

#[test]
fn an_empty_model_file_is_reported_as_malformed() {
    assert!(matches!(
        PhraseModel::from_bytes(&[]),
        Err(PhraseError::MalformedModel(_))
    ));
}

#[test]
fn a_non_zip_file_is_rejected_rather_than_misread() {
    let err = parse(b"this is not a model at all").unwrap_err();
    assert!(matches!(err, PhraseError::MalformedModel(_)));
}

#[test]
fn an_empty_buffer_is_rejected() {
    assert!(parse(&[]).is_err());
}

#[test]
fn npy_headers_without_a_dtype_are_rejected() {
    let mut bytes = b"\x93NUMPY\x01\x00".to_vec();
    let header = b"{'shape': (0,), }".to_vec();
    bytes.extend((header.len() as u16).to_le_bytes());
    bytes.extend(header);
    assert!(parse_npy(&bytes).is_err());
}

fn npy(descr: &str, shape: &str, data: &[u8]) -> Vec<u8> {
    let header = format!("{{'descr': '{descr}', 'fortran_order': False, 'shape': {shape}, }}\n");
    let mut out = b"\x93NUMPY\x01\x00".to_vec();
    out.extend((header.len() as u16).to_le_bytes());
    out.extend(header.as_bytes());
    out.extend(data);
    out
}

fn numbers(values: &[f64]) -> Vec<u8> {
    let data: Vec<u8> = values.iter().flat_map(|x| x.to_le_bytes()).collect();
    npy("<f8", &format!("({},)", values.len()), &data)
}

fn integers(values: &[i64]) -> Vec<u8> {
    let data: Vec<u8> = values.iter().flat_map(|x| x.to_le_bytes()).collect();
    npy("<i8", &format!("({},)", values.len()), &data)
}

fn texts(values: &[&str], shape: &str) -> Vec<u8> {
    let width = values.iter().map(|t| t.chars().count()).max().unwrap_or(0);
    let mut data: Vec<u8> = Vec::new();
    for text in values {
        let mut units: Vec<u32> = text.chars().map(|c| c as u32).collect();
        units.resize(width, 0);
        data.extend(units.iter().flat_map(|u| u.to_le_bytes()));
    }
    npy(&format!("<U{width}"), shape, &data)
}

fn deflated(bytes: &[u8]) -> Vec<u8> {
    let mut encoder = flate2::write::DeflateEncoder::new(Vec::new(), flate2::Compression::default());
    std::io::Write::write_all(&mut encoder, bytes).unwrap();
    encoder.finish().unwrap()
}

/// A zip archive; every other member is compressed.
fn zip(members: &[(&str, Vec<u8>)]) -> Vec<u8> {
    let mut out: Vec<u8> = Vec::new();
    let mut directory: Vec<u8> = Vec::new();
    for (i, (name, contents)) in members.iter().enumerate() {
        let file = format!("{name}.npy");
        let (method, stored): (u16, Vec<u8>) =
            if i % 2 == 0 { (0, contents.clone()) } else { (8, deflated(contents)) };
        let local = out.len() as u32;
        let sizes = [0u32.to_le_bytes(), (stored.len() as u32).to_le_bytes(), (contents.len() as u32).to_le_bytes()];
        out.extend(b"PK\x03\x04\x14\x00\x00\x00");
        out.extend(method.to_le_bytes());
        out.extend([0u8; 4]);
        out.extend(sizes.concat());
        out.extend((file.len() as u16).to_le_bytes());
        out.extend(0u16.to_le_bytes());
        out.extend(file.as_bytes());
        out.extend(&stored);
        directory.extend(b"PK\x01\x02\x14\x00\x14\x00\x00\x00");
        directory.extend(method.to_le_bytes());
        directory.extend([0u8; 4]);
        directory.extend(sizes.concat());
        directory.extend((file.len() as u16).to_le_bytes());
        directory.extend([0u8; 12]);
        directory.extend(local.to_le_bytes());
        directory.extend(file.as_bytes());
    }
    let start = out.len() as u32;
    let count = members.len() as u16;
    out.extend(&directory);
    out.extend(b"PK\x05\x06\x00\x00\x00\x00");
    out.extend(count.to_le_bytes());
    out.extend(count.to_le_bytes());
    out.extend((directory.len() as u32).to_le_bytes());
    out.extend(start.to_le_bytes());
    out.extend(0u16.to_le_bytes());
    out
}

fn members() -> Vec<(&'static str, Vec<u8>)> {
    let mut out = vec![
        ("format", texts(&["mixlyzer_phrase_weight_v1"], "()")),
        ("settings_json", texts(&["{\"label_weight\": 2.5, \"n_fft\": 1024}"], "()")),
        ("label_labels", texts(&["INTRO", "OUTRO"], "(2,)")),
        ("label_transition", numbers(&(0..16).map(|i| i as f64).collect::<Vec<f64>>())),
        ("label_length_mu", numbers(&[3.0, 4.0])),
        ("label_length_sigma", numbers(&[0.3, 0.4])),
    ];
    for prefix in ["boundary", "label"] {
        let named = |suffix: &str| -> &'static str { Box::leak(format!("{prefix}_{suffix}").into_boxed_str()) };
        out.push((named("classes"), texts(&["0", "1"], "(2,)")));
        out.push((named("baseline"), numbers(&[0.5])));
        out.push((named("tree_classes"), integers(&[0])));
        out.push((named("tree_offsets"), integers(&[0, 3])));
        out.push((named("node_value"), numbers(&[0.0, -1.0, 1.0])));
        out.push((named("node_feature_idx"), integers(&[0, 0, 0])));
        out.push((named("node_num_threshold"), numbers(&[0.5, 0.0, 0.0])));
        out.push((named("node_missing_go_to_left"), npy("|u1", "(3,)", &[1, 0, 0])));
        out.push((named("node_left"), integers(&[1, 0, 0])));
        out.push((named("node_right"), integers(&[2, 0, 0])));
        out.push((named("node_is_leaf"), npy("|b1", "(3,)", &[0, 1, 1])));
    }
    out
}

#[test]
fn a_whole_model_is_read_from_its_archive() {
    let model = PhraseModel::from_bytes(&zip(&members())).unwrap();
    assert_eq!(model.labels, vec!["INTRO", "OUTRO"]);
    assert_eq!(model.transition.len(), 4);
    assert_eq!(model.transition[1], vec![f(4.0), f(5.0), f(6.0), f(7.0)]);
    assert_eq!(model.length_mu, vec![f(3.0), f(4.0)]);
    assert_eq!(model.settings.label_weight, f(2.5));
    assert_eq!(model.settings.n_fft, 1024);
    assert_eq!(model.settings.hop_length, ModelSettings::default().hop_length);
    assert_eq!((model.start_state(), model.end_state()), (2, 3));
    assert!(model.boundary.is_ready());
    assert_eq!(model.label.predict_row(&[f(0.9)]), 1);
}

#[test]
fn another_layout_is_refused() {
    let mut parts = members();
    parts[0].1 = texts(&["mixlyzer_phrase_weight_v2"], "()");
    match PhraseModel::from_bytes(&zip(&parts)) {
        Err(PhraseError::UnsupportedModelFormat { found, expected }) => {
            assert_eq!(found, "mixlyzer_phrase_weight_v2");
            assert_eq!(expected, NPZ_FORMAT);
        }
        other => panic!("{other:?}"),
    }
}

#[test]
fn a_transition_table_of_the_wrong_size_is_reported() {
    let mut parts = members();
    parts[3].1 = numbers(&[0.0; 15]);
    match PhraseModel::from_bytes(&zip(&parts)) {
        Err(PhraseError::ModelField { field, reason }) => {
            assert_eq!(field, "label_transition");
            assert_eq!(reason, "has 15 entries; 2 labels need 16");
        }
        other => panic!("{other:?}"),
    }
}

#[test]
fn a_missing_member_is_named() {
    let mut parts = members();
    parts.remove(4);
    match PhraseModel::from_bytes(&zip(&parts)) {
        Err(PhraseError::MissingModelField(field)) => assert_eq!(field, "label_length_mu"),
        other => panic!("{other:?}"),
    }
}

#[test]
fn a_damaged_member_is_reported() {
    let mut bytes = zip(&[("a", numbers(&[1.0])), ("b", numbers(&[2.0; 40]))]);
    let end = bytes.len() - 22 - 2 * (46 + 5);
    bytes[end - 8..end].fill(0xff);
    assert!(matches!(parse(&bytes), Err(PhraseError::MalformedModel(_))));
}

#[test]
fn members_keep_their_contents() {
    let archive: Npz = parse(&zip(&[
        ("x", numbers(&[1.5, -2.0])),
        ("names", texts(&["häuser", "b"], "(2,)")),
        ("n", integers(&[-1, 7])),
    ]))
    .unwrap();
    assert_eq!(archive.get("x").unwrap().to_f64("x").unwrap(), vec![f(1.5), f(-2.0)]);
    assert_eq!(archive.get("names").unwrap().to_strings("names").unwrap(), vec!["häuser", "b"]);
    assert!(matches!(archive.get("n").unwrap(), NpyArray::I64(v) if *v == vec![-1, 7]));
    assert!(archive.get("n").unwrap().to_usize("n").is_err());
    assert!(archive.get("missing").is_none());
}

#[test]
fn the_weights_have_a_usual_place() {
    assert_eq!(DEFAULT_MODEL_RELATIVE_PATH, "assets/weights/phrase_analyzer.npz");
}

#[test]
fn the_weights_are_looked_for_upwards() {
    let under = |dir: &str| format!("{dir}{DEFAULT_MODEL_RELATIVE_PATH}");
    assert_eq!(model_candidates("/home/dj/sets"), vec![under("/home/dj/sets/"), under("/home/dj/"), under("/home/"), under("/")]);
    assert_eq!(model_candidates("a//b/./c/"), vec![under("a/b/c/"), under("a/b/"), under("a/"), under("")]);
    assert_eq!(model_candidates("./a/.."), vec![under("./a/../"), under("./a/"), under("./"), under("")]);
    assert_eq!(model_candidates("/"), vec![under("/")]);
    assert_eq!(model_candidates("/./"), vec![under("/")]);
    assert_eq!(model_candidates(""), vec![under("")]);
}

#[test]
fn the_places_are_those_of_the_directory_and_its_ancestors() {
    for start in ["/", "", ".", "a", "a/", "./a", "/a/b", "a//b", "/a/./b/..", "../x", "/..", "a/."] {
        let walked: Vec<std::path::PathBuf> =
            std::path::Path::new(start).ancestors().map(|dir| dir.join(DEFAULT_MODEL_RELATIVE_PATH)).collect();
        let places: Vec<std::path::PathBuf> = model_candidates(start).iter().map(std::path::PathBuf::from).collect();
        assert_eq!(places, walked, "{start}");
    }
}

#[test]
fn the_other_byte_order_is_refused() {
    for descr in [">f8", ">f4", ">i8", ">i4", ">U3"] {
        match parse_npy(&npy(descr, "(1,)", &[0; 24])) {
            Err(PhraseError::MalformedModel(_)) => {},
            other => panic!("{descr}: {other:?}"),
        }
    }
    assert!(matches!(parse_npy(&npy(">u1", "(2,)", &[1, 2])), Ok(NpyArray::U8(bytes)) if bytes == [1, 2]));
    assert!(matches!(parse_npy(&npy("|b1", "(2,)", &[1, 0])), Ok(NpyArray::U8(bytes)) if bytes == [1, 0]));
}
