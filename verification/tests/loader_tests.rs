use markov_junior::loader::{get_symmetry, load_model_str, load_model_str_with_resources, LoadError};
use markov_junior::map_node::ScaleFactor;
use markov_junior::node::NodeBox;

fn png_bytes(w: u32, h: u32, white: impl Fn(u32, u32) -> bool) -> Vec<u8> {
    let mut img = image::RgbaImage::new(w, h);
    for (x, y, p) in img.enumerate_pixels_mut() {
        *p = if white(x, y) { image::Rgba([255, 255, 255, 255]) } else { image::Rgba([0, 0, 0, 255]) };
    }
    let mut bytes: Vec<u8> = Vec::new();
    img.write_to(&mut std::io::Cursor::new(&mut bytes), image::ImageFormat::Png).unwrap();
    bytes
}

#[test]
fn test_load_model_str_basic() {
    let xml = r#"<one values="BW" in="B" out="W"/>"#;
    let result = load_model_str(xml, 10, 10, 1);
    assert!(result.is_ok(), "Failed to load inline XML: {:?}", result.as_ref().err());

    let model = result.unwrap();
    assert_eq!(model.grid.c, 2);
    assert_eq!(model.grid.mx, 10);
    assert_eq!(model.grid.my, 10);
}

#[test]
fn test_symmetry_parsing() {
    let sym_none = get_symmetry(true, "()").unwrap();
    assert_eq!(sym_none[0], true);
    assert!(sym_none[1..].iter().all(|&b| !b));

    let sym_all = get_symmetry(true, "(xy)").unwrap();
    assert!(sym_all.iter().all(|&b| b));

    let sym_x = get_symmetry(true, "(x)").unwrap();
    assert_eq!(sym_x[0], true);
    assert_eq!(sym_x[1], true);
    assert!(sym_x[2..].iter().all(|&b| !b));
}

#[test]
fn test_3d_symmetry_xy_is_supported() {
    let result = get_symmetry(false, "(xy)");
    assert!(result.is_ok(), "3D symmetry (xy) should be supported but got: {:?}", result);

    let sym = result.unwrap();
    assert_eq!(sym.len(), 48, "3D symmetry should have 48 elements");
    for i in 0..8 {
        assert!(sym[i], "3D (xy) symmetry index {} should be true", i);
    }
    for i in 8..48 {
        assert!(!sym[i], "3D (xy) symmetry index {} should be false", i);
    }
}

#[test]
fn test_3d_symmetry_x_is_supported() {
    let result = get_symmetry(false, "(x)");
    assert!(result.is_ok(), "3D symmetry (x) should be supported but got: {:?}", result);

    let sym = result.unwrap();
    assert_eq!(sym.len(), 48);
    assert!(sym[0], "Index 0 should be true");
    assert!(sym[1], "Index 1 should be true");
    for i in 2..48 {
        assert!(!sym[i], "Index {} should be false", i);
    }
}

#[test]
fn test_3d_symmetry_z_is_supported() {
    let result = get_symmetry(false, "(z)");
    assert!(result.is_ok(), "3D symmetry (z) should be supported but got: {:?}", result);

    let sym = result.unwrap();
    assert_eq!(sym.len(), 48);
    assert!(sym[0], "Index 0 should be true");
    assert!(sym[17], "Index 17 should be true");
    for i in 1..48 {
        if i != 17 {
            assert!(!sym[i], "Index {} should be false", i);
        }
    }
}

#[test]
fn test_3d_symmetry_xyz_plus_is_supported() {
    let result = get_symmetry(false, "(xyz+)");
    assert!(result.is_ok(), "3D symmetry (xyz+) should be supported but got: {:?}", result);

    let sym = result.unwrap();
    assert_eq!(sym.len(), 48);
    for i in 0..48 {
        if i % 2 == 0 {
            assert!(sym[i], "Even index {} should be true", i);
        } else {
            assert!(!sym[i], "Odd index {} should be false", i);
        }
    }
}

#[test]
fn unknown_symmetry_names_the_symmetry() {
    match get_symmetry(true, "(q)") {
        Err(LoadError::UnknownSymmetry(s)) => assert_eq!(s, "(q)"),
        other => panic!("unexpected: {:?}", other),
    }
    // (z) exists only for the cube.
    assert!(get_symmetry(true, "(z)").is_err());
    assert_eq!(get_symmetry(false, "(xyz)").unwrap(), vec![true; 48]);
}

#[test]
fn test_load_model_with_field() {
    let xml = r#"
        <one values="BW" temperature="10.0">
            <rule in="B" out="W"/>
            <field for="W" to="B" on="W"/>
        </one>
        "#;
    let result = load_model_str(xml, 10, 10, 1);
    assert!(result.is_ok(), "Failed to load XML with field: {:?}", result.as_ref().err());
}

#[test]
fn test_load_model_with_path() {
    let xml = r#"
        <sequence values="BSGP">
            <path from="S" to="G" on="B" color="P" inertia="True"/>
        </sequence>
        "#;
    let result = load_model_str(xml, 10, 10, 1);
    assert!(result.is_ok(), "Failed to load XML with path: {:?}", result.as_ref().err());
}

#[test]
fn test_load_file_rule_from_png() {
    // A room: white border column and top row on a black field, input half then output half.
    let room = png_bytes(10, 6, |x, y| x % 5 == 0 || y == 0);
    let resources = vec![("rules/BasicDijkstraRoom.png".to_string(), room)];

    let xml = r#"<one values="BW" file="BasicDijkstraRoom" legend="BW"/>"#;
    let result = load_model_str_with_resources(xml, 16, 16, 1, &resources);
    assert!(result.is_ok(), "Failed to load model with file attribute: {:?}", result.as_ref().err());
}

#[test]
fn missing_rule_image_is_reported_with_its_path() {
    let xml = r#"<one values="BW" file="Nowhere" legend="BW"/>"#;
    match load_model_str(xml, 16, 16, 1) {
        Err(LoadError::FileNotFound(p)) => assert_eq!(p, "rules/Nowhere.png"),
        other => panic!("unexpected: {:?}", other.err()),
    }
}

#[test]
fn test_union_creates_combined_wave() {
    let xml = r#"
        <sequence values="BRGW">
            <union symbol="?" values="BR"/>
            <one in="?" out="W"/>
        </sequence>
        "#;
    let result = load_model_str(xml, 10, 10, 1);
    assert!(result.is_ok(), "Failed to load XML with union: {:?}", result.as_ref().err());

    let model = result.unwrap();
    assert_eq!(model.grid.wave_for_char('?'), Some(3));
}

#[test]
fn test_union_duplicate_symbol_error() {
    let xml = r#"
        <sequence values="BW">
            <union symbol="B" values="BW"/>
            <one in="B" out="W"/>
        </sequence>
        "#;
    let result = load_model_str(xml, 10, 10, 1);
    assert!(result.is_err(), "Should fail with duplicate symbol error");
    let err = result.err().unwrap();
    assert!(err.message().contains("already defined"), "Error should mention already defined: {}", err.message());
}

#[test]
fn test_load_map_node() {
    let xml = r#"
        <sequence values="BW">
            <all in="B" out="W"/>
            <map scale="2 2 1" values="RG">
                <rule in="W" out="RG/GR"/>
            </map>
        </sequence>
        "#;
    let result = load_model_str(xml, 4, 4, 1);
    assert!(result.is_ok(), "Failed to load model with map: {:?}", result.as_ref().err());
}

#[test]
fn map_node_scale_must_have_three_parts() {
    let xml = r#"
        <sequence values="BW">
            <map scale="2 2" values="RG">
                <rule in="W" out="R"/>
            </map>
        </sequence>
        "#;
    match load_model_str(xml, 4, 4, 1) {
        Err(LoadError::InvalidAttribute { attribute, reason, .. }) => {
            assert_eq!(attribute, "scale");
            assert_eq!(reason, "expected 3 components separated by space");
        }
        other => panic!("unexpected: {:?}", other.err()),
    }
}

#[test]
fn test_map_node_scale_parsing() {
    let sf1 = ScaleFactor::parse("2").unwrap();
    assert_eq!(sf1.apply(10), 20);

    let sf2 = ScaleFactor::parse("1/2").unwrap();
    assert_eq!(sf2.apply(10), 5);

    let sf3 = ScaleFactor::parse("3/2").unwrap();
    assert_eq!(sf3.apply(10), 15);
}

#[test]
fn test_load_model_with_observe() {
    let xml = r#"
        <one values="BWR">
            <rule in="B" out="W"/>
            <observe value="R" from="B" to="W"/>
        </one>
        "#;
    let result = load_model_str(xml, 10, 10, 1);
    assert!(result.is_ok(), "Failed to load XML with observe: {:?}", result.as_ref().err());
}

#[test]
fn test_load_model_with_search() {
    let xml = r#"
        <one values="BW" search="True" limit="1000" depthCoefficient="0.5">
            <rule in="B" out="W"/>
            <observe value="W" from="B" to="W"/>
        </one>
        "#;
    let result = load_model_str(xml, 5, 5, 1);
    assert!(result.is_ok(), "Failed to load XML with search: {:?}", result.as_ref().err());
}

#[test]
fn root_without_values_is_refused() {
    match load_model_str(r#"<one in="B" out="W"/>"#, 4, 4, 1) {
        Err(LoadError::MissingAttribute { element, attribute }) => {
            assert_eq!(element, "one");
            assert_eq!(attribute, "values");
        }
        other => panic!("unexpected: {:?}", other.err()),
    }
}

#[test]
fn duplicate_values_are_a_grid_error() {
    let r = load_model_str(r#"<one values="BWB" in="B" out="W"/>"#, 4, 4, 1);
    assert!(matches!(r, Err(LoadError::GridError(_))));
}

#[test]
fn unknown_and_unsupported_elements_are_refused() {
    assert!(matches!(load_model_str(r#"<spin values="BW"/>"#, 4, 4, 1), Err(LoadError::UnknownNodeType(n)) if n == "spin"));
    assert!(matches!(load_model_str(r#"<wfc values="BW" sample="Flowers" n="3"/>"#, 4, 4, 1), Err(LoadError::Unsupported(n)) if n == "wfc"));
    assert!(matches!(load_model_str("", 4, 4, 1), Err(LoadError::XmlError(_))));
}

#[test]
fn leaf_root_is_wrapped_in_a_markov_node_and_defaults_apply() {
    let m = load_model_str(r#"<one values="BW" origin="True" in="B" out="W"/>"#, 0, 0, 0).unwrap();
    assert_eq!((m.grid.mx, m.grid.my, m.grid.mz), (16, 16, 1));
    assert!(m.origin);
    match m.root {
        NodeBox::Markov(k) => {
            assert_eq!(k.nodes.len(), 1);
            assert!(matches!(k.nodes[0], NodeBox::One(_)));
        }
        _ => panic!("root should be a Markov node"),
    }
    let s = load_model_str(r#"<sequence values="BW"><one in="B" out="W"/><all in="W" out="B"/></sequence>"#, 4, 4, 1).unwrap();
    assert!(!s.origin);
    match s.root {
        NodeBox::Sequence(q) => assert_eq!(q.nodes.len(), 2),
        _ => panic!("root should stay a sequence"),
    }
}

#[test]
fn error_messages_read_like_their_kind() {
    let e = LoadError::MissingAttribute { element: "map".to_string(), attribute: "scale".to_string() };
    assert_eq!(e.message(), "missing attribute 'scale' in <map>");
    let u = LoadError::UnknownCharacter { character: 'Q', context: "path color".to_string() };
    assert_eq!(u.message(), "unknown character 'Q' in path color");
}

#[test]
fn wfc_without_sample_or_tileset_is_refused() {
    let r = load_model_str(r#"<wfc values="BW" n="3"/>"#, 4, 4, 1);
    assert!(matches!(r, Err(LoadError::MissingAttribute { element, attribute }) if element == "wfc" && attribute == "sample or tileset"));
}

#[test]
fn wfc_overlap_model_is_refused_in_3d() {
    let r = load_model_str(r#"<wfc values="BW" sample="Flowers"/>"#, 4, 4, 2);
    assert!(matches!(r, Err(LoadError::InvalidAttribute { element, attribute, value, reason })
        if element == "wfc" && attribute == "sample" && value == "Flowers" && reason == "overlapping model currently works only for 2d"));
    let t = load_model_str(r#"<wfc values="BW" tileset="Knots"/>"#, 4, 4, 2);
    assert!(matches!(t, Err(LoadError::Unsupported(n)) if n == "wfc"));
}

#[test]
fn convchain_checks_its_attributes_first() {
    let three_d = load_model_str(r#"<convchain values="BW" sample="Maze" on="B" black="B" white="W"/>"#, 4, 4, 2);
    assert!(matches!(three_d, Err(LoadError::InvalidAttribute { element, reason, .. })
        if element == "convchain" && reason == "convchain currently works only for 2d"));
    let no_sample = load_model_str(r#"<convchain values="BW" on="B" black="B" white="W"/>"#, 4, 4, 1);
    assert!(matches!(no_sample, Err(LoadError::MissingAttribute { element, attribute }) if element == "convchain" && attribute == "sample"));
    let no_on = load_model_str(r#"<convchain values="BW" sample="Maze" black="B" white="W"/>"#, 4, 4, 1);
    assert!(matches!(no_on, Err(LoadError::MissingAttribute { attribute, .. }) if attribute == "on"));
    let bad_black = load_model_str(r#"<convchain values="BW" sample="Maze" on="B" black="R" white="W"/>"#, 4, 4, 1);
    assert!(matches!(bad_black, Err(LoadError::UnknownCharacter { character, context }) if character == 'R' && context == "convchain black"));
    let no_white = load_model_str(r#"<convchain values="BW" sample="Maze" on="B" black="B" white=""/>"#, 4, 4, 1);
    assert!(matches!(no_white, Err(LoadError::MissingAttribute { attribute, .. }) if attribute == "white"));
    let ok = load_model_str(r#"<convchain values="BW" sample="Maze" on="B" black="B" white="W"/>"#, 4, 4, 1);
    assert!(matches!(ok, Err(LoadError::Unsupported(n)) if n == "convchain"));
}

#[test]
fn loaded_rule_node_takes_its_steps_and_branch_keeps_child_order() {
    let m = load_model_str(
        r#"<sequence values="BWR"><one in="B" out="W" steps="7"/><path from="W" to="R" on="B"/><all in="W" out="R"/></sequence>"#,
        4,
        4,
        1,
    )
    .unwrap();
    match m.root {
        NodeBox::Sequence(s) => {
            assert_eq!(s.nodes.len(), 3);
            match &s.nodes[0] {
                NodeBox::One(o) => assert_eq!(o.data.steps, 7),
                _ => panic!("first child is the one node"),
            }
            assert!(matches!(s.nodes[1], NodeBox::Path(_)));
            match &s.nodes[2] {
                NodeBox::All(a) => assert_eq!(a.data.steps, 0),
                _ => panic!("third child is the all node"),
            }
        }
        _ => panic!("a sequence root stays a sequence"),
    }
}

#[test]
fn xml_errors_pass_through_model_loading() {
    assert!(matches!(load_model_str("", 4, 4, 1), Err(LoadError::XmlError(m)) if m == "empty document"));
    let missing = load_model_str(r#"<one in="B" out="W"/>"#, 4, 4, 1);
    assert!(matches!(missing, Err(LoadError::MissingAttribute { element, attribute }) if element == "one" && attribute == "values"));
}

#[test]
fn test_load_convchain_missing_sample() {
    let xml = r#"
        <convchain values="BDA" on="B" black="D" white="A" n="2"/>
        "#;
    let result = load_model_str(xml, 10, 10, 1);
    assert!(result.is_err(), "Should fail without sample");
    let err = result.err().unwrap();
    assert!(err.message().contains("sample"), "Error should mention sample: {}", err.message());
}

#[test]
fn test_load_convchain_missing_on() {
    let xml = r#"
        <convchain values="BDA" sample="Maze" black="D" white="A" n="2"/>
        "#;
    let result = load_model_str_with_resources(xml, 10, 10, 1, &[]);
    assert!(result.is_err(), "Should fail without on attribute");
    let err = result.err().unwrap();
    assert!(err.message().contains("on"), "Error should mention on: {}", err.message());
}

#[test]
fn test_load_convchain_3d_not_supported() {
    let xml = r#"
        <convchain values="BDA" sample="Maze" on="B" black="D" white="A" n="2"/>
        "#;
    let result = load_model_str_with_resources(xml, 10, 10, 2, &[]);
    assert!(result.is_err(), "3D convchain should not be supported");
    let err = result.err().unwrap();
    assert!(err.message().contains("2d"), "Error should mention 2d restriction: {}", err.message());
}

#[test]
fn unknown_root_names_are_reported_and_good_roots_load() {
    assert!(matches!(load_model_str(r#"<grow values="BW"/>"#, 4, 4, 1), Err(LoadError::UnknownNodeType(n)) if n == "grow"));
    let m = load_model_str(r#"<one values="BW" in="B" out="W"/>"#, 4, 4, 1).unwrap();
    assert_eq!(m.grid.c, 2);
    assert_eq!(m.grid.state, vec![0u8; 16]);
}

#[test]
fn test_wfc_overlap_missing_sample_error() {
    let xml = r#"<wfc values="BW" n="3"/>"#;
    let result = load_model_str(xml, 10, 10, 1);
    assert!(result.is_err());
    let err = result.err().unwrap();
    assert!(err.message().contains("sample or tileset"), "Error should mention missing sample or tileset: {}", err.message());
}

#[test]
fn test_wfc_3d_overlap_not_supported() {
    let xml = r#"
        <wfc values="BW" sample="Flowers" n="3"/>
        "#;
    let result = load_model_str_with_resources(xml, 10, 10, 2, &[]);
    assert!(result.is_err(), "3D overlap should not be supported yet");
    let err = result.err().unwrap();
    assert!(err.message().contains("2d"), "Error should mention 2d restriction: {}", err.message());
}
