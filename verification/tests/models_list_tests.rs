use markov_junior::models_list::parse_models_text;

#[test]
fn model_list_gives_first_2d_size_of_each_model() {
    let text = "<models>\r\n  <model name=\"Basic\" size=\"24\"/>\n  <model name=\"Cave\" size=\"x\"/>\n  <model name=\"Maze\" size=\"30\" d=\"3\"/>\n  <model name=\"Basic\" size=\"99\"/>\n  <model size=\"5\"/>\n  <model name=\"Flowers\"/>\n</models>\n";
    let r = parse_models_text(text);
    let got: Vec<(&str, usize, bool)> = r.iter().map(|(n, s, d)| (n.as_str(), *s, *d)).collect();
    assert_eq!(got, vec![("Basic", 24, false), ("Cave", 60, false), ("Flowers", 60, false)]);
    assert!(parse_models_text("").is_empty());
}
