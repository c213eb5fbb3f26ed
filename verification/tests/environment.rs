use onnx_adapter::environment::{environment, Environment, ONNX_PYTHON_VERSION};

fn here() -> Environment {
    environment(Environment {
        tool: "diff-fuzzer".to_string(),
        platform: "x86_64-linux".to_string(),
        components: vec![],
    })
}

#[test]
fn the_environment_names_the_specification_revision() {
    let recorded = here();
    let onnx = recorded
        .components
        .iter()
        .find(|(name, _)| name.starts_with("onnx"))
        .expect("the environment must record the onnx version");

    assert_eq!(onnx.1, ONNX_PYTHON_VERSION);
    assert!(!recorded.platform.is_empty());
}

#[test]
fn components_are_kept_in_order() {
    let recorded = here().with("tract-onnx", "0.23.4");
    let names: Vec<&str> = recorded.components.iter().map(|(n, _)| n.as_str()).collect();
    assert_eq!(names, ["onnx (python, reference)", "prost", "tract-onnx"]);
    assert_eq!(recorded.components[2].1, "0.23.4");
    assert_eq!(recorded.tool, "diff-fuzzer");
    assert_eq!(recorded.platform, "x86_64-linux");
}
