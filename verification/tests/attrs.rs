use onnx_adapter::attrs::{AttrValue, Attrs};

fn shown_of(texts: &[&str]) -> Vec<String> {
    texts.iter().map(|t| t.to_string()).collect()
}

#[test]
fn attributes_keep_the_order_they_were_added() {
    let attrs = Attrs::new()
        .with_int("axis", 1)
        .ints("perm", vec![1, 0])
        .with_int("to", 7);
    assert_eq!(
        attrs.names(),
        vec!["axis", "perm", "to"]
    );
    assert_eq!(
        attrs
            .to_protos()
            .iter()
            .map(|p| p.name.clone())
            .collect::<Vec<_>>(),
        vec!["axis", "perm", "to"]
    );
}

#[test]
fn conversion_is_deterministic() {
    let build = || {
        Attrs::new()
            .with_int("axis", 1)
            .ints("axes", vec![0, 2])
            .float("alpha", 0.5f32.to_bits())
            .string("mode", "constant")
    };
    assert_eq!(build().to_protos(), build().to_protos());
}

#[test]
fn every_variant_sets_its_tag_and_payload() {
    let attrs = Attrs::new()
        .with_int("i", 7)
        .ints("is", vec![1, 2])
        .float("f", 1.5f32.to_bits())
        .string("s", "constant");
    let protos = attrs.to_protos();

    assert_eq!(protos[0].kind, 2);
    assert_eq!(protos[0].i, Some(7));

    assert_eq!(protos[1].kind, 7);
    assert_eq!(protos[1].ints, vec![1, 2]);

    assert_eq!(protos[2].kind, 1);
    assert_eq!(protos[2].f, Some(1.5f32.to_bits()));

    assert_eq!(protos[3].kind, 3);
    assert_eq!(protos[3].s.as_deref(), Some(b"constant".as_slice()));
}

#[test]
fn lookup_finds_what_was_added_and_nothing_else() {
    let attrs = Attrs::new().with_int("axis", 3);
    assert_eq!(attrs.get("axis"), Some(&AttrValue::Int(3)));
    assert_eq!(attrs.get("perm"), None);
    assert_eq!(attrs.len(), 1);
    assert!(!attrs.is_empty());
    assert!(Attrs::new().is_empty());
}

#[test]
fn duplicates_are_preserved_for_the_validator_to_catch() {
    let attrs = Attrs::new().with_int("axis", 1).with_int("axis", 2);
    assert_eq!(attrs.len(), 2);
    assert_eq!(attrs.to_protos().len(), 2);
}

#[test]
fn the_description_is_stable_and_shows_signed_zero() {
    assert_eq!(Attrs::new().describe(&vec![]), "-");
    assert_eq!(
        Attrs::new()
            .with_int("axis", 1)
            .ints("perm", vec![1, 0])
            .describe(&shown_of(&["1", "[1, 0]"])),
        "axis=1 perm=[1, 0]"
    );
    assert_ne!(
        Attrs::new().float("a", 0.0f32.to_bits()).describe(&shown_of(&["0"])),
        Attrs::new().float("a", (-0.0f32).to_bits()).describe(&shown_of(&["-0"])),
        "signed zero must be visible in an attribute description too"
    );
}

#[test]
fn a_text_is_described_in_quotes_and_a_number_with_its_bits() {
    let attrs = Attrs::new().string("mode", "a \"b\"").float("alpha", 1.5f32.to_bits());
    assert_eq!(
        attrs.describe(&shown_of(&["", "1.5"])),
        "mode=\"a \\\"b\\\"\" alpha=1.5#3fc00000"
    );
}

#[test]
fn attributes_are_compared_bit_for_bit() {
    let zero = Attrs::new().float("a", 0.0f32.to_bits());
    let negative = Attrs::new().float("a", (-0.0f32).to_bits());
    assert!(zero.same(&Attrs::new().float("a", 0.0f32.to_bits())));
    assert!(!zero.same(&negative));
    assert_eq!(zero.at(0).1.kind(), "float");
    assert_eq!(zero.iter().len(), 1);
}
