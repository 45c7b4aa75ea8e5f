use onnx_explorer::op_schema::{find_in, lookup, parameter, schemas_in, Arity};
use onnx_explorer::schema_table::SCHEMAS;

#[test]
fn test_table_is_sorted_for_binary_search() {
    assert!(
        schemas_in(&SCHEMAS)
            .windows(2)
            .all(|w| w[0].op_type <= w[1].op_type),
        "the generated table must be ordered by operator type"
    );
}

#[test]
fn test_looks_up_operators() {
    let conv = lookup("", "Conv").expect("Conv is a standard operator");
    assert_eq!(conv.inputs[0], ("X".to_string(), Arity::Required));
    assert_eq!(conv.inputs[2], ("B".to_string(), Arity::Optional));
    assert_eq!(conv.outputs[0], ("Y".to_string(), Arity::Required));

    // The default domain may be written out in full.
    assert!(lookup("ai.onnx", "Conv").is_some());
    // Operators of other domains have no published signature here.
    assert!(lookup("com.microsoft", "Attention").is_none());
    assert!(lookup("", "NoSuchOperator").is_none());
    // An operator that only exists in the ai.onnx.ml domain.
    assert!(lookup("ai.onnx.ml", "LinearClassifier").is_some());
    assert!(lookup("", "LinearClassifier").is_none());
}

#[test]
fn test_names_parameters() {
    let conv = lookup("", "Conv").unwrap();
    assert_eq!(parameter(&conv.inputs, 0).as_deref(), Some("X"));
    assert_eq!(parameter(&conv.inputs, 2).as_deref(), Some("B"));
    // More values than the operator declares, which a malformed model can
    // do, leaves the extra ones unnamed.
    assert_eq!(parameter(&conv.inputs, 3), None);

    // A variadic parameter is numbered from where it starts.
    let concat = lookup("", "Concat").unwrap();
    assert_eq!(parameter(&concat.inputs, 0).as_deref(), Some("inputs[0]"));
    assert_eq!(parameter(&concat.inputs, 7).as_deref(), Some("inputs[7]"));

    // `Loop` has two ordinary inputs before its variadic one.
    let loop_op = lookup("", "Loop").unwrap();
    assert_eq!(parameter(&loop_op.inputs, 0).as_deref(), Some("M"));
    assert_eq!(parameter(&loop_op.inputs, 1).as_deref(), Some("cond"));
    assert_eq!(
        parameter(&loop_op.inputs, 3).as_deref(),
        Some("v_initial[1]")
    );

    assert_eq!(parameter(&Vec::new(), 0), None);
}

#[test]
fn every_row_of_the_table_is_a_signature() {
    let schemas = schemas_in(&SCHEMAS);
    assert!(schemas.len() > 200);
    for schema in &schemas {
        assert!(!schema.op_type.is_empty());
        for (name, _) in schema.inputs.iter().chain(schema.outputs.iter()) {
            assert!(!name.is_empty(), "{}", schema.op_type);
            assert!(!name.contains('*') && !name.contains('?'), "{}", schema.op_type);
        }
        assert!(!schema.outputs.is_empty(), "{}", schema.op_type);
        assert!(lookup(&schema.domain, &schema.op_type).is_some());
    }
}

#[test]
fn a_table_is_read_row_by_row() {
    let table = [("A", "", "x y?", "z*"), ("B", "some.domain", "", "out")];
    let a = find_in(&table, "", "A").unwrap();
    assert_eq!(
        a.inputs,
        [
            ("x".to_string(), Arity::Required),
            ("y".to_string(), Arity::Optional)
        ]
    );
    assert_eq!(a.outputs, [("z".to_string(), Arity::Variadic)]);
    assert!(find_in(&table, "", "B").is_none());
    let b = find_in(&table, "some.domain", "B").unwrap();
    assert!(b.inputs.is_empty());
    assert_eq!(b.domain, "some.domain");
}
