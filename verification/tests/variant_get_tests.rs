use variant_compute::CastOptions;
use variant_compute::GetError;
use variant_compute::GetOptions;
use variant_compute::GetOutput;
use variant_compute::TargetType;
use variant_compute::VariantArray;
use variant_compute::VariantArrayBuilder;
use variant_compute::VariantPath;
use variant_compute::VariantPathElement;
use variant_compute::VariantValue;
use variant_compute::variant_get;
use variant_compute::variant_get_rowise;

fn one_row(value: VariantValue) -> VariantArray {
    let mut builder = VariantArrayBuilder::new(1);
    assert!(builder.append_variant(value));
    builder.build()
}

fn options(path: Vec<VariantPathElement>, as_type: Option<TargetType>) -> GetOptions {
    GetOptions { path: VariantPath::new(path), as_type, cast_options: CastOptions::default() }
}

fn object(fields: Vec<(&str, VariantValue)>) -> VariantValue {
    VariantValue::Object(fields.into_iter().map(|(n, v)| (n.to_string(), v)).collect())
}

fn prim(result: Result<GetOutput, GetError>) -> Vec<Option<u64>> {
    match result.unwrap() {
        GetOutput::Primitive(a) => (0..a.len())
            .map(|i| if a.is_null(i) { None } else { Some(a.value(i)) })
            .collect(),
        GetOutput::Variant(_) => panic!("expected a primitive column"),
    }
}

fn var(result: Result<GetOutput, GetError>) -> VariantArray {
    match result.unwrap() {
        GetOutput::Variant(a) => a,
        GetOutput::Primitive(_) => panic!("expected a variant column"),
    }
}

#[test]
fn primitive_u64() {
    let variant_array = one_row(VariantValue::Int64(1234));
    let result = variant_get(&variant_array, options(vec![], Some(TargetType::UInt64)));
    let result = match result.unwrap() {
        GetOutput::Primitive(a) => a,
        GetOutput::Variant(_) => panic!("expected a primitive column"),
    };
    let mut has_null = false;
    let mut values: Vec<u64> = Vec::new();
    for i in 0..result.len() {
        if result.is_null(i) {
            has_null = true;
        } else {
            values.push(result.value(i));
        }
    }
    assert!(!has_null);
    assert_eq!(values, vec![1234]);
}

#[test]
fn scalar_field_of_object() {
    let array = one_row(object(vec![("some_field", VariantValue::Int64(1234))]));
    let out = var(variant_get(&array, options(vec![VariantPathElement::field("some_field".to_string())], None)));
    assert_eq!(out.len(), 1);
    assert!(!out.is_null(0));
    assert!(matches!(out.value(0), Some(VariantValue::Int64(1234))));
}

#[test]
fn nested_field_as_u64() {
    let inner = object(vec![("inner_field", VariantValue::Int64(1234))]);
    let array = one_row(object(vec![("top_level_field", inner)]));
    let path = vec![
        VariantPathElement::field("top_level_field".to_string()),
        VariantPathElement::field("inner_field".to_string()),
    ];
    let cells = prim(variant_get(&array, options(path, Some(TargetType::UInt64))));
    assert_eq!(cells, vec![Some(1234)]);
}

#[test]
fn variant_null_row_becomes_null() {
    let mut builder = VariantArrayBuilder::new(2);
    assert!(builder.append_variant(VariantValue::Int64(1234)));
    assert!(builder.append_variant(VariantValue::Null));
    let array = builder.build();
    let cells = prim(variant_get(&array, options(vec![], Some(TargetType::UInt64))));
    assert_eq!(cells, vec![Some(1234), None]);
}

#[test]
fn list_index_as_u64() {
    let list = VariantValue::List(vec![
        VariantValue::Int64(10),
        VariantValue::Int64(20),
        VariantValue::Int64(30),
    ]);
    let array = one_row(list);
    let cells = prim(variant_get(&array, options(vec![VariantPathElement::index(1)], Some(TargetType::UInt64))));
    assert_eq!(cells, vec![Some(20)]);
    let cells = prim(variant_get(&array, options(vec![VariantPathElement::index(5)], Some(TargetType::UInt64))));
    assert_eq!(cells, vec![None]);
}

#[test]
fn field_miss_nulls_only_that_row() {
    let mut builder = VariantArrayBuilder::new(3);
    assert!(builder.append_variant(VariantValue::List(vec![VariantValue::Int64(1)])));
    assert!(builder.append_variant(object(vec![("x", VariantValue::Int64(7))])));
    assert!(builder.append_variant(object(vec![("y", VariantValue::Int64(8))])));
    let array = builder.build();
    let path = vec![VariantPathElement::field("x".to_string())];
    let cells = prim(variant_get(&array, options(path, Some(TargetType::UInt64))));
    assert_eq!(cells, vec![None, Some(7), None]);
}

#[test]
fn index_miss_on_scalar_is_null() {
    let array = one_row(VariantValue::Int64(5));
    let cells = prim(variant_get(&array, options(vec![VariantPathElement::index(0)], Some(TargetType::UInt64))));
    assert_eq!(cells, vec![None]);
}

#[test]
fn source_null_rows_stay_null() {
    let mut builder = VariantArrayBuilder::new(3);
    builder.append_null();
    assert!(builder.append_variant(object(vec![("x", VariantValue::Int64(3))])));
    builder.append_null();
    let array = builder.build();
    let path = vec![VariantPathElement::field("x".to_string())];
    let cells = prim(variant_get(&array, options(path, Some(TargetType::UInt64))));
    assert_eq!(cells, vec![None, Some(3), None]);
}

#[test]
fn empty_path_variant_output_is_identity() {
    let mut builder = VariantArrayBuilder::new(3);
    assert!(builder.append_variant(VariantValue::Int64(42)));
    builder.append_null();
    assert!(builder.append_variant(object(vec![("a", VariantValue::Bool(true))])));
    let array = builder.build();
    let out = var(variant_get(&array, options(vec![], None)));
    assert_eq!(out.len(), 3);
    assert!(matches!(out.value(0), Some(VariantValue::Int64(42))));
    assert!(out.is_null(1));
    match out.value(2) {
        Some(VariantValue::Object(fields)) => {
            assert_eq!(fields.len(), 1);
            assert_eq!(fields[0].0, "a");
            assert!(matches!(fields[0].1, VariantValue::Bool(true)));
        }
        other => panic!("row 2 decoded to {:?}", other),
    }
}

#[test]
fn strategies_agree() {
    let mut builder = VariantArrayBuilder::new(4);
    assert!(builder.append_variant(object(vec![(
        "a",
        VariantValue::List(vec![VariantValue::Int64(10), VariantValue::Int64(20)]),
    )])));
    builder.append_null();
    assert!(builder.append_variant(object(vec![("a", VariantValue::Int64(9))])));
    assert!(builder.append_variant(VariantValue::Bool(false)));
    let array = builder.build();
    let path = vec![VariantPathElement::field("a".to_string()), VariantPathElement::index(1)];
    let fast = prim(variant_get(&array, options(path.clone(), Some(TargetType::UInt64))));
    let slow = prim(variant_get_rowise(&array, options(path, Some(TargetType::UInt64))));
    assert_eq!(fast, slow);
    assert_eq!(fast, vec![Some(20), None, None, None]);
}

#[test]
fn repeated_invocations_agree() {
    let array = one_row(object(vec![("k", VariantValue::Int64(77))]));
    let path = vec![VariantPathElement::field("k".to_string())];
    let first = prim(variant_get(&array, options(path.clone(), Some(TargetType::UInt64))));
    let second = prim(variant_get(&array, options(path, Some(TargetType::UInt64))));
    assert_eq!(first, second);
}

#[test]
fn null_count_grows_under_nonempty_path() {
    let mut builder = VariantArrayBuilder::new(3);
    builder.append_null();
    assert!(builder.append_variant(object(vec![("x", VariantValue::Int64(1))])));
    assert!(builder.append_variant(VariantValue::Int64(2)));
    let array = builder.build();
    let path = vec![VariantPathElement::field("x".to_string())];
    let cells = prim(variant_get(&array, options(path, Some(TargetType::UInt64))));
    let nulls_in = 1;
    let nulls_out = cells.iter().filter(|c| c.is_none()).count();
    assert!(nulls_out >= nulls_in);
    assert_eq!(cells, vec![None, Some(1), None]);
}

#[test]
fn unsupported_target_type_is_rejected() {
    let array = one_row(VariantValue::Int64(1));
    let err = variant_get(&array, options(vec![], Some(TargetType::Int64))).unwrap_err();
    assert_eq!(err, GetError::NotYetImplemented);
    let err = variant_get_rowise(&array, options(vec![], Some(TargetType::Boolean))).unwrap_err();
    assert_eq!(err, GetError::NotYetImplemented);
}

#[test]
fn cast_mismatch_errors_when_unsafe() {
    let array = one_row(VariantValue::Bool(true));
    let opts = GetOptions {
        path: VariantPath::new(vec![]),
        as_type: Some(TargetType::UInt64),
        cast_options: CastOptions { safe: false },
    };
    assert_eq!(variant_get(&array, opts.clone()).unwrap_err(), GetError::Cast);
    assert_eq!(variant_get_rowise(&array, opts).unwrap_err(), GetError::Cast);
}

#[test]
fn cast_mismatch_nulls_when_safe() {
    let array = one_row(VariantValue::Bool(true));
    let cells = prim(variant_get(&array, options(vec![], Some(TargetType::UInt64))));
    assert_eq!(cells, vec![None]);
}

#[test]
fn negative_integer_is_a_mismatch() {
    let array = one_row(VariantValue::Int64(-5));
    let cells = prim(variant_get(&array, options(vec![], Some(TargetType::UInt64))));
    assert_eq!(cells, vec![None]);
    let opts = GetOptions {
        path: VariantPath::new(vec![]),
        as_type: Some(TargetType::UInt64),
        cast_options: CastOptions { safe: false },
    };
    assert_eq!(variant_get(&array, opts).unwrap_err(), GetError::Cast);
}

#[test]
fn corrupt_bytes_are_an_error_not_a_null() {
    let array = VariantArray::from_parts(vec![], vec![vec![250, 7]], vec![true]);
    let err = variant_get(&array, options(vec![], Some(TargetType::UInt64))).unwrap_err();
    assert_eq!(err, GetError::Invalid);
    let array = VariantArray::from_parts(vec![], vec![vec![]], vec![true]);
    let err = variant_get_rowise(&array, options(vec![], None)).unwrap_err();
    assert_eq!(err, GetError::Invalid);
}

#[test]
fn large_integers_round_trip() {
    let mut builder = VariantArrayBuilder::new(2);
    assert!(builder.append_variant(VariantValue::Int64(i64::MAX)));
    assert!(builder.append_variant(VariantValue::Int64(0)));
    let array = builder.build();
    let cells = prim(variant_get(&array, options(vec![], Some(TargetType::UInt64))));
    assert_eq!(cells, vec![Some(i64::MAX as u64), Some(0)]);
}

#[test]
fn variant_output_of_field_strategies_agree() {
    let array = one_row(object(vec![(
        "a",
        object(vec![("b", VariantValue::Int64(11))]),
    )]));
    let path = vec![VariantPathElement::field("a".to_string())];
    let fast = var(variant_get(&array, options(path.clone(), None)));
    let slow = var(variant_get_rowise(&array, options(path, None)));
    assert_eq!(fast.len(), slow.len());
    match (fast.value(0), slow.value(0)) {
        (Some(VariantValue::Object(f1)), Some(VariantValue::Object(f2))) => {
            assert_eq!(f1.len(), 1);
            assert_eq!(f2.len(), 1);
            assert_eq!(f1[0].0, f2[0].0);
            assert!(matches!(f1[0].1, VariantValue::Int64(11)));
            assert!(matches!(f2[0].1, VariantValue::Int64(11)));
        }
        other => panic!("unexpected decoded rows {:?}", other),
    }
}

#[test]
fn path_construction_round_trips() {
    let elements = vec![
        VariantPathElement::field("outer".to_string()),
        VariantPathElement::index(3),
    ];
    let path = VariantPath::from(elements);
    assert_eq!(path.path().len(), 2);
    match &path.path()[0] {
        VariantPathElement::Field { name } => assert_eq!(name, "outer"),
        other => panic!("expected a field accessor, got {:?}", other),
    }
    match &path.path()[1] {
        VariantPathElement::Index { index } => assert_eq!(*index, 3),
        other => panic!("expected an index accessor, got {:?}", other),
    }
}

#[test]
fn builder_reports_rows_and_nulls() {
    let mut builder = VariantArrayBuilder::new(2);
    builder.append_null();
    assert!(builder.append_variant(VariantValue::Bool(false)));
    let array = builder.build();
    assert_eq!(array.len(), 2);
    assert!(array.is_null(0));
    assert!(!array.is_null(1));
    assert!(array.value(0).is_none());
    assert!(matches!(array.value(1), Some(VariantValue::Bool(false))));
}
