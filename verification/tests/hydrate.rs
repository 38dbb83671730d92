use iceaxe::hydrate::ColumnDescriptor;
use iceaxe::hydrate::ComputedDescriptor;
use iceaxe::hydrate::Diagnostic;
use iceaxe::hydrate::EntityDescriptor;
use iceaxe::hydrate::FieldDescriptor;
use iceaxe::hydrate::HydrateError;
use iceaxe::hydrate::HydratedRow;
use iceaxe::hydrate::HydratedValue;
use iceaxe::hydrate::ProjectionElement;
use iceaxe::hydrate::Row;
use iceaxe::hydrate::hydrate;
use iceaxe::value::Value;

fn bv(s: &str) -> Vec<u8> {
    s.as_bytes().to_vec()
}

fn field(name: &str, excluded: bool, payload: bool) -> FieldDescriptor {
    FieldDescriptor {
        name: bv(name),
        excluded,
        is_structured_payload: payload,
    }
}

fn row(entries: Vec<(&str, Value)>) -> Row {
    Row {
        entries: entries.into_iter().map(|(k, v)| (bv(k), v)).collect(),
    }
}

fn column(key: &str) -> ProjectionElement {
    ProjectionElement::Column(ColumnDescriptor { key: bv(key) })
}

fn computed(name: &str) -> ProjectionElement {
    ProjectionElement::Computed(ComputedDescriptor {
        local_name: bv(name),
    })
}

#[test]
fn entity_with_structured_payload() {
    // One entity element over Person(id, meta), meta carried as JSON text.
    let projection = vec![ProjectionElement::Entity(EntityDescriptor {
        entity_name: bv("Person"),
        fields: vec![field("id", false, false), field("meta", false, true)],
    })];
    let rows = vec![row(vec![
        ("id", Value::Int(7)),
        ("meta", Value::Text(bv("{\"a\":1}"))),
    ])];
    let out = hydrate(&projection, &rows).unwrap();
    assert_eq!(out.rows.len(), 1);
    assert!(out.diagnostics.is_empty());
    match &out.rows[0] {
        HydratedRow::Single(HydratedValue::Entity(inst)) => {
            assert_eq!(inst.entity_name, bv("Person"));
            assert_eq!(
                inst.kwargs,
                vec![
                    (bv("id"), Value::Int(7)),
                    (bv("meta"), Value::Object(vec![(bv("a"), Value::Int(1))])),
                ]
            );
        }
        other => panic!("expected a bare entity, got {:?}", other),
    }
}

#[test]
fn column_present_and_missing() {
    // One column over two rows; the second row lacks the key.
    let projection = vec![column("age")];
    let rows = vec![
        row(vec![("age", Value::Int(30))]),
        row(vec![("name", Value::Text(bv("x")))]),
    ];
    let out = hydrate(&projection, &rows).unwrap();
    assert_eq!(out.rows.len(), 2);
    assert_eq!(
        out.rows[0],
        HydratedRow::Single(HydratedValue::Plain(Value::Int(30)))
    );
    // The missing key contributes no value: the second row's output is an
    // empty tuple, and the miss is recorded.
    assert_eq!(out.rows[1], HydratedRow::Tuple(vec![]));
    assert_eq!(out.diagnostics, vec![Diagnostic::ColumnMissing { key: bv("age") }]);
}

#[test]
fn column_and_computed_pair() {
    let projection = vec![column("x"), computed("cnt")];
    let rows = vec![row(vec![("x", Value::Int(1)), ("cnt", Value::Int(5))])];
    let out = hydrate(&projection, &rows).unwrap();
    assert_eq!(
        out.rows,
        vec![HydratedRow::Tuple(vec![
            HydratedValue::Plain(Value::Int(1)),
            HydratedValue::Plain(Value::Int(5)),
        ])]
    );
    assert!(out.diagnostics.is_empty());
}

#[test]
fn order_preserved_across_batch() {
    let projection = vec![column("v")];
    let rows = vec![
        row(vec![("v", Value::Int(10))]),
        row(vec![("v", Value::Int(20))]),
        row(vec![("v", Value::Int(30))]),
    ];
    let out = hydrate(&projection, &rows).unwrap();
    assert_eq!(out.rows.len(), 3);
    for (i, expected) in [10i64, 20, 30].iter().enumerate() {
        assert_eq!(
            out.rows[i],
            HydratedRow::Single(HydratedValue::Plain(Value::Int(*expected)))
        );
    }
}

#[test]
fn single_element_collapses_to_bare_value() {
    let projection = vec![column("x")];
    let rows = vec![row(vec![("x", Value::Bool(true))])];
    let out = hydrate(&projection, &rows).unwrap();
    assert!(matches!(out.rows[0], HydratedRow::Single(_)));
}

#[test]
fn multi_element_order_matches_projection() {
    let projection = vec![column("a"), column("b"), column("c")];
    let rows = vec![row(vec![
        ("c", Value::Int(3)),
        ("a", Value::Int(1)),
        ("b", Value::Int(2)),
    ])];
    let out = hydrate(&projection, &rows).unwrap();
    assert_eq!(
        out.rows[0],
        HydratedRow::Tuple(vec![
            HydratedValue::Plain(Value::Int(1)),
            HydratedValue::Plain(Value::Int(2)),
            HydratedValue::Plain(Value::Int(3)),
        ])
    );
}

#[test]
fn excluded_field_never_read() {
    // The excluded field's key is present and holds a value that would be a
    // fatal payload error if it were read; hydration must ignore it.
    let projection = vec![ProjectionElement::Entity(EntityDescriptor {
        entity_name: bv("Person"),
        fields: vec![field("id", false, false), field("secret", true, true)],
    })];
    let rows = vec![row(vec![
        ("id", Value::Int(1)),
        ("secret", Value::Int(999)),
    ])];
    let out = hydrate(&projection, &rows).unwrap();
    assert!(out.diagnostics.is_empty());
    match &out.rows[0] {
        HydratedRow::Single(HydratedValue::Entity(inst)) => {
            assert_eq!(inst.kwargs, vec![(bv("id"), Value::Int(1))]);
        }
        other => panic!("expected a bare entity, got {:?}", other),
    }
}

#[test]
fn entity_field_missing_is_omitted_with_diagnostic() {
    let projection = vec![ProjectionElement::Entity(EntityDescriptor {
        entity_name: bv("Person"),
        fields: vec![field("id", false, false), field("nick", false, false)],
    })];
    let rows = vec![row(vec![("id", Value::Int(4))])];
    let out = hydrate(&projection, &rows).unwrap();
    match &out.rows[0] {
        HydratedRow::Single(HydratedValue::Entity(inst)) => {
            assert_eq!(inst.kwargs, vec![(bv("id"), Value::Int(4))]);
        }
        other => panic!("expected a bare entity, got {:?}", other),
    }
    assert_eq!(
        out.diagnostics,
        vec![Diagnostic::FieldMissing { field: bv("nick") }]
    );
}

#[test]
fn missing_keys_never_abort_the_batch() {
    let projection = vec![column("a"), computed("b")];
    let rows = vec![row(vec![]), row(vec![("a", Value::Null)]), row(vec![])];
    let out = hydrate(&projection, &rows).unwrap();
    assert_eq!(out.rows.len(), 3);
    assert_eq!(out.diagnostics.len(), 5);
}

#[test]
fn payload_not_text_is_fatal() {
    let projection = vec![ProjectionElement::Entity(EntityDescriptor {
        entity_name: bv("Doc"),
        fields: vec![field("meta", false, true)],
    })];
    let rows = vec![row(vec![("meta", Value::Int(3))])];
    let err = hydrate(&projection, &rows).unwrap_err();
    assert_eq!(err, HydrateError::PayloadNotText { field: bv("meta") });
}

#[test]
fn malformed_payload_is_fatal() {
    let projection = vec![ProjectionElement::Entity(EntityDescriptor {
        entity_name: bv("Doc"),
        fields: vec![field("meta", false, true)],
    })];
    let rows = vec![
        row(vec![("meta", Value::Text(bv("{\"a\":1}")))]),
        row(vec![("meta", Value::Text(bv("{broken")))]),
    ];
    let err = hydrate(&projection, &rows).unwrap_err();
    assert_eq!(err, HydrateError::PayloadMalformed { field: bv("meta") });
}

#[test]
fn row_lookup_takes_first_match() {
    let projection = vec![column("k")];
    let rows = vec![row(vec![("k", Value::Int(1)), ("k", Value::Int(2))])];
    let out = hydrate(&projection, &rows).unwrap();
    assert_eq!(
        out.rows[0],
        HydratedRow::Single(HydratedValue::Plain(Value::Int(1)))
    );
}

#[test]
fn empty_projection_and_empty_batch() {
    let projection: Vec<ProjectionElement> = vec![];
    let rows = vec![row(vec![("a", Value::Int(1))])];
    let out = hydrate(&projection, &rows).unwrap();
    assert_eq!(out.rows, vec![HydratedRow::Tuple(vec![])]);

    let no_rows: Vec<Row> = vec![];
    let out2 = hydrate(&vec![column("a")], &no_rows).unwrap();
    assert!(out2.rows.is_empty());
    assert!(out2.diagnostics.is_empty());
}
