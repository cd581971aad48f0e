//! Judgments as the cells of a column.
use std::sync::Arc;

use arrow::array::{Array, AsArray};
use arrow::datatypes::{DataType, Field, Float64Type};
use jev_datafusion::arrow_json::{
    accept_reading, build_array, choice_type, column_cells, normalize_value, try_build_array,
    ArrowField, ArrowType, ColumnCells, ColumnField, NestedReading, OtherType,
};
use jev_datafusion::json::JsonValue;
use jev_datafusion::parse::parse_value;

fn outside_type(data_type: &ArrowType) -> DataType {
    match data_type {
        ArrowType::Utf8 => DataType::Utf8,
        ArrowType::Float64 => DataType::Float64,
        ArrowType::Struct(fields) => DataType::Struct(fields.iter().map(outside).collect()),
        ArrowType::Mapping(entries, sorted) => DataType::Map(Arc::new(outside(entries)), *sorted),
        ArrowType::Other(_) => DataType::Int64,
    }
}

fn outside(field: &ArrowField) -> Field {
    Field::new(&field.name, outside_type(&field.data_type), field.nullable)
}

fn column_field(name: &str, data_type: ArrowType) -> ColumnField {
    ColumnField::new(outside(&field(name, data_type)))
}

fn field(name: &str, data_type: ArrowType) -> ArrowField {
    ArrowField { name: name.into(), data_type, nullable: true, shown: "Shown".into() }
}

fn json(text: &str) -> JsonValue {
    parse_value(text).unwrap()
}

#[test]
fn text_and_number_cells() {
    let values = vec![JsonValue::Text("a".into()), JsonValue::Null];
    match column_cells(&field("f", ArrowType::Utf8), &values).unwrap() {
        ColumnCells::Text(cells) => assert_eq!(cells, vec![Some("a".to_owned()), None]),
        other => panic!("{other:?}"),
    }
    let column = build_array(&column_field("f", ArrowType::Utf8), &values).ok().unwrap();
    let texts: Vec<_> = column.array.as_string::<i32>().iter().collect();
    assert_eq!(texts, vec![Some("a"), None]);
    let values = vec![JsonValue::Number("0.25".into()), JsonValue::Null];
    match column_cells(&field("f", ArrowType::Float64), &values).unwrap() {
        ColumnCells::Number(cells) => assert_eq!(cells, vec![Some(0.25_f64.to_bits()), None]),
        other => panic!("{other:?}"),
    }
    let column = build_array(&column_field("f", ArrowType::Float64), &values).ok().unwrap();
    let numbers: Vec<_> = column.array.as_primitive::<Float64Type>().iter().collect();
    assert_eq!(numbers, vec![Some(0.25), None]);
}

#[test]
fn cells_of_the_wrong_type_are_errors() {
    let message = |data_type: ArrowType, value: &str| {
        let values = vec![JsonValue::Null, json(value)];
        build_array(&column_field("a\"b", data_type), &values).err().unwrap()
    };
    assert_eq!(
        message(ArrowType::Utf8, "true"),
        "row 1 field \"a\\\"b\": expected Utf8 string, got Bool(true)"
    );
    assert_eq!(
        message(ArrowType::Float64, "\"x\""),
        "row 1 field \"a\\\"b\": expected Float64 number"
    );
    assert_eq!(
        message(ArrowType::Other(OtherType::Plain("Int64".into())), "1"),
        "field \"a\\\"b\" has unsupported Arrow data type Int64"
    );
    assert!(message(choice_type(), "1").starts_with("row 1 field \"a\\\"b\": a\"b expected object"));
}

#[test]
fn nested_cells_are_lines_of_json() {
    let values = vec![
        json(r#"{"label":"b","confidence":1,"probabilities":{"b":1},"other":2}"#),
        JsonValue::Null,
    ];
    match column_cells(&field("choice", choice_type()), &values).unwrap() {
        ColumnCells::Lines(encoded) => assert_eq!(
            String::from_utf8(encoded).unwrap(),
            concat_lines(&[
                r#"{"choice":{"confidence":1.0,"label":"b","probabilities":{"b":1.0}}}"#,
                r#"{"choice":null}"#,
            ])
        ),
        other => panic!("{other:?}"),
    }
    let column = build_array(&column_field("choice", choice_type()), &values).ok().unwrap();
    let cells = column.array.as_struct();
    assert_eq!(column.array.len(), 2);
    assert!(cells.is_valid(0) && cells.is_null(1));
    assert_eq!(cells.column_by_name("label").unwrap().as_string::<i32>().value(0), "b");
    let chances = cells.column_by_name("probabilities").unwrap().as_map().value(0);
    assert_eq!(chances.column(0).as_string::<i32>().value(0), "b");
    assert_eq!(chances.column(1).as_primitive::<Float64Type>().value(0), 1.0);
    let none = build_array(&column_field("choice", choice_type()), &Vec::new()).ok().unwrap();
    assert_eq!(none.array.len(), 0);
    assert!(matches!(none.array.data_type(), DataType::Struct(_)));
}

fn concat_lines(lines: &[&str]) -> String {
    lines.join("\n")
}

#[test]
fn values_are_normalized_by_type() {
    let entries = field(
        "entries",
        ArrowType::Struct(vec![field("key", ArrowType::Utf8), field("value", ArrowType::Float64)]),
    );
    let map = field("m", ArrowType::Mapping(Box::new(entries), false));
    let value = normalize_value(&json(r#"{"a":1,"b":null}"#), &map, "m").unwrap();
    assert_eq!(value.member("a"), JsonValue::Number("1.0".into()));
    assert_eq!(value.member("b"), JsonValue::Null);
    assert!(normalize_value(&json(r#"{"a":"x"}"#), &map, "m")
        .unwrap_err()
        .starts_with("m.a expected Float64 number, got String(\"x\")"));
}

#[test]
fn readings_must_use_every_line() {
    let empty = || build_array(&column_field("f", ArrowType::Utf8), &Vec::new()).ok().unwrap();
    let read = |consumed, rows| NestedReading::Done(consumed, rows, empty());
    assert!(accept_reading("f", read(10, 2), 10, 2).is_ok());
    let message = |reading| accept_reading("f", reading, 10, 2).err().unwrap();
    assert_eq!(message(read(9, 2)), "nested field \"f\" did not consume every row");
    assert_eq!(message(read(10, 1)), "nested field \"f\" produced 1 rows for 2 inputs");
    assert_eq!(
        message(NestedReading::Unbuilt("x".into())),
        "failed to build nested decoder: x"
    );
    assert_eq!(
        message(NestedReading::Undecoded("x".into())),
        "failed to decode nested field \"f\": x"
    );
    assert_eq!(
        message(NestedReading::Unflushed(10, "x".into())),
        "failed to materialize nested field \"f\": x"
    );
    assert_eq!(
        message(NestedReading::Unflushed(9, "x".into())),
        "nested field \"f\" did not consume every row"
    );
}

#[test]
fn columns_keep_the_types_of_their_parts() {
    let parts = vec![
        Field::new("label", DataType::Utf8, true),
        Field::new("count", DataType::Int64, true),
        Field::new_list("list", Field::new_list_field(DataType::Boolean, true), true),
    ];
    let source = Field::new("c", DataType::Struct(parts.into()), true);
    let known = ColumnField::new(source.clone());
    match &known.plain.data_type {
        ArrowType::Struct(parts) => {
            match &parts[1].data_type {
                ArrowType::Other(OtherType::Plain(name)) => assert_eq!(name, "Int64"),
                other => panic!("{other:?}"),
            }
            match &parts[2].data_type {
                ArrowType::Other(OtherType::Listed(item)) => assert_eq!(item.shown, "Boolean"),
                other => panic!("{other:?}"),
            }
            assert_eq!(parts[1].shown, "Int64");
        }
        other => panic!("{other:?}"),
    }
    let values = vec![json(r#"{"label":"b"}"#)];
    let built = build_array(&known, &values).ok().unwrap();
    assert_eq!(built.array.data_type(), source.data_type());
    let values = vec![json(r#"{"count":1}"#)];
    assert_eq!(
        build_array(&known, &values).err().unwrap(),
        "row 0 field \"c\": c.count has unsupported nested Arrow type Int64"
    );
}

fn part_of(data_type: DataType) -> ColumnField {
    let parts = vec![Field::new("label", DataType::Utf8, true), Field::new("odd", data_type, true)];
    ColumnField::new(Field::new("c", DataType::Struct(parts.into()), true))
}

#[test]
fn parts_of_other_types_are_built_where_they_are_null() {
    let field = |data_type: DataType| Arc::new(Field::new("item", data_type, true));
    let values = vec![json(r#"{"label":"b"}"#), JsonValue::Null, json(r#"{"odd":null}"#)];
    for data_type in [
        DataType::Null,
        DataType::Int64,
        DataType::LargeUtf8,
        DataType::Decimal128(10, 2),
        DataType::FixedSizeBinary(3),
        DataType::FixedSizeList(field(DataType::Int8), 2),
        DataType::LargeList(field(DataType::Utf8)),
        DataType::ListView(field(DataType::Utf8)),
        DataType::RunEndEncoded(
            Arc::new(Field::new("run_ends", DataType::Int16, false)),
            field(DataType::Utf8),
        ),
    ] {
        let built = try_build_array(&part_of(data_type.clone()), &values).unwrap().ok().unwrap();
        assert_eq!(built.array.len(), 3);
        let odd = built.array.as_struct().column_by_name("odd").unwrap().clone();
        assert_eq!(odd.data_type(), &data_type);
        assert_eq!(odd.logical_null_count(), 3);
        let none = try_build_array(&part_of(data_type), &Vec::new()).unwrap().ok().unwrap();
        assert_eq!(none.array.len(), 0);
    }
    let key = Box::new(DataType::Int8);
    for data_type in [
        DataType::Dictionary(key, Box::new(DataType::Utf8)),
        DataType::Map(field(DataType::Utf8), true),
    ] {
        let error = build_array(&part_of(data_type), &values).err().unwrap();
        assert!(error.starts_with("failed to build nested decoder: "), "{error}");
    }
}

#[test]
fn columns_that_the_reader_does_not_survive_are_told_apart() {
    let field = |data_type: DataType| Arc::new(Field::new("item", data_type, true));
    let ends = |data_type: DataType| {
        DataType::RunEndEncoded(
            Arc::new(Field::new("run_ends", data_type, false)),
            field(DataType::Utf8),
        )
    };
    let large = DataType::FixedSizeList(field(DataType::Int8), i32::MAX);
    let map = |key: DataType| {
        let pair = vec![Field::new("key", key, false), Field::new("value", DataType::Utf8, true)];
        let entries = Field::new("entries", DataType::Struct(pair.into()), false);
        DataType::Map(Arc::new(entries), false)
    };
    let values = vec![json(r#"{"label":"b"}"#)];
    for (data_type, accepted) in [
        (ends(DataType::Int64), true),
        (ends(DataType::UInt8), false),
        (DataType::List(field(ends(DataType::Utf8))), false),
        (DataType::FixedSizeBinary(0), true),
        (DataType::FixedSizeBinary(-1), false),
        (DataType::FixedSizeList(field(DataType::Int8), 0), true),
        (DataType::FixedSizeList(field(DataType::Int8), -1), false),
        (DataType::FixedSizeList(field(large), i32::MAX), false),
        (map(DataType::Utf8), true),
        (map(DataType::Utf8View), true),
        (map(DataType::Decimal128(10, 2)), false),
    ] {
        let shown = format!("{data_type:?}");
        let result = try_build_array(&part_of(data_type), &values);
        assert_eq!(result.is_some(), accepted, "{shown}");
    }
    let errors = vec![json(r#"{"odd":"x"}"#)];
    let error = try_build_array(&part_of(ends(DataType::UInt8)), &errors).unwrap().err().unwrap();
    assert!(error.contains("c.odd has unsupported nested Arrow type"));
}
