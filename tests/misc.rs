use rw_exec::data_directory::{data_directory_ok, is_correct_data_directory};
use rw_exec::es_config::{index_column_position, validate_config, ElasticSearchOpenSearchConfig, SinkConfigError};
use rw_exec::id::{IdGenerator, IdGeneratorManager, ID_CATEGORY_ACTOR, ID_CATEGORY_FRAGMENT, ID_CATEGORY_TABLE};
use rw_exec::plan::{PlanInfo, RecursiveUnion};
use rw_exec::types::{DataType, Field, Schema};

#[test]
fn id_generator_hands_out_intervals() {
    let mut g: IdGenerator<ID_CATEGORY_FRAGMENT> = IdGenerator::new(10);
    assert_eq!(g.generate_interval(3), 10);
    assert_eq!(g.generate_interval(1), 13);
    assert_eq!(g.generate_interval(0), 14);
    assert_eq!(g.next, 14);
}

#[test]
fn table_ids_start_at_zero() {
    let mut g: IdGenerator<ID_CATEGORY_TABLE> = IdGenerator::new(99);
    assert_eq!(g.generate_interval(1), 0);
}

#[test]
fn id_generator_wraps_around() {
    let mut g: IdGenerator<ID_CATEGORY_ACTOR> = IdGenerator::new(0);
    g.next = u64::MAX - 1;
    assert_eq!(g.generate_interval(3), u64::MAX - 1);
    assert_eq!(g.next, 1);
}

#[test]
fn manager_advances_one_category() {
    let mut m = IdGeneratorManager::new(100, 200);
    assert_eq!(m.generate::<ID_CATEGORY_TABLE>(), 0);
    assert_eq!(m.generate::<ID_CATEGORY_FRAGMENT>(), 100);
    assert_eq!(m.generate_interval::<ID_CATEGORY_ACTOR>(5), 200);
    assert_eq!(m.generate::<ID_CATEGORY_ACTOR>(), 205);
    assert_eq!(m.generate::<ID_CATEGORY_FRAGMENT>(), 101);
    assert_eq!(m.tables.next, 1);
}

fn schema2() -> Schema {
    Schema {
        fields: vec![
            Field::with_name(DataType::Int32, "a".to_string()),
            Field::with_name(DataType::Varchar, "b".to_string()),
        ],
    }
}

#[test]
fn recursive_union_adds_iteration_column() {
    let node = RecursiveUnion {
        base: PlanInfo { schema: schema2(), stream_key: Some(vec![1]) },
        recursive: PlanInfo { schema: schema2(), stream_key: None },
    };
    let s = node.schema();
    let names: Vec<&str> = s.fields.iter().map(|f| f.name.as_str()).collect();
    assert_eq!(names, vec!["a", "b", "$iter"]);
    assert_eq!(s.fields[2].data_type, DataType::Int16);
    assert_eq!(node.stream_key(), Some(vec![1, 2]));
    let unkeyed = RecursiveUnion {
        base: PlanInfo { schema: schema2(), stream_key: None },
        recursive: PlanInfo { schema: schema2(), stream_key: Some(vec![0]) },
    };
    assert_eq!(unkeyed.stream_key(), None);
}

fn config(index: Option<&str>, index_column: Option<usize>) -> ElasticSearchOpenSearchConfig {
    ElasticSearchOpenSearchConfig {
        url: "http://localhost:9200".to_string(),
        index: index.map(|s| s.to_string()),
        delimiter: None,
        username: "user".to_string(),
        password: "SECRET-REDACTED".to_string(),
        index_column,
    }
}

#[test]
fn es_config_needs_exactly_one_index_choice() {
    let s = schema2();
    assert_eq!(validate_config(&config(None, None), &s), Err(SinkConfigError::IndexOrIndexColumn));
    assert_eq!(
        validate_config(&config(Some("i"), Some(1)), &s),
        Err(SinkConfigError::IndexOrIndexColumn)
    );
    assert_eq!(validate_config(&config(Some("i"), None), &s), Ok(()));
}

#[test]
fn es_index_column_must_be_varchar() {
    let s = schema2();
    assert_eq!(validate_config(&config(None, Some(1)), &s), Ok(()));
    assert_eq!(
        validate_config(&config(None, Some(0)), &s),
        Err(SinkConfigError::IndexColumnNotVarchar { index_column: 0 })
    );
}

#[test]
fn index_column_is_found_by_name() {
    let s = schema2();
    assert_eq!(index_column_position(&s, &"b".to_string()), Some(1));
    assert_eq!(index_column_position(&s, &"c".to_string()), None);
}

#[test]
fn data_directory_rules() {
    assert!(is_correct_data_directory("hummock_001"));
    assert!(is_correct_data_directory("a/b-c/d_e"));
    assert!(!is_correct_data_directory(""));
    assert!(!is_correct_data_directory("/abs"));
    assert!(!is_correct_data_directory("trailing/"));
    assert!(!is_correct_data_directory("a//b"));
    assert!(!is_correct_data_directory("has space"));
    assert!(!is_correct_data_directory("dollar$"));
    assert!(!is_correct_data_directory("caf\u{e9}"));
    assert!(is_correct_data_directory(&"x".repeat(800)));
    assert!(!is_correct_data_directory(&"x".repeat(801)));
}

#[test]
fn data_directory_layout_given_the_pattern_result() {
    assert!(data_directory_ok("a/b", true));
    assert!(!data_directory_ok("a/b", false));
    assert!(!data_directory_ok("a//b", true));
    assert!(!data_directory_ok("", true));
}
