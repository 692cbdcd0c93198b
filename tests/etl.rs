use dining_philosophers::{extract_transform_load, transform_value, RawData};

#[test]
fn test_transform_value() {
    assert_eq!(transform_value(-10).unwrap(), 0); // Negative values capped at 0
    assert_eq!(transform_value(50).unwrap(), 50); // Valid value unchanged
    assert_eq!(transform_value(150).unwrap(), 100); // Values over 100 capped at 100
}

#[test]
fn test_etl_process() {
    let raw = vec![
        RawData { id: 1, value: -20 },
        RawData { id: 2, value: 120 },
        RawData { id: 3, value: 80 },
    ];
    let cleaned = extract_transform_load(raw).unwrap();

    assert_eq!(cleaned.len(), 3);
    assert_eq!(cleaned[0].value, 0); // Negative value transformed
    assert_eq!(cleaned[1].value, 100); // Outlier capped
    assert_eq!(cleaned[2].value, 80); // Valid value unchanged

    // Verify total and average
    let total: i32 = cleaned.iter().map(|data| data.value).sum();
    let average: f32 = total as f32 / cleaned.len() as f32;

    assert_eq!(total, 180);
    assert!((average - 60.0).abs() < f32::EPSILON); // Allowing for floating-point comparison
}

#[test]
fn transform_value_keeps_bounds() {
    assert_eq!(transform_value(0).unwrap(), 0);
    assert_eq!(transform_value(100).unwrap(), 100);
    assert_eq!(transform_value(101).unwrap(), 100);
    assert_eq!(transform_value(-1).unwrap(), 0);
    assert_eq!(transform_value(i32::MIN).unwrap(), 0);
    assert_eq!(transform_value(i32::MAX).unwrap(), 100);
}

#[test]
fn etl_keeps_ids_and_order() {
    let raw = vec![RawData { id: 7, value: 5 }, RawData { id: 3, value: -1 }];
    let cleaned = extract_transform_load(raw).unwrap();
    assert_eq!(cleaned.len(), 2);
    assert_eq!((cleaned[0].id, cleaned[0].value), (7, 5));
    assert_eq!((cleaned[1].id, cleaned[1].value), (3, 0));
    assert!(extract_transform_load(Vec::new()).unwrap().is_empty());
}
