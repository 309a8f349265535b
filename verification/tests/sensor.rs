use exercises::sensor::{reading_delay_ms, sensor_reading_count, SLOW_SENSOR_ID};

#[test]
fn slow_sensor_stalls_before_its_last_reading() {
    assert_eq!(reading_delay_ms(SLOW_SENSOR_ID, 6, 7), 500);
    assert_eq!(reading_delay_ms(SLOW_SENSOR_ID, 5, 7), 100);
    assert_eq!(reading_delay_ms(1, 6, 7), 100);
    assert_eq!(reading_delay_ms(3, 0, 5), 100);
    assert_eq!(reading_delay_ms(SLOW_SENSOR_ID, i32::MIN, i32::MIN), 100);
}

#[test]
fn reading_count_is_in_range() {
    for _ in 0..200 {
        let count = sensor_reading_count();
        assert!((5..=10).contains(&count));
    }
}
