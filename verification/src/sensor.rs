//! The schedule of a simulated temperature sensor: how many readings it
//! sends and how long it waits before each.

use vstd::prelude::*;

verus! {

/// The sensor that stalls before its last reading.
pub const SLOW_SENSOR_ID: u32 = 2;

/// The fewest and the most readings a sensor sends in a run.
pub const MIN_READINGS: i32 = 5;
pub const MAX_READINGS: i32 = 10;

/// The pause before an ordinary reading, and before the slow sensor's last.
pub const READING_DELAY_MS: u64 = 100;
pub const STALL_DELAY_MS: u64 = 500;

/// `rand::random_range(low..=high)`.  Trusted: the value lies in the range
/// (the range must not be empty); which value comes is chance.
#[verifier::external_body]
fn random_i32_inclusive(low: i32, high: i32) -> (r: i32)
    requires
        low <= high,
    ensures
        low <= r <= high,
{
    rand::random_range(low..=high)
}

/// The number of readings of a sensor's run, drawn at random: the sensor
/// sends the readings numbered from 0 to one less than this number.
pub fn sensor_reading_count() -> (r: i32)
    ensures
        MIN_READINGS <= r <= MAX_READINGS,
{
    random_i32_inclusive(MIN_READINGS, MAX_READINGS)
}

/// How long a sensor waits before sending reading `sequence_num` of a run
/// of `count` readings.
pub open spec fn delay_for(id: u32, sequence_num: i32, count: i32) -> u64 {
    if id == SLOW_SENSOR_ID && sequence_num == count - 1 {
        STALL_DELAY_MS
    } else {
        READING_DELAY_MS
    }
}

/// The pause, in milliseconds, before sensor `id` sends reading
/// `sequence_num` of a run of `count` readings: the slow sensor stalls
/// before its last reading.
pub fn reading_delay_ms(id: u32, sequence_num: i32, count: i32) -> (ms: u64)
    ensures
        ms == delay_for(id, sequence_num, count),
        id != SLOW_SENSOR_ID ==> ms == READING_DELAY_MS,
        (ms == STALL_DELAY_MS) == (id == SLOW_SENSOR_ID && sequence_num == count - 1),
        ms == STALL_DELAY_MS || ms == READING_DELAY_MS,
{
    proof {
        lemma_only_slow_sensor_stalls(id, sequence_num, count);
    }
    if id == SLOW_SENSOR_ID && sequence_num as i64 == count as i64 - 1 {
        STALL_DELAY_MS
    } else {
        READING_DELAY_MS
    }
}

/// Only the slow sensor ever stalls, and only before its last reading;
/// every other pause, of every sensor, is the ordinary one.
pub proof fn lemma_only_slow_sensor_stalls(id: u32, sequence_num: i32, count: i32)
    ensures
        id != SLOW_SENSOR_ID ==> delay_for(id, sequence_num, count) == READING_DELAY_MS,
        (delay_for(id, sequence_num, count) == STALL_DELAY_MS) == (id == SLOW_SENSOR_ID && sequence_num == count - 1),
        delay_for(id, sequence_num, count) == STALL_DELAY_MS || delay_for(id, sequence_num, count) == READING_DELAY_MS,
{
}

} // verus!
