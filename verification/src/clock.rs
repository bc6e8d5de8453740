//! The two things that the library asks of the machine: the time and a random number.
use std::collections::hash_map::{DefaultHasher, RandomState};
use std::hash::{BuildHasher, Hasher};
use std::time::{Duration, SystemTime, SystemTimeError, UNIX_EPOCH};
use vstd::prelude::*;

verus! {

/// `std::time::SystemTime`: a reading of the system clock.
#[verifier::external_type_specification]
#[verifier::external_body]
pub struct ExSystemTime(std::time::SystemTime);

/// `std::time::SystemTimeError`: the clock stands before the instant asked about.
#[verifier::external_type_specification]
#[verifier::external_body]
pub struct ExSystemTimeError(std::time::SystemTimeError);

/// `SystemTime::now`: whatever the clock shows.
#[verifier::external_body]
fn read_clock() -> (r: SystemTime) {
    SystemTime::now()
}

/// `SystemTime::duration_since` with the Unix epoch: the time that has passed since then.
/// Nothing is stated of it, as it depends on the clock.
#[verifier::external_body]
fn since_epoch(t: SystemTime) -> (r: Result<Duration, SystemTimeError>) {
    t.duration_since(UNIX_EPOCH)
}

/// `Duration::as_millis`: the whole milliseconds. Nothing is stated of them, as the
/// durations asked about depend on the clock.
#[verifier::external_body]
fn whole_millis(d: Duration) -> (r: u128) {
    d.as_millis()
}

/// `RandomState::new`: hash keys drawn at random.
#[verifier::external_body]
fn random_keys() -> (r: RandomState) {
    RandomState::new()
}

/// `BuildHasher::build_hasher` on `RandomState`: a hasher with those keys.
#[verifier::external_body]
fn keyed_hasher(keys: RandomState) -> (r: DefaultHasher) {
    keys.build_hasher()
}

/// The timestamp that stands for a number of milliseconds: its low 32 bits.
pub fn timestamp_of_millis(millis: u128) -> (r: u32)
    ensures
        r == millis % 0x1_0000_0000,
{
    (millis % 0x1_0000_0000) as u32
}

/// The timestamp that stands for a reading of the clock, in milliseconds since the Unix epoch.
/// There is no reading where the clock stands before the epoch; that counts as the epoch itself.
pub fn timestamp_of_reading(millis: Option<u128>) -> (r: u32)
    ensures
        r == (match millis {
            Some(ms) => ms % 0x1_0000_0000,
            None => 0,
        }),
{
    match millis {
        Some(ms) => timestamp_of_millis(ms),
        None => 0,
    }
}

/// Get current timestamp in milliseconds. Whatever the clock shows, the result is what
/// [`timestamp_of_reading`] makes of it; as any timestamp can come of that, nothing more is
/// stated.
pub fn current_timestamp() -> (r: u32) {
    let reading = match since_epoch(read_clock()) {
        Ok(d) => Some(whole_millis(d)),
        Err(_) => None,
    };
    timestamp_of_reading(reading)
}

/// Sixty-four bits from the entropy that seeds hashing. They are drawn at random, so nothing is
/// stated of them.
pub fn random_bits() -> (r: u64) {
    keyed_hasher(random_keys()).finish()
}

} // verus!
