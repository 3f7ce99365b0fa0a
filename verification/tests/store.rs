use oracle::error::OracleError;
use oracle::oracle::{copy_keys, DataFeedGet, NewData, Oracle};
use oracle::ring::RING_BUF_LEN;
use oracle::value::{Fixed, Info, NumberType, Operations, PrimitiveOracleType};

const ONE: u128 = 1_000_000_000_000_000_000;

fn whole(n: u128) -> PrimitiveOracleType {
    PrimitiveOracleType::U128(n)
}

fn dec(inner: u128) -> PrimitiveOracleType {
    PrimitiveOracleType::FixedU128(Fixed::from_inner(inner))
}

fn key(s: &str) -> Vec<u8> {
    s.as_bytes().to_vec()
}

fn notice(who: &str, k: &str, value: PrimitiveOracleType) -> Result<NewData, OracleError> {
    Ok(NewData { who: key(who), key: key(k), value })
}

fn info(kind: NumberType, op: Operations, schedule: u64) -> Info {
    Info::new(key("price"), kind, op, schedule)
}

/// Key `K` of integer kind, settled every five ticks, with two submitters.
fn two_submitters(op: Operations) -> Oracle {
    let mut o = Oracle::new();
    assert_eq!(o.register_storage_key(key("K"), info(NumberType::U128, op, 5)), Ok(()));
    o.add_provider(key("S1"));
    o.add_provider(key("S2"));
    assert_eq!(o.feed_data_impl(key("S1"), key("K"), whole(3)), notice("S1", "K", whole(3)));
    assert_eq!(o.feed_data_impl(key("S2"), key("K"), whole(7)), notice("S2", "K", whole(7)));
    o
}

#[test]
fn new_oracle_is_empty() {
    let o = Oracle::new();
    assert!(o.all_keys().is_empty());
    assert!(o.all_providers().is_empty());
    assert_eq!(o.infos(b"K"), None);
    assert_eq!(o.url(b"K"), None);
    assert_eq!(o.value(b"K"), None);
    assert!(o.feeded_data(b"K", b"S").is_none());
}

#[test]
fn register_stores_the_settings() {
    let mut o = Oracle::new();
    let i = info(NumberType::FixedU128, Operations::Average, 10);
    assert_eq!(o.register_storage_key(key("K"), i.clone()), Ok(()));
    assert_eq!(o.all_keys(), vec![key("K")]);
    assert_eq!(o.infos(b"K"), Some(&i));
    assert_eq!(o.infos(b"L"), None);
}

#[test]
fn register_keeps_the_order_of_registration() {
    let mut o = Oracle::new();
    for k in ["b", "a", "c"] {
        assert_eq!(
            o.register_storage_key(key(k), info(NumberType::U128, Operations::Sum, 1)),
            Ok(())
        );
    }
    assert_eq!(o.all_keys(), vec![key("b"), key("a"), key("c")]);
}

#[test]
fn register_twice_is_refused() {
    let mut o = Oracle::new();
    let first = info(NumberType::U128, Operations::Sum, 5);
    assert_eq!(o.register_storage_key(key("K"), first.clone()), Ok(()));
    assert_eq!(
        o.register_storage_key(key("K"), info(NumberType::FixedU128, Operations::Average, 9)),
        Err(OracleError::DuplicateKey)
    );
    assert_eq!(o.all_keys(), vec![key("K")]);
    assert_eq!(o.infos(b"K"), Some(&first));
}

#[test]
fn register_with_schedule_zero_is_refused() {
    let mut o = Oracle::new();
    assert_eq!(
        o.register_storage_key(key("K"), info(NumberType::U128, Operations::Sum, 0)),
        Err(OracleError::InvalidPeriod)
    );
    assert!(o.all_keys().is_empty());
    assert_eq!(o.infos(b"K"), None);
    // also for a key that is registered
    assert_eq!(
        o.register_storage_key(key("K"), info(NumberType::U128, Operations::Sum, 1)),
        Ok(())
    );
    assert_eq!(
        o.register_storage_key(key("K"), info(NumberType::U128, Operations::Sum, 0)),
        Err(OracleError::InvalidPeriod)
    );
}

#[test]
fn remove_key_is_idempotent() {
    let mut o = two_submitters(Operations::Sum);
    o.remove_storage_key(key("K"));
    assert!(o.all_keys().is_empty());
    assert_eq!(o.infos(b"K"), None);
    o.remove_storage_key(key("K"));
    o.remove_storage_key(key("never registered"));
    assert!(o.all_keys().is_empty());
}

#[test]
fn remove_key_discards_its_histories() {
    let mut o = two_submitters(Operations::Sum);
    assert_eq!(
        o.register_storage_key(key("L"), info(NumberType::U128, Operations::Sum, 5)),
        Ok(())
    );
    assert_eq!(o.feed_data_impl(key("S1"), key("L"), whole(9)), notice("S1", "L", whole(9)));
    o.remove_storage_key(key("K"));
    assert!(o.feeded_data(b"K", b"S1").is_none());
    assert!(o.feeded_data(b"K", b"S2").is_none());
    assert_eq!(o.feeded_data(b"L", b"S1").unwrap().to_vec(), vec![whole(9); RING_BUF_LEN]);
    assert_eq!(o.all_keys(), vec![key("L")]);
    // registered anew, the key starts without histories
    assert_eq!(
        o.register_storage_key(key("K"), info(NumberType::U128, Operations::Sum, 5)),
        Ok(())
    );
    assert!(o.feeded_data(b"K", b"S1").is_none());
}

#[test]
fn submit_after_remove_is_refused() {
    let mut o = two_submitters(Operations::Sum);
    o.remove_storage_key(key("K"));
    assert_eq!(o.feed_data_impl(key("S1"), key("K"), whole(1)), Err(OracleError::UnknownKey));
    assert!(o.feeded_data(b"K", b"S1").is_none());
}

#[test]
fn submit_under_unknown_key_is_refused_whatever_the_value() {
    let mut o = Oracle::new();
    o.add_provider(key("S1"));
    for v in [whole(0), whole(u128::MAX), dec(0), dec(ONE)] {
        assert_eq!(o.feed_data_impl(key("S1"), key("K"), v), Err(OracleError::UnknownKey));
    }
    assert!(o.feeded_data(b"K", b"S1").is_none());
}

#[test]
fn submit_of_another_kind_is_refused() {
    let mut o = two_submitters(Operations::Sum);
    assert_eq!(o.feed_data_impl(key("S1"), key("K"), dec(ONE)), Err(OracleError::KindMismatch));
    assert_eq!(o.feeded_data(b"K", b"S1").unwrap().to_vec(), vec![whole(3); RING_BUF_LEN]);
}

#[test]
fn first_submission_fills_the_history() {
    let o = two_submitters(Operations::Sum);
    assert_eq!(o.feeded_data(b"K", b"S1").unwrap().to_vec(), vec![whole(3); RING_BUF_LEN]);
    assert_eq!(o.feeded_data(b"K", b"S2").unwrap().to_vec(), vec![whole(7); RING_BUF_LEN]);
    assert!(o.feeded_data(b"K", b"S3").is_none());
}

#[test]
fn later_submissions_shift_the_history() {
    let mut o = two_submitters(Operations::Sum);
    for n in 10..18 {
        assert_eq!(o.feed_data_impl(key("S1"), key("K"), whole(n)), notice("S1", "K", whole(n)));
    }
    assert_eq!(
        o.feeded_data(b"K", b"S1").unwrap().to_vec(),
        vec![whole(17), whole(16), whole(15), whole(14), whole(13), whole(12), whole(11), whole(10)]
    );
    assert_eq!(o.feeded_data(b"K", b"S2").unwrap().to_vec(), vec![whole(7); RING_BUF_LEN]);
}

#[test]
fn unlisted_submitter_may_submit() {
    let mut o = two_submitters(Operations::Sum);
    assert_eq!(o.feed_data_impl(key("S3"), key("K"), whole(1000)), notice("S3", "K", whole(1000)));
    assert_eq!(o.feeded_data(b"K", b"S3").unwrap().to_vec(), vec![whole(1000); RING_BUF_LEN]);
}

#[test]
fn providers_are_a_set() {
    let mut o = Oracle::new();
    o.add_provider(key("S1"));
    o.add_provider(key("S2"));
    o.add_provider(key("S1"));
    assert_eq!(o.all_providers(), vec![key("S1"), key("S2")]);
    assert_eq!(o.sorted_members(), vec![key("S1"), key("S2")]);
    o.remove_provider(key("S1"));
    assert_eq!(o.all_providers(), vec![key("S2")]);
    o.remove_provider(key("S1"));
    o.remove_provider(key("S9"));
    assert_eq!(o.all_providers(), vec![key("S2")]);
}

#[test]
fn url_is_stored_as_given() {
    let mut o = Oracle::new();
    o.set_url(key("K"), key("http://one"));
    assert_eq!(o.url(b"K"), Some(&key("http://one")));
    o.set_url(key("K"), vec![0xff, 0x00]);
    assert_eq!(o.url(b"K"), Some(&vec![0xffu8, 0x00]));
    assert_eq!(o.url(b"L"), None);
}

// Each submitter's one value fills its history of eight slots, and every
// slot counts: the sum is 8 * 3 + 8 * 7.
#[test]
fn end_to_end_sum() {
    let mut o = two_submitters(Operations::Sum);
    for tick in 1..5 {
        o.on_finalize(tick);
        assert_eq!(o.value(b"K"), None);
    }
    o.on_finalize(5);
    assert_eq!(o.value(b"K"), Some(whole(80)));
    assert!(o.feeded_data(b"K", b"S1").is_none());
    assert!(o.feeded_data(b"K", b"S2").is_none());
}

#[test]
fn end_to_end_average() {
    let mut o = two_submitters(Operations::Average);
    o.on_finalize(5);
    assert_eq!(o.value(b"K"), Some(whole(5)));
    assert!(o.feeded_data(b"K", b"S1").is_none());
    assert!(o.feeded_data(b"K", b"S2").is_none());
}

#[test]
fn end_to_end_removed_submitter_is_not_counted() {
    let mut o = two_submitters(Operations::Sum);
    o.remove_provider(key("S2"));
    o.on_finalize(5);
    assert_eq!(o.value(b"K"), Some(whole(24)));
    // the history of the removed submitter is drained all the same
    assert!(o.feeded_data(b"K", b"S1").is_none());
    assert!(o.feeded_data(b"K", b"S2").is_none());
}

#[test]
fn end_to_end_removed_submitter_average() {
    let mut o = two_submitters(Operations::Average);
    o.remove_provider(key("S2"));
    o.on_finalize(5);
    assert_eq!(o.value(b"K"), Some(whole(3)));
}

#[test]
fn end_to_end_full_histories() {
    let mut o = Oracle::new();
    assert_eq!(
        o.register_storage_key(key("K"), info(NumberType::U128, Operations::Sum, 5)),
        Ok(())
    );
    o.add_provider(key("S1"));
    for n in 1..=8 {
        assert_eq!(o.feed_data_impl(key("S1"), key("K"), whole(n)), notice("S1", "K", whole(n)));
    }
    o.on_finalize(10);
    assert_eq!(o.value(b"K"), Some(whole(36)));
}

#[test]
fn settling_without_histories_publishes_zero() {
    let mut o = Oracle::new();
    assert_eq!(
        o.register_storage_key(key("K"), info(NumberType::FixedU128, Operations::Average, 3)),
        Ok(())
    );
    assert_eq!(
        o.register_storage_key(key("L"), info(NumberType::U128, Operations::Sum, 3)),
        Ok(())
    );
    o.on_finalize(3);
    assert_eq!(o.value(b"K"), Some(dec(0)));
    assert_eq!(o.value(b"L"), Some(whole(0)));
}

#[test]
fn tick_zero_settles_every_key() {
    let mut o = two_submitters(Operations::Sum);
    o.on_finalize(0);
    assert_eq!(o.value(b"K"), Some(whole(80)));
}

#[test]
fn only_due_keys_are_settled() {
    let mut o = Oracle::new();
    o.add_provider(key("S"));
    assert_eq!(
        o.register_storage_key(key("two"), info(NumberType::U128, Operations::Average, 2)),
        Ok(())
    );
    assert_eq!(
        o.register_storage_key(key("three"), info(NumberType::U128, Operations::Average, 3)),
        Ok(())
    );
    assert_eq!(o.feed_data_impl(key("S"), key("two"), whole(20)), notice("S", "two", whole(20)));
    assert_eq!(o.feed_data_impl(key("S"), key("three"), whole(30)), notice("S", "three", whole(30)));
    o.on_finalize(4);
    assert_eq!(o.value(b"two"), Some(whole(20)));
    assert_eq!(o.value(b"three"), None);
    assert!(o.feeded_data(b"two", b"S").is_none());
    assert_eq!(o.feeded_data(b"three", b"S").unwrap().to_vec(), vec![whole(30); RING_BUF_LEN]);
    o.on_finalize(6);
    // nothing was submitted under "two" since tick 4
    assert_eq!(o.value(b"two"), Some(whole(0)));
    assert_eq!(o.value(b"three"), Some(whole(30)));
}

#[test]
fn due_keys_are_those_that_a_tick_settles() {
    let mut o = Oracle::new();
    for (k, schedule) in [("three", 3u64), ("two", 2), ("one", 1), ("six", 6)] {
        assert_eq!(
            o.register_storage_key(key(k), info(NumberType::U128, Operations::Sum, schedule)),
            Ok(())
        );
    }
    assert_eq!(o.due_keys(0), vec![key("three"), key("two"), key("one"), key("six")]);
    assert_eq!(o.due_keys(1), vec![key("one")]);
    assert_eq!(o.due_keys(4), vec![key("two"), key("one")]);
    assert_eq!(o.due_keys(6), vec![key("three"), key("two"), key("one"), key("six")]);
    assert_eq!(o.due_keys(9), vec![key("three"), key("one")]);
    o.remove_storage_key(key("one"));
    assert_eq!(o.due_keys(1), Vec::<Vec<u8>>::new());
    assert_eq!(Oracle::new().due_keys(0), Vec::<Vec<u8>>::new());
    // exactly the due keys get a value at the tick
    o.on_finalize(4);
    assert_eq!(o.value(b"two"), Some(whole(0)));
    assert_eq!(o.value(b"three"), None);
    assert_eq!(o.value(b"six"), None);
}

#[test]
fn decimal_key_end_to_end() {
    let mut o = Oracle::new();
    o.add_provider(key("S1"));
    o.add_provider(key("S2"));
    assert_eq!(
        o.register_storage_key(key("K"), info(NumberType::FixedU128, Operations::Average, 1)),
        Ok(())
    );
    assert_eq!(o.feed_data_impl(key("S1"), key("K"), dec(ONE)), notice("S1", "K", dec(ONE)));
    assert_eq!(o.feed_data_impl(key("S2"), key("K"), dec(2 * ONE)), notice("S2", "K", dec(2 * ONE)));
    o.on_finalize(7);
    assert_eq!(o.value(b"K"), Some(dec(ONE + ONE / 2)));
}

#[test]
fn published_value_outlives_its_key() {
    let mut o = two_submitters(Operations::Average);
    o.on_finalize(5);
    o.remove_storage_key(key("K"));
    assert_eq!(o.value(b"K"), Some(whole(5)));
    o.on_finalize(10);
    assert_eq!(o.value(b"K"), Some(whole(5)));
}

#[test]
fn calc_settles_with_the_settings_given() {
    let mut o = two_submitters(Operations::Sum);
    o.calc(key("K"), info(NumberType::U128, Operations::Average, 1));
    assert_eq!(o.value(b"K"), Some(whole(5)));
    assert!(o.feeded_data(b"K", b"S1").is_none());
    // of another kind, nothing counts
    let mut o = two_submitters(Operations::Sum);
    o.calc(key("K"), info(NumberType::FixedU128, Operations::Sum, 1));
    assert_eq!(o.value(b"K"), Some(dec(0)));
}

#[test]
fn set_storage_value_replaces() {
    let mut o = Oracle::new();
    o.set_storage_value(key("K"), whole(1));
    o.set_storage_value(key("K"), dec(2));
    assert_eq!(o.value(b"K"), Some(dec(2)));
}

#[test]
fn data_feed_get_falls_back_to_its_default() {
    let mut o = Oracle::new();
    let reader = DataFeedGet { key: [7u8; 32], value: whole(11) };
    assert_eq!(reader.get(&o), whole(11));
    o.set_storage_value(vec![7u8; 32], whole(99));
    assert_eq!(reader.get(&o), whole(99));
}

#[test]
fn copy_keys_copies() {
    let keys = vec![key("a"), key(""), key("bc")];
    assert_eq!(copy_keys(&keys), keys);
}

#[test]
fn error_messages() {
    assert_eq!(OracleError::UnknownKey.message(), "storage key not exist");
    assert_eq!(OracleError::NoUrl.message(), "no url for this storage key");
    assert_eq!(OracleError::InvalidUrl.message(), "parse url error");
    assert_eq!(OracleError::InvalidJsonKey.message(), "json key is invalid");
    assert_eq!(OracleError::ExtractionFailed.message(), "Unknown error has been encountered.");
}
