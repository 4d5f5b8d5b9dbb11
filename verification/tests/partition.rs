use snailtrail::graph::Edge;
use snailtrail::partition::{exchange, hash_code, route, select, PushTime, Timestamp};

#[test]
fn timestamp_counts_nanoseconds() {
    assert_eq!(Timestamp::new(0, 0).as_nanos(), 0);
    assert_eq!(Timestamp::new(3, 7).as_nanos(), 3_000_000_007);
    assert_eq!(
        Timestamp::new(u64::MAX, 999_999_999).as_nanos(),
        18446744073709551615999999999
    );
}

#[test]
fn exchange_key_is_the_low_half_of_the_nanoseconds() {
    assert_eq!(Timestamp::new(3, 7).exchange_key(), 3_000_000_007);
    assert_eq!(Timestamp::new(18446744073, 709551615).exchange_key(), u64::MAX);
    assert_eq!(Timestamp::new(18446744073, 709551616).exchange_key(), 0);
    assert_eq!(Timestamp::new(18446744073, 709551617).exchange_key(), 1);
    assert_eq!(Timestamp::new(u64::MAX, 999_999_999).exchange_key(), u64::MAX);
}

#[test]
fn route_takes_the_key_modulo_the_workers() {
    assert_eq!(route(0, 1), 0);
    assert_eq!(route(17, 1), 0);
    assert_eq!(route(17, 4), 1);
    assert_eq!(route(17, 5), 2);
    assert_eq!(route(u64::MAX, 16), 15);
}

#[test]
fn push_time_tags_every_item() {
    let time = Timestamp::new(1, 2);
    assert_eq!(
        vec![10u64, 20, 30].push_time(time),
        vec![(time, 10), (time, 20), (time, 30)]
    );
    let none: Vec<u64> = vec![];
    assert_eq!(none.push_time(time), vec![]);
}

#[test]
fn exchange_routes_by_time_alone() {
    let early = Timestamp::new(0, 4);
    let late = Timestamp::new(0, 5);
    let tagged = vec![(early, 'a'), (late, 'b'), (early, 'c'), (late, 'a')];
    let parts = exchange(&tagged, 2);
    assert_eq!(parts, vec![vec![(early, 'a'), (early, 'c')], vec![(late, 'b'), (late, 'a')]]);
    assert_eq!(select(&tagged, 2, 1), vec![(late, 'b'), (late, 'a')]);
    assert_eq!(select(&tagged, 2, 7), vec![]);
    assert_eq!(exchange(&tagged, 1), vec![tagged.clone()]);
}

#[test]
fn a_batch_of_one_time_stays_on_one_worker() {
    let time = Timestamp::new(2, 0);
    let tagged = vec![1u8, 2, 3].push_time(time);
    let parts = exchange(&tagged, 3);
    let home = route(time.exchange_key(), 3);
    assert_eq!(home, 2);
    for (worker, part) in parts.iter().enumerate() {
        if worker == home {
            assert_eq!(part, &tagged);
        } else {
            assert!(part.is_empty());
        }
    }
}

#[test]
fn hash_code_is_a_function_of_the_edge() {
    let edge = Edge::new(Some(1), Some(2), 0);
    assert_eq!(hash_code(&edge), 14963594026243771787);
    assert_eq!(hash_code(&Edge::new(Some(1), Some(2), 0)), hash_code(&edge));
    assert_eq!(hash_code(&Edge::new(None, Some(1), 0)), 13181754070792742069);
    assert_eq!(hash_code(&Edge::new(Some(2), Some(1), 0)), 10739031887580888728);
    assert_eq!(hash_code(&Edge::new(Some(1), Some(2), 7)), 7792814480381055180);
}
