use coin_locker::{CoinLocker, CoinLockerError};

#[test]
fn it_works() {
    let mut locker = CoinLocker::new(4);

    assert_eq!(locker.take(4), Err(CoinLockerError::OutOfBounds));
    assert_eq!(locker.take(3), Err(CoinLockerError::NoItemFound));

    assert_eq!(locker.insert("a"), Ok(0));
    assert_eq!(locker.insert("b"), Ok(1));

    assert_eq!(locker.free_count(), 2);
    assert_eq!(locker.take(1), Ok("b"));

    assert_eq!(locker.insert("c"), Ok(1));
    assert_eq!(locker.insert("d"), Ok(2));
    assert_eq!(locker.insert("e"), Ok(3));

    assert_eq!(locker.insert("f"), Err(CoinLockerError::FullAndReturn("f")));

    locker.clear();
    assert_eq!(locker.free_count(), 4);
    assert_eq!(locker.insert("a"), Ok(0));
}

#[test]
fn fresh_store_inserts_ascending() {
    let mut locker = CoinLocker::new(3);
    assert_eq!(locker.free_count(), 3);
    assert_eq!(locker.insert(String::from("x")), Ok(0));
    assert_eq!(locker.insert(String::from("y")), Ok(1));
    assert_eq!(locker.insert(String::from("z")), Ok(2));
    assert_eq!(
        locker.insert(String::from("overflow")),
        Err(CoinLockerError::FullAndReturn(String::from("overflow")))
    );
    assert_eq!(locker.free_count(), 0);
}

#[test]
fn zero_capacity_store() {
    let mut locker = CoinLocker::new(0);
    assert_eq!(locker.free_count(), 0);
    assert_eq!(locker.insert(5u8), Err(CoinLockerError::FullAndReturn(5u8)));
    assert_eq!(locker.take(0), Err(CoinLockerError::OutOfBounds));
    locker.clear();
    assert_eq!(locker.free_count(), 0);
}

#[test]
fn take_out_of_bounds_keeps_free_count() {
    let mut locker = CoinLocker::new(2);
    assert_eq!(locker.insert(7u32), Ok(0));
    assert_eq!(locker.free_count(), 1);
    assert_eq!(locker.take(2), Err(CoinLockerError::OutOfBounds));
    assert_eq!(locker.free_count(), 1);
    assert_eq!(locker.take(100), Err(CoinLockerError::OutOfBounds));
    assert_eq!(locker.free_count(), 1);
}

#[test]
fn take_empty_slot_keeps_free_count() {
    let mut locker = CoinLocker::new(3);
    assert_eq!(locker.insert(1u8), Ok(0));
    assert_eq!(locker.free_count(), 2);
    assert_eq!(locker.take(1), Err(CoinLockerError::NoItemFound));
    assert_eq!(locker.free_count(), 2);
    assert_eq!(locker.take(2), Err(CoinLockerError::NoItemFound));
    assert_eq!(locker.free_count(), 2);
}

#[test]
fn insert_take_round_trip() {
    let mut locker = CoinLocker::new(4);
    assert_eq!(locker.insert(String::from("kept")), Ok(0));
    let before: usize = locker.free_count();
    let index: usize = locker.insert(String::from("round")).unwrap();
    assert_eq!(locker.free_count(), before - 1);
    assert_eq!(locker.take(index), Ok(String::from("round")));
    assert_eq!(locker.free_count(), before);
}

#[test]
fn clear_resets_to_fresh_order() {
    let mut locker = CoinLocker::new(3);
    assert_eq!(locker.insert('a'), Ok(0));
    assert_eq!(locker.insert('b'), Ok(1));
    assert_eq!(locker.take(0), Ok('a'));
    locker.clear();
    assert_eq!(locker.free_count(), 3);
    assert_eq!(locker.insert('c'), Ok(0));
    assert_eq!(locker.insert('d'), Ok(1));
    assert_eq!(locker.insert('e'), Ok(2));
    assert_eq!(locker.insert('f'), Err(CoinLockerError::FullAndReturn('f')));
}

#[test]
fn last_freed_index_is_first_reused() {
    let mut locker = CoinLocker::new(3);
    assert_eq!(locker.insert(10u8), Ok(0));
    assert_eq!(locker.insert(11u8), Ok(1));
    assert_eq!(locker.insert(12u8), Ok(2));
    assert_eq!(locker.take(0), Ok(10u8));
    assert_eq!(locker.take(2), Ok(12u8));
    assert_eq!(locker.insert(20u8), Ok(2));
    assert_eq!(locker.insert(21u8), Ok(0));
    assert_eq!(locker.insert(22u8), Err(CoinLockerError::FullAndReturn(22u8)));
}

#[test]
fn error_messages() {
    assert_eq!(
        CoinLockerError::FullAndReturn(3u8).message(),
        "CoinLocker is full"
    );
    assert_eq!(
        CoinLockerError::<()>::OutOfBounds.message(),
        "Index out of bounds"
    );
    assert_eq!(
        CoinLockerError::<()>::NoItemFound.message(),
        "No item found in CoinLocker"
    );
}
