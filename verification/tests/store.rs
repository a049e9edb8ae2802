use compress::store::{CompressedStorage, OutOfOrder};

fn evens(count: u32) -> Vec<u32> {
    (0..count).map(|i| 100 + 2 * i).collect()
}

fn filled(values: &[u32]) -> CompressedStorage {
    let mut storage = CompressedStorage::new();
    for &value in values {
        storage.add(value);
    }
    storage
}

#[test]
fn storage() {
    let mut storage = CompressedStorage::new();

    (100..1000)
        .filter(|i| i % 2 == 0)
        .for_each(|i| storage.add(i));

    assert_eq!(storage.find(560), Some(230));
    assert_eq!(storage.find(561), None);
}

#[test]
fn even_values_are_found_at_their_positions() {
    let values = evens(1000);
    let storage = filled(&values);
    // 1000 values: 7 full blocks, 104 values waiting.
    for (position, &value) in values.iter().enumerate().take(896) {
        assert_eq!(storage.find(value), Some(position));
    }
    for &value in values.iter().take(896) {
        assert_eq!(storage.find(value + 1), None);
    }
    assert_eq!(storage.find(99), None);
}

#[test]
fn empty_store_finds_nothing() {
    let storage = CompressedStorage::new();
    assert_eq!(storage.find(0), None);
    assert_eq!(storage.find(560), None);
    assert_eq!(storage.find(u32::MAX), None);
    assert_eq!(storage.find_block(0), None);
    assert_eq!(storage.find_block(u32::MAX), None);
    assert_eq!(storage.len(), 0);
    assert_eq!(storage.last(), None);
}

#[test]
fn value_below_the_first_block_is_not_found() {
    let storage = filled(&evens(256));
    assert_eq!(storage.find_block(99), None);
    assert_eq!(storage.find_block(0), None);
    assert_eq!(storage.find(99), None);
    assert_eq!(storage.find(1), None);
    assert_eq!(storage.find(0), None);
    assert_eq!(storage.find(100), Some(0));
}

#[test]
fn waiting_values_are_found_once_their_block_is_full() {
    let values = evens(256);
    let mut storage = filled(&values[..200]);
    for (position, &value) in values.iter().enumerate().take(128) {
        assert_eq!(storage.find(value), Some(position));
    }
    for &value in &values[128..200] {
        assert_eq!(storage.find(value), None);
    }
    for &value in &values[200..255] {
        storage.add(value);
    }
    // 255 values: the second block is one short.
    for &value in &values[128..255] {
        assert_eq!(storage.find(value), None);
    }
    storage.add(values[255]);
    for (position, &value) in values.iter().enumerate() {
        assert_eq!(storage.find(value), Some(position));
    }
}

#[test]
fn fewer_than_a_block_is_never_found() {
    let values = evens(127);
    let storage = filled(&values);
    for &value in &values {
        assert_eq!(storage.find(value), None);
    }
    assert_eq!(storage.find_block(100), None);
    assert_eq!(storage.len(), 127);
}

#[test]
fn the_block_is_packed_with_its_last_value() {
    let values = evens(128);
    let mut storage = filled(&values[..127]);
    assert_eq!(storage.find(100), None);
    storage.add(values[127]);
    assert_eq!(storage.find(100), Some(0));
    assert_eq!(storage.find(354), Some(127));
    assert_eq!(storage.decompress_block(0), values);
}

#[test]
fn irregular_spacing_is_kept_exactly() {
    let values: Vec<u32> = (0..100_000u32).filter(|x| x % 7 == 0).map(|x| x + x / 1000 * 5000).collect();
    let storage = filled(&values);
    let blocks = values.len() / 128;
    assert!(blocks > 100);
    for block in 0..blocks {
        assert_eq!(storage.decompress_block(block), values[128 * block..128 * block + 128]);
    }
    for (position, &value) in values.iter().enumerate().take(128 * blocks) {
        assert_eq!(storage.find(value), Some(position));
    }
    assert_eq!(storage.find(1), None);
    assert_eq!(storage.find(8), None);
}

#[test]
fn find_gives_the_same_answer_twice() {
    let storage = filled(&evens(300));
    for value in [0u32, 99, 100, 101, 356, 357, 500, 610, 698, u32::MAX] {
        let first = storage.find(value);
        let second = storage.find(value);
        assert_eq!(first, second);
    }
    assert_eq!(storage.find(356), Some(128));
    assert_eq!(storage.find(356), Some(128));
}

#[test]
fn add_batch_is_add_one_by_one() {
    let values = evens(700);
    let one_by_one = filled(&values);
    let mut batched = CompressedStorage::new();
    batched.add_batch(&values[..50]);
    batched.add_batch(&values[50..50]);
    batched.add_batch(&values[50..400]);
    batched.add_batch(&values[400..]);
    assert_eq!(batched.len(), 700);
    assert_eq!(batched.len(), one_by_one.len());
    assert_eq!(batched.last(), one_by_one.last());
    for value in 90..1600 {
        assert_eq!(batched.find(value), one_by_one.find(value));
    }
    for block in 0..5 {
        assert_eq!(batched.decompress_block(block), one_by_one.decompress_block(block));
    }
}

#[test]
fn empty_batch_changes_nothing() {
    let mut storage = filled(&evens(128));
    storage.add_batch(&[]);
    assert_eq!(storage.len(), 128);
    assert_eq!(storage.find(100), Some(0));
}

#[test]
fn find_block_gives_the_last_block_at_or_below() {
    // Bases 0, 128, 256.
    let values: Vec<u32> = (0..384).collect();
    let storage = filled(&values);
    assert_eq!(storage.find_block(0), Some(0));
    assert_eq!(storage.find_block(127), Some(0));
    assert_eq!(storage.find_block(128), Some(1));
    assert_eq!(storage.find_block(255), Some(1));
    assert_eq!(storage.find_block(256), Some(2));
    assert_eq!(storage.find_block(383), Some(2));
    assert_eq!(storage.find_block(384), Some(2));
    assert_eq!(storage.find_block(u32::MAX), Some(2));
}

#[test]
fn find_block_with_many_blocks() {
    let values: Vec<u32> = (0..128 * 37).map(|i| 10 + 3 * i).collect();
    let storage = filled(&values);
    assert_eq!(storage.find_block(9), None);
    for block in 0..37usize {
        let base = values[128 * block];
        assert_eq!(storage.find_block(base), Some(block));
        assert_eq!(storage.find_block(base + 1), Some(block));
        if block > 0 {
            assert_eq!(storage.find_block(base - 1), Some(block - 1));
        }
    }
}

#[test]
fn find_value_scans_one_block() {
    let values: Vec<u32> = (0..256).map(|i| 2 * i).collect();
    let storage = filled(&values);
    assert_eq!(storage.find_value(0, 0), Some(0));
    assert_eq!(storage.find_value(254, 0), Some(127));
    assert_eq!(storage.find_value(256, 0), None);
    assert_eq!(storage.find_value(256, 1), Some(128));
    assert_eq!(storage.find_value(510, 1), Some(255));
    assert_eq!(storage.find_value(254, 1), None);
    assert_eq!(storage.find_value(3, 0), None);
}

#[test]
fn repeated_value_is_found_at_its_first_place_in_the_block() {
    let mut values: Vec<u32> = (0..128).collect();
    values[10] = 12;
    values[11] = 12;
    let storage = filled(&values);
    assert_eq!(storage.find(12), Some(10));
    assert_eq!(storage.find(10), None);
    assert_eq!(storage.find(11), None);
    assert_eq!(storage.find(13), Some(13));
}

#[test]
fn value_on_both_sides_of_a_block_end_is_found_in_the_later_block() {
    let mut values: Vec<u32> = (0..256).collect();
    values[126] = 128;
    values[127] = 128;
    let storage = filled(&values);
    // 128 stands at 126, 127 and 128: the block that starts with it is scanned.
    assert_eq!(storage.find_block(128), Some(1));
    assert_eq!(storage.find(128), Some(128));
    assert_eq!(storage.find_value(128, 0), Some(126));
    assert_eq!(storage.find(125), Some(125));
    assert_eq!(storage.find(126), None);
}

#[test]
fn equal_values_fill_whole_blocks() {
    let storage = filled(&vec![5u32; 300]);
    assert_eq!(storage.find_block(5), Some(1));
    assert_eq!(storage.find(5), Some(128));
    assert_eq!(storage.find(4), None);
    assert_eq!(storage.find(6), None);
    assert_eq!(storage.decompress_block(0), vec![5u32; 128]);
}

#[test]
fn extreme_values_are_stored_and_found() {
    let mut values: Vec<u32> = (0..128).collect();
    values[127] = u32::MAX;
    let storage = filled(&values);
    assert_eq!(storage.find(0), Some(0));
    assert_eq!(storage.find(u32::MAX), Some(127));
    assert_eq!(storage.find(u32::MAX - 1), None);
    assert_eq!(storage.find(127), None);
    assert_eq!(storage.decompress_block(0), values);

    let top: Vec<u32> = (0..128).map(|i| u32::MAX - 127 + i).collect();
    let storage = filled(&top);
    assert_eq!(storage.find(u32::MAX), Some(127));
    assert_eq!(storage.find(u32::MAX - 127), Some(0));
    assert_eq!(storage.find(0), None);
}

#[test]
fn decompress_block_gives_back_what_was_added() {
    let values: Vec<u32> = (0..512u32).map(|i| i * i).collect();
    let storage = filled(&values);
    for block in 0..4 {
        assert_eq!(storage.decompress_block(block), values[128 * block..128 * (block + 1)]);
    }
}

#[test]
fn len_counts_packed_and_waiting_values() {
    let mut storage = CompressedStorage::new();
    for i in 0..300u32 {
        assert_eq!(storage.len(), i as usize);
        storage.add(i);
    }
    assert_eq!(storage.len(), 300);
}

#[test]
fn last_is_read_from_the_buffer_or_the_last_block() {
    let mut storage = CompressedStorage::new();
    for i in 0..260u32 {
        storage.add(3 * i);
        assert_eq!(storage.last(), Some(3 * i));
    }
}

#[test]
fn try_add_refuses_a_smaller_value() {
    let mut storage = CompressedStorage::new();
    assert_eq!(storage.try_add(10), Ok(()));
    assert_eq!(storage.try_add(10), Ok(()));
    assert_eq!(storage.try_add(12), Ok(()));
    assert_eq!(storage.try_add(11), Err(OutOfOrder { last: 12, value: 11 }));
    assert_eq!(storage.try_add(0), Err(OutOfOrder { last: 12, value: 0 }));
    assert_eq!(storage.len(), 3);
    assert_eq!(storage.last(), Some(12));
    assert_eq!(storage.try_add(12), Ok(()));
    assert_eq!(storage.len(), 4);
}

#[test]
fn try_add_checks_against_the_last_block() {
    let mut storage = CompressedStorage::new();
    for i in 0..128u32 {
        assert_eq!(storage.try_add(2 * i), Ok(()));
    }
    assert_eq!(storage.try_add(253), Err(OutOfOrder { last: 254, value: 253 }));
    assert_eq!(storage.len(), 128);
    assert_eq!(storage.find(254), Some(127));
    assert_eq!(storage.try_add(254), Ok(()));
    assert_eq!(storage.len(), 129);
    assert_eq!(storage.last(), Some(254));
}

#[test]
fn try_add_fills_blocks_as_add_does() {
    let values = evens(256);
    let mut storage = CompressedStorage::new();
    for &value in &values {
        assert_eq!(storage.try_add(value), Ok(()));
    }
    for (position, &value) in values.iter().enumerate() {
        assert_eq!(storage.find(value), Some(position));
    }
}

#[test]
fn stores_do_not_share_anything() {
    let first = filled(&evens(128));
    let second = filled(&(0..128).map(|i| 1000 + i).collect::<Vec<u32>>());
    assert_eq!(first.find(100), Some(0));
    assert_eq!(second.find(100), None);
    assert_eq!(first.find(1000), None);
    assert_eq!(second.find(1000), Some(0));
}
