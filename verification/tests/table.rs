use connect_four::table::{Table, TABLE_SIZE};

#[test]
fn table_miss_then_hit() {
    let mut table = Table::new();
    assert_eq!(table.get(12345), None);
    table.insert(12345, -7);
    assert_eq!(table.get(12345), Some(-7));
}

#[test]
fn table_index_wraps_at_capacity() {
    assert_eq!(Table::index(0), 0);
    assert_eq!(Table::index(TABLE_SIZE as u64), 0);
    assert_eq!(Table::index(TABLE_SIZE as u64 + 9), 9);
}

#[test]
fn table_overwrites_unconditionally() {
    let mut table = Table::new();
    table.insert(42, 1);
    table.insert(42, 2);
    assert_eq!(table.get(42), Some(2));
    // A different key landing in the same slot evicts the old entry.
    let collider = 42 + TABLE_SIZE as u64;
    table.insert(collider, 5);
    assert_eq!(table.get(42), None);
    assert_eq!(table.get(collider), Some(5));
}

#[test]
fn table_truncated_keys_can_collide() {
    let mut table = Table::new();
    table.insert(6, 9);
    // Same slot, same truncated 32-bit key, different full key: the
    // documented bounded-probability false hit.
    let false_hit = 6 + TABLE_SIZE as u64 * (1u64 << 32);
    assert_eq!(table.get(false_hit), Some(9));
}

#[test]
fn table_reset_clears_stored_keys() {
    let mut table = Table::new();
    table.insert(77, 3);
    table.reset();
    assert_eq!(table.get(77), None);
}

#[test]
fn table_reset_destroys_stale_bounds() {
    // A key whose truncation is 0 still matches a cleared slot, so reset
    // must clear the score as well: the search's bias scheme stores only
    // scores in 1..=43 and rejects a slot holding 0.
    let mut table = Table::new();
    let key = (1u64 << 32) * 3;
    assert_eq!(key as u32, 0);
    table.insert(key, 9);
    assert_eq!(table.get(key), Some(9));
    table.reset();
    assert_eq!(table.get(key), Some(0));
}
