use station_stats::table::AggTable;

// Record one value for the key "s", combining the statistics the way the
// scanning driver does.
fn add_value(t: &mut AggTable, v: f32) {
    let data = b"s;0";
    if let Some((count, sum, min, max)) = t.apply_value(data, 0, 1, v.to_bits()) {
        assert!(count < u32::MAX);
        let new_sum = f32::from_bits(sum) + v;
        let mut new_min = f32::from_bits(min);
        let mut new_max = f32::from_bits(max);
        if v < new_min {
            new_min = v;
        } else if v > new_max {
            new_max = v;
        }
        t.store_scanned(data, 0, 1, new_sum.to_bits(), new_min.to_bits(), new_max.to_bits());
    }
}

#[test]
fn new_table_is_empty() {
    let t = AggTable::new();
    assert_eq!(t.entries().len(), 0);
    assert_eq!(t.get(b"anything"), None);
}

#[test]
fn first_occurrence_stores_one_of_each() {
    let data = b"pluto;9.5";
    let mut t = AggTable::new();
    let bits = 9.5f32.to_bits();
    let prior = t.apply_value(data, 0, 5, bits);
    assert_eq!(prior, None);
    assert_eq!(t.get(b"pluto"), Some((1, bits, bits, bits)));
    assert_eq!(t.get(b"plut"), None);
}

#[test]
fn repeated_key_returns_current_entry_and_store_updates() {
    let data = b"k;1.0\nk;2.0\n";
    let mut t = AggTable::new();
    let one = 1.0f32.to_bits();
    assert_eq!(t.apply_value(data, 0, 1, one), None);
    let cur = t.apply_value(data, 6, 7, 2.0f32.to_bits());
    assert_eq!(cur, Some((1, one, one, one)));
    let sum = 3.0f32.to_bits();
    let max = 2.0f32.to_bits();
    t.store_scanned(data, 6, 7, sum, one, max);
    assert_eq!(t.get(b"k"), Some((2, sum, one, max)));
}

#[test]
fn merge_table_inserts_new_keys_verbatim() {
    let mut total = AggTable::new();
    let mut part = AggTable::new();
    let data = b"fresh;1.0";
    let bits = 1.0f32.to_bits();
    assert_eq!(part.apply_value(data, 0, 5, bits), None);
    let pending = total.merge_table(&part);
    assert_eq!(pending.len(), 0);
    assert_eq!(total.get(b"fresh"), Some((1, bits, bits, bits)));
}

#[test]
fn merge_table_adds_counts_and_hands_back_both_entries() {
    // key "s" aggregated from values 1.0, 3.0, 2.0 on one side and
    // 4.0, 5.0 on the other
    let a = (3, 6.0f32.to_bits(), 1.0f32.to_bits(), 3.0f32.to_bits());
    let b = (2, 9.0f32.to_bits(), 4.0f32.to_bits(), 5.0f32.to_bits());
    let mut total = AggTable::new();
    for v in [1.0f32, 3.0, 2.0] {
        add_value(&mut total, v);
    }
    let mut part = AggTable::new();
    for v in [4.0f32, 5.0] {
        add_value(&mut part, v);
    }
    assert_eq!(total.get(b"s"), Some(a));
    assert_eq!(part.get(b"s"), Some(b));
    let pending = total.merge_table(&part);
    assert_eq!(pending.len(), 1);
    let (key, te, pe) = pending[0].clone();
    assert_eq!(key, b"s".to_vec());
    assert_eq!(te, a);
    assert_eq!(pe, b);
    // the counts were added at once; the statistics wait for store_combined
    assert_eq!(total.get(b"s"), Some((5, a.1, a.2, a.3)));
    let sum = 15.0f32.to_bits();
    let min = 1.0f32.to_bits();
    let max = 5.0f32.to_bits();
    total.store_combined(b"s", sum, min, max);
    assert_eq!(total.get(b"s"), Some((5, sum, min, max)));
}

#[test]
fn entries_lists_every_key_once() {
    let data = b"a;1\nb;2\nc;3\na;4\n";
    let mut t = AggTable::new();
    let bits = 0.0f32.to_bits();
    assert_eq!(t.apply_value(data, 0, 1, bits), None);
    assert_eq!(t.apply_value(data, 4, 5, bits), None);
    assert_eq!(t.apply_value(data, 8, 9, bits), None);
    assert!(t.apply_value(data, 12, 13, bits).is_some());
    let mut keys: Vec<Vec<u8>> = t.entries().into_iter().map(|(k, _)| k).collect();
    keys.sort();
    assert_eq!(keys, vec![b"a".to_vec(), b"b".to_vec(), b"c".to_vec()]);
}

#[test]
fn many_keys_survive_the_backend_switch() {
    // halfbrown starts on a vector backend and switches to a hash table once
    // it grows; the table must behave the same on both sides of the switch.
    let mut t = AggTable::new();
    let mut data = Vec::new();
    for i in 0..100u32 {
        data.extend_from_slice(format!("key{:03};1.0\n", i).as_bytes());
    }
    let one = 1.0f32.to_bits();
    let mut pos = 0;
    for _ in 0..100 {
        assert_eq!(t.apply_value(&data, pos, pos + 6, one), None);
        pos += 11;
    }
    assert_eq!(t.entries().len(), 100);
    assert_eq!(t.get(b"key042"), Some((1, one, one, one)));
    assert_eq!(t.get(b"key100"), None);
}
