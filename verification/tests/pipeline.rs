use station_stats::chunks::make_chunks;
use station_stats::scan::{FormatError, RegionScanner, ScanStep};
use station_stats::table::AggTable;

// The same driving loops the application runs: the library finds records and
// keeps the tables, the driver supplies the floating-point arithmetic.

fn scan_region(data: &[u8], start: usize, end: usize) -> Result<AggTable, FormatError> {
    assert!(start <= end && end <= data.len());
    let mut table = AggTable::new();
    let mut scanner = RegionScanner::new(start, end);
    loop {
        match scanner.advance(data)? {
            ScanStep::Finished => return Ok(table),
            ScanStep::Record { key_start, key_end, val_start, val_end } => {
                let v: f32 = match fast_float::parse(&data[val_start..val_end]) {
                    Ok(v) => v,
                    Err(_) => return Err(FormatError::BadNumber),
                };
                if let Some((count, sum, min, max)) =
                    table.apply_value(data, key_start, key_end, v.to_bits())
                {
                    assert!(count < u32::MAX);
                    let new_sum = f32::from_bits(sum) + v;
                    let mut new_min = f32::from_bits(min);
                    let mut new_max = f32::from_bits(max);
                    if v < new_min {
                        new_min = v;
                    } else if v > new_max {
                        new_max = v;
                    }
                    table.store_scanned(
                        data,
                        key_start,
                        key_end,
                        new_sum.to_bits(),
                        new_min.to_bits(),
                        new_max.to_bits(),
                    );
                }
            }
        }
    }
}

fn merge_into(total: &mut AggTable, part: &AggTable) {
    for (key, entry) in part.entries() {
        if let Some((t_count, _, _, _)) = total.get(&key) {
            assert!(t_count as u64 + entry.0 as u64 <= u32::MAX as u64);
        }
    }
    for (key, (_, t_sum, t_min, t_max), (_, p_sum, p_min, p_max)) in total.merge_table(part) {
        let new_sum = (f32::from_bits(t_sum) + f32::from_bits(p_sum)).to_bits();
        let new_min = f32::min(f32::from_bits(t_min), f32::from_bits(p_min)).to_bits();
        let new_max = f32::max(f32::from_bits(t_max), f32::from_bits(p_max)).to_bits();
        total.store_combined(&key, new_sum, new_min, new_max);
    }
}

fn run(data: &[u8], n: usize) -> Result<AggTable, FormatError> {
    let chunks = make_chunks(data, n);
    let mut total = AggTable::new();
    for (start, end) in chunks {
        let part = scan_region(data, start, end)?;
        merge_into(&mut total, &part);
    }
    Ok(total)
}

fn stats(table: &AggTable, key: &[u8]) -> (u32, f32, f32, f32) {
    let (count, sum, min, max) = table.get(key).expect("key must be aggregated");
    (count, f32::from_bits(sum), f32::from_bits(min), f32::from_bits(max))
}

#[test]
fn three_records_single_region() {
    let data = b"A;1.0\nB;2.0\nA;3.0\n";
    let total = run(data, 1).unwrap();
    let (count, sum, min, max) = stats(&total, b"A");
    assert_eq!(count, 2);
    assert_eq!(sum, 4.0);
    assert_eq!(min, 1.0);
    assert_eq!(max, 3.0);
    assert_eq!(sum / count as f32, 2.0);
    let (count, sum, min, max) = stats(&total, b"B");
    assert_eq!(count, 1);
    assert_eq!(sum, 2.0);
    assert_eq!(min, 2.0);
    assert_eq!(max, 2.0);
    assert_eq!(sum / count as f32, 2.0);
    assert_eq!(total.entries().len(), 2);
}

#[test]
fn unterminated_final_record_is_counted() {
    let data = b"A;1.0\nX;5.0";
    let total = run(data, 1).unwrap();
    let (count, sum, min, max) = stats(&total, b"X");
    assert_eq!(count, 1);
    assert_eq!(sum, 5.0);
    assert_eq!(min, 5.0);
    assert_eq!(max, 5.0);
}

#[test]
fn unterminated_final_record_many_regions() {
    let data = b"A;1.0\nB;2.0\nX;5.0";
    let total = run(data, 5).unwrap();
    let (count, sum, _, _) = stats(&total, b"X");
    assert_eq!(count, 1);
    assert_eq!(sum, 5.0);
}

#[test]
fn empty_region_contributes_nothing() {
    let data = b"a;1.0\n";
    let chunks = make_chunks(data, 4);
    // All regions past the only record are empty and scan to empty tables.
    for &(start, end) in chunks.iter().skip(1) {
        assert_eq!(start, end);
        let part = scan_region(data, start, end).unwrap();
        assert_eq!(part.entries().len(), 0);
    }
    let total = run(data, 4).unwrap();
    assert_eq!(total.entries().len(), 1);
    let (count, sum, _, _) = stats(&total, b"a");
    assert_eq!(count, 1);
    assert_eq!(sum, 1.0);
}

#[test]
fn missing_delimiter_fails_the_job() {
    let data = b"ABC\n";
    assert_eq!(run(data, 1).err(), Some(FormatError::MissingDelimiter));
    assert_eq!(run(data, 3).err(), Some(FormatError::MissingDelimiter));
}

#[test]
fn missing_delimiter_with_later_delimiter_still_fails() {
    // The malformed line must not be glued into the next line's key.
    let data = b"ABC\nD;1\n";
    assert_eq!(run(data, 1).err(), Some(FormatError::MissingDelimiter));
}

#[test]
fn malformed_middle_line_fails_the_job() {
    let data = b"A;1.0\nBAD\nC;2.0\n";
    for n in [1, 2, 4] {
        assert_eq!(run(data, n).err(), Some(FormatError::MissingDelimiter));
    }
}

#[test]
fn garbled_number_fails_the_job() {
    let data = b"A;1.0\nB;oops\n";
    assert_eq!(run(data, 1).err(), Some(FormatError::BadNumber));
}

#[test]
fn one_region_equals_many_regions() {
    // Values that float addition sums exactly, so any summation order gives
    // the same aggregates.
    let mut text = String::new();
    for i in 0..100u32 {
        text.push_str(&format!("station{};{}.25\n", i % 7, i % 13));
    }
    let data = text.as_bytes();
    let reference = run(data, 1).unwrap();
    for n in [2, 3, 5, 17, 64] {
        let total = run(data, n).unwrap();
        let entries = total.entries();
        assert_eq!(entries.len(), reference.entries().len());
        for (key, entry) in entries {
            let (c, s, mn, mx) = stats(&reference, &key);
            assert_eq!((c, s, mn, mx), {
                let (c2, s2, mn2, mx2) = entry;
                (c2, f32::from_bits(s2), f32::from_bits(mn2), f32::from_bits(mx2))
            });
        }
    }
}

#[test]
fn merged_count_is_sum_of_region_counts() {
    let mut text = String::new();
    for i in 0..60u32 {
        text.push_str(&format!("k{};1.0\n", i % 4));
    }
    let data = text.as_bytes();
    let chunks = make_chunks(data, 6);
    let mut per_region: Vec<AggTable> = Vec::new();
    for (start, end) in chunks {
        per_region.push(scan_region(data, start, end).unwrap());
    }
    let mut total = AggTable::new();
    for part in &per_region {
        merge_into(&mut total, part);
    }
    for key in [&b"k0"[..], b"k1", b"k2", b"k3"] {
        let merged = total.get(key).unwrap().0;
        let summed: u32 = per_region
            .iter()
            .map(|p| p.get(key).map(|e| e.0).unwrap_or(0))
            .sum();
        assert_eq!(merged, summed);
        assert_eq!(merged, 15);
    }
}

#[test]
fn merge_order_does_not_matter() {
    let data = b"a;1.0\nb;2.0\na;3.0\nc;4.0\nb;0.5\na;2.5\n";
    let chunks = make_chunks(data, 3);
    let mut parts: Vec<AggTable> = Vec::new();
    for (start, end) in chunks {
        parts.push(scan_region(data, start, end).unwrap());
    }
    let mut forward = AggTable::new();
    for part in parts.iter() {
        merge_into(&mut forward, part);
    }
    let mut backward = AggTable::new();
    for part in parts.iter().rev() {
        merge_into(&mut backward, part);
    }
    let entries = forward.entries();
    assert_eq!(entries.len(), backward.entries().len());
    for (key, entry) in entries {
        assert_eq!(Some(entry), backward.get(&key));
    }
}

#[test]
fn equal_values_keep_min_and_max() {
    let data = b"s;2.0\ns;2.0\ns;2.0\n";
    let total = run(data, 1).unwrap();
    let (count, sum, min, max) = stats(&total, b"s");
    assert_eq!(count, 3);
    assert_eq!(sum, 6.0);
    assert_eq!(min, 2.0);
    assert_eq!(max, 2.0);
}

#[test]
fn negative_and_fractional_values() {
    let data = b"t;-3.5\nt;10.25\nt;-7.75\n";
    let total = run(data, 1).unwrap();
    let (count, sum, min, max) = stats(&total, b"t");
    assert_eq!(count, 3);
    assert_eq!(sum, -1.0);
    assert_eq!(min, -7.75);
    assert_eq!(max, 10.25);
}

#[test]
fn empty_value_text_fails_as_garbled() {
    let data = b"a;\n";
    assert_eq!(run(data, 1).err(), Some(FormatError::BadNumber));
}

#[test]
fn keys_are_raw_bytes() {
    let data = b"\xff\xfe;1.5\n\xff\xfe;2.5\n";
    let total = run(data, 1).unwrap();
    let (count, sum, _, _) = stats(&total, b"\xff\xfe");
    assert_eq!(count, 2);
    assert_eq!(sum, 4.0);
}
