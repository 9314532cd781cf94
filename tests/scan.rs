use onebrc::error::FormatError;
use onebrc::key::str_to_key;
use onebrc::report::{render, sorted_groups};
use onebrc::scan::{merge_partials, process, Groups};
use onebrc::split::split_chunks;

fn summary(groups: &Groups) -> Vec<(Vec<u8>, i32, i32, i32, i32, usize)> {
    let mut v: Vec<_> = groups
        .as_slice()
        .iter()
        .map(|g| (g.key.to_vec(), g.stats.min, g.stats.max, g.stats.sum, g.stats.avg(), g.stats.count))
        .collect();
    v.sort();
    v
}

fn run(data: &[u8], jobs: usize) -> Result<Vec<u8>, FormatError> {
    let ranges = split_chunks(data, jobs)?;
    let mut partials = Vec::new();
    for (first, last) in ranges {
        partials.push(process(&data[first..last])?);
    }
    let merged = merge_partials(&partials)?;
    let sorted = sorted_groups(&merged);
    Ok(render(&sorted))
}

#[test]
fn end_to_end_scenario() {
    let out = run(b"A;1.0\nB;2.0\nA;3.0\n", 4).unwrap();
    assert_eq!(String::from_utf8(out).unwrap(), "{A=1.0/2.0/3.0, B=2.0/2.0/2.0, }\n");
}

#[test]
fn end_to_end_sorts_keys_and_formats_negatives() {
    let data = b"Zurich;-0.1\nAbha;12.5\nZurich;-2.0\nAbha;-99.9\n";
    let out = run(data, 1).unwrap();
    assert_eq!(
        String::from_utf8(out).unwrap(),
        "{Abha=-99.9/-43.7/12.5, Zurich=-2.0/-1.0/-0.1, }\n"
    );
}

#[test]
fn empty_input_gives_empty_report() {
    assert_eq!(run(b"", 3).unwrap(), b"{}\n".to_vec());
}

#[test]
fn process_groups_by_key() {
    let groups = process(b"A;1.0\nB;2.0\nA;3.0\n").unwrap();
    assert_eq!(
        summary(&groups),
        vec![(b"A".to_vec(), 10, 30, 40, 20, 2), (b"B".to_vec(), 20, 20, 20, 20, 1)]
    );
    let slice = groups.as_slice();
    assert_eq!(slice[0].fingerprint, str_to_key(b"A"));
    assert_eq!(slice[1].fingerprint, str_to_key(b"B"));
}

#[test]
fn process_merges_colliding_keys_under_first_sample() {
    let groups = process(b"abcdefgh_one;1.0\nabcdefgh_two;3.0\n").unwrap();
    assert_eq!(summary(&groups), vec![(b"abcdefgh_one".to_vec(), 10, 30, 40, 20, 2)]);
}

#[test]
fn process_rejects_missing_newline() {
    assert_eq!(process(b"A;1.0\nB;2.0").err(), Some(FormatError::MissingNewline));
}

#[test]
fn process_rejects_line_without_field_delimiter() {
    assert_eq!(process(b"A;1.0\nxyz\nB;2.0\n").err(), Some(FormatError::MissingFieldDelimiter));
    assert_eq!(process(b"A;1.0\ntrailing").err(), Some(FormatError::MissingFieldDelimiter));
}

#[test]
fn process_rejects_invalid_value() {
    assert_eq!(process(b"A;1.0\nB;1.25\n").err(), Some(FormatError::InvalidValue));
}

#[test]
fn process_reports_sum_overflow() {
    let mut data = Vec::new();
    for _ in 0..2_149_634 {
        data.extend_from_slice(b"A;99.9\n");
    }
    assert_eq!(process(&data).err(), Some(FormatError::Overflow));
    data.truncate(7 * 2_149_633);
    let groups = process(&data).unwrap();
    assert_eq!(groups.as_slice()[0].stats.sum, 999 * 2_149_633);
}

#[test]
fn split_rejects_buffer_without_trailing_newline() {
    assert_eq!(split_chunks(b"A;1.0", 2).err(), Some(FormatError::MissingTrailingNewline));
}

#[test]
fn split_covers_buffer_on_record_boundaries() {
    let data = b"Hamburg;12.0\nBulawayo;8.9\nPalembang;38.8\nSt. John's;15.2\nCracow;12.6\n";
    for jobs in 1..=20 {
        let ranges = split_chunks(data, jobs).unwrap();
        assert_eq!(ranges[0].0, 0);
        assert_eq!(ranges[ranges.len() - 1].1, data.len());
        for w in ranges.windows(2) {
            assert_eq!(w[0].1, w[1].0);
        }
        for &(first, last) in &ranges {
            assert!(first <= last);
            assert!(last == 0 || data[last - 1] == b'\n');
        }
    }
    assert_eq!(split_chunks(data, 1).unwrap(), vec![(0, data.len())]);
    // step 34: the first cut falls after the record holding byte 34
    assert_eq!(split_chunks(data, 2).unwrap(), vec![(0, 41), (41, data.len())]);
}

#[test]
fn parallel_matches_sequential() {
    let data = b"A;1.0\nB;2.0\nA;3.0\nC;-4.5\nB;0.0\nA;-1.0\nC;99.9\nD;10.0\n";
    let sequential = summary(&process(data).unwrap());
    for jobs in 1..=12 {
        let ranges = split_chunks(data, jobs).unwrap();
        let partials: Vec<Groups> =
            ranges.iter().map(|&(first, last)| process(&data[first..last]).unwrap()).collect();
        let merged = merge_partials(&partials).unwrap();
        assert_eq!(summary(&merged), sequential, "jobs = {}", jobs);
    }
}

#[test]
fn merge_partials_keeps_first_sample_key() {
    let first = process(b"abcdefgh_one;1.0\n").unwrap();
    let second = process(b"abcdefgh_two;3.0\n").unwrap();
    let merged = merge_partials(&[first, second]).unwrap();
    assert_eq!(summary(&merged), vec![(b"abcdefgh_one".to_vec(), 10, 30, 40, 20, 2)]);
}

#[test]
fn merge_partials_of_nothing_is_empty() {
    let merged = merge_partials(&[]).unwrap();
    assert_eq!(merged.as_slice().len(), 0);
}

#[test]
fn sorted_groups_orders_by_key_bytes() {
    let groups = process(b"b;1.0\nab;1.0\na;1.0\nB;1.0\n").unwrap();
    let sorted = sorted_groups(&groups);
    let keys: Vec<&[u8]> = sorted.iter().map(|g| g.key).collect();
    assert_eq!(keys, vec![&b"B"[..], b"a", b"ab", b"b"]);
}

#[test]
fn add_record_rejects_overflow_and_keeps_state() {
    let mut groups = Groups::new();
    for _ in 0..2_149_633 {
        groups.add_record(b"A", 999).unwrap();
    }
    assert_eq!(groups.add_record(b"A", 999), Err(FormatError::Overflow));
    assert_eq!(groups.as_slice()[0].stats.count, 2_149_633);
    assert_eq!(groups.add_record(b"A", -999), Ok(()));
}
