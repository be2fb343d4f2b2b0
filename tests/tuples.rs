use simulation_runner_lib::tuples::{fields_to_csv, generate_data, get_tuple_string, push_decimal, push_u64_le, read_u64_le};

fn tuple_bytes(values: &[u64]) -> Vec<u8> {
    values.iter().flat_map(|v| v.to_le_bytes()).collect()
}

#[test]
fn output_tuple_as_csv_line() {
    let bytes = tuple_bytes(&[1, 42, 1_700_000_000_000, 0, u64::MAX]);
    assert_eq!(get_tuple_string(&bytes), "1,42,1700000000000,0,18446744073709551615");
}

#[test]
fn longer_tuple_reads_only_its_fields() {
    let bytes = tuple_bytes(&[7, 8, 9, 10, 11, 12]);
    assert_eq!(get_tuple_string(&bytes), "7,8,9,10,11");
    assert_eq!(fields_to_csv(&bytes, 3), "7,8,9");
    assert_eq!(fields_to_csv(&bytes, 0), "");
}

#[test]
fn little_endian_reads() {
    let bytes = vec![0xff, 0, 1, 0, 0, 0, 0, 0, 0x80, 2, 0, 0, 0, 0, 0, 0, 0x80];
    assert_eq!(read_u64_le(&bytes, 0), 0x1_00ff);
    assert_eq!(read_u64_le(&bytes, 8), 0x0280);
    assert_eq!(read_u64_le(&bytes, 9), 0x8000_0000_0000_0002);
}

#[test]
fn decimal_digits() {
    let mut s = String::from("n=");
    push_decimal(&mut s, 0);
    s.push(' ');
    push_decimal(&mut s, 1009);
    assert_eq!(s, "n=0 1009");
}

#[test]
fn u64_bytes_least_significant_first() {
    let mut out = vec![9];
    push_u64_le(&mut out, 0x0102_0304_0506_0708);
    assert_eq!(out, vec![9, 8, 7, 6, 5, 4, 3, 2, 1]);
}

#[test]
fn generated_tuples_carry_id_sequence_and_time() {
    let mut sequence_nr = 5;
    let data = generate_data(3, &mut sequence_nr, &vec![1000, 2000]);
    assert_eq!(sequence_nr, 7);
    assert_eq!(data.len(), 48);
    assert_eq!(fields_to_csv(&data[0..24], 3), "3,5,1000");
    assert_eq!(fields_to_csv(&data[24..48], 3), "3,6,2000");
    assert_eq!(data, tuple_bytes(&[3, 5, 1000, 3, 6, 2000]));
}

#[test]
fn no_timestamps_no_tuples() {
    let mut sequence_nr = 5;
    assert!(generate_data(3, &mut sequence_nr, &vec![]).is_empty());
    assert_eq!(sequence_nr, 5);
}

#[test]
fn generated_fields_read_back() {
    let mut sequence_nr = u64::MAX - 1;
    let data = generate_data(u64::MAX, &mut sequence_nr, &vec![0]);
    assert_eq!(sequence_nr, u64::MAX);
    assert_eq!(read_u64_le(&data, 0), u64::MAX);
    assert_eq!(read_u64_le(&data, 8), u64::MAX - 1);
    assert_eq!(read_u64_le(&data, 16), 0);
}
