use device_db::csv_reader::{parse_all_measurements, select_latest, TextReader};
use device_db::reader::{DataReader, MeasurementEntry, ReadError};

fn entry(timestamp: u128, v: u32) -> MeasurementEntry {
    MeasurementEntry {
        timestamp,
        light_intensity: v,
        acidity: v,
        temperature: v,
        electrical_conductivity: v,
    }
}

fn header() -> String {
    "timestamp,light_intensity,acidity,temperature,electrical_conductivity".to_string()
}

fn source(rows: &[&str]) -> Vec<u8> {
    let mut text = header();
    for row in rows {
        text.push('\n');
        text.push_str(row);
    }
    text.into_bytes()
}

fn mock_entries() -> Vec<MeasurementEntry> {
    vec![entry(2, 1), entry(43, 1), entry(23, 1)]
}

#[test]
fn test_csv_read_all() {
    let mut rdr = TextReader::from_bytes(source(&["2,1,1,1,1", "43,1,1,1,1", "23,1,1,1,1"]));
    let res = rdr.read_all_measurements().unwrap();
    assert_eq!(res, mock_entries());
}

#[test]
fn test_read_latest() {
    let mut rdr = TextReader::from_bytes(source(&["2,1,1,1,1", "43,1,1,1,1", "23,1,1,1,1"]));
    let res = rdr.read_latest().unwrap();
    assert_eq!(res.len(), 1);
    assert_eq!(res[0], mock_entries()[1]);
}

#[test]
fn test_empty_source() {
    let mut rdr = TextReader::from_bytes(Vec::new());
    assert_eq!(rdr.read_all_measurements().unwrap(), Vec::new());
    assert_eq!(rdr.read_latest().unwrap(), Vec::new());
}

#[test]
fn test_header_only_source() {
    let mut rdr = TextReader::from_bytes(source(&[]));
    assert_eq!(rdr.read_all_measurements().unwrap(), Vec::new());
    assert_eq!(rdr.read_latest().unwrap(), Vec::new());
}

#[test]
fn test_round_trip() {
    let e = MeasurementEntry {
        timestamp: 1700000000123,
        light_intensity: 800,
        acidity: 7,
        temperature: 21,
        electrical_conductivity: 1500,
    };
    let mut data = header().into_bytes();
    data.push(b'\n');
    data.extend_from_slice(&e.render());
    assert_eq!(parse_all_measurements(&data), vec![e]);
}

#[test]
fn test_render_exact() {
    assert_eq!(entry(2, 1).render(), b"2,1,1,1,1".to_vec());
    assert_eq!(
        entry(0, 0).render(),
        b"0,0,0,0,0".to_vec()
    );
    assert_eq!(
        MeasurementEntry {
            timestamp: 340282366920938463463374607431768211455,
            light_intensity: 4294967295,
            acidity: 10,
            temperature: 0,
            electrical_conductivity: 999,
        }
        .render(),
        b"340282366920938463463374607431768211455,4294967295,10,0,999".to_vec()
    );
}

#[test]
fn test_malformed_row_skipped() {
    let mut rdr = TextReader::from_bytes(source(&["abc,1,1,1,1", "5,1,1,1,1"]));
    let res = rdr.read_all_measurements().unwrap();
    assert_eq!(res, vec![entry(5, 1)]);
}

#[test]
fn test_tolerance_preserves_order() {
    let mut rdr = TextReader::from_bytes(source(&[
        "not,a,row",
        "8,1,1,1,1",
        "",
        "9,2,2,2,2",
        "10,3,3,3",
        "-4,1,1,1,1",
        "11,4,4,4,4",
        "1,1,1,1,1,1",
    ]));
    let res = rdr.read_all_measurements().unwrap();
    assert_eq!(res, vec![entry(8, 1), entry(9, 2), entry(11, 4)]);
}

#[test]
fn test_idempotent_reads() {
    let mut rdr = TextReader::from_bytes(source(&["2,1,1,1,1", "43,1,1,1,1"]));
    let first = rdr.read_all_measurements().unwrap();
    let second = rdr.read_all_measurements().unwrap();
    assert_eq!(first, second);
}

#[test]
fn test_latest_tie_first_wins() {
    let mut rdr = TextReader::from_bytes(source(&["7,1,1,1,1", "7,2,2,2,2", "3,9,9,9,9"]));
    let res = rdr.read_latest().unwrap();
    assert_eq!(res, vec![entry(7, 1)]);
}

#[test]
fn test_select_latest_directly() {
    assert_eq!(select_latest(&Vec::new()), Vec::new());
    assert_eq!(
        select_latest(&vec![entry(1, 1), entry(5, 2), entry(4, 3)]),
        vec![entry(5, 2)]
    );
}

#[test]
fn test_wrong_header_yields_nothing() {
    let mut data = b"timestamp,light,acidity,temperature,electrical_conductivity".to_vec();
    data.extend_from_slice(b"\n5,1,1,1,1");
    assert_eq!(parse_all_measurements(&data), Vec::new());
}

#[test]
fn test_crlf_rows_parse() {
    let mut text = header();
    text.push_str("\r\n2,1,1,1,1\r\n43,1,1,1,1\r\n");
    let res = parse_all_measurements(text.as_bytes());
    assert_eq!(res, vec![entry(2, 1), entry(43, 1)]);
}

#[test]
fn test_trailing_newline_tolerated() {
    let mut text = header();
    text.push_str("\n5,1,1,1,1\n");
    assert_eq!(parse_all_measurements(text.as_bytes()), vec![entry(5, 1)]);
}

#[test]
fn test_leading_zeros_accepted() {
    let mut rdr = TextReader::from_bytes(source(&["007,01,1,1,1"]));
    let res = rdr.read_all_measurements().unwrap();
    assert_eq!(res, vec![entry(7, 1)]);
}

#[test]
fn test_field_range_limits() {
    let res = parse_all_measurements(&source(&[
        "340282366920938463463374607431768211455,4294967295,1,1,1",
        "340282366920938463463374607431768211456,1,1,1,1",
        "5,4294967296,1,1,1",
    ]));
    assert_eq!(res.len(), 1);
    assert_eq!(res[0].timestamp, 340282366920938463463374607431768211455);
    assert_eq!(res[0].light_intensity, 4294967295);
}

#[test]
fn test_wrong_field_count_skipped() {
    let res = parse_all_measurements(&source(&["1,2,3,4", "1,2,3,4,5,6", "1,2,3,4,5"]));
    assert_eq!(
        res,
        vec![MeasurementEntry {
            timestamp: 1,
            light_intensity: 2,
            acidity: 3,
            temperature: 4,
            electrical_conductivity: 5,
        }]
    );
}

#[test]
fn test_read_error_message() {
    let err = ReadError::new("stream unreadable".to_string());
    assert_eq!(err.message, "stream unreadable".to_string());
}
