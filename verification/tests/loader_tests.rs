use delivery_planner::geo::GeoCoord;
use delivery_planner::loader::{
    blank, chars_of, load_deliveries, parse_count, parse_delivery, parse_depot, read_segment,
    read_streets, words, DeliveryLineError, MapDataError, Rejected,
};
use delivery_planner::street_map::StreetMap;

fn lines(text: &[&str]) -> Vec<String> {
    text.iter().map(|l| l.to_string()).collect()
}

fn flat(a: &GeoCoord, b: &GeoCoord) -> (u64, i32) {
    let x: i64 = a.lon_text().parse().unwrap();
    let y: i64 = b.lon_text().parse().unwrap();
    ((x - y).unsigned_abs(), if y >= x { 0 } else { 180_000 })
}

#[test]
fn chars_of_a_text() {
    assert_eq!(chars_of(""), Vec::<char>::new());
    assert_eq!(chars_of("a b"), vec!['a', ' ', 'b']);
    assert_eq!(chars_of("Zürich 東"), vec!['Z', 'ü', 'r', 'i', 'c', 'h', ' ', '東']);
}

#[test]
fn blanks_agree_with_the_standard_library() {
    for code in 0..=0x3100u32 {
        if let Some(c) = char::from_u32(code) {
            assert_eq!(blank(c, false), c.is_ascii_whitespace(), "narrow {:x}", code);
            assert_eq!(blank(c, true), c.is_whitespace(), "wide {:x}", code);
        }
    }
    assert!(!blank('\u{10000}', true));
    assert!(!blank(char::MAX, true));
}

#[test]
fn words_are_the_stretches_between_blanks() {
    assert_eq!(words("", false), Vec::<String>::new());
    assert_eq!(words("   \t ", false), Vec::<String>::new());
    assert_eq!(words("one", false), vec!["one"]);
    assert_eq!(words("  one  two\tthree \r\n", false), vec!["one", "two", "three"]);
    assert_eq!(words("34.05 -118.25 34.06 -118.26", false), vec!["34.05", "-118.25", "34.06", "-118.26"]);
    assert_eq!(words("a\u{a0}b c", false), vec!["a\u{a0}b", "c"]);
    assert_eq!(words("a\u{a0}b c", true), vec!["a", "b", "c"]);
    assert_eq!(words("a\u{b}b", false), vec!["a\u{b}b"]);
    assert_eq!(words("a\u{b}b", true), vec!["a", "b"]);
    assert_eq!(words("é ü", false), vec!["é", "ü"]);
}

#[test]
fn words_agree_with_the_standard_library() {
    for line in ["", " ", "a", " a ", "a  b", "\ta\nb\rc\u{c}d ", "x\u{2003}y", "1 2 3 4 5"] {
        let narrow: Vec<&str> = line.split_ascii_whitespace().collect();
        let wide: Vec<&str> = line.split_whitespace().collect();
        assert_eq!(words(line, false), narrow);
        assert_eq!(words(line, true), wide);
    }
}

#[test]
fn counts_agree_with_the_standard_library() {
    for text in [
        "", "0", "1", "7", "42", "007", "+5", "+", "-", "-3", "-0", "3 ", " 3", "3a", "a3", "1_000",
        "2147483647", "2147483648", "+2147483647", "99999999999999999999", "00000000000000000001",
        "٣", "1.0", "++1", "+-1",
    ] {
        let expected: i32 = text.parse().unwrap_or(0);
        assert_eq!(parse_count(text), expected.max(0) as u32, "{:?}", text);
    }
}

#[test]
fn count_examples() {
    assert_eq!(parse_count("12"), 12);
    assert_eq!(parse_count("+12"), 12);
    assert_eq!(parse_count("2147483647"), 2_147_483_647);
    assert_eq!(parse_count("2147483648"), 0);
    assert_eq!(parse_count("-12"), 0);
    assert_eq!(parse_count("12 "), 0);
    assert_eq!(parse_count("twelve"), 0);
}

#[test]
fn segment_line_gives_two_coordinates() {
    let r = read_segment("Main St", " 1.5 2.5\t3.5 4.5 and more").unwrap();
    assert_eq!(r.name, "Main St");
    assert!(r.start == GeoCoord::from("1.5", "2.5"));
    assert!(r.end == GeoCoord::from("3.5", "4.5"));
    assert!(read_segment("Main St", "1 2 3").is_none());
    assert!(read_segment("Main St", "").is_none());
    assert!(read_segment("Main St", "a b c d").is_some());
}

#[test]
fn streets_are_read_in_order() {
    let file = lines(&["Main St", "2", "0 0 0 1", "0 1 0 2", "High St", "1", "0 2 1 2"]);
    let records = read_streets(&file).unwrap();
    let got: Vec<(String, String, String)> = records
        .iter()
        .map(|r| (r.name.clone(), r.start.lon_text().to_string(), r.end.lon_text().to_string()))
        .collect();
    assert_eq!(
        got,
        vec![
            ("Main St".to_string(), "0".to_string(), "1".to_string()),
            ("Main St".to_string(), "1".to_string(), "2".to_string()),
            ("High St".to_string(), "2".to_string(), "2".to_string()),
        ]
    );
    assert!(records[2].end == GeoCoord::from("1", "2"));
}

#[test]
fn empty_file_has_no_streets() {
    assert!(read_streets(&Vec::new()).unwrap().is_empty());
}

#[test]
fn street_without_segments_is_passed_over() {
    let file = lines(&["Main St", "0", "High St", "none", "Low St", "-2", "Last St", "1", "1 2 3 4"]);
    let records = read_streets(&file).unwrap();
    assert_eq!(records.len(), 1);
    assert_eq!(records[0].name, "Last St");
}

#[test]
fn street_name_is_kept_as_written() {
    let file = lines(&["  10th  Ave ", "1", "1 2 3 4"]);
    assert_eq!(read_streets(&file).unwrap()[0].name, "  10th  Ave ");
    let file = lines(&["", "1", "1 2 3 4"]);
    assert_eq!(read_streets(&file).unwrap()[0].name, "");
}

#[test]
fn file_that_breaks_off_cannot_be_read() {
    assert_eq!(read_streets(&lines(&["Main St"])).unwrap_err(), MapDataError::CountMissing);
    assert_eq!(
        read_streets(&lines(&["Main St", "1", "1 2 3 4", "High St"])).unwrap_err(),
        MapDataError::CountMissing
    );
    assert_eq!(read_streets(&lines(&["Main St", "1"])).unwrap_err(), MapDataError::SegmentMissing);
    assert_eq!(
        read_streets(&lines(&["Main St", "3", "1 2 3 4", "1 2 3 4"])).unwrap_err(),
        MapDataError::SegmentMissing
    );
}

#[test]
fn short_segment_line_cannot_be_read() {
    assert_eq!(
        read_streets(&lines(&["Main St", "2", "1 2 3", "1 2 3 4"])).unwrap_err(),
        MapDataError::SegmentIncomplete
    );
    assert_eq!(
        read_streets(&lines(&["Main St", "2", "1 2 3 4", "High St"])).unwrap_err(),
        MapDataError::SegmentIncomplete
    );
    assert_eq!(
        read_streets(&lines(&["Main St", "2", "1 2 3 4", ""])).unwrap_err(),
        MapDataError::SegmentIncomplete
    );
}

#[test]
fn map_is_loaded_from_lines() {
    let file = lines(&["Main St", "2", "0 0 0 10", "0 10 0 30", "High St", "1", "0 30 0 0"]);
    let sm = StreetMap::load_from(&file, &flat).unwrap();
    let origin = GeoCoord::from("0", "0");
    let out = sm.get_segments_from(&origin).unwrap();
    assert_eq!(out.len(), 2);
    assert_eq!((out[0].name.as_str(), out[0].length, out[0].bearing), ("Main St", 10, 0));
    assert!(out[0].end == GeoCoord::from("0", "10"));
    assert_eq!((out[1].name.as_str(), out[1].length, out[1].bearing), ("High St", 30, 0));
    assert!(out[1].end == GeoCoord::from("0", "30"));
    let out = sm.get_segments_from(&GeoCoord::from("0", "30")).unwrap();
    assert_eq!(out.len(), 2);
    assert_eq!((out[0].name.as_str(), out[0].length, out[0].bearing), ("Main St", 20, 180_000));
    assert_eq!((out[1].name.as_str(), out[1].length, out[1].bearing), ("High St", 30, 180_000));
    assert!(sm.get_segments_from(&GeoCoord::from("0", "20")).is_none());
}

#[test]
fn loading_adds_to_what_is_there_and_nothing_on_a_fault() {
    let mut sm = StreetMap::new();
    sm.load(&lines(&["Main St", "1", "0 0 0 10"]), &flat).unwrap();
    let fault = sm.load(&lines(&["High St", "2", "0 0 0 5", "0 5"]), &flat).unwrap_err();
    assert_eq!(fault, MapDataError::SegmentIncomplete);
    assert_eq!(sm.get_segments_from(&GeoCoord::from("0", "0")).unwrap().len(), 1);
    assert!(!sm.contains(&GeoCoord::from("0", "5")));
    sm.load(&lines(&["High St", "1", "0 0 0 5"]), &flat).unwrap();
    assert_eq!(sm.get_segments_from(&GeoCoord::from("0", "0")).unwrap().len(), 2);
    assert!(sm.contains(&GeoCoord::from("0", "5")));
    assert!(StreetMap::load_from(&lines(&["High St"]), &flat).is_err());
}

#[test]
fn depot_line() {
    assert!(parse_depot("34.05 -118.25").unwrap() == GeoCoord::from("34.05", "-118.25"));
    assert!(parse_depot("  1\u{a0}2 3").unwrap() == GeoCoord::from("1", "2"));
    assert!(parse_depot("34.05").is_none());
    assert!(parse_depot("").is_none());
}

#[test]
fn delivery_line() {
    let r = parse_delivery("34.05 -118.25:Book").unwrap();
    assert_eq!(r.item, "Book");
    assert!(r.location == GeoCoord::from("34.05", "-118.25"));
    let r = parse_delivery("  1   2  : two books :and a lamp").unwrap();
    assert_eq!(r.item, " two books ");
    assert!(r.location == GeoCoord::from("1", "2"));
    let r = parse_delivery("1 2:x:").unwrap();
    assert_eq!(r.item, "x");
}

#[test]
fn delivery_line_faults() {
    assert_eq!(parse_delivery("1 2 Book").unwrap_err(), DeliveryLineError::MissingColon);
    assert_eq!(parse_delivery("").unwrap_err(), DeliveryLineError::MissingColon);
    assert_eq!(parse_delivery("1 2:").unwrap_err(), DeliveryLineError::MissingItem);
    assert_eq!(parse_delivery("1 2::Book").unwrap_err(), DeliveryLineError::MissingItem);
    assert_eq!(parse_delivery("1:").unwrap_err(), DeliveryLineError::MissingItem);
    assert_eq!(parse_delivery(":").unwrap_err(), DeliveryLineError::MissingItem);
    assert_eq!(parse_delivery("1:Book").unwrap_err(), DeliveryLineError::BadFormat);
    assert_eq!(parse_delivery("1 2 3:Book").unwrap_err(), DeliveryLineError::BadFormat);
    assert_eq!(parse_delivery(":Book").unwrap_err(), DeliveryLineError::BadFormat);
}

#[test]
fn delivery_file() {
    let file = lines(&["0 0", "0 1:Book", "no colon", "0 2:", "0 3 4:Lamp", "0 5:Vase"]);
    let list = load_deliveries(&file).unwrap();
    assert!(list.depot == GeoCoord::from("0", "0"));
    let items: Vec<&str> = list.requests.iter().map(|r| r.item.as_str()).collect();
    assert_eq!(items, vec!["Book", "Vase"]);
    assert!(list.requests[1].location == GeoCoord::from("0", "5"));
    assert_eq!(
        list.rejected,
        vec![
            Rejected { line: 2, fault: DeliveryLineError::MissingColon },
            Rejected { line: 3, fault: DeliveryLineError::MissingItem },
            Rejected { line: 4, fault: DeliveryLineError::BadFormat },
        ]
    );
}

#[test]
fn delivery_file_without_a_depot() {
    assert!(load_deliveries(&Vec::new()).is_none());
    assert!(load_deliveries(&lines(&["0", "0 1:Book"])).is_none());
    let list = load_deliveries(&lines(&["0 0"])).unwrap();
    assert!(list.requests.is_empty());
    assert!(list.rejected.is_empty());
}
