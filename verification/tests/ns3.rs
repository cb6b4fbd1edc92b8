use parsimon::network::types::{FctRecord, Flow, FlowId, NodeId};
use parsimon::ns3::{
    parse_ns3_record, parse_ns3_records, parse_number, split_fields, translate_flows,
    translate_topology, write_number, CcKind, ParseNs3Error,
};
use parsimon::testing;
use parsimon::units::{Bytes, Nanosecs};

fn text(bytes: Vec<u8>) -> String {
    String::from_utf8(bytes).expect("not text")
}

#[test]
fn translate_topology_correct() {
    let (nodes, links) = testing::eight_node_config();
    let s = text(translate_topology(&nodes, &links));
    assert_eq!(
        s,
        "8 4 8\n\
         4 5 6 7\n\
         0 4 10000000000bps 1000ns 0\n\
         1 4 10000000000bps 1000ns 0\n\
         2 5 10000000000bps 1000ns 0\n\
         3 5 10000000000bps 1000ns 0\n\
         4 6 10000000000bps 1000ns 0\n\
         4 7 10000000000bps 1000ns 0\n\
         5 6 10000000000bps 1000ns 0\n\
         5 7 10000000000bps 1000ns 0\n"
    );
}

#[test]
fn translate_flows_correct() {
    let flows = vec![
        Flow {
            id: FlowId::new(0),
            src: NodeId::new(0),
            dst: NodeId::new(1),
            size: Bytes::new(1234),
            start: Nanosecs::new(1_000_000_000),
        },
        Flow {
            id: FlowId::new(1),
            src: NodeId::new(0),
            dst: NodeId::new(2),
            size: Bytes::new(5678),
            start: Nanosecs::new(2_000_000_000),
        },
    ];
    let s = text(translate_flows(&flows));
    assert_eq!(s, "2\n0 0 1 3 100 1234 1\n1 0 2 3 100 5678 2");
}

#[test]
fn starts_are_written_in_seconds() {
    let flow = |start| Flow {
        id: FlowId::new(7),
        src: NodeId::new(1),
        dst: NodeId::new(2),
        size: Bytes::new(3),
        start: Nanosecs::new(start),
    };
    let line = |start| text(translate_flows(&[flow(start)]));
    assert_eq!(line(0), "1\n7 1 2 3 100 3 0");
    assert_eq!(line(500_000_000), "1\n7 1 2 3 100 3 0.5");
    assert_eq!(line(1_250_000_000), "1\n7 1 2 3 100 3 1.25");
    assert_eq!(line(1_000_000_001), "1\n7 1 2 3 100 3 1.000000001");
    assert_eq!(line(12_030_000_000), "1\n7 1 2 3 100 3 12.03");
    assert_eq!(line(1), "1\n7 1 2 3 100 3 0.000000001");
    assert_eq!(text(translate_flows(&[])), "0");
    assert_eq!(text(translate_topology(&[], &[])), "0 0 0\n\n");
}

#[test]
fn numbers_are_written_in_decimal() {
    for n in [0u64, 7, 10, 99, 100, 12345, u64::MAX] {
        let mut out = b"x".to_vec();
        write_number(&mut out, n);
        assert_eq!(text(out), format!("x{n}"));
    }
}

#[test]
fn numbers_are_read_as_the_standard_library_reads_them() {
    for s in ["0", "7", "+7", "007", "18446744073709551615", "18446744073709551616", "", "+",
        "-1", "1a", "a", " 1", "1 ", "99999999999999999999999", "++1", "1+"]
    {
        assert_eq!(parse_number(s.as_bytes()), s.parse::<u64>().ok(), "{s:?}");
    }
}

#[test]
fn fields_are_split_at_white_space() {
    let fields = |s: &str| -> Vec<String> {
        split_fields(s.as_bytes()).into_iter().map(text).collect()
    };
    for s in ["a b  c", "  a\tb\r", "", "   ", "abc", "a\nb", "1 2 3 4 5 6 7 8 9"] {
        let expected: Vec<String> = s.split_whitespace().map(|f| f.to_string()).collect();
        assert_eq!(fields(s), expected, "{s:?}");
    }
}

fn record(id: usize, size: u64, start: u64, fct: u64, ideal: u64) -> FctRecord {
    FctRecord {
        id: FlowId::new(id),
        size: Bytes::new(size),
        start: Nanosecs::new(start),
        fct: Nanosecs::new(fct),
        ideal: Nanosecs::new(ideal),
    }
}

#[test]
fn records_are_read_from_nine_fields() {
    let line = "12 0b000101 0b000201 10000 100 5000 2000000000 9000 8000";
    assert_eq!(
        parse_ns3_record(line.as_bytes()),
        Ok(record(12, 5000, 2_000_000_000, 9000, 8000))
    );
    assert_eq!(
        parse_ns3_record(b"1 2 3"),
        Err(ParseNs3Error::WrongNrFields { expected: 9, got: 3 })
    );
    assert_eq!(
        parse_ns3_record(b"1 2 3 4 5 6 7 8 9 10"),
        Err(ParseNs3Error::WrongNrFields { expected: 9, got: 10 })
    );
    assert_eq!(parse_ns3_record(b"x 2 3 4 5 6 7 8 9"), Err(ParseNs3Error::ParseInt));
    assert_eq!(parse_ns3_record(b"1 2 3 4 5 6 7 8 -9"), Err(ParseNs3Error::ParseInt));
    assert_eq!(parse_ns3_record(b"1 x y z w 6 7 8 9"), Ok(record(1, 6, 7, 8, 9)));
}

#[test]
fn records_are_read_line_by_line() {
    let s = "1 a a a a 10 20 30 40\n2 a a a a 11 21 31 41\n";
    assert_eq!(
        parse_ns3_records(s.as_bytes()),
        Ok(vec![record(1, 10, 20, 30, 40), record(2, 11, 21, 31, 41)])
    );
    let s = "1 a a a a 10 20 30 40\r\n2 a a a a 11 21 31 41";
    assert_eq!(
        parse_ns3_records(s.as_bytes()),
        Ok(vec![record(1, 10, 20, 30, 40), record(2, 11, 21, 31, 41)])
    );
    assert_eq!(parse_ns3_records(b""), Ok(vec![]));
    // The first line that is no record is reported.
    let s = "1 a a a a 10 20 30 40\n\n2 a a a a 11 21 31 x\n";
    assert_eq!(
        parse_ns3_records(s.as_bytes()),
        Err(ParseNs3Error::WrongNrFields { expected: 9, got: 0 })
    );
    let s = "1 a a a a 10 20 30 40\n2 a a a a 11 21 31 x\n3";
    assert_eq!(parse_ns3_records(s.as_bytes()), Err(ParseNs3Error::ParseInt));
}

#[test]
fn protocols_have_their_names() {
    assert_eq!(CcKind::default(), CcKind::Dctcp);
    assert_eq!(CcKind::Dctcp.as_str(), "dctcp");
    assert_eq!(CcKind::Timely.as_str(), "timely_vwin");
    assert_eq!(CcKind::Dcqcn.as_str(), "dcqcn_paper_vwin");
}
