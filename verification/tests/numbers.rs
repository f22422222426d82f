use marc21::util::{
    parse_usize, parse_usize3, parse_usize4, parse_usize5, write_usize, TriStateBool,
};

#[test]
fn fixed_width_numbers_are_read() {
    assert_eq!(parse_usize5(b"00827"), 827);
    assert_eq!(parse_usize5(b"99999"), 99999);
    assert_eq!(parse_usize5(b"00000"), 0);
    assert_eq!(parse_usize5(b"12345678"), 12345);
    assert_eq!(parse_usize4(b"0041"), 41);
    assert_eq!(parse_usize4(b"9999"), 9999);
    assert_eq!(parse_usize4(b"019200341"), 192);
    assert_eq!(parse_usize3(b"913"), 913);
    assert_eq!(parse_usize3(b"001"), 1);
    assert_eq!(parse_usize(b""), 0);
    assert_eq!(parse_usize(b"7"), 7);
    assert_eq!(parse_usize(b"042"), 42);
    assert_eq!(parse_usize(b"00545"), 545);
    assert_eq!(parse_usize(b"99999"), 99999);
}

#[test]
fn bytes_that_are_no_digits_count_by_their_distance_from_zero() {
    // ':' is one above '9'
    assert_eq!(parse_usize3(b"00:"), 10);
    assert_eq!(parse_usize3(b":00"), 1000);
    assert_eq!(parse_usize(b"1:"), 20);
    // a space is sixteen below '0': the sum is negative and reads as zero
    assert_eq!(parse_usize5(b"    7"), 0);
    assert_eq!(parse_usize4(b" 999"), 0);
    assert_eq!(parse_usize3(b"9 9"), 900 - 160 + 9);
    assert_eq!(parse_usize(b" 1"), 0);
    assert_eq!(parse_usize5(&[255; 5]), 2_299_977);
    assert_eq!(parse_usize5(&[0; 5]), 0);
}

#[test]
fn fixed_width_numbers_are_written() {
    let mut out = Vec::new();
    write_usize(827, 5, &mut out);
    assert_eq!(out, b"00827");
    write_usize(35, 3, &mut out);
    write_usize(22, 4, &mut out);
    write_usize(126, 5, &mut out);
    assert_eq!(out, b"00827035002200126");
    let mut out = Vec::new();
    write_usize(0, 0, &mut out);
    assert_eq!(out, b"");
    write_usize(0, 1, &mut out);
    write_usize(9, 1, &mut out);
    write_usize(99, 2, &mut out);
    write_usize(99999, 5, &mut out);
    assert_eq!(out, b"099999999");
}

#[test]
fn written_numbers_read_back() {
    for n in [0usize, 1, 9, 10, 99, 100, 545, 999] {
        let mut out = Vec::new();
        write_usize(n, 3, &mut out);
        assert_eq!(out.len(), 3);
        assert_eq!(parse_usize3(&out), n);
        assert_eq!(parse_usize(&out), n);
    }
    for n in [0usize, 7, 4100, 9999] {
        let mut out = Vec::new();
        write_usize(n, 4, &mut out);
        assert_eq!(parse_usize4(&out), n);
    }
    for n in [0usize, 827, 10000, 99999] {
        let mut out = Vec::new();
        write_usize(n, 5, &mut out);
        assert_eq!(parse_usize5(&out), n);
    }
}

#[test]
fn tri_state_negation() {
    assert_eq!(!TriStateBool::True, TriStateBool::False);
    assert_eq!(!TriStateBool::False, TriStateBool::True);
    assert_eq!(!TriStateBool::Null, TriStateBool::Null);
}
