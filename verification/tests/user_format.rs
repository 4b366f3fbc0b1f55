use lib::user::{echo_tick_line, ping_sent_line, pong_w0_tail, print_hex16, print_u64, report};

#[test]
fn decimal_zero() {
    assert_eq!(print_u64(0), b"0".to_vec());
}

#[test]
fn decimal_values() {
    assert_eq!(print_u64(7), b"7".to_vec());
    assert_eq!(print_u64(10), b"10".to_vec());
    assert_eq!(print_u64(711), b"711".to_vec());
    assert_eq!(print_u64(7118000), b"7118000".to_vec());
    assert_eq!(print_u64(u64::MAX), b"18446744073709551615".to_vec());
}

#[test]
fn hex_of_labels() {
    assert_eq!(print_hex16(0xAA00), b"aa00".to_vec());
    assert_eq!(print_hex16(0xAA04), b"aa04".to_vec());
    assert_eq!(print_hex16(0x1_2345), b"2345".to_vec());
    assert_eq!(print_hex16(0), b"0000".to_vec());
    assert_eq!(print_hex16(0xbeef), b"beef".to_vec());
}

#[test]
fn benchmark_report_line() {
    assert_eq!(
        report(b"bench  syscall (YIELD)", 1000, 10),
        b"bench  syscall (YIELD): total=1000 cycles, n=10, avg=100 cyc/op\n".to_vec()
    );
    // the average rounds down.
    assert_eq!(report(b"x", 7, 2), b"x: total=7 cycles, n=2, avg=3 cyc/op\n".to_vec());
    assert_eq!(report(b"", 0, 1), b": total=0 cycles, n=1, avg=0 cyc/op\n".to_vec());
}

#[test]
fn echo_tick_lines() {
    assert_eq!(echo_tick_line(0), b"echo  tick 00\n".to_vec());
    assert_eq!(echo_tick_line(7), b"echo  tick 07\n".to_vec());
    assert_eq!(echo_tick_line(29), b"echo  tick 29\n".to_vec());
}

#[test]
fn ping_sent_lines() {
    assert_eq!(ping_sent_line(0, 0), b"ping  sent 0 (s=k)\n".to_vec());
    assert_eq!(ping_sent_line(4, 0), b"ping  sent 4 (s=k)\n".to_vec());
    assert_eq!(ping_sent_line(3, u64::MAX), b"ping  sent 3 (s=!)\n".to_vec());
}

#[test]
fn pong_tails() {
    assert_eq!(pong_w0_tail(0), b" w0=0\n".to_vec());
    assert_eq!(pong_w0_tail(4), b" w0=4\n".to_vec());
    // only the low nibble shows, past nine as the characters after '9'.
    assert_eq!(pong_w0_tail(0x1c), b" w0=<\n".to_vec());
}

#[test]
fn progress_lines_past_single_digits() {
    // past nine the character runs on after '9', as a byte.
    assert_eq!(ping_sent_line(10, 0), b"ping  sent : (s=k)\n".to_vec());
    assert_eq!(ping_sent_line(256 + 3, 0), b"ping  sent 3 (s=k)\n".to_vec());
    assert_eq!(echo_tick_line(123), b"echo  tick <3\n".to_vec());
}
