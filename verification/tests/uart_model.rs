use lib::uart::{init, serial_bytes, RegWrite, Uart, UART_BASE};

#[test]
fn register_addresses() {
    let u = Uart;
    assert_eq!(u.reg(0), 0x1000_0000);
    assert_eq!(u.reg(5), 0x1000_0005);
}

#[test]
fn putc_waits_for_empty_holding_register() {
    let u = Uart;
    assert_eq!(u.putc(0, b'x'), None);
    assert_eq!(u.putc(0b0001_1111, b'x'), None);
    assert_eq!(u.putc(0b0010_0000, b'x'), Some(RegWrite { addr: UART_BASE, val: b'x' }));
}

#[test]
fn getc_reads_only_when_data_ready() {
    let u = Uart;
    assert_eq!(u.getc(0b0010_0000), None);
    assert_eq!(u.getc(0b0000_0001), Some(UART_BASE));
}

#[test]
fn init_sequence() {
    assert_eq!(
        init(),
        vec![
            RegWrite { addr: 0x1000_0003, val: 0b11 },
            RegWrite { addr: 0x1000_0002, val: 0b111 },
            RegWrite { addr: 0x1000_0001, val: 0 },
        ]
    );
}

#[test]
fn newline_becomes_crlf() {
    assert_eq!(serial_bytes(b"a\nb\n"), b"a\r\nb\r\n".to_vec());
    assert_eq!(serial_bytes(b"plain"), b"plain".to_vec());
    assert_eq!(serial_bytes(b""), Vec::<u8>::new());
    assert_eq!(serial_bytes(b"\n\n"), b"\r\n\r\n".to_vec());
}
