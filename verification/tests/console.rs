use rvmem::uart::{echo_step, EchoState, Uart};

#[test]
fn uart_handle_keeps_base_address() {
    let u = Uart::new(0x1000_0000);
    assert_eq!(u.base(), 0x1000_0000);
}

#[test]
fn plain_bytes_echo_back() {
    let (st, out) = echo_step(EchoState::Idle, b'x');
    assert_eq!(st, EchoState::Idle);
    assert_eq!(out, vec![b'x']);
}

#[test]
fn backspace_rubs_out_a_character() {
    let (st, out) = echo_step(EchoState::Idle, 8);
    assert_eq!(st, EchoState::Idle);
    assert_eq!(out, vec![8, b' ', 8]);
}

#[test]
fn newline_and_carriage_return_start_a_line() {
    let (_, out_nl) = echo_step(EchoState::Idle, 10);
    let (_, out_cr) = echo_step(EchoState::Idle, 13);
    assert_eq!(out_nl, vec![13, 10]);
    assert_eq!(out_cr, vec![13, 10]);
}

#[test]
fn arrow_sequences_name_the_key() {
    let (st, out) = echo_step(EchoState::Idle, 0x1b);
    assert_eq!(st, EchoState::SawEsc);
    assert!(out.is_empty());
    let (st, out) = echo_step(st, b'[');
    assert_eq!(st, EchoState::SawCsi);
    assert!(out.is_empty());
    let (st, out) = echo_step(st, b'A');
    assert_eq!(st, EchoState::Idle);
    assert_eq!(out, b"Up\r\n".to_vec());
    let (_, down) = echo_step(EchoState::SawCsi, b'B');
    assert_eq!(down, b"Down\r\n".to_vec());
    let (_, left) = echo_step(EchoState::SawCsi, b'C');
    assert_eq!(left, b"Left\r\n".to_vec());
    let (_, right) = echo_step(EchoState::SawCsi, b'D');
    assert_eq!(right, b"Right\r\n".to_vec());
    let (_, idk) = echo_step(EchoState::SawCsi, b'Z');
    assert_eq!(idk, b"Idk\r\n".to_vec());
}

#[test]
fn broken_escape_sequence_is_dropped() {
    let (st, out) = echo_step(EchoState::SawEsc, b'x');
    assert_eq!(st, EchoState::Idle);
    assert!(out.is_empty());
}
