use rtl_p25::command::{
    demod_ack, parse_command, parse_i32, parse_u32, parse_usize, split_fields_exec, tune_ack,
    tune_request, Command, CommandError,
};

#[test]
fn readme_tune_command() {
    assert_eq!(
        parse_command(b"tune,851137500,111"),
        Ok(Command::Tune { freq: 851137500, nonce: 111 })
    );
    assert_eq!(tune_ack(851137500, 111), b"ok,851137500,111\n".to_vec());
}

#[test]
fn readme_demod_commands() {
    assert_eq!(
        parse_command(b"demod,0,12500,/tmp/mux0,222"),
        Ok(Command::Demod { channel: 0, offset: 12500, output: b"/tmp/mux0".to_vec(), nonce: 222 })
    );
    assert_eq!(demod_ack(222), b"ok,222\n".to_vec());
    assert_eq!(
        parse_command(b"demod,1,-25000,/tmp/mux1,333"),
        Ok(Command::Demod { channel: 1, offset: -25000, output: b"/tmp/mux1".to_vec(), nonce: 333 })
    );
    assert_eq!(demod_ack(333), b"ok,333\n".to_vec());
}

#[test]
fn command_errors() {
    assert_eq!(parse_command(b"retune,5,5"), Err(CommandError::UnknownCommand));
    assert_eq!(parse_command(b""), Err(CommandError::UnknownCommand));
    assert_eq!(parse_command(b"eof"), Err(CommandError::UnknownCommand));
    assert_eq!(parse_command(b"tune"), Err(CommandError::MissingField));
    assert_eq!(parse_command(b"tune,5"), Err(CommandError::MissingField));
    assert_eq!(parse_command(b"tune,abc"), Err(CommandError::BadNumber));
    assert_eq!(parse_command(b"tune,5,x"), Err(CommandError::BadNumber));
    assert_eq!(parse_command(b"demod,0,100,/tmp/x"), Err(CommandError::MissingField));
    assert_eq!(parse_command(b"demod,-1,100,/tmp/x,1"), Err(CommandError::BadNumber));
    assert_eq!(parse_command(b"demod,0,100"), Err(CommandError::MissingField));
    assert_eq!(parse_command(b"Tune,5,5"), Err(CommandError::UnknownCommand));
}

#[test]
fn command_extra_fields_ignored() {
    assert_eq!(parse_command(b"tune,7,8,9"), Ok(Command::Tune { freq: 7, nonce: 8 }));
    assert_eq!(
        parse_command(b"demod,2,0,,5,extra"),
        Ok(Command::Demod { channel: 2, offset: 0, output: Vec::new(), nonce: 5 })
    );
}

#[test]
fn split_fields_keeps_empty_fields() {
    assert_eq!(split_fields_exec(b""), vec![Vec::<u8>::new()]);
    assert_eq!(split_fields_exec(b"a,,b,"), vec![b"a".to_vec(), vec![], b"b".to_vec(), vec![]]);
}

#[test]
fn numbers_follow_std_parse() {
    let cases: [&str; 12] = ["0", "+7", "-7", "", "+", "-", "007", "4294967295", "4294967296", "1a", " 1", "2147483648"];
    for c in cases {
        assert_eq!(parse_u32(c.as_bytes()), c.parse::<u32>().ok(), "u32 {:?}", c);
        assert_eq!(parse_i32(c.as_bytes()), c.parse::<i32>().ok(), "i32 {:?}", c);
        assert_eq!(parse_usize(c.as_bytes()), c.parse::<usize>().ok(), "usize {:?}", c);
    }
    assert_eq!(parse_i32(b"-2147483648"), Some(i32::MIN));
    assert_eq!(parse_i32(b"-2147483649"), None);
    assert_eq!(parse_i32(b"2147483647"), Some(i32::MAX));
    assert_eq!(parse_i32(b"-0"), Some(0));
    assert_eq!(parse_u32(b"-0"), None);
    assert_eq!(parse_usize(b"18446744073709551615"), Some(usize::MAX));
}

#[test]
fn replies_are_decimal() {
    assert_eq!(tune_ack(0, -1), b"ok,0,-1\n".to_vec());
    assert_eq!(tune_ack(u32::MAX, i32::MIN), b"ok,4294967295,-2147483648\n".to_vec());
    assert_eq!(demod_ack(-42), b"ok,-42\n".to_vec());
    assert_eq!(tune_request(851137500), b"-f 851137500\n".to_vec());
    assert_eq!(tune_request(800000000), b"-f 800000000\n".to_vec());
}

#[test]
fn written_numbers_read_back() {
    for v in [0u32, 9, 10, 99, 100, 123456789, u32::MAX] {
        let ack = tune_ack(v, 0);
        let text = String::from_utf8(ack).unwrap();
        let field = text.trim_end().split(',').nth(1).unwrap();
        assert_eq!(parse_u32(field.as_bytes()), Some(v));
    }
    for v in [0i32, -1, 1, i32::MIN, i32::MAX, -100] {
        let ack = demod_ack(v);
        let text = String::from_utf8(ack).unwrap();
        let field = text.trim_end().split(',').nth(1).unwrap();
        assert_eq!(parse_i32(field.as_bytes()), Some(v));
    }
}
