use subnet_scanner::ports::parse_ports;

#[test]
fn test_parse_ports() {
    assert_eq!(parse_ports("80").unwrap(), vec![80]);
    assert_eq!(parse_ports("22,80,443").unwrap(), vec![22, 80, 443]);
    assert_eq!(parse_ports("22, 80, 443").unwrap(), vec![22, 80, 443]);
    assert!(parse_ports("abc").is_err());
    assert!(parse_ports("0").is_err());
}

#[test]
fn parse_ports_error_messages() {
    assert_eq!(parse_ports("22, abc ,80").unwrap_err(), "invalid port: abc");
    assert_eq!(parse_ports("22,0").unwrap_err(), "port 0 is not valid");
    assert_eq!(parse_ports("0,abc").unwrap_err(), "port 0 is not valid");
}

#[test]
fn parse_ports_empty_input_fails() {
    assert_eq!(parse_ports("").unwrap_err(), "invalid port: ");
    assert!(parse_ports("22,").is_err());
    assert!(parse_ports(",22").is_err());
}

#[test]
fn parse_ports_bounds() {
    assert_eq!(parse_ports("1,65535").unwrap(), vec![1, 65535]);
    assert!(parse_ports("65536").is_err());
    assert!(parse_ports("-1").is_err());
    assert!(parse_ports("8 0").is_err());
    assert_eq!(parse_ports("+80").unwrap(), vec![80]);
}

#[test]
fn parse_ports_keeps_order_and_repeats() {
    assert_eq!(parse_ports("443,22,443").unwrap(), vec![443, 22, 443]);
    assert_eq!(parse_ports("\t 8080 \n").unwrap(), vec![8080]);
}
