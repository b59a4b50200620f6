use filessh::ssh_config::{host_from_str, hosts_from_str, ParserError};

#[test]
fn test_deserialize_host() {
    let test_str = "Host mc_server
	HostName 141.148.218.223
	User opc
        Port 22
	IdentityFile ~/Downloads/ssh-key-2024-06-13.key ";
    let host = host_from_str(test_str.trim()).unwrap();
    assert_eq!(host.name, "mc_server");
    assert_eq!(host.host_name, "141.148.218.223");
    assert_eq!(host.user, "opc");
    assert_eq!(host.port, 22);
}

#[test]
fn test_deserialize_hosts_multiple() {
    let test_str = "Host mc_server
	HostName 141.148.218.223
	User opc
        Port 22
	IdentityFile ~/Downloads/ssh-key-2024-06-13.key
Host git_server
	HostName github.com
	User git
	Port 2222
	IdentityFile ~/.ssh/id_rsa";

    let hosts = hosts_from_str(test_str).unwrap();
    assert_eq!(hosts.0.len(), 2);

    let h1 = &hosts.0[0];
    assert_eq!(h1.name, "mc_server");
    assert_eq!(h1.host_name, "141.148.218.223");
    assert_eq!(h1.user, "opc");

    let h2 = &hosts.0[1];
    assert_eq!(h2.name, "git_server");
    assert_eq!(h2.host_name, "github.com");
    assert_eq!(h2.user, "git");
    assert_eq!(h2.port, 2222);
}

#[test]
fn port_defaults_to_22() {
    let text = "Host a\nHostName h\nUser u\nIdentityFile f";
    let host = host_from_str(text).unwrap();
    assert_eq!(host.port, 22);
    assert_eq!(host.identity_file, "f");
}

#[test]
fn comments_are_skipped() {
    let text = "# leading comment\nHost a\n# between\nHostName h\nUser u\nIdentityFile f\nPort 8022\n# trailing comment";
    let hosts = hosts_from_str(text).unwrap();
    assert_eq!(hosts.0.len(), 1);
    assert_eq!(hosts.0[0].host_name, "h");
    assert_eq!(hosts.0[0].port, 8022);
}

#[test]
fn empty_input_is_rejected_for_single_host() {
    match host_from_str("") {
        Err(ParserError::UnexpectedToken) => {}
        other => panic!("wrong result: {:?}", other),
    }
}

#[test]
fn empty_input_yields_no_hosts() {
    let hosts = hosts_from_str("").unwrap();
    assert_eq!(hosts.0.len(), 0);
}

#[test]
fn non_numeric_port_is_rejected() {
    match host_from_str("Host a\nPort notanumber") {
        Err(ParserError::ExpectedInteger) => {}
        other => panic!("wrong result: {:?}", other),
    }
}

#[test]
fn missing_port_value_is_eof() {
    match host_from_str("Host a\nPort") {
        Err(ParserError::Eof) => {}
        other => panic!("wrong result: {:?}", other),
    }
}

#[test]
fn unknown_keyword_is_rejected() {
    match host_from_str("Host a\nHostNames h") {
        Err(ParserError::UnexpectedToken) => {}
        other => panic!("wrong result: {:?}", other),
    }
}

#[test]
fn missing_host_name_is_reported() {
    match host_from_str("Host a\nUser u\nIdentityFile f") {
        Err(ParserError::Message(m)) => assert_eq!(m, "missing field `HostName`"),
        other => panic!("wrong result: {:?}", other),
    }
}

#[test]
fn duplicate_field_is_reported() {
    match host_from_str("Host a\nUser u\nUser v") {
        Err(ParserError::Message(m)) => assert_eq!(m, "duplicate field `User`"),
        other => panic!("wrong result: {:?}", other),
    }
}

#[test]
fn trailing_text_after_host_is_rejected() {
    // a second block is trailing text when one host is asked for
    match host_from_str("Host a\nHostName h\nUser u\nIdentityFile f\nHost b") {
        Err(ParserError::TrailingCharacters) => {}
        other => panic!("wrong result: {:?}", other),
    }
}

#[test]
fn port_wraps_as_a_sixteen_bit_accumulator() {
    // 65536 wraps to 0: the port accumulates modulo 2^16
    let host = host_from_str("Host a\nHostName h\nUser u\nIdentityFile f\nPort 65536").unwrap();
    assert_eq!(host.port, 0);
}

#[test]
fn reader_collects_fed_text() {
    let mut reader = filessh::ssh_config::SSHConfigReader::new();
    reader.feed("Host a\n");
    reader.feed("HostName h\nUser u\nIdentityFile f\n");
    let text = reader.finalize();
    let host = host_from_str(&text).unwrap();
    assert_eq!(host.name, "a");
    assert_eq!(host.host_name, "h");
}

#[test]
fn default_port_is_22() {
    assert_eq!(filessh::ssh_config::default_port(), 22);
}
