use dolomedes::kadem::{IpAddress, NodeContact};
use dolomedes::node_id::NodeId;
use dolomedes::setup::{
    assemble_genesis, config_content, genesis_lines, parse_config, ConfigError, GenesisError,
};
use sha2::Digest;

const KEY_HEX: &str = "0707070707070707070707070707070707070707070707070707070707070707";

fn expected_node_id(secret: &[u8; 32]) -> NodeId {
    let public = ed25519_dalek::SigningKey::from_bytes(secret).verifying_key().to_bytes();
    let digest: [u8; 32] = sha2::Sha256::digest(public).into();
    NodeId::from_be_bytes(digest)
}

fn config_err(text: &str, allow_comments: bool) -> ConfigError {
    match parse_config(text, allow_comments) {
        Err(e) => e,
        Ok(_) => panic!("expected an error for {:?}", text),
    }
}

#[test]
fn reads_a_full_config() {
    let text = format!("secret_key={}\nport=31460\ndatadir=/var/dolomedes", KEY_HEX);
    let v = parse_config(&text, false).unwrap();
    assert_eq!(v.port, 31460);
    assert_eq!(v.datadir, "/var/dolomedes");
    assert_eq!(v.signing_key, [7u8; 32]);
    assert_eq!(v.node_id, expected_node_id(&[7u8; 32]));
}

#[test]
fn whitespace_blank_lines_and_crlf_are_tolerated() {
    let text = format!("\r\n  port = 8 \r\n\n\tsecret_key={}\r\ndatadir=d\n", KEY_HEX.to_uppercase());
    let v = parse_config(&text, false);
    // the key is "port " with a trailing space before trimming the value only
    assert!(matches!(v, Err(ConfigError::UnrecognizedKey { .. })));
    let text = format!("\r\n  port=8 \r\n\n\tsecret_key={}\r\ndatadir=d\n", KEY_HEX.to_uppercase());
    let v = parse_config(&text, false).unwrap();
    assert_eq!(v.port, 8);
    assert_eq!(v.datadir, "d");
    assert_eq!(v.signing_key, [7u8; 32]);
}

#[test]
fn later_values_replace_earlier_ones() {
    let text = format!("port=1\nsecret_key={}\nport=+2\ndatadir=a\ndatadir=b=c", KEY_HEX);
    let v = parse_config(&text, false).unwrap();
    assert_eq!(v.port, 2);
    assert_eq!(v.datadir, "b=c");
}

#[test]
fn comments_are_skipped_only_when_allowed() {
    let text = format!("# node\nsecret_key={}\nport=5\ndatadir=x", KEY_HEX);
    assert!(parse_config(&text, true).is_ok());
    assert!(matches!(config_err(&text, false), ConfigError::MissingEquals { line: 1 }));
}

#[test]
fn missing_equals_names_the_line() {
    let text = format!("secret_key={}\n\nport 5\n", KEY_HEX);
    assert!(matches!(config_err(&text, false), ConfigError::MissingEquals { line: 3 }));
}

#[test]
fn invalid_port_names_the_line() {
    assert!(matches!(config_err("port=70000", false), ConfigError::InvalidPort { line: 1 }));
    assert!(matches!(config_err("\nport=", false), ConfigError::InvalidPort { line: 2 }));
    assert!(matches!(config_err("port=-1", false), ConfigError::InvalidPort { line: 1 }));
}

#[test]
fn unrecognized_key_is_reported() {
    match config_err("datadir=x\nname=node", false) {
        ConfigError::UnrecognizedKey { key, line } => {
            assert_eq!(key, "name");
            assert_eq!(line, 2);
        }
        e => panic!("unexpected {:?}", e),
    }
}

#[test]
fn missing_values_are_reported_in_order() {
    assert!(matches!(config_err("", false), ConfigError::MissingSecretKey));
    assert!(matches!(config_err("port=1\ndatadir=x", false), ConfigError::MissingSecretKey));
    let no_port = format!("secret_key={}\ndatadir=x", KEY_HEX);
    assert!(matches!(config_err(&no_port, false), ConfigError::MissingPort));
    let no_dir = format!("secret_key={}\nport=1", KEY_HEX);
    assert!(matches!(config_err(&no_dir, false), ConfigError::MissingDatadir));
}

#[test]
fn secret_key_must_be_32_bytes_of_hex() {
    assert!(matches!(config_err("secret_key=zz\nport=1\ndatadir=x", false), ConfigError::SecretKeyNotHex));
    assert!(matches!(config_err("secret_key=abc\nport=1\ndatadir=x", false), ConfigError::SecretKeyNotHex));
    assert!(matches!(config_err("secret_key=0011\nport=1\ndatadir=x", false), ConfigError::SecretKeyWrongLength));
}

#[test]
fn config_content_is_three_lines() {
    let text = config_content(&[0xABu8; 32], 31460, "/srv/data");
    let expected = format!("secret_key={}\nport=31460\ndatadir=/srv/data", "ab".repeat(32));
    assert_eq!(text, expected);
    assert_eq!(config_content(&[0u8; 32], 0, "d"), format!("secret_key={}\nport=0\ndatadir=d", "00".repeat(32)));
}

#[test]
fn written_config_reads_back() {
    let mut secret = [0u8; 32];
    for (i, b) in secret.iter_mut().enumerate() {
        *b = (i * 37 + 5) as u8;
    }
    for port in [0u16, 9, 10, 65535, 31460] {
        let text = config_content(&secret, port, "/home/user/dolomedes data");
        for allow in [false, true] {
            let v = parse_config(&text, allow).unwrap();
            assert_eq!(v.port, port);
            assert_eq!(v.datadir, "/home/user/dolomedes data");
            assert_eq!(v.signing_key, secret);
            assert_eq!(v.node_id, expected_node_id(&secret));
        }
    }
}

fn node_hex(last: u8) -> String {
    let mut b = [0u8; 32];
    b[31] = last;
    hex::encode(b)
}

fn node(last: u8) -> NodeId {
    let mut b = [0u8; 32];
    b[31] = last;
    NodeId::from_be_bytes(b)
}

#[test]
fn genesis_lines_split_from_the_right() {
    let text = format!(
        "# bootstrap\n\n192.168.1.1:31460:{}\n  ::1:7:{}  \nbad line\n",
        node_hex(1),
        node_hex(2)
    );
    let gl = genesis_lines(&text);
    assert_eq!(gl.len(), 3);
    assert_eq!(gl[0].line, 3);
    let e0 = gl[0].entry.as_ref().unwrap();
    assert_eq!(e0.ip, "192.168.1.1");
    assert_eq!(e0.port, 31460);
    assert_eq!(e0.node_id, node(1));
    assert_eq!(gl[1].line, 4);
    let e1 = gl[1].entry.as_ref().unwrap();
    assert_eq!(e1.ip, "::1");
    assert_eq!(e1.port, 7);
    assert_eq!(e1.node_id, node(2));
    assert_eq!(gl[2].line, 5);
    assert!(gl[2].entry.is_none());
}

#[test]
fn genesis_entry_needs_a_32_byte_id_and_a_port() {
    let text = format!("1.2.3.4:99999:{}\n1.2.3.4:1:00ff\n1.2.3.4:{}", node_hex(1), node_hex(1));
    let gl = genesis_lines(&text);
    assert_eq!(gl.len(), 3);
    assert!(gl.iter().all(|g| g.entry.is_none()));
}

#[test]
fn assemble_genesis_builds_contacts() {
    let text = format!("10.0.0.1:1:{}\n10.0.0.2:2:{}", node_hex(1), node_hex(2));
    let gl = genesis_lines(&text);
    let ips = vec![Some(IpAddress::V4([10, 0, 0, 1])), Some(IpAddress::V4([10, 0, 0, 2]))];
    let contacts: Vec<NodeContact> = assemble_genesis(&gl, &ips).unwrap();
    assert_eq!(contacts.len(), 2);
    assert_eq!(contacts[1].port, 2);
    assert_eq!(contacts[1].node_id, node(2));
    assert!(matches!(contacts[0].ip, IpAddress::V4([10, 0, 0, 1])));
}

#[test]
fn assemble_genesis_reports_first_bad_line() {
    let text = format!("\nx:1:{}\nbad\n10.0.0.2:2:{}", node_hex(1), node_hex(2));
    let gl = genesis_lines(&text);
    let ips = vec![None, Some(IpAddress::V4([10, 0, 0, 2])), Some(IpAddress::V4([10, 0, 0, 2]))];
    assert_eq!(assemble_genesis(&gl, &ips).err(), Some(GenesisError { line: 2 }));
    let ips = vec![Some(IpAddress::V4([1, 1, 1, 1])), Some(IpAddress::V4([10, 0, 0, 2])), None];
    assert_eq!(assemble_genesis(&gl, &ips).err(), Some(GenesisError { line: 3 }));
}
