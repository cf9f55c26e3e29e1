use dolomedes::node_id::NodeId;
use dolomedes::terminal::{create_file_path, menu_choice, parse_file_id, FileIdError, MenuChoice};

#[test]
fn menu_accepts_numbers_and_words() {
    assert_eq!(menu_choice("1"), Some(MenuChoice::RequestFile));
    assert_eq!(menu_choice("  Request File \n"), Some(MenuChoice::RequestFile));
    assert_eq!(menu_choice("REQUEST"), Some(MenuChoice::RequestFile));
    assert_eq!(menu_choice("2"), Some(MenuChoice::CreateFile));
    assert_eq!(menu_choice("create file"), Some(MenuChoice::CreateFile));
    assert_eq!(menu_choice("Create"), Some(MenuChoice::CreateFile));
    assert_eq!(menu_choice("3"), Some(MenuChoice::Exit));
    assert_eq!(menu_choice("exit"), Some(MenuChoice::Exit));
    assert_eq!(menu_choice("QUIT "), Some(MenuChoice::Exit));
    assert_eq!(menu_choice("4"), None);
    assert_eq!(menu_choice("requestfile"), None);
    assert_eq!(menu_choice(""), None);
}

#[test]
fn file_id_is_64_hex_digits() {
    let text = format!("{}ff", "00".repeat(31));
    let mut b = [0u8; 32];
    b[31] = 0xFF;
    assert_eq!(parse_file_id(&text), Ok(NodeId::from_be_bytes(b)));
    assert_eq!(parse_file_id(&format!("  0x{}  ", text.to_uppercase())), Ok(NodeId::from_be_bytes(b)));
}

#[test]
fn file_id_errors() {
    assert_eq!(parse_file_id("abcd"), Err(FileIdError::WrongLength));
    assert_eq!(parse_file_id(&"0".repeat(66)), Err(FileIdError::WrongLength));
    assert_eq!(parse_file_id(&"g".repeat(64)), Err(FileIdError::NotHex));
    // 63 characters, one of them two bytes long, is 64 bytes of text
    assert_eq!(parse_file_id(&format!("{}é", "0".repeat(62))), Err(FileIdError::NotHex));
}

#[test]
fn create_path_is_trimmed_and_nonempty() {
    assert_eq!(create_file_path("  /tmp/a b.txt \n"), Some("/tmp/a b.txt".to_string()));
    assert_eq!(create_file_path("   "), None);
    assert_eq!(create_file_path(""), None);
}
