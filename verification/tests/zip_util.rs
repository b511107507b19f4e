use nasr2sct::zip_util::{pseudofile_text, pseudofile_to_str};
use std::io::Cursor;

#[test]
fn pseudofile_to_str_gives_the_text() {
    let file = Cursor::new("<a>gr\u{00fc}n</a>".as_bytes().to_vec());
    assert_eq!(pseudofile_to_str(&file), "<a>gr\u{00fc}n</a>");
    assert_eq!(pseudofile_text(&file), Some("<a>gr\u{00fc}n</a>"));
}

#[test]
fn pseudofile_text_ignores_the_position() {
    let mut file = Cursor::new(b"abcdef".to_vec());
    file.set_position(3);
    assert_eq!(pseudofile_text(&file), Some("abcdef"));
}

#[test]
fn pseudofile_text_refuses_what_is_not_utf8() {
    let file = Cursor::new(vec![0x61, 0xff, 0x62]);
    assert_eq!(pseudofile_text(&file), None);
}

#[test]
fn pseudofile_text_of_an_empty_file_is_empty() {
    let file = Cursor::new(Vec::new());
    assert_eq!(pseudofile_text(&file), Some(""));
}
