use keyvalue_db::frame::{frame_lines, split_lines};

#[test]
fn frame_then_split_gives_lines_back() {
    let lines = vec![b"{\"a\":1}".to_vec(), Vec::new(), b"xyz".to_vec()];
    let bytes = frame_lines(&lines);
    assert_eq!(bytes, b"{\"a\":1}\n\nxyz\n".to_vec());
    let pieces = split_lines(&bytes);
    assert_eq!(pieces, vec![b"{\"a\":1}".to_vec(), Vec::new(), b"xyz".to_vec(), Vec::new()]);
}

#[test]
fn split_empty_and_unterminated() {
    assert_eq!(split_lines(&Vec::new()), vec![Vec::<u8>::new()]);
    assert_eq!(split_lines(&b"ab\ncd".to_vec()), vec![b"ab".to_vec(), b"cd".to_vec()]);
    assert_eq!(frame_lines(&Vec::new()), Vec::<u8>::new());
}
