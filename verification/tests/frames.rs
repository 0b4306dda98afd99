use maacoc_engine::frames::{frame_file_name, index_lines, png_size, safe_node_name, FrameStore};

fn png_header(width: u32, height: u32) -> Vec<u8> {
    let mut b = vec![0x89, b'P', b'N', b'G', b'\r', b'\n', 0x1a, b'\n', 0, 0, 0, 13, b'I', b'H', b'D', b'R'];
    b.extend_from_slice(&width.to_be_bytes());
    b.extend_from_slice(&height.to_be_bytes());
    b
}

#[test]
fn png_size_reads_the_header() {
    assert_eq!(png_size(&png_header(1280, 720)), (1280, 720));
    assert_eq!(png_size(&png_header(0x01020304, 7)), (0x01020304, 7));
}

#[test]
fn png_size_of_anything_else_is_zero() {
    assert_eq!(png_size(b"short"), (0, 0));
    let mut wrong = png_header(1280, 720);
    wrong[1] = b'X';
    assert_eq!(png_size(&wrong), (0, 0));
    assert_eq!(png_size(&png_header(1, 2)[..23]), (0, 0));
}

#[test]
fn frame_names_are_numbered_and_file_safe() {
    assert_eq!(frame_file_name(0, "FindSoldier"), "0001-FindSoldier.png");
    assert_eq!(frame_file_name(41, "a b/c"), "0042-a_b_c.png");
    assert_eq!(frame_file_name(12344, "x-y_z.1"), "12345-x-y_z.1.png");
    assert_eq!(safe_node_name("放兵!"), "放兵_");
}

#[test]
fn frame_store_remembers_its_root() {
    let store = FrameStore::open("var/frames".to_string());
    assert_eq!(store.root(), "var/frames");
}

fn entries(text: &str) -> Vec<(usize, String)> {
    index_lines(text)
}

#[test]
fn index_lines_skip_blanks_and_keep_line_numbers() {
    let text = "{\"a\":1}\n\n  \t\n{\"b\":2}\r\n\u{3000}\n{\"c\":3}";
    assert_eq!(
        entries(text),
        vec![(1, "{\"a\":1}".to_string()), (4, "{\"b\":2}".to_string()), (6, "{\"c\":3}".to_string())]
    );
}

#[test]
fn index_lines_match_str_lines() {
    for text in ["", "\n", "a\n", "a\r\nb", "a\r", "\r\n\r\nx\r\n", "x\n\ny\n\n", " a \n\u{85}\n"] {
        let expected: Vec<(usize, String)> = text
            .lines()
            .enumerate()
            .filter(|(_, line)| !line.trim().is_empty())
            .map(|(i, line)| (i + 1, line.to_string()))
            .collect();
        assert_eq!(entries(text), expected, "{text:?}");
    }
}

#[test]
fn the_match_space_is_1280_by_720() {
    assert_eq!(maacoc_engine::MATCH_SIZE, (1280, 720));
    assert_eq!(png_size(&png_header(maacoc_engine::MATCH_SIZE.0, maacoc_engine::MATCH_SIZE.1)), (1280, 720));
}
