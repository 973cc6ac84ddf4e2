use upgrade_picker::record::{ELLIPSIS, ID_WIDTH, NAME_WIDTH, ROW_WIDTH};
use upgrade_picker::Program;

fn pad(s: &str, width: usize) -> String {
    let mut r = String::from(s);
    while r.chars().count() < width {
        r.push(' ');
    }
    r
}

#[test]
fn column_widths() {
    assert_eq!(NAME_WIDTH, 34);
    assert_eq!(ID_WIDTH, 35);
    assert_eq!(ROW_WIDTH, NAME_WIDTH + ID_WIDTH);
}

#[test]
fn padded_row_reads_back() {
    let line = format!("{}{}", pad("Mozilla Firefox", 34), pad("Mozilla.Firefox", 35));
    let p = Program::parse_record(&line);
    assert_eq!(p.name, "Mozilla Firefox");
    assert_eq!(p.id, "Mozilla.Firefox");
    assert!(p.is_id_complete);
    assert_eq!(p.get_identifier(), "Mozilla.Firefox");
}

#[test]
fn padded_row_with_surrounding_blanks_reads_back_trimmed() {
    let line = format!("{}{}", pad("  Git  ", 34), pad(" Git.Git", 35));
    let p = Program::parse_record(&line);
    assert_eq!(p.name, "Git");
    assert_eq!(p.id, "Git.Git");
    assert!(p.is_id_complete);
}

#[test]
fn elided_identifier_falls_back_to_name() {
    let id = format!("Microsoft.VisualStudio.2022.Comm{}", ELLIPSIS);
    let line = format!("{}{}", pad("Visual Studio Community 2022", 34), pad(&id, 35));
    let p = Program::parse_record(&line);
    assert!(!p.is_id_complete);
    assert_eq!(p.id, id);
    assert_eq!(p.name, "Visual Studio Community 2022");
    assert_eq!(p.get_identifier(), "Visual Studio Community 2022");
}

#[test]
fn elision_in_name_is_removed() {
    let name = format!("Microsoft Visual C++ 2015-2019 R{}", ELLIPSIS);
    let line = format!("{}{}", pad(&name, 34), pad("Microsoft.VCRedist.2015+.x64", 35));
    let p = Program::parse_record(&line);
    assert_eq!(p.name, "Microsoft Visual C++ 2015-2019 R");
    assert!(p.is_id_complete);
    assert_eq!(p.get_identifier(), "Microsoft.VCRedist.2015+.x64");
}

#[test]
fn short_row_gives_overlapping_columns() {
    let p = Program::parse_record("abc  def");
    assert_eq!(p.name, "abc  def");
    assert_eq!(p.id, "abc  def");
    assert!(p.is_id_complete);
}

#[test]
fn empty_row_gives_empty_record() {
    let p = Program::parse_record("");
    assert_eq!(p.name, "");
    assert_eq!(p.id, "");
    assert!(p.is_id_complete);
}

#[test]
fn trimming_takes_all_white_space() {
    let line = format!("{}{}", pad("\tName\u{a0}", 34), pad("\u{3000}Id", 35));
    let p = Program::parse_record(&line);
    assert_eq!(p.name, "Name");
    assert_eq!(p.id, "Id");
}

#[test]
fn white_space_table_agrees_with_char_is_whitespace() {
    for code in 0u32..=0x10FFFF {
        if let Some(c) = char::from_u32(code) {
            assert_eq!(
                upgrade_picker::text::is_white_space_char(c),
                c.is_whitespace(),
                "U+{:04X}",
                code
            );
        }
    }
}

#[test]
fn trimming_agrees_with_str_trim() {
    for s in ["", " ", "a", " a ", "\u{85}x\u{2028}", "\u{200b}y\u{200b}", "\u{180e}z", " … "] {
        assert_eq!(upgrade_picker::text::trimmed(s), s.trim(), "{:?}", s);
    }
}
