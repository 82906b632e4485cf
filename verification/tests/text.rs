use puzzle_solvers::text::{
    chars_of, digit_of, parse_number, read_line_numbers, read_numbers, split, Separator,
};

fn chars(text: &str) -> Vec<char> {
    text.chars().collect()
}

#[test]
fn text_chars() {
    assert_eq!(chars_of("a\u{e9}\n"), vec!['a', '\u{e9}', '\n']);
    assert_eq!(chars_of(""), Vec::<char>::new());
}

#[test]
fn text_digits() {
    assert_eq!(digit_of('0'), Some(0));
    assert_eq!(digit_of('9'), Some(9));
    assert_eq!(digit_of('/'), None);
    assert_eq!(digit_of(':'), None);
    assert_eq!(digit_of('\u{663}'), None);
}

#[test]
fn text_separators() {
    assert!(Separator::Newline.parts_at('\n'));
    assert!(!Separator::Newline.parts_at(' '));
    for c in [' ', '\t', '\n', '\r', '\u{c}'] {
        assert!(Separator::Space.parts_at(c));
    }
    assert!(!Separator::Space.parts_at('\u{b}'));
    assert!(!Separator::Space.parts_at('a'));
    assert!(Separator::Char('|').parts_at('|'));
    assert!(!Separator::Char('|').parts_at(','));
}

#[test]
fn text_split_keeps_empty_pieces() {
    let c = chars("a,,bc,");
    assert_eq!(
        split(&c, 0, c.len(), Separator::Char(',')),
        vec![(0, 1), (2, 2), (3, 5), (6, 6)]
    );
    assert_eq!(split(&c, 3, 5, Separator::Char(',')), vec![(3, 5)]);
    assert_eq!(split(&c, 1, 3, Separator::Char(',')), vec![(1, 1), (2, 2), (3, 3)]);
    assert_eq!(split(&c, 2, 2, Separator::Char(',')), vec![(2, 2)]);
    let c = chars("");
    assert_eq!(split(&c, 0, 0, Separator::Newline), vec![(0, 0)]);
}

#[test]
fn text_numbers() {
    let c = chars("+12 007 -3 4x 4294967295 4294967296 + ");
    assert_eq!(parse_number(&c, 0, 3, u32::MAX as u64), Some(12));
    assert_eq!(parse_number(&c, 1, 3, u32::MAX as u64), Some(12));
    assert_eq!(parse_number(&c, 0, 1, u32::MAX as u64), None);
    assert_eq!(parse_number(&c, 0, 0, u32::MAX as u64), None);
    assert_eq!(parse_number(&c, 4, 7, u32::MAX as u64), Some(7));
    assert_eq!(parse_number(&c, 8, 10, u32::MAX as u64), None);
    assert_eq!(parse_number(&c, 11, 13, u32::MAX as u64), None);
    assert_eq!(parse_number(&c, 14, 24, u32::MAX as u64), Some(4294967295));
    assert_eq!(parse_number(&c, 25, 35, u32::MAX as u64), None);
    assert_eq!(parse_number(&c, 25, 35, u64::MAX), Some(4294967296));
    assert_eq!(parse_number(&c, 0, 4, u64::MAX), None);
    assert_eq!(
        read_numbers(&c, 0, c.len(), Separator::Space, u32::MAX as u64),
        vec![12, 7, 4294967295]
    );
    let c = chars("18446744073709551615 18446744073709551616 99999999999999999999999");
    assert_eq!(
        read_numbers(&c, 0, c.len(), Separator::Space, u64::MAX),
        vec![u64::MAX]
    );
}

#[test]
fn text_numbers_line_by_line() {
    let c = chars("1 2\n\n3\tx 4\r\n5");
    assert_eq!(
        read_line_numbers(&c, 9),
        vec![vec![1, 2], vec![], vec![3, 4], vec![5]]
    );
    assert_eq!(read_line_numbers(&c, 3), vec![vec![1, 2], vec![], vec![3], vec![]]);
    assert_eq!(read_line_numbers(&chars(""), 9), vec![Vec::<u64>::new()]);
}
