use flightradar::csv::{chars_of, from_csv, is_blank};

fn by_std(s: &str) -> Vec<Vec<String>> {
    s.split('\n').map(|a| a.split(',').map(|f| f.trim().to_string()).collect()).collect()
}

fn table(rows: &[&[&str]]) -> Vec<Vec<String>> {
    rows.iter().map(|r| r.iter().map(|f| f.to_string()).collect()).collect()
}

#[test]
fn rows_and_fields_are_split_and_trimmed() {
    assert_eq!(from_csv("a, b ,c\n 1,2 , 3 "), table(&[&["a", "b", "c"], &["1", "2", "3"]]));
    assert_eq!(from_csv("name,x y\nAA1, 10 -20"), table(&[&["name", "x y"], &["AA1", "10 -20"]]));
}

#[test]
fn empty_text_is_one_row_of_one_empty_field() {
    assert_eq!(from_csv(""), table(&[&[""]]));
    assert_eq!(from_csv("\n"), table(&[&[""], &[""]]));
    assert_eq!(from_csv(","), table(&[&["", ""]]));
    assert_eq!(from_csv("a,\n,b\n"), table(&[&["a", ""], &["", "b"], &[""]]));
    assert_eq!(from_csv("  \t "), table(&[&[""]]));
}

#[test]
fn carriage_returns_and_wide_spaces_are_blank() {
    assert_eq!(from_csv("a,b\r\nc,d\r\n"), table(&[&["a", "b"], &["c", "d"], &[""]]));
    assert_eq!(from_csv("\u{3000}a b\u{a0},\u{2003}c\u{205f}"), table(&[&["a b", "c"]]));
    assert_eq!(from_csv("\u{200b}a"), table(&[&["\u{200b}a"]]));
}

#[test]
fn table_agrees_with_splitting_and_trimming_by_the_standard_library() {
    let texts = [
        "",
        "a",
        "a,b",
        "a\nb",
        " a , b \n c ",
        ",,,\n\n,",
        "x\u{85}, \u{1680}y\u{2028}\n\u{2029}z\u{202f}",
        "é, ü ,漢字\n\t日本 語\t",
        "1,2,3\n4,5,6\n7,8,9\n",
        "   ,   \n   ",
        "a\u{b}b,\u{c}c\u{d}",
    ];
    for text in texts {
        assert_eq!(from_csv(text), by_std(text), "{:?}", text);
    }
}

#[test]
fn blank_characters_are_those_of_the_standard_library() {
    for n in 0..=0x10ffffu32 {
        if let Some(c) = char::from_u32(n) {
            assert_eq!(is_blank(c), c.is_whitespace(), "{:x}", n);
        }
    }
}

#[test]
fn characters_come_in_order() {
    assert_eq!(chars_of("añ漢🙂"), vec!['a', 'ñ', '漢', '🙂']);
    assert_eq!(chars_of(""), Vec::<char>::new());
}

#[test]
fn fields_are_cut_from_the_text() {
    let text = String::from(" a , b\nc");
    let table = from_csv(&text);
    let within = |field: &str| {
        let at = field.as_ptr() as usize;
        let from = text.as_ptr() as usize;
        from <= at && at + field.len() <= from + text.len()
    };
    assert_eq!(table, vec![vec!["a", "b"], vec!["c"]]);
    assert!(table.iter().flatten().all(|f| within(f)));
}
