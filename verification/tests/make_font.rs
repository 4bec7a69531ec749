use mikanos::make_font::{bitmap_bits, bits_to_byte, compile, font_bitmap_rows};

#[test]
fn each_run_is_one_bit() {
    assert_eq!(bitmap_bits(b"........"), vec![1]);
    assert_eq!(bitmap_bits(b"."), vec![0]);
    assert_eq!(bitmap_bits(b". * . @"), vec![0, 1, 0, 1]);
    assert_eq!(bitmap_bits(b"0x41 'A'"), Vec::<u8>::new());
    assert_eq!(bitmap_bits(b"0x2e '.'"), vec![0]);
    assert_eq!(bitmap_bits(b".. x .\r"), vec![1, 0]);
    assert_eq!(bitmap_bits(b""), Vec::<u8>::new());
}

#[test]
fn bits_fold_into_a_byte() {
    assert_eq!(bits_to_byte(&[1]), Some(1));
    assert_eq!(bits_to_byte(&[0, 1, 0]), Some(2));
    assert_eq!(bits_to_byte(&[1, 1, 1, 1, 1, 1, 1, 1]), Some(255));
    assert_eq!(bits_to_byte(&[1, 0, 0, 0, 0, 0, 0, 0, 0]), None);
    assert_eq!(bits_to_byte(&[0, 0, 0, 0, 0, 0, 0, 0, 1]), Some(1));
}

#[test]
fn compile_gives_one_byte_per_bitmap_line() {
    let text = "0x41 'A'\n........\n...@....\n. * .\n\nno bitmap here\n.\n";
    assert_eq!(
        font_bitmap_rows(text),
        vec![vec![1], vec![1], vec![0, 1, 0], vec![0]]
    );
    assert_eq!(compile(text), Some(vec![1, 1, 2, 0]));
}

#[test]
fn compile_without_trailing_newline_and_leading_blank_lines() {
    assert_eq!(compile("\n\n  * . *\n@"), Some(vec![5, 1]));
    assert_eq!(compile(""), Some(vec![]));
}

#[test]
fn compile_reports_a_line_that_does_not_fit() {
    assert_eq!(compile("* * *\n* * * * * * * * *\n"), None);
    assert_eq!(compile(". . . . . . . . *\n"), Some(vec![1]));
}

#[test]
fn compile_concatenates() {
    let a = ". *\n@";
    let b = "* .\nabc";
    let mut ab = String::from(a);
    ab.push('\n');
    ab.push_str(b);
    let mut expected = compile(a).unwrap();
    expected.extend(compile(b).unwrap());
    assert_eq!(compile(&ab), Some(expected));
}

#[test]
fn compile_ignores_text_without_bitmap_chars() {
    assert_eq!(compile("hello\nworld 0x41 'A'\r\n"), Some(vec![]));
}

#[test]
fn lines_of_eight_runs_always_fit() {
    assert_eq!(compile("* * * * * * * *\n* . . . . . . *"), Some(vec![255, 129]));
}

#[test]
fn stars_and_ats_are_interchangeable() {
    let font = "0x40 '@'\n..@@@...\n.*...*..\n@ * . @\n. .\n";
    assert_eq!(compile(&font.replace('@', "*")), compile(font));
    assert_eq!(compile(&font.replace('*', "@")), compile(font));
    assert_eq!(compile(font), Some(vec![1, 1, 1, 13, 0]));
}
