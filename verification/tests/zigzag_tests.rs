use simple_mcmc::zigzag::zigzag_line;

fn line(text: &str, k: usize, row: usize) -> String {
    let sentence: Vec<char> = text.chars().collect();
    zigzag_line(&sentence, k, row).iter().collect()
}

#[test]
fn three_rows() {
    let text = "PAYPALISHIRING";
    assert_eq!(line(text, 3, 0), "P   A   H   N ");
    assert_eq!(line(text, 3, 1), " A P L S I I G");
    assert_eq!(line(text, 3, 2), "  Y   I   R   ");
}

#[test]
fn four_rows() {
    let text = "PAYPALISHIRING";
    assert_eq!(line(text, 4, 0), "P     I     N ");
    assert_eq!(line(text, 4, 1), " A   L S   I G");
    assert_eq!(line(text, 4, 2), "  Y A   H R   ");
    assert_eq!(line(text, 4, 3), "   P     I    ");
}

#[test]
fn two_rows_alternate() {
    assert_eq!(line("abcdefg", 2, 0), "a c e g");
    assert_eq!(line("abcdefg", 2, 1), " b d f ");
}

#[test]
fn more_rows_than_characters() {
    assert_eq!(line("abc", 5, 0), "a  ");
    assert_eq!(line("abc", 5, 1), " b ");
    assert_eq!(line("abc", 5, 2), "  c");
    assert_eq!(line("abc", 5, 3), "   ");
    assert_eq!(line("abc", 5, 4), "   ");
}

#[test]
fn empty_text_gives_empty_lines() {
    assert_eq!(line("", 1, 0), "");
    assert_eq!(line("", 3, 0), "");
    assert_eq!(line("", 3, 2), "");
}

#[test]
fn each_character_stands_on_one_line() {
    let text = "the quick brown fox jumps over the lazy dog";
    let sentence: Vec<char> = text.chars().collect();
    for k in 2..9usize {
        let lines: Vec<Vec<char>> = (0..k).map(|row| zigzag_line(&sentence, k, row)).collect();
        for (i, &c) in sentence.iter().enumerate() {
            let period = 2 * (k - 1);
            let m = i % period;
            let row = if m < k - 1 { m } else { period - m };
            for (r, l) in lines.iter().enumerate() {
                assert_eq!(l.len(), sentence.len());
                if r == row {
                    assert_eq!(l[i], c);
                } else {
                    assert_eq!(l[i], ' ');
                }
            }
        }
    }
}
