use mark_rs::error::Error;
use mark_rs::style::color::Color;
use mark_rs::style::Style;
use mark_rs::terminal::buffer::{count_cells_in, TerminalBuffer};

fn line_text(b: &TerminalBuffer, i: usize) -> String {
    b.lines()[i].iter().map(|c| c.character).collect()
}

fn texts(b: &TerminalBuffer) -> Vec<String> {
    (0..b.lines().len()).map(|i| line_text(b, i)).collect()
}

#[test]
fn plain_text_renders_as_itself() {
    let mut b = TerminalBuffer::new();
    b.push("ab\ncd");
    b.push("e");
    b.push("\n\nf");
    assert_eq!(b.render(), "ab\ncde\n\nf");
    assert_eq!(texts(&b), vec!["ab", "cde", "", "f"]);
    assert_eq!(b.cell_count(), 6);
}

#[test]
fn empty_grid_renders_empty() {
    let b = TerminalBuffer::new();
    assert_eq!(b.render(), "");
    assert_eq!(b.lines().len(), 1);
}

#[test]
fn styled_then_plain_transitions_once() {
    let mut b = TerminalBuffer::new();
    b.push_styled(Style::builder().bold().fg(Color::RED), "Hi");
    b.push("!");
    assert_eq!(b.render(), "\x1b[1;31mHi\x1b[39;22m!");
}

#[test]
fn trailing_styled_run_is_reset_at_the_end() {
    let mut b = TerminalBuffer::new();
    b.push("a");
    b.push_styled(Style::builder().bold(), "B\nC");
    assert_eq!(b.render(), "a\x1b[1mB\nC\x1b[22m");
}

#[test]
fn equal_styles_share_one_entry_and_do_not_transition() {
    let mut b = TerminalBuffer::new();
    b.push_styled(Style::builder().italic(), "ab");
    b.push_styled(Style::builder().italic(), "cd");
    assert_eq!(b.render(), "\x1b[3mabcd\x1b[23m");
    let k = b.lines()[0][0].style.unwrap();
    assert_eq!(b.lines()[0][3].style, Some(k));
    assert_eq!(b.styles().refs(k), 4);
}

#[test]
fn empty_styled_text_leaves_the_table_alone() {
    let mut b = TerminalBuffer::new();
    b.push_styled(Style::builder().bold(), "");
    assert!(!b.styles().contains(0));
    assert_eq!(texts(&b), vec![""]);
    assert_eq!(b.render(), "");
    b.push_styled(Style::builder().bold(), "\n");
    assert!(!b.styles().contains(0));
    assert_eq!(b.lines().len(), 2);
}

#[test]
fn styled_text_counts_one_reference_per_cell() {
    let mut b = TerminalBuffer::new();
    b.push_styled(Style::builder().bold(), "ab\nc");
    let k = b.lines()[0][0].style.unwrap();
    assert_eq!(b.styles().refs(k), 3);
    assert_eq!(count_cells_in("ab\nc"), 3);
}

#[test]
fn replace_within_one_line() {
    let mut b = TerminalBuffer::new();
    b.push("Hello");
    assert_eq!(b.replace(0..1, 2..5, "XY"), Ok(()));
    assert_eq!(texts(&b), vec!["HeXY"]);
    let mut w = TerminalBuffer::new();
    w.push("Hello world");
    assert_eq!(w.replace(0..1, 2..5, "XY"), Ok(()));
    assert_eq!(texts(&w), vec!["HeXY world"]);
}

#[test]
fn replace_releases_removed_styles() {
    let mut b = TerminalBuffer::new();
    b.push_styled(Style::builder().bold(), "Hello");
    let k = b.lines()[0][0].style.unwrap();
    assert_eq!(b.replace(0..1, 2..5, "XY"), Ok(()));
    assert_eq!(b.styles().refs(k), 2);
    assert_eq!(b.lines()[0][2].style, None);
    assert_eq!(b.render(), "\x1b[1mHe\x1b[22mXY");
    assert_eq!(b.replace(0..1, 0..2, ""), Ok(()));
    assert!(!b.styles().contains(k));
    assert_eq!(b.render(), "XY");
}

#[test]
fn replace_across_lines_merges_them() {
    let mut b = TerminalBuffer::new();
    b.push("abc\ndef\nghi");
    assert_eq!(b.replace(0..3, 1..2, "X\nY"), Ok(()));
    assert_eq!(texts(&b), vec!["aX", "Yi"]);
    let mut c = TerminalBuffer::new();
    c.push("abc\ndef");
    assert_eq!(c.replace(0..2, 2..1, "-"), Err(Error::InvalidRange));
    assert_eq!(c.replace(0..2, 1..1, "-"), Ok(()));
    assert_eq!(texts(&c), vec!["a-ef"]);
}

#[test]
fn replace_with_empty_line_range_inserts_lines() {
    let mut b = TerminalBuffer::new();
    b.push("ab\ncd");
    assert_eq!(b.replace(1..1, 0..0, "new"), Ok(()));
    assert_eq!(texts(&b), vec!["ab", "new", "cd"]);
    assert_eq!(b.replace(3..3, 0..0, "end"), Ok(()));
    assert_eq!(texts(&b), vec!["ab", "new", "cd", "end"]);
}

#[test]
fn replace_deletes_a_line() {
    let mut b = TerminalBuffer::new();
    b.push("one\ntwo\nthree");
    assert_eq!(b.replace(1..3, 0..0, ""), Ok(()));
    assert_eq!(texts(&b), vec!["one", "three"]);
    assert_eq!(b.replace(0..1, 0..3, ""), Ok(()));
    assert_eq!(texts(&b), vec!["", "three"]);
}

#[test]
fn replace_rejects_bad_ranges_and_changes_nothing() {
    let mut b = TerminalBuffer::new();
    b.push_styled(Style::builder().bold(), "abc");
    let before = b.render();
    assert_eq!(b.replace(0..2, 0..1, "x"), Err(Error::OutOfBounds));
    assert_eq!(b.replace(1..1, 0..1, "x"), Err(Error::OutOfBounds));
    assert_eq!(b.replace(0..1, 0..4, "x"), Err(Error::OutOfBounds));
    assert_eq!(b.replace(0..1, 4..4, "x"), Err(Error::OutOfBounds));
    assert_eq!(b.replace(1..0, 0..1, "x"), Err(Error::InvalidRange));
    assert_eq!(b.replace(0..1, 2..1, "x"), Err(Error::InvalidRange));
    assert_eq!(b.render(), before);
    assert_eq!(b.styles().refs(0), 3);
}

#[test]
fn styled_buffer_edit_scenario() {
    let mut b = TerminalBuffer::new();
    b.push_styled(Style::builder().fg(Color::RED).bold(), "First Buffer\n");
    b.push("    ");
    b.push_styled(Style::builder().bold(), "of styled text");
    assert_eq!(b.replace(0..1, 0..5, "Second"), Ok(()));
    assert_eq!(texts(&b), vec!["Second Buffer", "    of styled text"]);
    assert_eq!(
        b.render(),
        "Second\x1b[1;31m Buffer\n\x1b[39;22m    \x1b[1mof styled text\x1b[22m"
    );
    let k = b.lines()[0][6].style.unwrap();
    assert_eq!(b.styles().refs(k), 7);
}

#[test]
fn pure_insert_keeps_the_table() {
    let mut b = TerminalBuffer::new();
    b.push_styled(Style::builder().bold(), "Hello");
    let k = b.lines()[0][0].style.unwrap();
    assert_eq!(b.replace(0..1, 2..2, "XY"), Ok(()));
    assert_eq!(texts(&b), vec!["HeXYllo"]);
    assert_eq!(b.styles().refs(k), 5);
    assert_eq!(b.replace(0..1, 7..7, "!"), Ok(()));
    assert_eq!(texts(&b), vec!["HeXYllo!"]);
    assert_eq!(b.styles().refs(k), 5);
}

#[test]
fn one_style_appended_twice_shares_its_key() {
    let mut b = TerminalBuffer::new();
    let s = Style::builder().underline().fg(Color::CYAN);
    b.push_styled(s.clone(), "ab");
    b.push_styled(s, "c\nd");
    let k = b.lines()[0][0].style.unwrap();
    assert!(b.lines().iter().flatten().all(|c| c.style == Some(k)));
    assert_eq!(b.styles().refs(k), 4);
    assert!(!b.styles().contains(k + 1));
}
