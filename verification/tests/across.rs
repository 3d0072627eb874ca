use xwords::across::AcrossFileFormat;
use xwords::crossword::Crossword;

#[test]
fn format_works() {
    let c = Crossword::parse(String::from(
        "
SIAM
N.EM
RYAL
",
    ));
    let a = AcrossFileFormat::new(
        c.unwrap(),
        String::from("title"),
        String::from("author"),
        String::from("copyright"),
    );
    assert_eq!(
        a.to_string(),
        "<ACROSS PUZZLE V2>
<TITLE>
  title
<AUTHOR>
  author
<COPYRIGHT>
  copyright
<SIZE>
  4x3
<GRID>
  SIAM
  N.EM
  RYAL
<ACROSS>
  SIAM
  EM
  RYAL
<DOWN>
  SNR
  AEA
  MML"
    );
}

#[test]
fn format_indents_every_line_of_a_section() {
    let c = Crossword::parse(String::from("XXXXXXXXXXXX")).unwrap();
    let a = AcrossFileFormat::new(
        c,
        String::from("two\r\nlines\n"),
        String::new(),
        String::from("a\n\nb"),
    );
    assert_eq!(
        a.to_string(),
        "<ACROSS PUZZLE V2>\n<TITLE>\n  two\n  lines\n<AUTHOR>\n\n<COPYRIGHT>\n  a\n  \n  b\n<SIZE>\n  12x1\n<GRID>\n  XXXXXXXXXXXX\n<ACROSS>\n              \n<DOWN>\n"
    );
}
