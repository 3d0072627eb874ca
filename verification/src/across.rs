//! The Across Puzzle V2 text of a crossword.

use vstd::prelude::*;
use crate::crossword::{Crossword, Direction, Grid, grid_text, word_texts};
use crate::parse::direction_slots;
use crate::wordlist::same_text;
use crate::text::{
    chars_of, string_of, push_all, push_decimal, join, indent, indent_text, decimal, join_lines,
};

verus! {

/// The output formats of a filled crossword.
#[derive(Debug, PartialEq, Eq, Clone, Copy, Hash, Structural)]
pub enum Format {
    /// The Across Puzzle V2 text.
    Across,
    /// The grid alone.
    Grid,
}

/// The format that a name stands for: `across` or `grid`, and the grid where no name
/// is given.
pub open spec fn format_named(name: Option<Seq<char>>) -> Option<Format> {
    match name {
        None => Some(Format::Grid),
        Some(text) => if text == "across"@ {
            Some(Format::Across)
        } else if text == "grid"@ {
            Some(Format::Grid)
        } else {
            None
        },
    }
}

impl Format {
    /// The format that a name stands for, or `None` for a name that stands for none.
    pub fn from_name(name: Option<&str>) -> (format: Option<Format>)
        ensures
            format == format_named(
                match name {
                    Some(text) => Some(text@),
                    None => None,
                },
            ),
    {
        match name {
            None => Some(Format::Grid),
            Some(text) => if same_text(text, "across") {
                Some(Format::Across)
            } else if same_text(text, "grid") {
                Some(Format::Grid)
            } else {
                None
            },
        }
    }
}

/// The number of spaces before each line of a section.
pub const INDENT: usize = 2;

/// The line that gives the size of a grid: its width, an `x`, and its height.
pub open spec fn size_text(g: Grid) -> Seq<char> {
    decimal(g.width) + seq!['x'] + decimal(g.height())
}

/// The Across Puzzle V2 text of a grid: the sections for title, author, copyright,
/// size, grid, across words and down words, each under its tag and behind two spaces.
pub open spec fn across_text(
    g: Grid,
    title: Seq<char>,
    author: Seq<char>,
    copyright: Seq<char>,
) -> Seq<char> {
    "<ACROSS PUZZLE V2>\n<TITLE>\n"@ + indent_text(title, INDENT as nat) + "\n<AUTHOR>\n"@
        + indent_text(author, INDENT as nat) + "\n<COPYRIGHT>\n"@ + indent_text(
        copyright,
        INDENT as nat,
    ) + "\n<SIZE>\n"@ + indent_text(size_text(g), INDENT as nat) + "\n<GRID>\n"@ + indent_text(
        grid_text(g),
        INDENT as nat,
    ) + "\n<ACROSS>\n"@ + indent_text(
        join_lines(word_texts(g, direction_slots(g, Direction::Across))),
        INDENT as nat,
    ) + "\n<DOWN>\n"@ + indent_text(
        join_lines(word_texts(g, direction_slots(g, Direction::Down))),
        INDENT as nat,
    )
}

/// A crossword with what the Across Puzzle V2 text says about it.
#[derive(PartialEq, Eq, Debug, Hash, Clone)]
pub struct AcrossFileFormat {
    crossword: Crossword,
    title: String,
    author: String,
    copyright: String,
}

impl AcrossFileFormat {
    /// The grid of the crossword.
    pub closed spec fn grid(&self) -> Grid {
        self.crossword@
    }

    pub closed spec fn title(&self) -> Seq<char> {
        self.title@
    }

    pub closed spec fn author(&self) -> Seq<char> {
        self.author@
    }

    pub closed spec fn copyright(&self) -> Seq<char> {
        self.copyright@
    }

    pub fn new(crossword: Crossword, title: String, author: String, copyright: String) -> (format:
        Self)
        ensures
            format.grid() == crossword@,
            format.title() == title@,
            format.author() == author@,
            format.copyright() == copyright@,
    {
        AcrossFileFormat { crossword, title, author, copyright }
    }

    /// The text with each of its lines behind `spaces` spaces.
    fn indent(s: &str, spaces: usize) -> (out: Vec<char>)
        ensures
            out@ == indent_text(s@, spaces as nat),
    {
        let text = chars_of(s);
        indent(&text, spaces)
    }

    /// Appends a tag and, behind two spaces, the lines of `section`.
    fn push_section(out: &mut Vec<char>, tag: &str, section: &Vec<char>)
        ensures
            final(out)@ == old(out)@ + tag@ + indent_text(section@, INDENT as nat),
    {
        let tag_chars = chars_of(tag);
        push_all(out, &tag_chars);
        let body = indent(section, INDENT);
        push_all(out, &body);
    }

    /// The Across Puzzle V2 text of the crossword.
    pub fn to_string(&self) -> (s: String)
        ensures
            s@ == across_text(self.grid(), self.title(), self.author(), self.copyright()),
    {
        let mut out: Vec<char> = Vec::new();
        let title = chars_of(self.title.as_str());
        Self::push_section(&mut out, "<ACROSS PUZZLE V2>\n<TITLE>\n", &title);
        assert(out@ =~= "<ACROSS PUZZLE V2>\n<TITLE>\n"@ + indent_text(title@, INDENT as nat));
        let author = chars_of(self.author.as_str());
        Self::push_section(&mut out, "\n<AUTHOR>\n", &author);
        let copyright = chars_of(self.copyright.as_str());
        Self::push_section(&mut out, "\n<COPYRIGHT>\n", &copyright);
        let mut size: Vec<char> = Vec::new();
        push_decimal(self.crossword.width(), &mut size);
        size.push('x');
        push_decimal(self.crossword.height(), &mut size);
        assert(size@ =~= size_text(self.grid()));
        Self::push_section(&mut out, "\n<SIZE>\n", &size);
        let grid = chars_of(self.crossword.to_string().as_str());
        Self::push_section(&mut out, "\n<GRID>\n", &grid);
        let across = join(&self.crossword.words(Direction::Across));
        Self::push_section(&mut out, "\n<ACROSS>\n", &across);
        let down = join(&self.crossword.words(Direction::Down));
        Self::push_section(&mut out, "\n<DOWN>\n", &down);
        string_of(&out)
    }
}

} // verus!
