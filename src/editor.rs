//! Editor settings and the ways a document can be shown.
use vstd::prelude::*;
use vstd::string::StringExecFns;

verus! {

/// Editor settings.
#[derive(Debug, Clone, PartialEq)]
pub struct Config {
    /// Padding to keep between the edge of the screen and the cursor when scrolling.
    pub scrolloff: usize,
    /// Number of lines to scroll at once.
    pub scroll_lines: isize,
    /// Mouse support.
    pub mouse: bool,
    /// Shell to use for shell commands.
    pub shell: Vec<String>,
    /// Line number mode.
    pub line_number: LineNumber,
    /// Middle click paste support.
    pub middle_click_paste: bool,
    /// Case insensitive searching unless the pattern holds an upper case character.
    pub smart_case: bool,
    /// Automatic insertion of pairs to parentheses, brackets, etc.
    pub auto_pairs: bool,
}

#[derive(Debug, Clone, Copy, PartialEq, Eq, Structural)]
pub enum LineNumber {
    /// Show absolute line number.
    Absolute,
    /// Show line number relative to the primary cursor.
    Relative,
}

/// Where a document opens.
#[derive(Debug, Clone, Copy, PartialEq, Eq, Structural)]
pub enum Action {
    Load,
    Replace,
    HorizontalSplit,
    VerticalSplit,
}

impl Default for Config {
    /// Scroll padding 5, three lines per scroll, mouse on, `sh -c` as shell,
    /// absolute line numbers, middle click paste, smart case and auto pairs on.
    fn default() -> (r: Config)
        ensures
            r.scrolloff == 5,
            r.scroll_lines == 3,
            r.mouse,
            r.shell@.len() == 2,
            r.shell@[0]@ == seq!['s', 'h'],
            r.shell@[1]@ == seq!['-', 'c'],
            r.line_number == LineNumber::Absolute,
            r.middle_click_paste,
            r.smart_case,
            r.auto_pairs,
    {
        let mut shell: Vec<String> = Vec::new();
        proof {
            reveal_strlit("sh");
            reveal_strlit("-c");
        }
        shell.push(String::from_str("sh"));
        shell.push(String::from_str("-c"));
        Config {
            scrolloff: 5,
            scroll_lines: 3,
            mouse: true,
            shell,
            line_number: LineNumber::Absolute,
            middle_click_paste: true,
            smart_case: true,
            auto_pairs: true,
        }
    }
}

} // verus!
