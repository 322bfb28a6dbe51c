//! The lines of a problem file. A reader hands over each line as it was
//! read, with its line end; what to do with it is decided here.

use vstd::prelude::*;
use vstd::string::StrSliceExecFns;

verus! {

/// What `str::trim` makes of a string: the string without the white
/// space at its start and at its end.
pub uninterp spec fn trimmed(line: Seq<char>) -> Seq<char>;

/// Calls `str::trim`. The result is believed to depend on the characters
/// of `line` alone; nothing more is claimed of it.
#[verifier::external_body]
fn trim<'a>(line: &'a str) -> (rest: &'a str)
    ensures
        rest@ == trimmed(line@),
{
    line.trim()
}

/// What a reader does after a line: stop, since the input has ended; go
/// on to the next line; or hand out the text of this line.
#[derive(Debug, PartialEq, Eq)]
pub enum LineStep {
    End,
    Skip,
    Take(String),
}

/// A line is passed over where it is a comment, which starts with `#`,
/// or is blank: nothing is left of it once it is trimmed.
pub open spec fn skipped(line: Seq<char>) -> bool {
    line.len() > 0 && (line[0] == '#' || trimmed(line).len() == 0)
}

/// Decides what to do with `line`, which holds what was read up to and
/// with the next line end. Nothing read means that the input has ended.
/// Comments and blank lines are skipped; any other line is taken,
/// trimmed, so the text handed out is never empty.
pub fn classify(line: &str) -> (step: LineStep)
    ensures
        step is End <==> line@.len() == 0,
        step is Skip <==> skipped(line@),
        step matches LineStep::Take(text) ==> text@ == trimmed(line@) && text@.len() > 0,
{
    if line.is_empty() {
        return LineStep::End;
    }
    if line.get_char(0) == '#' {
        return LineStep::Skip;
    }
    let rest = trim(line);
    if rest.is_empty() {
        return LineStep::Skip;
    }
    LineStep::Take(rest.to_owned())
}

} // verus!
