//! Bookkeeping for line input: the history of exchanges between the
//! player and the program.  Reading the line itself is I/O and lives
//! with the caller; this module only stores and formats what was read.

use vstd::prelude::*;
use vstd::string::StringExecFns;

verus! {

/// How an exchange ended.
#[derive(Clone, Copy, Debug, PartialEq, Eq, Structural)]
pub enum Status {
    Info,
    Error,
}

/// One recorded exchange: what the player typed and what the program
/// answered.
pub struct InputData {
    pub user_input: String,
    pub program_output: String,
    pub status: Status,
}

/// The board extent a future game would be built with.
pub struct BoardPrototype {
    pub height: u16,
    pub width: u16,
}

/// Accumulates input/output exchanges in arrival order.
pub struct Inputter {
    board_prototype: Option<BoardPrototype>,
    history: Vec<InputData>,
}

/// The printed form of the first `n` recorded exchanges: each one as a
/// `>` line with the input and a `<` line with the output.
pub open spec fn history_text_upto(h: Seq<InputData>, n: int) -> Seq<char>
    decreases n,
{
    if n <= 0 {
        Seq::empty()
    } else {
        history_text_upto(h, n - 1) + ">"@ + h[n - 1].user_input@ + "\n<"@ + h[n
            - 1].program_output@ + "\n"@
    }
}

impl Inputter {
    /// The recorded exchanges, oldest first.
    pub closed spec fn history(&self) -> Seq<InputData> {
        self.history@
    }

    /// The stored board extent, if one was chosen.
    pub closed spec fn prototype(&self) -> Option<BoardPrototype> {
        self.board_prototype
    }

    /// An empty history with no board extent chosen.
    pub fn new() -> (r: Self)
        ensures
            r.history().len() == 0,
            r.prototype() is None,
    {
        Self { board_prototype: None, history: Vec::new() }
    }

    /// Records one exchange at the end of the history.
    pub fn add_history(&mut self, user_input: String, program_output: String)
        ensures
            final(self).history() == old(self).history().push(
                InputData { user_input, program_output, status: Status::Info },
            ),
            final(self).prototype() == old(self).prototype(),
    {
        self.history.push(InputData { user_input, program_output, status: Status::Info });
    }

    /// The whole history as printable text, oldest exchange first.
    pub fn history_text(&self) -> (r: String)
        ensures
            r@ == history_text_upto(self.history(), self.history().len() as int),
    {
        let mut out = String::new();
        proof {
            assert(out@ =~= history_text_upto(self.history(), 0));
        }
        let mut index: usize = 0;
        while index < self.history.len()
            invariant
                index <= self.history().len(),
                out@ == history_text_upto(self.history(), index as int),
            decreases self.history().len() - index,
        {
            out.append(">");
            out.append(self.history[index].user_input.as_str());
            out.append("\n<");
            out.append(self.history[index].program_output.as_str());
            out.append("\n");
            proof {
                assert(out@ =~= history_text_upto(self.history(), index as int + 1));
            }
            index = index + 1;
        }
        out
    }
}

} // verus!
