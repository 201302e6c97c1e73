//! Task states, terminal inputs and the summary of long values in labels.

use vstd::prelude::*;
use vstd::string::{StrSliceExecFns, StringExecFns};

verus! {

/// The state of a task.
#[derive(Debug, Clone, Copy, PartialEq, Eq, Structural)]
pub enum State {
    /// Task is pending.
    Pending,
    /// Task is running.
    Running,
    /// Task succeeded.
    Succeeded,
    /// Task failed with an error.
    Failed,
}

impl State {
    /// Whether the task is in `Pending` state.
    pub fn is_pending(&self) -> (r: bool)
        ensures
            r == (*self == State::Pending),
    {
        matches!(self, State::Pending)
    }

    /// Whether the task is in `Running` state.
    pub fn is_running(&self) -> (r: bool)
        ensures
            r == (*self == State::Running),
    {
        matches!(self, State::Running)
    }

    /// Whether the task is in `Succeeded` state.
    pub fn did_succeed(&self) -> (r: bool)
        ensures
            r == (*self == State::Succeeded),
    {
        matches!(self, State::Succeeded)
    }

    /// Whether the task is in `Failed` state.
    pub fn did_fail(&self) -> (r: bool)
        ensures
            r == (*self == State::Failed),
    {
        matches!(self, State::Failed)
    }
}

/// A simple terminal input for a task: a task without dependencies that yields this value.
#[derive(Clone, Debug)]
pub struct Input<O>(pub O);

impl<O> Input<O> {
    /// Wraps a value.
    pub fn new(value: O) -> (r: Self)
        ensures
            r.0 == value,
    {
        Input(value)
    }

    /// Returns the wrapped value.
    pub fn into_inner(self) -> (r: O)
        ensures
            r == self.0,
    {
        self.0
    }
}

impl<O> From<O> for Input<O> {
    fn from(value: O) -> (r: Self) {
        Input(value)
    }
}

impl<O> vstd::std_specs::convert::FromSpecImpl<O> for Input<O> {
    open spec fn obeys_from_spec() -> bool {
        true
    }

    open spec fn from_spec(v: O) -> Self {
        Input(v)
    }
}

/// The name under which an input is shown: `Input(..)` around its value's debug text,
/// summarized to 20 characters.
pub fn input_name(value_debug: &str) -> (r: String)
    ensures
        r@ == seq!['I', 'n', 'p', 'u', 't', '('] + summarized(value_debug@, 20) + seq![')'],
{
    let open = "Input(";
    let close = ")";
    proof {
        reveal_strlit("Input(");
        reveal_strlit(")");
    }
    let mut out = String::from_str(open);
    let value = summarize(value_debug, 20);
    out.append(value.as_str());
    out.append(close);
    out
}

/// How a task is shown in place of its output while its output is not shown: its state in
/// angle brackets.
pub fn as_argument(state: State) -> (r: String)
    ensures
        r@ == (match state {
            State::Pending => seq!['<', 'p', 'e', 'n', 'd', 'i', 'n', 'g', '>'],
            State::Running => seq!['<', 'r', 'u', 'n', 'n', 'i', 'n', 'g', '>'],
            State::Succeeded => seq!['<', 's', 'u', 'c', 'c', 'e', 'e', 'd', 'e', 'd', '>'],
            State::Failed => seq!['<', 'f', 'a', 'i', 'l', 'e', 'd', '>'],
        }),
{
    match state {
        State::Pending => {
            proof {
                reveal_strlit("<pending>");
            }
            String::from_str("<pending>")
        },
        State::Running => {
            proof {
                reveal_strlit("<running>");
            }
            String::from_str("<running>")
        },
        State::Succeeded => {
            proof {
                reveal_strlit("<succeeded>");
            }
            String::from_str("<succeeded>")
        },
        State::Failed => {
            proof {
                reveal_strlit("<failed>");
            }
            String::from_str("<failed>")
        },
    }
}

/// `s` shortened to at most `max` characters around an ellipsis: when `s` is longer than
/// `max`, its first `max / 2` characters, then `...`, then its last `max - max / 2` characters.
pub open spec fn summarized(s: Seq<char>, max: nat) -> Seq<char> {
    if s.len() <= max {
        s
    } else {
        let head = max / 2;
        let tail = max - head;
        s.take(head as int) + seq!['.', '.', '.'] + s.skip(s.len() - tail)
    }
}

/// Shortens a long text for display: at most `max_length` characters of it are kept, the
/// first half and the last half, joined by `...`.
pub fn summarize(s: &str, max_length: usize) -> (r: String)
    ensures
        r@ == summarized(s@, max_length as nat),
{
    let char_count = s.unicode_len();
    if char_count <= max_length {
        return String::from_str(s);
    }
    let head_len = max_length / 2;
    let tail_len = max_length - head_len;
    let mut out = String::from_str(s.substring_char(0, head_len));
    let dots = "...";
    proof {
        reveal_strlit("...");
    }
    out.append(dots);
    out.append(s.substring_char(char_count - tail_len, char_count));
    proof {
        assert(s@.subrange(0, head_len as int) == s@.take(head_len as int));
        assert(s@.subrange(char_count - tail_len, char_count as int) == s@.skip(char_count - tail_len));
        assert(dots@ == seq!['.', '.', '.']);
    }
    out
}

} // verus!
