//! Messages for syslog.

use crate::text::chars;
use vstd::prelude::*;

verus! {

/// How grave a message is.
#[derive(Clone, Copy, Debug, PartialEq, Eq, Structural)]
pub enum Level {
    Error,
    Warn,
    Info,
    Debug,
    Trace,
}

/// The priority of a message in syslog: 3 for errors, 4 for warnings, 6 for information and 7 for
/// the rest.
pub fn priority(level: Level) -> (priority: i32)
    ensures
        priority == match level {
            Level::Error => 3int,
            Level::Warn => 4int,
            Level::Info => 6int,
            Level::Debug => 7int,
            Level::Trace => 7int,
        },
{
    match level {
        Level::Error => 3,
        Level::Warn => 4,
        Level::Info => 6,
        Level::Debug => 7,
        Level::Trace => 7,
    }
}

/// A text with a space in the place of every NUL.
pub open spec fn without_nul(s: Seq<char>) -> Seq<char> {
    s.map_values(
        |c: char|
            if c == '\0' {
                ' '
            } else {
                c
            },
    )
}

/// A message as it is handed to syslog: where it comes from, and what it says. It holds no NUL.
pub fn c_message(target: &str, text: &str) -> (message: String)
    ensures
        message@ == without_nul(target@ + ": "@ + text@),
        forall|i: int| 0 <= i < message@.len() ==> message@[i] != '\0',
{
    let mut line: String = target.to_owned();
    line.append(": ");
    line.append(text);
    let whole: &str = line.as_str();
    let letters: Vec<char> = chars(whole);
    let size: usize = letters.len();
    let mut message: String = String::new();
    let mut i: usize = 0;
    assert(message@ =~= without_nul(letters@.take(0)));
    while i < size
        invariant
            i <= size == letters@.len(),
            letters@ == whole@,
            message@ == without_nul(letters@.take(i as int)),
        decreases size - i,
    {
        if letters[i] == '\0' {
            proof {
                reveal_strlit(" ");
            }
            message.append(" ");
        } else {
            message.append(whole.substring_char(i, i + 1));
        }
        i += 1;
        assert(message@ =~= without_nul(letters@.take(i as int)));
    }
    assert(letters@.take(size as int) =~= letters@);
    message
}

/// What is worse is never less urgent: its number is not higher. Errors, warnings and information
/// have numbers of their own, and the rest is for debugging.
pub proof fn law_worse_is_more_urgent(
    error: i32,
    warn: i32,
    info: i32,
    debug: i32,
    trace: i32,
)
    requires
        call_ensures(priority, (Level::Error,), error),
        call_ensures(priority, (Level::Warn,), warn),
        call_ensures(priority, (Level::Info,), info),
        call_ensures(priority, (Level::Debug,), debug),
        call_ensures(priority, (Level::Trace,), trace),
    ensures
        0 <= error < warn < info < debug <= trace <= 7,
        error == 3 && warn == 4 && info == 6 && debug == 7,
{
}

/// A message is the target, a colon, a space and the text, character by character; only zeros,
/// which would end it, become spaces.
pub proof fn law_messages_keep_their_text(target: &str, text: &str, message: String, i: int)
    requires
        call_ensures(c_message, (target, text), message),
        0 <= i < message@.len(),
    ensures
        message@.len() == target@.len() + 2 + text@.len(),
        message@[i] != '\0',
        i < target@.len() ==> message@[i] == if target@[i] == '\0' {
            ' '
        } else {
            target@[i]
        },
        i == target@.len() ==> message@[i] == ':',
        i == target@.len() + 1 ==> message@[i] == ' ',
        i > target@.len() + 1 ==> message@[i] == if text@[i - target@.len() - 2] == '\0' {
            ' '
        } else {
            text@[i - target@.len() - 2]
        },
{
    reveal_strlit(": ");
}

} // verus!
