//! The text of log lines: a time stamp, the context, the kind, the message.
use vstd::prelude::*;

use crate::text::push_char;

verus! {

/// The kind of a log line.
#[derive(Debug, Clone, Copy, PartialEq, Eq, Structural)]
pub enum LogType {
    Info,
    Debug,
    Warn,
    Error,
}

/// The tag that starts a log line of this kind.
pub open spec fn prefix_of(lt: LogType) -> Seq<char> {
    match lt {
        LogType::Info => "[INFO]"@,
        LogType::Debug => "[DEBUG]"@,
        LogType::Warn => "[WARN]"@,
        LogType::Error => "[ERROR]"@,
    }
}

impl LogType {
    /// The tag that starts a log line of this kind.
    pub fn prefix(&self) -> (r: &'static str)
        ensures
            r@ == prefix_of(*self),
    {
        match self {
            LogType::Info => "[INFO]",
            LogType::Debug => "[DEBUG]",
            LogType::Warn => "[WARN]",
            LogType::Error => "[ERROR]",
        }
    }
}

/// Each name in brackets, one after the other: `[A][B]`.
pub open spec fn bracketed(names: Seq<Seq<char>>) -> Seq<char>
    decreases names.len(),
{
    if names.len() == 0 {
        Seq::empty()
    } else {
        bracketed(names.drop_last()) + seq!['['] + names.last() + seq![']']
    }
}

/// The views of a list of string slices.
pub open spec fn str_views(names: Seq<&str>) -> Seq<Seq<char>> {
    names.map_values(|s: &str| s@)
}

/// Bracketing two lists of names one after the other gives the two
/// bracketed texts one after the other.
pub proof fn lemma_bracketed_concat(a: Seq<Seq<char>>, b: Seq<Seq<char>>)
    ensures
        bracketed(a + b) == bracketed(a) + bracketed(b),
    decreases b.len(),
{
    if b.len() == 0 {
        assert(a + b =~= a);
        assert(bracketed(a) + bracketed(b) =~= bracketed(a));
    } else {
        assert((a + b).drop_last() =~= a + b.drop_last());
        assert((a + b).last() == b.last());
        lemma_bracketed_concat(a, b.drop_last());
        assert(bracketed(a + b) =~= bracketed(a) + bracketed(b));
    }
}

/// The context that tags the log lines of one part of the program.
#[derive(Clone)]
pub struct LogContext(String);

impl View for LogContext {
    type V = Seq<char>;

    closed spec fn view(&self) -> Seq<char> {
        self.0@
    }
}

impl LogContext {
    /// A context made of the given names, each in brackets: `[A][B]`.
    pub fn new(context: &[&str]) -> (r: LogContext)
        ensures
            r@ == bracketed(str_views(context@)),
    {
        let mut s = String::new();
        let mut i: usize = 0;
        while i < context.len()
            invariant
                i <= context.len(),
                s@ == bracketed(str_views(context@.take(i as int))),
            decreases context.len() - i,
        {
            let ghost before = s@;
            push_char(&mut s, '[');
            s.append(context[i]);
            push_char(&mut s, ']');
            assert(str_views(context@.take(i + 1)).drop_last() =~= str_views(context@.take(i as int)));
            assert(str_views(context@.take(i + 1)).last() == context@[i as int]@);
            assert(s@ =~= before + seq!['['] + context@[i as int]@ + seq![']']);
            i = i + 1;
        }
        assert(context@.take(i as int) =~= context@);
        LogContext(s)
    }

    /// The context's text.
    pub fn as_str(&self) -> (r: &str)
        ensures
            r@ == self@,
    {
        self.0.as_str()
    }

    /// The text of a log line in this context: the time stamp, the context,
    /// the kind's tag, `": "`, then the message.
    pub fn log_line(&self, ftime: &str, lt: &LogType, contents: &str) -> (r: String)
        ensures
            r@ == ftime@ + self@ + prefix_of(*lt) + ": "@ + contents@,
    {
        let mut msg = String::from_str(ftime);
        msg.append(self.0.as_str());
        msg.append(lt.prefix());
        msg.append(": ");
        msg.append(contents);
        msg
    }
}

/// The text of a log line without a context: the time stamp, the kind's
/// tag, then the message.
pub fn log_line(ftime: &str, lt: &LogType, contents: &str) -> (r: String)
    ensures
        r@ == ftime@ + prefix_of(*lt) + contents@,
{
    let mut msg = String::from_str(ftime);
    msg.append(lt.prefix());
    msg.append(contents);
    msg
}

} // verus!
