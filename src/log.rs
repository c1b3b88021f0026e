use vstd::prelude::*;

verus! {

/// How much the server reports, from most to least detailed.
#[derive(Debug, Clone, Copy, PartialEq, Eq, PartialOrd, Ord, Hash)]
pub enum LogLevel {
    Trace,
    Debug,
    Info,
    Warn,
    Error,
}

impl Default for LogLevel {
    fn default() -> (r: LogLevel)
        ensures
            r == LogLevel::Info,
    {
        LogLevel::Info
    }
}

/// What `str::to_lowercase` gives for `s`.
pub uninterp spec fn lower_of(s: Seq<char>) -> Seq<char>;

/// Relies on `str::to_lowercase`: the Unicode lower case of `s`, a function of its characters.
#[verifier::external_body]
fn lowercase(s: &str) -> (r: String)
    ensures
        r@ == lower_of(s@),
{
    s.to_lowercase()
}

/// The level a lower-case name stands for; any other name gives the default.
pub open spec fn level_named(l: Seq<char>) -> LogLevel {
    if l == seq!['e', 'r', 'r', 'o', 'r'] {
        LogLevel::Error
    } else if l == seq!['w', 'a', 'r', 'n'] {
        LogLevel::Warn
    } else if l == seq!['i', 'n', 'f', 'o'] {
        LogLevel::Info
    } else if l == seq!['d', 'e', 'b', 'u', 'g'] {
        LogLevel::Debug
    } else if l == seq!['t', 'r', 'a', 'c', 'e'] {
        LogLevel::Trace
    } else {
        LogLevel::Info
    }
}

/// Whether two strings hold the same characters.
pub fn same_text(a: &str, b: &str) -> (r: bool)
    ensures
        r == (a@ == b@),
{
    let n = a.unicode_len();
    if n != b.unicode_len() {
        return false;
    }
    let mut i: usize = 0;
    while i < n
        invariant
            n == a@.len() == b@.len(),
            i <= n,
            a@.take(i as int) == b@.take(i as int),
        decreases n - i,
    {
        if a.get_char(i) != b.get_char(i) {
            return false;
        }
        assert(a@.take(i + 1) == a@.take(i as int).push(a@[i as int]));
        assert(b@.take(i + 1) == b@.take(i as int).push(b@[i as int]));
        i = i + 1;
    }
    assert(a@.take(n as int) == a@);
    assert(b@.take(n as int) == b@);
    true
}

impl LogLevel {
    /// The level a name already in lower case stands for: `error`, `warn`,
    /// `info`, `debug` or `trace`; any other name gives the default level.
    pub fn from_lower(l: &str) -> (r: LogLevel)
        ensures
            r == level_named(l@),
    {
        proof {
            reveal_strlit("error");
            reveal_strlit("warn");
            reveal_strlit("info");
            reveal_strlit("debug");
            reveal_strlit("trace");
            assert("error"@ == seq!['e', 'r', 'r', 'o', 'r']);
            assert("warn"@ == seq!['w', 'a', 'r', 'n']);
            assert("info"@ == seq!['i', 'n', 'f', 'o']);
            assert("debug"@ == seq!['d', 'e', 'b', 'u', 'g']);
            assert("trace"@ == seq!['t', 'r', 'a', 'c', 'e']);
        }
        if same_text(l, "error") {
            LogLevel::Error
        } else if same_text(l, "warn") {
            LogLevel::Warn
        } else if same_text(l, "info") {
            LogLevel::Info
        } else if same_text(l, "debug") {
            LogLevel::Debug
        } else if same_text(l, "trace") {
            LogLevel::Trace
        } else {
            LogLevel::Info
        }
    }

    /// The level a name stands for, in any letter case.
    pub fn from_name(s: &str) -> (r: LogLevel)
        ensures
            r == level_named(lower_of(s@)),
    {
        let l = lowercase(s);
        LogLevel::from_lower(l.as_str())
    }

    /// The level's name, capitalised.
    pub fn name(&self) -> (r: &'static str)
        ensures
            r@ == match self {
                LogLevel::Error => seq!['E', 'r', 'r', 'o', 'r'],
                LogLevel::Warn => seq!['W', 'a', 'r', 'n'],
                LogLevel::Info => seq!['I', 'n', 'f', 'o'],
                LogLevel::Debug => seq!['D', 'e', 'b', 'u', 'g'],
                LogLevel::Trace => seq!['T', 'r', 'a', 'c', 'e'],
            },
    {
        proof {
            reveal_strlit("Error");
            reveal_strlit("Warn");
            reveal_strlit("Info");
            reveal_strlit("Debug");
            reveal_strlit("Trace");
            assert("Error"@ == seq!['E', 'r', 'r', 'o', 'r']);
            assert("Warn"@ == seq!['W', 'a', 'r', 'n']);
            assert("Info"@ == seq!['I', 'n', 'f', 'o']);
            assert("Debug"@ == seq!['D', 'e', 'b', 'u', 'g']);
            assert("Trace"@ == seq!['T', 'r', 'a', 'c', 'e']);
        }
        match self {
            LogLevel::Error => "Error",
            LogLevel::Warn => "Warn",
            LogLevel::Info => "Info",
            LogLevel::Debug => "Debug",
            LogLevel::Trace => "Trace",
        }
    }
}

/// `std::time::Instant`, carried as an opaque value.
#[verifier::external_type_specification]
#[verifier::external_body]
pub struct ExInstant(std::time::Instant);

/// Relies on `std::time::Instant::now`: the current instant, of which nothing is promised.
pub assume_specification[ std::time::Instant::now ]() -> std::time::Instant;

/// Measures how long a piece of work takes, labelled with where it runs.
pub struct Timer<'a> {
    start: std::time::Instant,
    log_ctx: &'a str,
    timer_ctx: &'a str,
}

impl<'a> Timer<'a> {
    /// Starts a timer now.
    pub fn new(log_ctx: &'a str, timer_ctx: &'a str) -> (r: Timer<'a>)
        ensures
            r.log_ctx() == log_ctx,
            r.timer_ctx() == timer_ctx,
    {
        Timer { start: std::time::Instant::now(), log_ctx, timer_ctx }
    }

    pub closed spec fn log_ctx(&self) -> &'a str {
        self.log_ctx
    }

    pub closed spec fn timer_ctx(&self) -> &'a str {
        self.timer_ctx
    }

    /// When the timer started.
    pub fn started(&self) -> std::time::Instant {
        self.start
    }

    /// The component the timer reports for.
    pub fn log_context(&self) -> (r: &'a str)
        ensures
            r == self.log_ctx(),
    {
        self.log_ctx
    }

    /// The piece of work being timed.
    pub fn timer_context(&self) -> (r: &'a str)
        ensures
            r == self.timer_ctx(),
    {
        self.timer_ctx
    }
}

} // verus!
