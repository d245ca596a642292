//! Log levels and what a log line is made of: which levels are shown, the
//! colour and label of a level, and the module name shown.
use vstd::prelude::*;
use vstd::string::StrSliceExecFns;

verus! {

/// Logging off.
pub const OFF: u8 = 0;
/// Errors.
pub const ERROR: u8 = 1;
/// Warnings.
pub const WARN: u8 = 2;
/// Information.
pub const INFO: u8 = 3;
/// Debugging detail.
pub const DEBUG: u8 = 4;
/// Tracing detail.
pub const TRACE: u8 = 5;

/// The level up to which messages are shown.
pub struct Logger {
    pub level: u8,
}

impl Logger {
    /// A logger that shows messages up to [`INFO`].
    pub fn new() -> (r: Logger)
        ensures
            r.level == INFO,
    {
        Logger { level: INFO }
    }
}

/// Shows messages up to `level` from now on.
pub fn set_level(logger: &mut Logger, level: u8)
    ensures
        final(logger).level == level,
{
    logger.level = level;
}

/// Messages of `level` are shown.
pub fn enabled(logger: &Logger, level: u8) -> (r: bool)
    ensures
        r == (level <= logger.level),
{
    level <= logger.level
}

/// The terminal colour sequence of `level`.
pub fn color(level: u8) -> (r: &'static str)
    ensures
        level == TRACE ==> r@ == "\x1b[90m"@,
        level == DEBUG ==> r@ == "\x1b[32m"@,
        level == INFO ==> r@ == "\x1b[33m"@,
        level == WARN ==> r@ == "\x1b[35m"@,
        level == ERROR ==> r@ == "\x1b[31m"@,
        level == OFF || level > TRACE ==> r@ == ""@,
{
    if level == TRACE {
        "\x1b[90m"
    } else if level == DEBUG {
        "\x1b[32m"
    } else if level == INFO {
        "\x1b[33m"
    } else if level == WARN {
        "\x1b[35m"
    } else if level == ERROR {
        "\x1b[31m"
    } else {
        ""
    }
}

/// The label of `level`; `?` for an unknown one.
pub fn label(level: u8) -> (r: &'static str)
    ensures
        level == TRACE ==> r@ == "TRACE"@,
        level == DEBUG ==> r@ == "DEBUG"@,
        level == INFO ==> r@ == "INFO"@,
        level == WARN ==> r@ == "WARN"@,
        level == ERROR ==> r@ == "ERROR"@,
        level == OFF ==> r@ == "OFF"@,
        level > TRACE ==> r@ == "?"@,
{
    if level == TRACE {
        "TRACE"
    } else if level == DEBUG {
        "DEBUG"
    } else if level == INFO {
        "INFO"
    } else if level == WARN {
        "WARN"
    } else if level == ERROR {
        "ERROR"
    } else if level == OFF {
        "OFF"
    } else {
        "?"
    }
}

/// Start of the last `::` of `s`, if it has one.
pub open spec fn last_sep(s: Seq<char>) -> Option<int>
    decreases s.len(),
{
    if s.len() < 2 {
        None
    } else if s[s.len() - 2] == ':' && s[s.len() - 1] == ':' {
        Some(s.len() - 2)
    } else {
        last_sep(s.drop_last())
    }
}

proof fn lemma_last_sep(s: Seq<char>)
    ensures
        last_sep(s) matches Some(i) ==> 0 <= i && i + 2 <= s.len(),
    decreases s.len(),
{
    if s.len() >= 2 && !(s[s.len() - 2] == ':' && s[s.len() - 1] == ':') {
        lemma_last_sep(s.drop_last());
    }
}

/// The last segment of a module path (`a::b::c` gives `c`), so that log
/// lines stay short.
pub fn short_module(module: &str) -> (r: &str)
    ensures
        r@ == match last_sep(module@) {
            Some(i) => module@.subrange(i + 2, module@.len() as int),
            None => module@,
        },
{
    let n = module.unicode_len();
    let mut end = n;
    proof {
        assert(module@.subrange(0, n as int) =~= module@);
    }
    while end >= 2
        invariant
            end <= n,
            n == module@.len(),
            last_sep(module@) == last_sep(module@.subrange(0, end as int)),
        decreases end,
    {
        if module.get_char(end - 2) == ':' && module.get_char(end - 1) == ':' {
            proof {
                lemma_last_sep(module@);
            }
            return module.substring_char(end, n);
        }
        assert(module@.subrange(0, end as int).drop_last() =~= module@.subrange(0, end - 1));
        end = end - 1;
    }
    module
}

} // verus!
