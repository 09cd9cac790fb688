use vstd::prelude::*;

verus! {

/// Severity of one log message, most severe first.
pub enum LogLevel {
    Error,
    Warn,
    Info,
    Debug,
    Trace,
}

/// How many recent messages the on-screen panel retains.
pub const LOG_WINDOW: usize = 5;

/// A process-scoped bounded log window: the most recent messages first,
/// never more than `LOG_WINDOW` of them. It is created once at startup and
/// handed to whatever renders the log panel.
pub struct ScreenLog {
    pub lines: Vec<String>,
}

/// Whether a message of this severity is kept for the screen panel.
pub open spec fn spec_enabled(level: LogLevel) -> bool {
    match level {
        LogLevel::Error => true,
        LogLevel::Warn => true,
        LogLevel::Info => true,
        LogLevel::Debug => false,
        LogLevel::Trace => false,
    }
}

/// The prefix a level renders as in a log line.
pub open spec fn spec_level_text(level: LogLevel) -> Seq<char> {
    match level {
        LogLevel::Error => seq!['E', 'R', 'R', 'O', 'R'],
        LogLevel::Warn => seq!['W', 'A', 'R', 'N'],
        LogLevel::Info => seq!['I', 'N', 'F', 'O'],
        LogLevel::Debug => seq!['D', 'E', 'B', 'U', 'G'],
        LogLevel::Trace => seq!['T', 'R', 'A', 'C', 'E'],
    }
}

/// The views of the retained lines, most recent first.
pub open spec fn log_v(lines: Seq<String>) -> Seq<Seq<char>> {
    lines.map_values(|s: String| s@)
}

/// What the window holds after one message of the given level and text
/// arrives: disabled levels change nothing; an enabled one is prepended as
/// "LEVEL - text" and the window is clipped to its bound.
pub open spec fn spec_logged(old_lines: Seq<Seq<char>>, level: LogLevel, msg: Seq<char>) -> Seq<
    Seq<char>,
> {
    if spec_enabled(level) {
        (seq![spec_level_text(level) + seq![' ', '-', ' '] + msg] + old_lines).take(
            if old_lines.len() + 1 < LOG_WINDOW {
                old_lines.len() as int + 1
            } else {
                LOG_WINDOW as int
            },
        )
    } else {
        old_lines
    }
}

impl ScreenLog {
    /// The retained lines, most recent first.
    pub open spec fn view_lines(&self) -> Seq<Seq<char>> {
        log_v(self.lines@)
    }

    /// A window is well formed when it holds at most its bound.
    pub open spec fn wf(&self) -> bool {
        self.lines@.len() <= LOG_WINDOW
    }

    /// Record one message: enabled levels are prepended as "LEVEL - text",
    /// and only the most recent messages are retained.
    pub fn log(&mut self, level: LogLevel, msg: &str)
        requires
            old(self).wf(),
        ensures
            final(self).wf(),
            final(self).view_lines() == spec_logged(old(self).view_lines(), level, msg@),
    {
        let enabled = match level {
            LogLevel::Error => true,
            LogLevel::Warn => true,
            LogLevel::Info => true,
            LogLevel::Debug => false,
            LogLevel::Trace => false,
        };
        if !enabled {
            return ;
        }
        let mut line = String::new();
        match level {
            LogLevel::Error => line.append("ERROR"),
            LogLevel::Warn => line.append("WARN"),
            LogLevel::Info => line.append("INFO"),
            LogLevel::Debug => line.append("DEBUG"),
            LogLevel::Trace => line.append("TRACE"),
        }
        proof {
            reveal_strlit("ERROR");
            reveal_strlit("WARN");
            reveal_strlit("INFO");
            reveal_strlit("DEBUG");
            reveal_strlit("TRACE");
            reveal_strlit(" - ");
        }
        line.append(" - ");
        line.append(msg);
        assert(line@ =~= spec_level_text(level) + seq![' ', '-', ' '] + msg@);
        self.lines.insert(0, line);
        if self.lines.len() > LOG_WINDOW {
            self.lines.truncate(LOG_WINDOW);
        }
        assert(final(self).view_lines() =~= spec_logged(old(self).view_lines(), level, msg@));
    }

    /// The retained lines, most recent first, for the render panel.
    pub fn read(&self) -> (r: Vec<String>)
        ensures
            log_v(r@) == self.view_lines(),
    {
        let mut r: Vec<String> = Vec::new();
        let mut i: usize = 0;
        while i < self.lines.len()
            invariant
                i <= self.lines.len(),
                log_v(r@) =~= log_v(self.lines@).take(i as int),
            decreases self.lines.len() - i,
        {
            let ghost pre = r@;
            let mut line = String::new();
            line.append(self.lines[i].as_str());
            r.push(line);
            assert(log_v(r@) =~= log_v(pre).push(self.lines@[i as int]@));
            assert(log_v(r@) =~= log_v(self.lines@).take(i as int + 1));
            i = i + 1;
        }
        assert(log_v(r@) =~= log_v(self.lines@));
        r
    }
}

/// A fresh, empty on-screen log window, made once at process start.
pub fn init_screen_log() -> (r: ScreenLog)
    ensures
        r.wf(),
        r.view_lines() == Seq::<Seq<char>>::empty(),
{
    let r = ScreenLog { lines: Vec::new() };
    assert(r.view_lines() =~= Seq::<Seq<char>>::empty());
    r
}

/// The retained lines of the given window, most recent first.
pub fn read_logs(log: &ScreenLog) -> (r: Vec<String>)
    ensures
        log_v(r@) == log.view_lines(),
{
    log.read()
}

} // verus!
