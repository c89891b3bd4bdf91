//! The background agents: a per-user launchd agent that runs `etl` every so
//! often and, when asked for, one that keeps the MCP HTTP server running.
//!
//! launchd runs the binary directly, so macOS attributes Full Disk Access to
//! the binary and not to the terminal that installed it.
use crate::config::{Config, LoadedConfig};
use crate::config;
use crate::numeric;
use crate::numeric::decimal_u64;
use crate::paths;
use crate::paths::{join, user_home, PathError};
use crate::text;
use crate::text::{chars_of, find, lines, replace_char, take_until, trim};
use vstd::prelude::*;
use vstd::string::*;
use vstd::utf8::*;

verus! {

/// The label of the sync agent.
pub const LABEL: &'static str = "com.ai-imessage.etl";

/// The label of the HTTP agent.
pub const HTTP_LABEL: &'static str = "com.ai-imessage.http";

/// Where the HTTP server listens unless told otherwise.
pub const DEFAULT_HTTP_ADDR: &'static str = "127.0.0.1:8787";

/// One of the background agents.
#[derive(Debug, Clone, Copy, PartialEq, Eq, Structural)]
pub enum Agent {
    Sync,
    Http,
}

impl Agent {
    /// The agent's label.
    pub open spec fn name(self) -> Seq<char> {
        match self {
            Agent::Sync => LABEL@,
            Agent::Http => HTTP_LABEL@,
        }
    }

    /// The agent's label.
    pub fn label(&self) -> (r: &'static str)
        ensures
            r@ == self.name(),
    {
        match self {
            Agent::Sync => LABEL,
            Agent::Http => HTTP_LABEL,
        }
    }
}

/// The agents that starting, stopping or uninstalling is about: the HTTP
/// agent alone when only that is asked for, else both.
pub fn targets(http_only: bool) -> (r: Vec<Agent>)
    ensures
        r@ == if http_only {
            seq![Agent::Http]
        } else {
            seq![Agent::Sync, Agent::Http]
        },
{
    let mut r: Vec<Agent> = Vec::new();
    if !http_only {
        r.push(Agent::Sync);
    }
    r.push(Agent::Http);
    proof {
        assert(r@ =~= if http_only {
            seq![Agent::Http]
        } else {
            seq![Agent::Sync, Agent::Http]
        });
    }
    r
}

/// The file that describes an agent to launchd.
pub open spec fn plist_in(home: Seq<u8>, agent: Agent) -> Seq<u8> {
    paths::joined(
        paths::joined(home, encode_utf8("Library/LaunchAgents"@)),
        encode_utf8(agent.name() + ".plist"@),
    )
}

/// The file that describes an agent to launchd, in a home directory.
pub fn plist_path_in(home: &[u8], agent: Agent) -> (r: Vec<u8>)
    ensures
        r@ == plist_in(home@, agent),
{
    let mut file = agent.label().to_owned();
    file.append(".plist");
    join(
        join(home, "Library/LaunchAgents".as_bytes()).as_slice(),
        file.as_str().as_bytes(),
    )
}

/// The file that describes an agent to launchd, in the home directory that was
/// found.
pub fn agent_path_from(agent: Agent, home: Option<Vec<u8>>) -> (r: Result<Vec<u8>, PathError>)
    ensures
        match home {
            Some(h) => r matches Ok(p) && p@ == plist_in(h@, agent),
            None => r matches Err(e) && e == PathError::NoAgentHome,
        },
{
    match home {
        Some(h) => Ok(plist_path_in(h.as_slice(), agent)),
        None => Err(PathError::NoAgentHome),
    }
}

/// The file that describes an agent to launchd.
pub fn agent_path(agent: Agent) -> (r: Result<Vec<u8>, PathError>)
    ensures
        r matches Ok(p) ==> exists|home: Seq<u8>| p@ == #[trigger] plist_in(home, agent),
        r matches Err(e) ==> e == PathError::NoAgentHome,
{
    agent_path_from(agent, user_home())
}

/// The file that describes the sync agent to launchd.
pub fn plist_path() -> (r: Result<Vec<u8>, PathError>)
    ensures
        r matches Ok(p) ==> exists|home: Seq<u8>| p@ == #[trigger] plist_in(home, Agent::Sync),
        r matches Err(e) ==> e == PathError::NoAgentHome,
{
    agent_path(Agent::Sync)
}

/// The name of an agent's log below the index directory.
pub open spec fn log_name(agent: Agent) -> Seq<char> {
    match agent {
        Agent::Sync => "logs/etl.log"@,
        Agent::Http => "logs/http.log"@,
    }
}

/// An agent's log, next to the index, with `~` expanded to the home directory
/// that was found.
pub fn log_path_from(loaded: &LoadedConfig, agent: Agent, home: Option<Vec<u8>>) -> (r: Result<
    Vec<u8>,
    PathError,
>)
    ensures
        match home {
            Some(h) => r matches Ok(p) && p@ == paths::joined(
                config::dir_of(paths::expanded(loaded.config.index.database_path@, h@)),
                encode_utf8(log_name(agent)),
            ),
            None => r matches Err(e) && e == PathError::NoHome,
        },
{
    match loaded.config.index_dir_from(home) {
        Ok(dir) => Ok(
            join(
                dir.as_slice(),
                match agent {
                    Agent::Sync => "logs/etl.log".as_bytes(),
                    Agent::Http => "logs/http.log".as_bytes(),
                },
            ),
        ),
        Err(e) => Err(e),
    }
}

/// An agent's log, next to the index. It holds sync reports (counts), never
/// message content.
pub fn log_path(loaded: &LoadedConfig, agent: Agent) -> (r: Result<Vec<u8>, PathError>)
    ensures
        r matches Ok(p) ==> exists|home: Seq<u8>|
            p@ == paths::joined(
                config::dir_of(
                    #[trigger] paths::expanded(loaded.config.index.database_path@, home),
                ),
                encode_utf8(log_name(agent)),
            ),
        r matches Err(e) ==> e == PathError::NoHome,
{
    log_path_from(loaded, agent, user_home())
}

/// A text with the characters that mean something in XML spelled out.
pub open spec fn escaped(s: Seq<char>) -> Seq<char> {
    text::replaced(
        text::replaced(text::replaced(s, '&', "&amp;"@), '<', "&lt;"@),
        '>',
        "&gt;"@,
    )
}

/// A text with the characters that mean something in XML spelled out.
pub fn xml_escape(s: &str) -> (r: String)
    ensures
        r@ == escaped(s@),
{
    let a = replace_char(s, '&', "&amp;");
    let b = replace_char(a.as_str(), '<', "&lt;");
    replace_char(b.as_str(), '>', "&gt;")
}

/// A text without a character has no more of it once another is replaced by
/// a text that has none either.
proof fn lemma_replaced_has_no(s: Seq<char>, from: char, to: Seq<char>, c: char)
    requires
        c == from || !s.contains(c),
        !to.contains(c),
    ensures
        !text::replaced(s, from, to).contains(c),
    decreases s.len(),
{
    if s.len() > 0 {
        let front = s.drop_last();
        assert(front.contains(c) ==> s.contains(c)) by {
            if front.contains(c) {
                let k = choose|k: int| 0 <= k < front.len() && front[k] == c;
                assert(s[k] == c);
            }
        }
        lemma_replaced_has_no(front, from, to, c);
        let a = text::replaced(front, from, to);
        let r = text::replaced(s, from, to);
        if r.contains(c) {
            let k = choose|k: int| 0 <= k < r.len() && r[k] == c;
            if k < a.len() {
                assert(a[k] == c);
            } else if s.last() == from {
                assert(to[k - a.len()] == c);
            } else {
                assert(s[s.len() - 1] == c);
            }
            assert(false);
        }
    }
}

/// Nothing in an escaped text can open or close an element.
pub proof fn law_escaped_text_has_no_markup(s: Seq<char>)
    ensures
        !escaped(s).contains('<'),
        !escaped(s).contains('>'),
{
    reveal_strlit("&amp;");
    reveal_strlit("&lt;");
    reveal_strlit("&gt;");
    let a = text::replaced(s, '&', "&amp;"@);
    let b = text::replaced(a, '<', "&lt;"@);
    lemma_replaced_has_no(a, '<', "&lt;"@, '<');
    lemma_replaced_has_no(b, '>', "&gt;"@, '<');
    lemma_replaced_has_no(b, '>', "&gt;"@, '>');
}

proof fn lemma_replaced_concat(a: Seq<char>, b: Seq<char>, from: char, to: Seq<char>)
    ensures
        text::replaced(a + b, from, to) == text::replaced(a, from, to) + text::replaced(
            b,
            from,
            to,
        ),
    decreases b.len(),
{
    if b.len() == 0 {
        assert(a + b =~= a);
        assert(text::replaced(a, from, to) + text::replaced(b, from, to) =~= text::replaced(
            a,
            from,
            to,
        ));
    } else {
        lemma_replaced_concat(a, b.drop_last(), from, to);
        assert((a + b).drop_last() =~= a + b.drop_last());
        assert((a + b).last() == b.last());
        assert(text::replaced(a + b, from, to) =~= text::replaced(a, from, to) + text::replaced(
            b,
            from,
            to,
        ));
    }
}

/// Replacing a character that a text does not hold leaves it as it is.
pub proof fn lemma_replaced_nothing(s: Seq<char>, from: char, to: Seq<char>)
    requires
        !s.contains(from),
    ensures
        text::replaced(s, from, to) == s,
    decreases s.len(),
{
    if s.len() > 0 {
        let front = s.drop_last();
        assert(!front.contains(from)) by {
            if front.contains(from) {
                let k = choose|k: int| 0 <= k < front.len() && front[k] == from;
                assert(s[k] == from);
            }
        }
        lemma_replaced_nothing(front, from, to);
        assert(s[s.len() - 1] == s.last());
        assert(front.push(s.last()) =~= s);
    }
}

/// How one character is spelled.
spec fn spelled(c: char) -> Seq<char> {
    if c == '&' {
        "&amp;"@
    } else if c == '<' {
        "&lt;"@
    } else if c == '>' {
        "&gt;"@
    } else {
        seq![c]
    }
}

proof fn lemma_replaced_one(c: char, from: char, to: Seq<char>)
    ensures
        text::replaced(seq![c], from, to) == if c == from {
            to
        } else {
            seq![c]
        },
{
    let s = seq![c];
    let none = Seq::<char>::empty();
    assert(s.drop_last() =~= none);
    assert(text::replaced(none, from, to) == none);
    assert(text::replaced(s.drop_last(), from, to) == none);
    assert(s.last() == c);
    assert(Seq::<char>::empty() + to =~= to);
    assert(Seq::<char>::empty().push(c) =~= s);
}

proof fn lemma_escaped_one(c: char)
    ensures
        escaped(seq![c]) == spelled(c),
{
    reveal_strlit("&amp;");
    reveal_strlit("&lt;");
    reveal_strlit("&gt;");
    lemma_replaced_one(c, '&', "&amp;"@);
    lemma_replaced_one(c, '<', "&lt;"@);
    lemma_replaced_one(c, '>', "&gt;"@);
    if c == '&' {
        lemma_replaced_nothing("&amp;"@, '<', "&lt;"@);
        lemma_replaced_nothing("&amp;"@, '>', "&gt;"@);
    } else if c == '<' {
        lemma_replaced_nothing("&lt;"@, '>', "&gt;"@);
    }
}

proof fn lemma_escaped_first(s: Seq<char>)
    requires
        s.len() > 0,
    ensures
        escaped(s) == spelled(s[0]) + escaped(s.drop_first()),
{
    let a = seq![s[0]];
    let b = s.drop_first();
    assert(s =~= a + b);
    lemma_replaced_concat(a, b, '&', "&amp;"@);
    let a1 = text::replaced(a, '&', "&amp;"@);
    let b1 = text::replaced(b, '&', "&amp;"@);
    lemma_replaced_concat(a1, b1, '<', "&lt;"@);
    lemma_replaced_concat(
        text::replaced(a1, '<', "&lt;"@),
        text::replaced(b1, '<', "&lt;"@),
        '>',
        "&gt;"@,
    );
    lemma_escaped_one(s[0]);
}

/// Escaping loses nothing: two texts that are escaped alike are the same.
pub proof fn law_escaping_loses_nothing(a: Seq<char>, b: Seq<char>)
    requires
        escaped(a) == escaped(b),
    ensures
        a == b,
    decreases a.len(),
{
    reveal_strlit("&amp;");
    reveal_strlit("&lt;");
    reveal_strlit("&gt;");
    if a.len() > 0 {
        lemma_escaped_first(a);
    }
    if b.len() > 0 {
        lemma_escaped_first(b);
    }
    if a.len() == 0 || b.len() == 0 {
        assert(escaped(a).len() == 0 <==> a.len() == 0);
        assert(escaped(b).len() == 0 <==> b.len() == 0);
        assert(a =~= b);
    } else {
        let x = escaped(a);
        let y = escaped(b);
        assert(x[0] == spelled(a[0])[0] && y[0] == spelled(b[0])[0]);
        if x[0] == '&' {
            assert(x[1] == spelled(a[0])[1] && y[1] == spelled(b[0])[1]);
        }
        assert(a[0] == b[0]);
        let n = spelled(a[0]).len() as int;
        assert(escaped(a.drop_first()) =~= x.skip(n));
        assert(escaped(b.drop_first()) =~= y.skip(n));
        law_escaping_loses_nothing(a.drop_first(), b.drop_first());
        assert(a =~= seq![a[0]] + a.drop_first());
        assert(b =~= seq![b[0]] + b.drop_first());
    }
}

/// One argument of an agent's command line.
pub open spec fn argument(s: Seq<char>) -> Seq<char> {
    "    <string>"@ + escaped(s) + "</string>\n"@
}

fn push_argument(out: &mut String, s: &str)
    ensures
        final(out)@ == old(out)@ + argument(s@),
{
    let mut line = "    <string>".to_owned();
    line.append(xml_escape(s).as_str());
    line.append("</string>\n");
    out.append(line.as_str());
}

/// The start of an agent's command line: the binary, and the configuration
/// file when one was passed on installing, so that both always read the same.
pub open spec fn invocation(binary: Seq<char>, explicit_config: Option<Seq<char>>) -> Seq<char> {
    match explicit_config {
        Some(cfg) => argument(binary) + argument("--config"@) + argument(cfg),
        None => argument(binary),
    }
}

fn push_invocation(out: &mut String, binary: &str, explicit_config: Option<&str>)
    ensures
        final(out)@ == old(out)@ + invocation(binary@, text::opt_str(explicit_config)),
{
    let ghost start = out@;
    push_argument(out, binary);
    match explicit_config {
        Some(cfg) => {
            push_argument(out, "--config");
            push_argument(out, cfg);
            proof {
                assert(start + argument(binary@) + argument("--config"@) + argument(cfg@) =~= start
                    + (argument(binary@) + argument("--config"@) + argument(cfg@)));
            }
        },
        None => {},
    }
}

/// The beginning of every plist, up to the agent's label.
pub const PLIST_HEAD: &'static str =
    "<?xml version=\"1.0\" encoding=\"UTF-8\"?>\n<!DOCTYPE plist PUBLIC \"-//Apple//DTD PLIST 1.0//EN\" \"http://www.apple.com/DTDs/PropertyList-1.0.dtd\">\n<plist version=\"1.0\">\n<dict>\n  <key>Label</key>\n  <string>";

/// What stands between the label and the arguments.
pub const PLIST_ARGUMENTS: &'static str =
    "</string>\n  <key>ProgramArguments</key>\n  <array>\n";

/// What stands behind the schedule, up to the log.
pub const PLIST_TAIL: &'static str =
    "  <key>RunAtLoad</key>\n  <true/>\n  <key>ProcessType</key>\n  <string>Background</string>\n  <key>StandardOutPath</key>\n  <string>";

/// The plist of an agent with some arguments and a schedule.
pub open spec fn plist(
    label: Seq<char>,
    arguments: Seq<char>,
    schedule: Seq<char>,
    log: Seq<char>,
) -> Seq<char> {
    PLIST_HEAD@ + label + PLIST_ARGUMENTS@ + arguments + "  </array>\n"@ + schedule + PLIST_TAIL@
        + escaped(log) + "</string>\n  <key>StandardErrorPath</key>\n  <string>"@ + escaped(log)
        + "</string>\n</dict>\n</plist>\n"@
}

fn assemble(label: &str, arguments: &str, schedule: &str, log: &str) -> (r: String)
    ensures
        r@ == plist(label@, arguments@, schedule@, log@),
{
    let log = xml_escape(log);
    let mut s = PLIST_HEAD.to_owned();
    s.append(label);
    s.append(PLIST_ARGUMENTS);
    s.append(arguments);
    s.append("  </array>\n");
    s.append(schedule);
    s.append(PLIST_TAIL);
    s.append(log.as_str());
    s.append("</string>\n  <key>StandardErrorPath</key>\n  <string>");
    s.append(log.as_str());
    s.append("</string>\n</dict>\n</plist>\n");
    s
}

/// How often the sync agent runs.
pub open spec fn every(interval: u32) -> Seq<char> {
    "  <key>StartInterval</key>\n  <integer>"@ + numeric::decimal(interval as nat)
        + "</integer>\n"@
}

/// The plist of the sync agent. `explicit_config` is the configuration file
/// that was passed when installing, if any.
pub fn render_plist(binary: &str, interval: u32, log: &str, explicit_config: Option<&str>) -> (r:
    String)
    ensures
        r@ == plist(
            LABEL@,
            invocation(binary@, text::opt_str(explicit_config)) + argument("etl"@),
            every(interval),
            log@,
        ),
{
    let mut args = String::new();
    push_invocation(&mut args, binary, explicit_config);
    push_argument(&mut args, "etl");
    let mut schedule = "  <key>StartInterval</key>\n  <integer>".to_owned();
    schedule.append(decimal_u64(interval as u64).as_str());
    schedule.append("</integer>\n");
    proof {
        let i = invocation(binary@, text::opt_str(explicit_config));
        assert(args@ =~= i + argument("etl"@));
    }
    assemble(LABEL, args.as_str(), schedule.as_str(), log)
}

/// What marks the address in the arguments of the HTTP agent.
pub const ADDR_MARK: &'static str = "<string>--http</string>\n    <string>";

/// The plist of the HTTP agent, which serves MCP on `addr` for as long as the
/// user is logged in.
pub fn render_http_plist(
    binary: &str,
    addr: &str,
    log: &str,
    explicit_config: Option<&str>,
) -> (r: String)
    ensures
        r@ == http_plist(binary@, addr@, log@, text::opt_str(explicit_config)),
{
    let mut args = String::new();
    push_invocation(&mut args, binary, explicit_config);
    push_argument(&mut args, "serve");
    push_argument(&mut args, "--http");
    push_argument(&mut args, addr);
    proof {
        let i = invocation(binary@, text::opt_str(explicit_config));
        assert(args@ =~= i + argument("serve"@) + argument("--http"@) + argument(addr@));
    }
    assemble(HTTP_LABEL, args.as_str(), KEEP_ALIVE, log)
}

/// The HTTP agent is kept running.
pub const KEEP_ALIVE: &'static str = "  <key>KeepAlive</key>\n  <true/>\n";

/// The plist of the HTTP agent.
pub open spec fn http_plist(
    binary: Seq<char>,
    addr: Seq<char>,
    log: Seq<char>,
    explicit_config: Option<Seq<char>>,
) -> Seq<char> {
    plist(
        HTTP_LABEL@,
        invocation(binary, explicit_config) + argument("serve"@) + argument("--http"@) + argument(
            addr,
        ),
        KEEP_ALIVE@,
        log,
    )
}

/// The address that a plist names: what stands behind the mark, up to the
/// end of the element.
pub open spec fn addr_in(plist: Seq<char>) -> Option<Seq<char>> {
    match text::found(plist, ADDR_MARK@) {
        Some(i) => Some(text::until(plist.skip(i + ADDR_MARK@.len()), seq!['<'])),
        None => None,
    }
}

/// The address that an installed HTTP agent serves on, from its plist.
pub fn installed_http_addr(plist: &str) -> (r: Option<String>)
    ensures
        text::opt_view(r) == addr_in(plist@),
{
    let chars = chars_of(plist);
    let mark = chars_of(ADDR_MARK);
    let size: usize = chars.len();
    match find(&chars, &mark) {
        Some(i) => {
            let start: usize = i + mark.len();
            let rest = vstd::slice::slice_subrange(chars.as_slice(), start, size);
            let stops: [char; 1] = ['<'];
            proof {
                assert(stops@ =~= seq!['<']);
                assert(rest@ =~= plist@.skip(start as int));
            }
            Some(take_until(rest, &stops))
        },
        None => None,
    }
}

/// The name under which launchd knows an agent of a user.
pub fn launchd_target(uid: &str, agent: Agent) -> (r: String)
    ensures
        r@ == "gui/"@ + uid@ + "/"@ + agent.name(),
{
    let mut s = "gui/".to_owned();
    s.append(uid);
    s.append("/");
    s.append(agent.label());
    s
}

/// The name under which launchd knows a user's session.
pub fn launchd_domain(uid: &str) -> (r: String)
    ensures
        r@ == "gui/"@ + uid@,
{
    let mut s = "gui/".to_owned();
    s.append(uid);
    s
}

/// What is said when launchd refuses an agent.
pub fn bootstrap_failure(stderr: &str) -> (r: String)
    ensures
        r@ == "launchctl bootstrap failed: "@ + text::trimmed(stderr@),
{
    let mut s = "launchctl bootstrap failed: ".to_owned();
    s.append(trim(stderr).as_str());
    s
}

/// What is said when an agent was loaded.
pub fn loaded_text(agent: Agent, interval: u32, addr: &str) -> (r: String)
    ensures
        r@ == match agent {
            Agent::Sync => "loaded "@ + LABEL@ + " (runs `etl` every "@ + numeric::decimal(
                interval as nat,
            ) + "s)"@,
            Agent::Http => "loaded "@ + HTTP_LABEL@ + " (serves http://"@ + addr@ + "/mcp)"@,
        },
{
    let mut s = "loaded ".to_owned();
    match agent {
        Agent::Sync => {
            s.append(LABEL);
            s.append(" (runs `etl` every ");
            s.append(decimal_u64(interval as u64).as_str());
            s.append("s)");
        },
        Agent::Http => {
            s.append(HTTP_LABEL);
            s.append(" (serves http://");
            s.append(addr);
            s.append("/mcp)");
        },
    }
    s
}

/// What is said in the end of every installation.
pub fn access_notice(binary: &str) -> (r: String)
    ensures
        r@
            == "\nIMPORTANT: launchd runs the binary directly, so macOS needs Full Disk Access granted to the binary itself:\n  System Settings → Privacy & Security → Full Disk Access → add "@
            + binary@
            + "\nUntil then the scheduled sync will log permission errors. Check with:\n  ai-imessage service status"@,
{
    let mut s =
        "\nIMPORTANT: launchd runs the binary directly, so macOS needs Full Disk Access granted to the binary itself:\n  System Settings → Privacy & Security → Full Disk Access → add ".to_owned();
    s.append(binary);
    s.append(
        "\nUntil then the scheduled sync will log permission errors. Check with:\n  ai-imessage service status",
    );
    s
}

/// What is said when an agent was removed, or was not there.
pub fn removal_text(plist: &str, was_there: bool) -> (r: String)
    ensures
        r@ == if was_there {
            "removed "@ + plist@
        } else {
            "no agent installed ("@ + plist@ + " not present)"@
        },
{
    if was_there {
        let mut s = "removed ".to_owned();
        s.append(plist);
        s
    } else {
        let mut s = "no agent installed (".to_owned();
        s.append(plist);
        s.append(" not present)");
        s
    }
}

/// How many lines of a log are shown.
pub const LOG_LINES: usize = 8;

/// The last lines of a log.
pub open spec fn tail(all: Seq<Seq<char>>) -> Seq<Seq<char>> {
    if all.len() > LOG_LINES {
        all.skip(all.len() - LOG_LINES)
    } else {
        all
    }
}

/// Lines, each indented.
pub open spec fn indented(all: Seq<Seq<char>>) -> Seq<char>
    decreases all.len(),
{
    if all.len() == 0 {
        Seq::empty()
    } else {
        indented(all.drop_last()) + "\n  "@ + all.last()
    }
}

/// The end of an agent's log, or that nothing was logged yet.
pub open spec fn log_summary(log: Seq<char>, content: Option<Seq<char>>) -> Seq<char> {
    match content {
        Some(content) => "log:       "@ + log + " (last "@ + numeric::decimal(
            tail(text::lines_of(content)).len(),
        ) + " line(s)):"@ + indented(tail(text::lines_of(content))),
        None => "log:       "@ + log + " (no runs logged yet)"@,
    }
}

/// The end of an agent's log, as `service status` shows it.
pub fn log_text(log: &str, content: Option<&str>) -> (r: String)
    ensures
        r@ == log_summary(log@, text::opt_str(content)),
{
    let mut s = "log:       ".to_owned();
    s.append(log);
    match content {
        Some(content) => {
            let all = lines(content);
            let ghost views = text::views(all@);
            let ghost shown = tail(views);
            let start: usize = if all.len() > LOG_LINES {
                all.len() - LOG_LINES
            } else {
                0
            };
            proof {
                assert(views.len() == all@.len());
                assert(shown =~= views.skip(start as int));
            }
            s.append(" (last ");
            s.append(decimal_u64((all.len() - start) as u64).as_str());
            s.append(" line(s)):");
            let ghost head = s@;
            let mut i: usize = start;
            proof {
                assert(head + indented(shown.take(0)) =~= head);
            }
            while i < all.len()
                invariant
                    start <= i <= all@.len(),
                    views == text::views(all@),
                    shown == views.skip(start as int),
                    s@ == head + indented(shown.take(i - start)),
                decreases all@.len() - i,
            {
                proof {
                    assert(views[i as int] == all@[i as int]@);
                    assert(shown.take(i + 1 - start).drop_last() =~= shown.take(i - start));
                    assert(shown.take(i + 1 - start).last() == all@[i as int]@);
                }
                let ghost before = s@;
                s.append("\n  ");
                s.append(all[i].as_str());
                proof {
                    assert(before + "\n  "@ + all@[i as int]@ =~= head + (indented(
                        shown.take(i - start),
                    ) + "\n  "@ + all@[i as int]@));
                }
                i = i + 1;
            }
            proof {
                assert(shown.take(i - start) =~= shown);
            }
            s
        },
        None => {
            s.append(" (no runs logged yet)");
            s
        },
    }
}

/// What is said of an agent that is not installed.
pub fn not_installed_text(agent: Agent, config: &Config) -> (r: String)
    ensures
        r@ == match agent {
            Agent::Sync => "not installed — run `ai-imessage service install` to sync every "@
                + numeric::decimal(config.service.interval_seconds as nat) + "s"@,
            Agent::Http =>
                "HTTP server not installed — opt in with `ai-imessage service install --http`"@,
        },
{
    match agent {
        Agent::Sync => {
            let mut s =
                "not installed — run `ai-imessage service install` to sync every ".to_owned();
            s.append(decimal_u64(config.service.interval_seconds as u64).as_str());
            s.append("s");
            s
        },
        Agent::Http =>
            "HTTP server not installed — opt in with `ai-imessage service install --http`".to_owned(),
    }
}

/// What is said of an installed agent: whether launchd has it loaded.
pub fn launchd_text(loaded: bool) -> (r: &'static str)
    ensures
        r@ == if loaded {
            "launchd:   loaded"@
        } else {
            "launchd:   NOT loaded — run `ai-imessage service install` to (re)load"@
        },
{
    if loaded {
        "launchd:   loaded"
    } else {
        "launchd:   NOT loaded — run `ai-imessage service install` to (re)load"
    }
}

/// Of a log the last eight lines are shown, or all where there are fewer.
pub proof fn law_end_of_a_log(all: Seq<Seq<char>>)
    ensures
        tail(all).len() == (if all.len() < 8 {
            all.len()
        } else {
            8
        }),
        forall|i: int|
            0 <= i < tail(all).len() ==> (#[trigger] tail(all)[i]) == all[all.len() - tail(
                all,
            ).len() + i],
{
}

/// How a text is spelled in XML: character by character, each as itself but for
/// three.
pub proof fn law_how_a_character_is_spelled(s: Seq<char>, c: char)
    ensures
        escaped(Seq::empty()) == Seq::<char>::empty(),
        escaped(s.push(c)) == escaped(s) + (if c == '&' {
            "&amp;"@
        } else if c == '<' {
            "&lt;"@
        } else if c == '>' {
            "&gt;"@
        } else {
            seq![c]
        }),
{
    reveal_strlit("&amp;");
    reveal_strlit("&lt;");
    reveal_strlit("&gt;");
    let one = seq![c];
    assert(s.push(c) =~= s + one);
    let a = text::replaced(s, '&', "&amp;"@);
    let b = text::replaced(a, '<', "&lt;"@);
    let a1 = text::replaced(one, '&', "&amp;"@);
    let b1 = text::replaced(a1, '<', "&lt;"@);
    lemma_replaced_concat(s, one, '&', "&amp;"@);
    lemma_replaced_concat(a, a1, '<', "&lt;"@);
    lemma_replaced_concat(b, b1, '>', "&gt;"@);
    lemma_escaped_first(one);
    assert(one.drop_first() =~= Seq::<char>::empty());
}

/// Lines of a log are shown one below the other, in their order.
pub proof fn law_lines_of_a_log(a: Seq<Seq<char>>, line: Seq<char>)
    ensures
        indented(Seq::empty()) == Seq::<char>::empty(),
        indented(a.push(line)) == indented(a) + "\n  "@ + line,
{
    assert(a.push(line).drop_last() =~= a);
}

/// What an agent is told apart by: its label, and the log it writes.
pub proof fn law_agents_are_told_apart()
    ensures
        Agent::Sync.name() == "com.ai-imessage.etl"@,
        Agent::Http.name() == "com.ai-imessage.http"@,
        Agent::Sync.name() != Agent::Http.name(),
        log_name(Agent::Sync) == "logs/etl.log"@,
        log_name(Agent::Http) == "logs/http.log"@,
{
    reveal_strlit("com.ai-imessage.etl");
    reveal_strlit("com.ai-imessage.http");
    assert("com.ai-imessage.etl"@.len() == 19 && "com.ai-imessage.http"@.len() == 20);
}

/// What an agent runs: the binary, with the configuration file that was given on
/// installing and no other; each argument is spelled as XML wants it.
pub proof fn law_what_an_agent_runs(binary: Seq<char>, cfg: Seq<char>, s: Seq<char>)
    ensures
        argument(s) == "    <string>"@ + escaped(s) + "</string>\n"@,
        invocation(binary, None) == argument(binary),
        invocation(binary, Some(cfg)) == argument(binary) + argument("--config"@) + argument(cfg),
{
}

/// How a schedule is written: the number of seconds between two runs.
pub proof fn law_how_a_schedule_is_written(interval: u32)
    ensures
        every(interval) == "  <key>StartInterval</key>\n  <integer>"@ + numeric::decimal(
            interval as nat,
        ) + "</integer>\n"@,
{
}

/// Both outputs of an agent go to its log: the plist names it twice, and nothing
/// else of it depends on the log.
pub proof fn law_both_outputs_go_to_the_log(
    label: Seq<char>,
    arguments: Seq<char>,
    schedule: Seq<char>,
    log: Seq<char>,
    other: Seq<char>,
) -> (r: (Seq<char>, Seq<char>, Seq<char>))
    ensures
        plist(label, arguments, schedule, log) == r.0 + escaped(log) + r.1 + escaped(log) + r.2,
        plist(label, arguments, schedule, other) == r.0 + escaped(other) + r.1 + escaped(other)
            + r.2,
        r.1 == "</string>\n  <key>StandardErrorPath</key>\n  <string>"@,
{
    (
        PLIST_HEAD@ + label + PLIST_ARGUMENTS@ + arguments + "  </array>\n"@ + schedule
            + PLIST_TAIL@,
        "</string>\n  <key>StandardErrorPath</key>\n  <string>"@,
        "</string>\n</dict>\n</plist>\n"@,
    )
}

} // verus!
