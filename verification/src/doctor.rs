//! Diagnoses everything that can stand between the user and a working index,
//! with actionable resolutions.
use crate::config::LoadedConfig;
use crate::contacts::ContactsError;
use crate::extract::{SchemaCaps, SourceError};
use crate::numeric;
use crate::numeric::decimal_u64;
use crate::paths::PathError;
use crate::text;
use crate::text::lines;
use vstd::prelude::*;
use vstd::string::*;

verus! {

/// How a check came out.
#[derive(Debug, Clone, Copy, PartialEq, Eq, Structural)]
pub enum CheckStatus {
    Pass,
    Warn,
    Fail,
}

impl CheckStatus {
    /// The status in one word.
    pub open spec fn word(self) -> Seq<char> {
        match self {
            CheckStatus::Pass => "PASS"@,
            CheckStatus::Warn => "WARN"@,
            CheckStatus::Fail => "FAIL"@,
        }
    }

    /// The status in one word.
    pub fn label(&self) -> (r: &'static str)
        ensures
            r@ == self.word(),
    {
        match self {
            CheckStatus::Pass => "PASS",
            CheckStatus::Warn => "WARN",
            CheckStatus::Fail => "FAIL",
        }
    }
}

/// The outcome of one check.
#[derive(Debug, Clone)]
pub struct Check {
    pub name: &'static str,
    pub status: CheckStatus,
    pub detail: String,
    pub resolution: Option<String>,
}

/// The contents of a [`Check`].
pub struct CheckView {
    pub name: Seq<char>,
    pub status: CheckStatus,
    pub detail: Seq<char>,
    pub resolution: Option<Seq<char>>,
}

impl View for Check {
    type V = CheckView;

    open spec fn view(&self) -> CheckView {
        CheckView {
            name: self.name@,
            status: self.status,
            detail: self.detail@,
            resolution: text::opt_view(self.resolution),
        }
    }
}

/// The contents of a list of checks.
pub open spec fn check_views(cs: Seq<Check>) -> Seq<CheckView> {
    cs.map_values(|c: Check| c@)
}

/// A check that passed.
pub open spec fn passed(name: Seq<char>, detail: Seq<char>) -> CheckView {
    CheckView { name, status: CheckStatus::Pass, detail, resolution: None }
}

/// A check that warns.
pub open spec fn warned(name: Seq<char>, detail: Seq<char>, resolution: Seq<char>) -> CheckView {
    CheckView { name, status: CheckStatus::Warn, detail, resolution: Some(resolution) }
}

/// A check that failed.
pub open spec fn failed(name: Seq<char>, detail: Seq<char>, resolution: Seq<char>) -> CheckView {
    CheckView { name, status: CheckStatus::Fail, detail, resolution: Some(resolution) }
}

impl Check {
    /// A check that passed.
    pub fn pass(name: &'static str, detail: String) -> (r: Check)
        ensures
            r@ == passed(name@, detail@),
    {
        Check { name, status: CheckStatus::Pass, detail, resolution: None }
    }

    /// A check that warns.
    pub fn warn(name: &'static str, detail: String, resolution: &str) -> (r: Check)
        ensures
            r@ == warned(name@, detail@, resolution@),
    {
        Check { name, status: CheckStatus::Warn, detail, resolution: Some(resolution.to_owned()) }
    }

    /// A check that failed.
    pub fn fail(name: &'static str, detail: String, resolution: &str) -> (r: Check)
        ensures
            r@ == failed(name@, detail@, resolution@),
    {
        Check { name, status: CheckStatus::Fail, detail, resolution: Some(resolution.to_owned()) }
    }
}

/// How Full Disk Access is granted.
pub const FDA_HELP: &'static str =
    "Grant Full Disk Access:\nSystem Settings → Privacy & Security → Full Disk Access\nFor interactive use, add the app you run this command from (Terminal, iTerm, …).\nThe scheduled background service will need the ai-imessage binary itself added.\nAccess is inherited from the launching app, so a check passing in your terminal\ndoes not guarantee the background service has access.\nAfter changing the setting, re-run: ai-imessage doctor";

/// What to do on another system.
pub const WRONG_SYSTEM: &'static str =
    "ai-imessage reads the Apple Messages database, which only exists on macOS. Non-macOS use is only meaningful for development.";

/// What to do when there is no source database.
pub const NO_SOURCE: &'static str =
    "If Messages has ever been used on this Mac the database should exist. Check [source].database_path in the config file. Note that a missing Full Disk Access grant can also make the file appear absent.";

/// What missing contact names mean.
pub const NO_CONTACTS: &'static str =
    "Messages will be labeled by phone number / email instead of contact names. If the path looks right, this is usually a missing Full Disk Access grant.";

/// What to do when the contacts path cannot be told.
pub const NO_CONTACTS_PATH: &'static str =
    "Fix [source].contacts_path in the config file, or set it to \"\" to disable contact-name resolution.";

/// What to do when counting fails.
pub const COUNT_FAILED: &'static str =
    "The database may be corrupt or mid-migration. Try again; if it persists, check Messages.app itself.";

/// What to do when the database cannot be opened.
pub const NOT_MESSAGES: &'static str =
    "Run with --verbose for more detail. If the file is not a Messages database, fix [source].database_path.";

/// What to do when full-text search is missing.
pub const NO_FULL_TEXT: &'static str =
    "Full-text search (Milestone 3) requires FTS5. This build's bundled SQLite lacks it — please report this as a packaging bug.";

/// The platform: only macOS has the Messages database.
pub open spec fn platform_check(os: Seq<char>) -> CheckView {
    if os == "macos"@ {
        passed("platform"@, "macOS"@)
    } else {
        warned("platform"@, "not macOS ("@ + os + ")"@, WRONG_SYSTEM@)
    }
}

/// Checks the platform, given the name of the operating system.
pub fn check_platform(os: &str) -> (r: Check)
    ensures
        r@ == platform_check(os@),
{
    if text::str_eq(os, "macos") {
        Check::pass("platform", "macOS".to_owned())
    } else {
        let mut s = "not macOS (".to_owned();
        s.append(os);
        s.append(")");
        Check::warn("platform", s, WRONG_SYSTEM)
    }
}

/// The configuration: a file, or the built-in defaults.
pub open spec fn config_check(path: Seq<char>, from_file: bool) -> CheckView {
    passed(
        "configuration"@,
        if from_file {
            "loaded from "@ + path
        } else {
            "no file at "@ + path + " — built-in defaults in use"@
        },
    )
}

/// Checks where the configuration came from.
pub fn check_config(loaded: &LoadedConfig) -> (r: Check)
    ensures
        r@ == config_check(loaded.path@, loaded.from_file),
{
    if loaded.from_file {
        let mut s = "loaded from ".to_owned();
        s.append(loaded.path.as_str());
        Check::pass("configuration", s)
    } else {
        let mut s = "no file at ".to_owned();
        s.append(loaded.path.as_str());
        s.append(" — built-in defaults in use");
        Check::pass("configuration", s)
    }
}

/// What looking for the source database gave.
#[derive(Debug, Clone, PartialEq, Eq)]
pub enum Presence {
    /// It is there, and this large in megabytes.
    Present { megabytes: String },
    Denied,
    Missing,
    Failed(String),
}

/// Whether the source database is there.
pub open spec fn presence_check(path: Seq<char>, presence: Presence) -> CheckView {
    let name = "source database present"@;
    match presence {
        Presence::Present { megabytes } => passed(name, path + " ("@ + megabytes@ + " MB)"@),
        Presence::Denied => failed(
            name,
            "permission denied for "@ + path + " — Full Disk Access is missing"@,
            FDA_HELP@,
        ),
        Presence::Missing => failed(name, "nothing at "@ + path, NO_SOURCE@),
        Presence::Failed(why) => failed(
            name,
            "could not inspect "@ + path + ": "@ + why@,
            "Check the path and filesystem permissions."@,
        ),
    }
}

/// Checks whether the source database is there.
pub fn check_source_present(path: &str, presence: &Presence) -> (r: Check)
    ensures
        r@ == presence_check(path@, *presence),
{
    match presence {
        Presence::Present { megabytes } => {
            let mut s = path.to_owned();
            s.append(" (");
            s.append(megabytes.as_str());
            s.append(" MB)");
            Check::pass("source database present", s)
        },
        Presence::Denied => {
            let mut s = "permission denied for ".to_owned();
            s.append(path);
            s.append(" — Full Disk Access is missing");
            Check::fail("source database present", s, FDA_HELP)
        },
        Presence::Missing => {
            let mut s = "nothing at ".to_owned();
            s.append(path);
            Check::fail("source database present", s, NO_SOURCE)
        },
        Presence::Failed(why) => {
            let mut s = "could not inspect ".to_owned();
            s.append(path);
            s.append(": ");
            s.append(why.as_str());
            Check::fail("source database present", s, "Check the path and filesystem permissions.")
        },
    }
}

/// What opening the source database and counting its messages gave.
#[derive(Debug, Clone, PartialEq, Eq)]
pub enum Readability {
    Counted { messages: u64, caps: SchemaCaps },
    CountFailed(SourceError),
    NotOpened(SourceError),
}

/// Whether the source database can be read.
pub open spec fn reading_check(readability: Readability) -> CheckView {
    let name = "source database readable"@;
    match readability {
        Readability::Counted { messages, caps } => passed(
            name,
            "opened read-only; "@ + numeric::decimal(messages as nat)
                + " messages visible; columns: "@ + caps.words(),
        ),
        Readability::CountFailed(e) => failed(
            name,
            "opened, but counting messages failed: "@ + e.text(),
            COUNT_FAILED@,
        ),
        Readability::NotOpened(e) => if e is PermissionDenied {
            failed(name, "SQLite could not open the database: permission denied"@, FDA_HELP@)
        } else {
            failed(name, e.text(), NOT_MESSAGES@)
        },
    }
}

/// Checks whether the source database can be read.
pub fn check_source_readable(readability: &Readability) -> (r: Check)
    ensures
        r@ == reading_check(*readability),
{
    match readability {
        Readability::Counted { messages, caps } => {
            let mut s = "opened read-only; ".to_owned();
            s.append(decimal_u64(*messages).as_str());
            s.append(" messages visible; columns: ");
            s.append(caps.summary().as_str());
            Check::pass("source database readable", s)
        },
        Readability::CountFailed(e) => {
            let mut s = "opened, but counting messages failed: ".to_owned();
            s.append(e.message().as_str());
            Check::fail("source database readable", s, COUNT_FAILED)
        },
        Readability::NotOpened(e) => match e {
            SourceError::PermissionDenied(_) => Check::fail(
                "source database readable",
                "SQLite could not open the database: permission denied".to_owned(),
                FDA_HELP,
            ),
            _ => Check::fail("source database readable", e.message(), NOT_MESSAGES),
        },
    }
}

/// What writing into the destination directory gave.
#[derive(Debug, Clone, PartialEq, Eq)]
pub enum Writability {
    Writable,
    NotCreated(String),
    NotWritable(String),
}

/// Whether the destination directory can be written to.
pub open spec fn writing_check(dir: Seq<char>, writability: Writability) -> CheckView {
    let name = "destination directory writable"@;
    match writability {
        Writability::Writable => passed(name, dir),
        Writability::NotCreated(why) => failed(
            name,
            "could not create "@ + dir + ": "@ + why@,
            "Check [index].database_path and directory permissions."@,
        ),
        Writability::NotWritable(why) => failed(
            name,
            "cannot write inside "@ + dir + ": "@ + why@,
            "Check directory permissions, or point [index].database_path elsewhere."@,
        ),
    }
}

/// Checks whether the destination directory can be written to.
pub fn check_destination_writable(dir: &str, writability: &Writability) -> (r: Check)
    ensures
        r@ == writing_check(dir@, *writability),
{
    match writability {
        Writability::Writable => Check::pass("destination directory writable", dir.to_owned()),
        Writability::NotCreated(why) => {
            let mut s = "could not create ".to_owned();
            s.append(dir);
            s.append(": ");
            s.append(why.as_str());
            Check::fail(
                "destination directory writable",
                s,
                "Check [index].database_path and directory permissions.",
            )
        },
        Writability::NotWritable(why) => {
            let mut s = "cannot write inside ".to_owned();
            s.append(dir);
            s.append(": ");
            s.append(why.as_str());
            Check::fail(
                "destination directory writable",
                s,
                "Check directory permissions, or point [index].database_path elsewhere.",
            )
        },
    }
}

/// What loading the contact names gave.
#[derive(Debug, Clone, PartialEq, Eq)]
pub enum ContactsState {
    Disabled,
    Loaded { names: usize, databases: usize },
    NotLoaded(ContactsError),
    NoPath(PathError),
}

/// The contact names. They are enrichment, so problems warn instead of fail.
pub open spec fn contacts_check(state: ContactsState) -> CheckView {
    let name = "contacts database"@;
    match state {
        ContactsState::Disabled => passed(name, "contact-name resolution disabled by config"@),
        ContactsState::Loaded { names, databases } => passed(
            name,
            numeric::decimal(names as nat) + " names loaded from "@ + numeric::decimal(
                databases as nat,
            ) + " database(s)"@,
        ),
        ContactsState::NotLoaded(e) => warned(name, e.text(), NO_CONTACTS@),
        ContactsState::NoPath(e) => warned(
            name,
            "could not resolve contacts path: "@ + e.text(),
            NO_CONTACTS_PATH@,
        ),
    }
}

/// Checks the contact names.
pub fn check_contacts(state: &ContactsState) -> (r: Check)
    ensures
        r@ == contacts_check(*state),
{
    match state {
        ContactsState::Disabled => Check::pass(
            "contacts database",
            "contact-name resolution disabled by config".to_owned(),
        ),
        ContactsState::Loaded { names, databases } => {
            let mut s = decimal_u64(*names as u64);
            s.append(" names loaded from ");
            s.append(decimal_u64(*databases as u64).as_str());
            s.append(" database(s)");
            Check::pass("contacts database", s)
        },
        ContactsState::NotLoaded(e) => Check::warn(
            "contacts database",
            e.message(),
            NO_CONTACTS,
        ),
        ContactsState::NoPath(e) => {
            let mut s = "could not resolve contacts path: ".to_owned();
            s.append(e.message().as_str());
            Check::warn("contacts database", s, NO_CONTACTS_PATH)
        },
    }
}

/// Full-text search: available, or why not.
pub open spec fn full_text_check(error: Option<Seq<char>>) -> CheckView {
    match error {
        None => passed("SQLite FTS5 support"@, "available in bundled SQLite"@),
        Some(why) => warned("SQLite FTS5 support"@, "FTS5 unavailable: "@ + why, NO_FULL_TEXT@),
    }
}

/// Checks full-text search, given why a probe of it failed, if it did.
pub fn check_fts5(error: Option<&str>) -> (r: Check)
    ensures
        r@ == full_text_check(text::opt_str(error)),
{
    match error {
        None => Check::pass("SQLite FTS5 support", "available in bundled SQLite".to_owned()),
        Some(why) => {
            let mut s = "FTS5 unavailable: ".to_owned();
            s.append(why);
            Check::warn("SQLite FTS5 support", s, NO_FULL_TEXT)
        },
    }
}

/// What looking at the source database gave.
#[derive(Debug, Clone, PartialEq, Eq)]
pub struct SourceProbe {
    pub path: String,
    pub presence: Presence,
    /// `None` when the database was not opened.
    pub readability: Option<Readability>,
}

/// What looking at the destination gave.
#[derive(Debug, Clone, PartialEq, Eq)]
pub struct DestinationProbe {
    pub dir: String,
    pub writability: Writability,
}

/// Everything that was looked at.
#[derive(Debug, PartialEq, Eq)]
pub struct Probes {
    pub os: String,
    pub source: Result<SourceProbe, PathError>,
    pub destination: Result<DestinationProbe, PathError>,
    pub contacts: ContactsState,
    pub fts5_error: Option<String>,
}

/// The check of a source database that is there and was not opened.
pub open spec fn unread_check() -> CheckView {
    failed("source database readable"@, "the database was not opened"@, NOT_MESSAGES@)
}

/// The checks of the source database: whether it is there and, unless that
/// fails, whether it can be read.
pub open spec fn source_checks(source: Result<SourceProbe, PathError>) -> Seq<CheckView> {
    match source {
        Ok(p) => {
            let present = presence_check(p.path@, p.presence);
            if present.status == CheckStatus::Fail {
                seq![present]
            } else {
                match p.readability {
                    Some(readability) => seq![present, reading_check(readability)],
                    None => seq![present, unread_check()],
                }
            }
        },
        Err(e) => seq![
            failed(
                "source path"@,
                "could not resolve source database path: "@ + e.text(),
                "Fix [source].database_path in the config file."@,
            ),
        ],
    }
}

/// The check of the destination.
pub open spec fn destination_check(destination: Result<DestinationProbe, PathError>) -> CheckView {
    match destination {
        Ok(p) => writing_check(p.dir@, p.writability),
        Err(e) => failed(
            "destination directory"@,
            "could not resolve index path: "@ + e.text(),
            "Fix [index].database_path in the config file."@,
        ),
    }
}

/// All checks, in the order in which they read as a setup narrative.
pub open spec fn all_checks(loaded: LoadedConfig, probes: Probes) -> Seq<CheckView> {
    seq![platform_check(probes.os@), config_check(loaded.path@, loaded.from_file)]
        + source_checks(probes.source) + seq![
        destination_check(probes.destination),
        contacts_check(probes.contacts),
        full_text_check(text::opt_view(probes.fts5_error)),
    ]
}

/// Every diagnostic check, given what was looked at.
pub fn run_checks(loaded: &LoadedConfig, probes: &Probes) -> (r: Vec<Check>)
    ensures
        check_views(r@) == all_checks(*loaded, *probes),
{
    let mut checks: Vec<Check> = Vec::new();
    checks.push(check_platform(probes.os.as_str()));
    checks.push(check_config(loaded));
    match &probes.source {
        Ok(p) => {
            let present = check_source_present(p.path.as_str(), &p.presence);
            let can_read = match present.status {
                CheckStatus::Fail => false,
                _ => true,
            };
            checks.push(present);
            if can_read {
                match &p.readability {
                    Some(readability) => {
                        checks.push(check_source_readable(readability));
                    },
                    None => {
                        checks.push(
                            Check::fail(
                                "source database readable",
                                "the database was not opened".to_owned(),
                                NOT_MESSAGES,
                            ),
                        );
                    },
                }
            }
        },
        Err(e) => {
            let mut s = "could not resolve source database path: ".to_owned();
            s.append(e.message().as_str());
            checks.push(
                Check::fail("source path", s, "Fix [source].database_path in the config file."),
            );
        },
    }
    match &probes.destination {
        Ok(p) => {
            checks.push(check_destination_writable(p.dir.as_str(), &p.writability));
        },
        Err(e) => {
            let mut s = "could not resolve index path: ".to_owned();
            s.append(e.message().as_str());
            checks.push(
                Check::fail(
                    "destination directory",
                    s,
                    "Fix [index].database_path in the config file.",
                ),
            );
        },
    }
    checks.push(check_contacts(&probes.contacts));
    checks.push(check_fts5(text::as_deref(&probes.fts5_error)));
    proof {
        assert(check_views(checks@) =~= all_checks(*loaded, *probes));
    }
    checks
}

/// How many checks came out some way.
pub open spec fn tally(cs: Seq<CheckView>, status: CheckStatus) -> nat
    decreases cs.len(),
{
    if cs.len() == 0 {
        0
    } else {
        tally(cs.drop_last(), status) + if cs.last().status == status {
            1nat
        } else {
            0
        }
    }
}

/// Whether any check failed.
pub open spec fn any_failed(cs: Seq<CheckView>) -> bool {
    exists|i: int| 0 <= i < cs.len() && (#[trigger] cs[i]).status == CheckStatus::Fail
}

/// Whether any check failed.
pub fn has_failure(checks: &[Check]) -> (r: bool)
    ensures
        r == any_failed(check_views(checks@)),
{
    let ghost all = check_views(checks@);
    let mut i: usize = 0;
    while i < checks.len()
        invariant
            i <= checks@.len(),
            all == check_views(checks@),
            forall|j: int| 0 <= j < i ==> (#[trigger] all[j]).status != CheckStatus::Fail,
        decreases checks@.len() - i,
    {
        assert(all[i as int] == checks@[i as int]@);
        match checks[i].status {
            CheckStatus::Fail => {
                return true;
            },
            _ => {},
        }
        i = i + 1;
    }
    false
}

/// Lines, each indented under its check.
pub open spec fn indented(all: Seq<Seq<char>>) -> Seq<char>
    decreases all.len(),
{
    if all.len() == 0 {
        Seq::empty()
    } else {
        indented(all.drop_last()) + "        "@ + all.last() + "\n"@
    }
}

/// One check in words, with its resolution below it.
pub open spec fn check_text(c: CheckView) -> Seq<char> {
    c.status.word() + "  "@ + c.name + " — "@ + c.detail + "\n"@ + match c.resolution {
        Some(res) => indented(text::lines_of(res)),
        None => ""@,
    }
}

/// Some checks in words.
pub open spec fn check_texts(cs: Seq<CheckView>) -> Seq<char>
    decreases cs.len(),
{
    if cs.len() == 0 {
        Seq::empty()
    } else {
        check_texts(cs.drop_last()) + check_text(cs.last())
    }
}

/// The checks in words, and how many came out which way.
pub open spec fn report(cs: Seq<CheckView>) -> Seq<char> {
    check_texts(cs) + "\n"@ + numeric::decimal(tally(cs, CheckStatus::Pass)) + " passed, "@
        + numeric::decimal(tally(cs, CheckStatus::Warn)) + " warnings, "@ + numeric::decimal(
        tally(cs, CheckStatus::Fail),
    ) + " failed\n"@
}

fn indent(s: &str) -> (r: String)
    ensures
        r@ == indented(text::lines_of(s@)),
{
    let all = lines(s);
    let ghost views = text::views(all@);
    let mut out = String::new();
    let mut i: usize = 0;
    while i < all.len()
        invariant
            i <= all@.len(),
            views == text::views(all@),
            out@ == indented(views.take(i as int)),
        decreases all@.len() - i,
    {
        proof {
            assert(views[i as int] == all@[i as int]@);
            assert(views.take(i + 1).drop_last() =~= views.take(i as int));
        }
        out.append("        ");
        out.append(all[i].as_str());
        out.append("\n");
        i = i + 1;
    }
    proof {
        assert(views.take(i as int) =~= views);
    }
    out
}

fn render_check(c: &Check) -> (r: String)
    ensures
        r@ == check_text(c@),
{
    let mut s = c.status.label().to_owned();
    s.append("  ");
    s.append(c.name);
    s.append(" — ");
    s.append(c.detail.as_str());
    s.append("\n");
    match &c.resolution {
        Some(res) => s.append(indent(res.as_str()).as_str()),
        None => s.append(""),
    }
    s
}

/// The checks in words, and how many came out which way.
pub fn render(checks: &[Check]) -> (r: String)
    ensures
        r@ == report(check_views(checks@)),
{
    let ghost all = check_views(checks@);
    let mut out = String::new();
    let mut pass: u64 = 0;
    let mut warn: u64 = 0;
    let mut fail: u64 = 0;
    let mut i: usize = 0;
    while i < checks.len()
        invariant
            i <= checks@.len(),
            all == check_views(checks@),
            out@ == check_texts(all.take(i as int)),
            pass == tally(all.take(i as int), CheckStatus::Pass),
            warn == tally(all.take(i as int), CheckStatus::Warn),
            fail == tally(all.take(i as int), CheckStatus::Fail),
            pass + warn + fail == i,
        decreases checks@.len() - i,
    {
        proof {
            assert(all[i as int] == checks@[i as int]@);
            assert(all.take(i + 1).drop_last() =~= all.take(i as int));
        }
        out.append(render_check(&checks[i]).as_str());
        match checks[i].status {
            CheckStatus::Pass => {
                pass = pass + 1;
            },
            CheckStatus::Warn => {
                warn = warn + 1;
            },
            CheckStatus::Fail => {
                fail = fail + 1;
            },
        }
        i = i + 1;
    }
    proof {
        assert(all.take(i as int) =~= all);
    }
    out.append("\n");
    out.append(decimal_u64(pass).as_str());
    out.append(" passed, ");
    out.append(decimal_u64(warn).as_str());
    out.append(" warnings, ");
    out.append(decimal_u64(fail).as_str());
    out.append(" failed\n");
    out
}

/// Every check passes, warns or fails, and the report counts each once.
pub proof fn law_tallies_add_up(cs: Seq<CheckView>)
    ensures
        tally(cs, CheckStatus::Pass) + tally(cs, CheckStatus::Warn) + tally(cs, CheckStatus::Fail)
            == cs.len(),
        any_failed(cs) <==> tally(cs, CheckStatus::Fail) > 0,
    decreases cs.len(),
{
    if cs.len() > 0 {
        let front = cs.drop_last();
        law_tallies_add_up(front);
        if any_failed(front) {
            let i = choose|i: int|
                0 <= i < front.len() && (#[trigger] front[i]).status == CheckStatus::Fail;
            assert(cs[i].status == CheckStatus::Fail);
        }
        if cs.last().status == CheckStatus::Fail {
            assert(cs[cs.len() - 1].status == CheckStatus::Fail);
        }
        if any_failed(cs) && !any_failed(front) {
            let i = choose|i: int|
                0 <= i < cs.len() && (#[trigger] cs[i]).status == CheckStatus::Fail;
            if i < front.len() {
                assert(front[i].status == CheckStatus::Fail);
            }
        }
    }
}

/// Missing or unreadable contact names never make the diagnosis fail.
pub proof fn law_contacts_never_fail(state: ContactsState)
    ensures
        contacts_check(state).status != CheckStatus::Fail,
{
}

/// Every check that does not pass says what to do.
pub proof fn law_problems_come_with_a_resolution(loaded: LoadedConfig, probes: Probes, i: int)
    requires
        0 <= i < all_checks(loaded, probes).len(),
        all_checks(loaded, probes)[i].status != CheckStatus::Pass,
    ensures
        all_checks(loaded, probes)[i].resolution is Some,
{
}

/// Whether nothing stands in the way of a sync: the paths resolve, the source
/// database is there and can be counted, and the destination can be written to.
pub open spec fn is_ready(probes: Probes) -> bool {
    &&& probes.source matches Ok(p) && p.presence is Present && (p.readability matches Some(r) && r
        is Counted)
    &&& probes.destination matches Ok(d) && d.writability == Writability::Writable
}

/// When the diagnosis fails: exactly when something stands in the way of a sync.
/// It warns, and only warns, about another system than macOS, contact names that
/// are wanted and cannot be had, and full-text search that is missing.
pub proof fn law_when_the_diagnosis_fails(loaded: LoadedConfig, probes: Probes)
    ensures
        ({
            let cs = all_checks(loaded, probes);
            &&& any_failed(cs) <==> !is_ready(probes)
            &&& (exists|i: int|
                0 <= i < cs.len() && (#[trigger] cs[i]).status == CheckStatus::Warn) <==> {
                ||| probes.os@ != "macos"@
                ||| probes.contacts is NotLoaded
                ||| probes.contacts is NoPath
                ||| probes.fts5_error is Some
            }
        }),
{
    let cs = all_checks(loaded, probes);
    let mid = source_checks(probes.source);
    let n = mid.len() as int;
    assert(n == 1 || n == 2);
    assert(cs.len() == n + 5);
    assert(cs[0] == platform_check(probes.os@));
    assert(cs[1] == config_check(loaded.path@, loaded.from_file));
    assert(cs[2] == mid[0]);
    assert(n == 2 ==> cs[3] == mid[1]);
    assert(cs[n + 2] == destination_check(probes.destination));
    assert(cs[n + 3] == contacts_check(probes.contacts));
    assert(cs[n + 4] == full_text_check(text::opt_view(probes.fts5_error)));
    assert forall|i: int| 0 <= i < cs.len() implies (#[trigger] cs[i]) == cs[0] || cs[i] == cs[1]
        || cs[i] == cs[2] || (n == 2 && cs[i] == cs[3]) || cs[i] == cs[n + 2] || cs[i] == cs[n + 3]
        || cs[i] == cs[n + 4] by {}
}

/// How many checks came out some way.
pub proof fn law_what_a_tally_counts(cs: Seq<CheckView>, status: CheckStatus)
    ensures
        tally(cs, status) == cs.filter(|c: CheckView| c.status == status).len(),
    decreases cs.len(),
{
    reveal(Seq::filter);
    if cs.len() > 0 {
        law_what_a_tally_counts(cs.drop_last(), status);
    }
}

/// A check is shown with its status, its name and what was found; the checks
/// follow each other in their order.
pub proof fn law_checks_are_shown_in_order(a: Seq<CheckView>, c: CheckView)
    ensures
        check_texts(Seq::empty()) == Seq::<char>::empty(),
        check_texts(a.push(c)) == check_texts(a) + check_text(c),
        c.resolution is None ==> check_text(c) == (match c.status {
            CheckStatus::Pass => "PASS"@,
            CheckStatus::Warn => "WARN"@,
            CheckStatus::Fail => "FAIL"@,
        }) + "  "@ + c.name + " — "@ + c.detail + "\n"@,
{
    assert(a.push(c).drop_last() =~= a);
    reveal_strlit("");
    if c.resolution is None {
        let s = c.status.word() + "  "@ + c.name + " — "@ + c.detail + "\n"@;
        assert(s + ""@ =~= s);
    }
}

} // verus!
