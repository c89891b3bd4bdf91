//! Filesystem locations, as the bytes that the system keeps them in, and `~`
//! expansion.
use crate::text;
use crate::text::{str_eq, strip_prefix};
use vstd::prelude::*;
use vstd::string::*;
use vstd::utf8::*;

verus! {

/// Directory name under `~/Library/Application Support`.
pub const APP_DIR_NAME: &'static str = "ai-imessage";

/// The byte that parts the components of a path.
pub const SLASH: u8 = 0x2f;

/// The byte that a `.` component is made of.
pub const DOT: u8 = 0x2e;

/// Why a location could not be determined.
#[derive(Debug, Clone, Copy, PartialEq, Eq, Structural)]
pub enum PathError {
    /// The current user has no home directory.
    NoHome,
    /// The current user has no home directory to hold launchd agents.
    NoAgentHome,
}

impl PathError {
    /// What the error says.
    pub open spec fn text(self) -> Seq<char> {
        match self {
            PathError::NoHome => "could not determine the current user's home directory"@,
            PathError::NoAgentHome => "could not determine home directory"@,
        }
    }

    /// What the error says.
    pub fn message(&self) -> (r: String)
        ensures
            r@ == self.text(),
    {
        match self {
            PathError::NoHome =>
                "could not determine the current user's home directory".to_owned(),
            PathError::NoAgentHome => "could not determine home directory".to_owned(),
        }
    }
}

/// The path `rest` seen from the directory `base`: an absolute path stands
/// for itself, any other follows the directory and a slash.
pub open spec fn joined(base: Seq<u8>, rest: Seq<u8>) -> Seq<u8> {
    if rest.len() > 0 && rest[0] == SLASH {
        rest
    } else if base.len() > 0 && base.last() != SLASH {
        base + seq![SLASH] + rest
    } else {
        base + rest
    }
}

/// The path `rest` seen from the directory `base`.
pub fn join(base: &[u8], rest: &[u8]) -> (r: Vec<u8>)
    ensures
        r@ == joined(base@, rest@),
{
    let mut p: Vec<u8> = Vec::new();
    if rest.len() > 0 && rest[0] == SLASH {
        p.extend_from_slice(rest);
        proof {
            assert(p@ =~= rest@);
        }
        return p;
    }
    p.extend_from_slice(base);
    if base.len() > 0 && base[base.len() - 1] != SLASH {
        p.push(SLASH);
    }
    p.extend_from_slice(rest);
    proof {
        assert(p@ =~= joined(base@, rest@));
    }
    p
}

/// A path without the slashes and `.` components at its end; the root stays.
pub open spec fn without_tail(p: Seq<u8>) -> Seq<u8>
    decreases p.len(),
{
    if p.len() >= 2 && p.last() == SLASH {
        without_tail(p.drop_last())
    } else if p.len() >= 2 && p.last() == DOT && p[p.len() - 2] == SLASH {
        without_tail(p.drop_last())
    } else {
        p
    }
}

/// A path up to its last slash, that slash included.
pub open spec fn up_to_slash(p: Seq<u8>) -> Seq<u8>
    decreases p.len(),
{
    if p.len() == 0 || p.last() == SLASH {
        p
    } else {
        up_to_slash(p.drop_last())
    }
}

/// A path without its final component; none for the root and the empty path,
/// which have no component.
pub open spec fn parent_of(p: Seq<u8>) -> Option<Seq<u8>> {
    let t = without_tail(p);
    if t.len() == 0 || t == seq![SLASH] {
        None
    } else {
        Some(without_tail(up_to_slash(t)))
    }
}

fn tail_end(p: &[u8], len: usize) -> (r: usize)
    requires
        len <= p@.len(),
    ensures
        r <= len,
        p@.take(r as int) == without_tail(p@.take(len as int)),
{
    let mut n: usize = len;
    while n >= 2 && (p[n - 1] == SLASH || (p[n - 1] == DOT && p[n - 2] == SLASH))
        invariant
            n <= len <= p@.len(),
            without_tail(p@.take(n as int)) == without_tail(p@.take(len as int)),
        decreases n,
    {
        proof {
            assert(p@.take(n as int).drop_last() =~= p@.take(n - 1));
        }
        n = n - 1;
    }
    n
}

/// What an optional path holds.
pub open spec fn opt_path(p: Option<Vec<u8>>) -> Option<Seq<u8>> {
    match p {
        Some(p) => Some(p@),
        None => None,
    }
}

/// A path without its final component, if it has one.
pub fn parent(p: &[u8]) -> (r: Option<Vec<u8>>)
    ensures
        opt_path(r) == parent_of(p@),
{
    proof {
        assert(p@.take(p@.len() as int) =~= p@);
    }
    let end: usize = tail_end(p, p.len());
    let ghost t = without_tail(p@);
    if end == 0 {
        return None;
    }
    if end == 1 && p[0] == SLASH {
        proof {
            assert(t =~= seq![SLASH]);
        }
        return None;
    }
    proof {
        if t == seq![SLASH] {
            assert(t.len() == 1 && t[0] == SLASH);
        }
    }
    let mut n: usize = end;
    while n > 0 && p[n - 1] != SLASH
        invariant
            n <= end <= p@.len(),
            up_to_slash(p@.take(n as int)) == up_to_slash(p@.take(end as int)),
        decreases n,
    {
        proof {
            assert(p@.take(n as int).drop_last() =~= p@.take(n - 1));
        }
        n = n - 1;
    }
    let last: usize = tail_end(p, n);
    let mut r: Vec<u8> = Vec::new();
    r.extend_from_slice(vstd::slice::slice_subrange(p, 0, last));
    proof {
        assert(r@ =~= p@.take(last as int));
    }
    Some(r)
}

/// A path without the slashes at its beginning.
pub open spec fn relative(p: Seq<u8>) -> Seq<u8>
    decreases p.len(),
{
    if p.len() > 0 && p[0] == SLASH {
        relative(p.drop_first())
    } else {
        p
    }
}

/// A path without the slashes at its beginning.
fn without_slashes(p: &[u8]) -> (r: &[u8])
    ensures
        r@ == relative(p@),
{
    let mut i: usize = 0;
    proof {
        assert(p@.skip(0) =~= p@);
    }
    while i < p.len() && p[i] == SLASH
        invariant
            i <= p@.len(),
            relative(p@) == relative(p@.skip(i as int)),
        decreases p@.len() - i,
    {
        proof {
            assert(p@.skip(i as int).drop_first() =~= p@.skip(i + 1));
        }
        i = i + 1;
    }
    proof {
        assert(p@.subrange(i as int, p@.len() as int) =~= p@.skip(i as int));
    }
    vstd::slice::slice_subrange(p, i, p.len())
}

/// A path with a leading `~` or `~/` replaced by the home directory; slashes
/// that follow the first count no more than it does. Paths such as `~user` stay
/// as they are.
pub open spec fn expanded(input: Seq<char>, home: Seq<u8>) -> Seq<u8> {
    if input == "~"@ {
        home
    } else if text::has_prefix(input, "~/"@) {
        joined(home, relative(encode_utf8(input.skip(2))))
    } else {
        encode_utf8(input)
    }
}

/// The bytes of a text.
fn bytes_of(s: &str) -> (r: Vec<u8>)
    ensures
        r@ == encode_utf8(s@),
{
    let mut r: Vec<u8> = Vec::new();
    r.extend_from_slice(s.as_bytes());
    proof {
        assert(r@ =~= encode_utf8(s@));
    }
    r
}

/// A copy of a path.
pub fn copy_of(p: &[u8]) -> (r: Vec<u8>)
    ensures
        r@ == p@,
{
    let mut r: Vec<u8> = Vec::new();
    r.extend_from_slice(p);
    proof {
        assert(r@ =~= p@);
    }
    r
}

/// Expands a leading `~` or `~/` to the given home directory.
pub fn expand_tilde_with_home(input: &str, home: &[u8]) -> (r: Vec<u8>)
    ensures
        r@ == expanded(input@, home@),
{
    if str_eq(input, "~") {
        return copy_of(home);
    }
    proof {
        reveal_strlit("~/");
        assert("~/"@.len() == 2);
    }
    match strip_prefix(input, "~/") {
        Some(rest) => join(home, without_slashes(rest.as_str().as_bytes())),
        None => bytes_of(input),
    }
}

/// `dirs::home_dir`: the current user's home directory as the environment or
/// the user database has it, as the bytes of the path. Nothing is stated of
/// the result.
#[verifier::external_body]
pub(crate) fn user_home() -> Option<Vec<u8>> {
    dirs::home_dir().map(|p| p.as_os_str().as_encoded_bytes().to_vec())
}

/// The home directory, or the error when there is none.
pub fn require_home(home: Option<Vec<u8>>) -> (r: Result<Vec<u8>, PathError>)
    ensures
        r is Ok <==> home is Some,
        r matches Ok(h) ==> home == Some(h),
        r matches Err(e) ==> e == PathError::NoHome,
{
    match home {
        Some(h) => Ok(h),
        None => Err(PathError::NoHome),
    }
}

/// The current user's home directory.
pub fn home_dir() -> (r: Result<Vec<u8>, PathError>)
    ensures
        r matches Err(e) ==> e == PathError::NoHome,
{
    require_home(user_home())
}

/// Expands a leading `~` or `~/` to the home directory that was found. Without
/// one no path is expanded, not even one that begins otherwise.
pub fn expand_tilde_from(input: &str, home: Option<Vec<u8>>) -> (r: Result<Vec<u8>, PathError>)
    ensures
        match home {
            Some(h) => r matches Ok(p) && p@ == expanded(input@, h@),
            None => r matches Err(e) && e == PathError::NoHome,
        },
{
    match require_home(home) {
        Ok(h) => Ok(expand_tilde_with_home(input, h.as_slice())),
        Err(e) => Err(e),
    }
}

/// Expands a leading `~` or `~/` to the current user's home directory.
///
/// `~user` forms are not expanded; they are returned verbatim.
pub fn expand_tilde(input: &str) -> (r: Result<Vec<u8>, PathError>)
    ensures
        r matches Ok(p) ==> exists|home: Seq<u8>| p@ == #[trigger] expanded(input@, home),
        r matches Err(e) ==> e == PathError::NoHome,
{
    expand_tilde_from(input, user_home())
}

/// `Library/Application Support/ai-imessage` in a home directory.
pub open spec fn app_support(home: Seq<u8>) -> Seq<u8> {
    joined(
        joined(joined(home, encode_utf8("Library"@)), encode_utf8("Application Support"@)),
        encode_utf8(APP_DIR_NAME@),
    )
}

/// The application's directory in a home directory.
pub fn app_support_dir_in(home: &[u8]) -> (r: Vec<u8>)
    ensures
        r@ == app_support(home@),
{
    let a = join(home, "Library".as_bytes());
    let b = join(a.as_slice(), "Application Support".as_bytes());
    join(b.as_slice(), APP_DIR_NAME.as_bytes())
}

/// The application's directory in the home directory that was found.
pub fn app_support_dir_from(home: Option<Vec<u8>>) -> (r: Result<Vec<u8>, PathError>)
    ensures
        match home {
            Some(h) => r matches Ok(p) && p@ == app_support(h@),
            None => r matches Err(e) && e == PathError::NoHome,
        },
{
    match require_home(home) {
        Ok(h) => Ok(app_support_dir_in(h.as_slice())),
        Err(e) => Err(e),
    }
}

/// `~/Library/Application Support/ai-imessage`
pub fn app_support_dir() -> (r: Result<Vec<u8>, PathError>)
    ensures
        r matches Ok(p) ==> exists|home: Seq<u8>| p@ == #[trigger] app_support(home),
        r matches Err(e) ==> e == PathError::NoHome,
{
    app_support_dir_from(user_home())
}

/// Default location of the config file in the home directory that was found.
pub fn default_config_path_from(home: Option<Vec<u8>>) -> (r: Result<Vec<u8>, PathError>)
    ensures
        match home {
            Some(h) => r matches Ok(p) && p@ == joined(app_support(h@), encode_utf8("config.toml"@)),
            None => r matches Err(e) && e == PathError::NoHome,
        },
{
    match app_support_dir_from(home) {
        Ok(dir) => Ok(join(dir.as_slice(), "config.toml".as_bytes())),
        Err(e) => Err(e),
    }
}

/// Default location of the config file.
pub fn default_config_path() -> (r: Result<Vec<u8>, PathError>)
    ensures
        r matches Ok(p) ==> exists|home: Seq<u8>|
            p@ == joined(#[trigger] app_support(home), encode_utf8("config.toml"@)),
        r matches Err(e) ==> e == PathError::NoHome,
{
    default_config_path_from(user_home())
}

/// Only `~` and paths under `~/` are expanded; every other path stays as it
/// is, whatever the home directory.
pub proof fn law_other_paths_pass_through(input: Seq<char>, home: Seq<u8>)
    requires
        input != "~"@,
        !text::has_prefix(input, "~/"@),
    ensures
        expanded(input, home) == encode_utf8(input),
{
}

/// Whether a path begins with the bytes of another.
pub open spec fn begins_with(p: Seq<u8>, start: Seq<u8>) -> bool {
    p.len() >= start.len() && p.take(start.len() as int) == start
}

/// A path under `~/` always stands below the home directory.
pub proof fn law_home_is_kept(input: Seq<char>, home: Seq<u8>)
    requires
        text::has_prefix(input, "~/"@),
    ensures
        begins_with(expanded(input, home), home),
{
    reveal_strlit("~");
    reveal_strlit("~/");
    assert(input.len() >= 2);
    lemma_relative(encode_utf8(input.skip(2)));
    law_join_extends(home, relative(encode_utf8(input.skip(2))));
}

proof fn lemma_relative(s: Seq<u8>)
    ensures
        relative(s).len() > 0 ==> relative(s)[0] != SLASH,
    decreases s.len(),
{
    if s.len() > 0 && s[0] == SLASH {
        lemma_relative(s.drop_first());
    }
}

/// A relative path stands below the directory it is joined to: what is joined
/// begins with the directory and ends with the path.
pub proof fn law_join_extends(base: Seq<u8>, rest: Seq<u8>)
    requires
        rest.len() > 0 ==> rest[0] != SLASH,
    ensures
        begins_with(joined(base, rest), base),
        joined(base, rest).skip(joined(base, rest).len() - rest.len()) == rest,
{
    let j = joined(base, rest);
    assert(j.take(base.len() as int) =~= base);
    assert(j.skip(j.len() - rest.len()) =~= rest);
}

/// The directory of a file: of `dir/name` it is `dir`, where `dir` does not end in
/// a slash or a dot component, and `name` holds no slash and is not a lone dot; of
/// `/name` it is `/`, and of a bare name the empty path.
pub proof fn law_directory_of_a_file(dir: Seq<u8>, name: Seq<u8>)
    requires
        name.len() > 0,
        !name.contains(0x2fu8),
        name != seq![0x2eu8],
        dir.len() > 0,
        dir.last() != 0x2fu8,
        dir.last() != 0x2eu8,
    ensures
        parent_of(dir + seq![0x2fu8] + name) == Some(dir),
        parent_of(seq![0x2fu8] + name) == Some(seq![0x2fu8]),
        parent_of(name) == Some(Seq::<u8>::empty()),
{
    let p = dir + seq![SLASH] + name;
    lemma_name_stays(dir + seq![SLASH], name);
    lemma_up_to_slash(dir + seq![SLASH], name);
    assert(p =~= (dir + seq![SLASH]) + name);
    assert((dir + seq![SLASH]).drop_last() =~= dir);
    assert(without_tail(dir) == dir);
    let root = seq![SLASH];
    lemma_name_stays(root, name);
    lemma_up_to_slash(root, name);
    let none = Seq::<u8>::empty();
    lemma_name_stays(none, name);
    lemma_up_to_slash(none, name);
    assert(none + name =~= name);
    assert(p.len() >= 3);
    assert((root + name).len() >= 2);
    if name == seq![SLASH] {
        assert(name[0] == SLASH);
    }
}

proof fn lemma_name_stays(before: Seq<u8>, name: Seq<u8>)
    requires
        name.len() > 0,
        !name.contains(SLASH),
        name != seq![DOT],
        before.len() == 0 || before.last() == SLASH,
    ensures
        without_tail(before + name) == before + name,
{
    let p = before + name;
    assert(p.last() == name.last());
    assert(name[name.len() - 1] != SLASH);
    if p.len() >= 2 && p.last() == DOT && p[p.len() - 2] == SLASH {
        if name.len() >= 2 {
            assert(p[p.len() - 2] == name[name.len() - 2]);
        } else {
            assert(name =~= seq![DOT]);
        }
    }
}

proof fn lemma_up_to_slash(before: Seq<u8>, name: Seq<u8>)
    requires
        !name.contains(SLASH),
        before.len() == 0 || before.last() == SLASH,
    ensures
        up_to_slash(before + name) == before,
    decreases name.len(),
{
    let p = before + name;
    if name.len() > 0 {
        let f = name.drop_last();
        assert(name[name.len() - 1] != SLASH);
        assert(p.last() == name.last());
        assert forall|i: int| 0 <= i < f.len() implies f[i] != SLASH by {
            assert(name[i] != SLASH);
        }
        lemma_up_to_slash(before, f);
        assert(p.drop_last() =~= before + f);
    } else {
        assert(p =~= before);
    }
}

/// A path below the home directory: `~` is the home directory, and `~/rest` what
/// `rest` is in it, where `rest` does not begin with a slash and the home directory
/// does not end with one.
pub proof fn law_what_a_tilde_stands_for(rest: Seq<char>, home: Seq<u8>)
    requires
        home.len() > 0,
        home.last() != 0x2fu8,
        encode_utf8(rest).len() > 0 ==> encode_utf8(rest)[0] != 0x2fu8,
    ensures
        expanded("~"@, home) == home,
        expanded("~/"@ + rest, home) == home + seq![0x2fu8] + encode_utf8(rest),
{
    reveal_strlit("~");
    reveal_strlit("~/");
    let s = "~/"@ + rest;
    assert(s.len() >= 2);
    assert(s.take(2) =~= "~/"@);
    assert(s.skip(2) =~= rest);
    assert("~"@.len() == 1);
}

} // verus!
