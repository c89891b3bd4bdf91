//! The plist of the HTTP agent, written and read back.
use crate::service;
use crate::service::{ADDR_MARK, HTTP_LABEL, KEEP_ALIVE, PLIST_ARGUMENTS, PLIST_HEAD, PLIST_TAIL};
use crate::text;
use vstd::prelude::*;

verus! {

/// Whether no element of a text begins with a dash, as far as an index.
spec fn dashless_to(s: Seq<char>, n: int) -> bool
    decreases n,
{
    n <= 0 || (dashless_to(s, n - 1) && !(s[n - 1] == '>' && s[n] == '-'))
}

proof fn lemma_dashless(s: Seq<char>, n: int, i: int)
    requires
        dashless_to(s, n),
        0 <= i < n,
    ensures
        !(s[i] == '>' && s[i + 1] == '-'),
    decreases n,
{
    if i < n - 1 {
        lemma_dashless(s, n - 1, i);
    }
}

#[verifier::rlimit(60)]
proof fn lemma_head()
    ensures
        dashless_to(PLIST_HEAD@, PLIST_HEAD@.len() - 1),
        PLIST_HEAD@.len() > 0,
{
    reveal_strlit(
        "<?xml version=\"1.0\" encoding=\"UTF-8\"?>\n<!DOCTYPE plist PUBLIC \"-//Apple//DTD PLIST 1.0//EN\" \"http://www.apple.com/DTDs/PropertyList-1.0.dtd\">\n<plist version=\"1.0\">\n<dict>\n  <key>Label</key>\n  <string>",
    );
    reveal_with_fuel(dashless_to, 60);
    let s = PLIST_HEAD@;
    assert(dashless_to(s, 50));
    assert(dashless_to(s, 100));
    assert(dashless_to(s, 150));
    assert(s.len() == 200);
}

/// Whether the mark of the address stands nowhere before an index.
spec fn unmarked_to(s: Seq<char>, n: int) -> bool {
    forall|i: int| 0 <= i < n ==> !(#[trigger] text::part_at(s, ADDR_MARK@, i))
}

/// What stands where the mark does.
proof fn lemma_mark(s: Seq<char>, i: int)
    requires
        text::part_at(s, ADDR_MARK@, i),
    ensures
        i + 36 <= s.len(),
        s[i] == '<' && s[i + 1] == 's' && s[i + 7] == '>',
        s.subrange(i + 8, i + 14) == "--http"@,
        s[i + 8] == '-' && s[i + 14] == '<',
        ADDR_MARK@.len() == 36,
{
    reveal_strlit("<string>--http</string>\n    <string>");
    reveal_strlit("--http");
    let m = s.subrange(i, i + ADDR_MARK@.len());
    assert(m[0] == s[i] && m[1] == s[i + 1] && m[7] == s[i + 7] && m[8] == s[i + 8] && m[14]
        == s[i + 14]);
    assert(s.subrange(i + 8, i + 14) =~= m.subrange(8, 14));
    assert(m.subrange(8, 14) =~= "--http"@);
}

proof fn lemma_unmarked_behind(a: Seq<char>, b: Seq<char>, n: int)
    requires
        unmarked_to(a + b, a.len() as int),
        unmarked_to(b, n),
    ensures
        unmarked_to(a + b, a.len() + n),
{
    let s = a + b;
    assert forall|i: int| 0 <= i < a.len() + n implies !(#[trigger] text::part_at(
        s,
        ADDR_MARK@,
        i,
    )) by {
        if i >= a.len() && text::part_at(s, ADDR_MARK@, i) {
            let k = i - a.len();
            assert(b.subrange(k, k + ADDR_MARK@.len()) =~= s.subrange(i, i + ADDR_MARK@.len()));
            assert(text::part_at(b, ADDR_MARK@, k));
        }
    }
}

/// An argument other than `--http` holds no mark.
proof fn lemma_argument(x: Seq<char>, rest: Seq<char>)
    requires
        x != "--http"@,
    ensures
        unmarked_to(service::argument(x) + rest, service::argument(x).len() as int),
{
    reveal_strlit("    <string>");
    reveal_strlit("</string>\n");
    reveal_strlit("--http");
    let e = service::escaped(x);
    let n = e.len() as int;
    let a = service::argument(x);
    let s = a + rest;
    service::law_escaped_text_has_no_markup(x);
    assert(a.len() == 12 + n + 10);
    assert forall|k: int| 0 <= k < n implies s[12 + k] == e[k] && #[trigger] e[k] != '<' by {
        assert(e.contains(e[k]));
    }
    assert forall|k: int| 0 <= k < 10 implies #[trigger] s[12 + n + k] == "</string>\n"@[k] by {}
    assert forall|k: int| 0 <= k < 12 implies #[trigger] s[k] == "    <string>"@[k] by {}
    assert forall|i: int| 0 <= i < a.len() implies !(#[trigger] text::part_at(
        s,
        ADDR_MARK@,
        i,
    )) by {
        if text::part_at(s, ADDR_MARK@, i) {
            lemma_mark(s, i);
            if i < 12 {
                assert(i == 4);
                let h = s.subrange(12, 18);
                assert(h == "--http"@);
                assert(s[18] == '<');
                if n < 6 {
                    assert(s[12 + n + 0int] == '<');
                    assert(h[n] == s[12 + n]);
                } else if n > 6 {
                    assert(s[12int + 6int] == e[6]);
                } else {
                    assert(e =~= h);
                    lemma_plain("--http"@);
                    service::law_escaping_loses_nothing(x, "--http"@);
                }
            } else if i < 12 + n {
                assert(s[12 + (i - 12)] == e[i - 12]);
            } else {
                let k = i - 12 - n;
                assert(s[12 + n + k] == "</string>\n"@[k]);
                assert(k == 0);
                assert(s[12 + n + 1] == '/');
            }
            assert(false);
        }
    }
}

/// A text without a character that means something in XML stands for itself.
proof fn lemma_plain(s: Seq<char>)
    requires
        !s.contains('&') && !s.contains('<') && !s.contains('>'),
    ensures
        service::escaped(s) == s,
{
    service::lemma_replaced_nothing(s, '&', "&amp;"@);
    service::lemma_replaced_nothing(s, '<', "&lt;"@);
    service::lemma_replaced_nothing(s, '>', "&gt;"@);
}

/// What stands before the arguments holds no mark.
proof fn lemma_front(x: Seq<char>, rest: Seq<char>)
    ensures
        ({
            let front = PLIST_HEAD@ + HTTP_LABEL@ + PLIST_ARGUMENTS@;
            unmarked_to(front + (service::argument(x) + rest), front.len() as int)
        }),
{
    reveal_strlit("com.ai-imessage.http");
    reveal_strlit("</string>\n  <key>ProgramArguments</key>\n  <array>\n");
    reveal_strlit("    <string>");
    lemma_head();
    let h = PLIST_HEAD@;
    let l = HTTP_LABEL@;
    let r = PLIST_ARGUMENTS@;
    let front = h + l + r;
    let s = front + (service::argument(x) + rest);
    assert forall|i: int| 0 <= i < front.len() implies !(#[trigger] text::part_at(
        s,
        ADDR_MARK@,
        i,
    )) by {
        if text::part_at(s, ADDR_MARK@, i) {
            lemma_mark(s, i);
            let k = i + 7;
            assert(s[k] == '>' && s[k + 1] == '-');
            if k < h.len() - 1 {
                lemma_dashless(h, h.len() - 1, k);
                assert(s[k] == h[k] && s[k + 1] == h[k + 1]);
            } else if k < h.len() {
                assert(s[k + 1] == l[0]);
            } else if k < h.len() + l.len() {
                assert(s[k] == l[k - h.len()]);
            } else if k < front.len() {
                reveal_with_fuel(dashless_to, 60);
                let j = k - h.len() - l.len();
                assert(s[k] == r[j]);
                if j < r.len() - 1 {
                    assert(s[k + 1] == r[j + 1]);
                    assert(dashless_to(r, r.len() - 1));
                    lemma_dashless(r, r.len() - 1, j);
                }
            } else {
                assert(s[k] == service::argument(x)[k - front.len()]);
                assert(s[k] == "    <string>"@[k - front.len()]);
            }
            assert(false);
        }
    }
}

proof fn lemma_found(s: Seq<char>, part: Seq<char>, from: int, n: int)
    requires
        0 <= from <= n,
        forall|i: int| from <= i < n ==> !(#[trigger] text::part_at(s, part, i)),
        text::part_at(s, part, n),
    ensures
        text::found_from(s, part, from) == Some(n),
    decreases n - from,
{
    if from < n {
        lemma_found(s, part, from + 1, n);
    }
}

/// What stands behind the mark, up to the end of the element, is the address.
proof fn lemma_behind_mark(addr: Seq<char>, rest: Seq<char>)
    ensures
        ({
            let s = service::argument("--http"@) + (service::argument(addr) + rest);
            &&& text::part_at(s, ADDR_MARK@, 4)
            &&& text::until(s.skip(4int + ADDR_MARK@.len()), seq!['<']) == service::escaped(addr)
        }),
{
    reveal_strlit("<string>--http</string>\n    <string>");
    reveal_strlit("    <string>");
    reveal_strlit("</string>\n");
    reveal_strlit("--http");
    let e = service::escaped(addr);
    let close = "</string>\n"@;
    let s = service::argument("--http"@) + (service::argument(addr) + rest);
    lemma_plain("--http"@);
    assert(s.subrange(4, 40) =~= ADDR_MARK@);
    let tail = close + rest;
    assert(s.skip(40) =~= e + tail);
    service::law_escaped_text_has_no_markup(addr);
    let stops = seq!['<'];
    assert forall|i: int| 0 <= i < e.len() implies !stops.contains(#[trigger] e[i]) by {
        assert(e.contains(e[i]));
    }
    text::lemma_run_until_concat(e, tail, stops);
    assert(tail[0] == '<' && stops[0] == '<');
    assert(stops.contains(tail[0]));
    assert((e + tail).take(e.len() as int) =~= e);
}

/// What stands behind the arguments of the HTTP agent.
spec fn behind_arguments(log: Seq<char>) -> Seq<char> {
    "  </array>\n"@ + KEEP_ALIVE@ + PLIST_TAIL@ + service::escaped(log)
        + "</string>\n  <key>StandardErrorPath</key>\n  <string>"@ + service::escaped(log)
        + "</string>\n</dict>\n</plist>\n"@
}

proof fn lemma_layout(
    binary: Seq<char>,
    addr: Seq<char>,
    log: Seq<char>,
    explicit_config: Option<Seq<char>>,
)
    ensures
        service::http_plist(binary, addr, log, explicit_config) == PLIST_HEAD@ + HTTP_LABEL@
            + PLIST_ARGUMENTS@ + (service::invocation(binary, explicit_config)
            + service::argument("serve"@) + service::argument("--http"@) + service::argument(addr)
            + behind_arguments(log)),
{
    let arguments = service::invocation(binary, explicit_config) + service::argument("serve"@)
        + service::argument("--http"@) + service::argument(addr);
    let front = PLIST_HEAD@ + HTTP_LABEL@ + PLIST_ARGUMENTS@;
    let e = service::escaped(log);
    lemma_seven(
        front + arguments,
        "  </array>\n"@,
        KEEP_ALIVE@,
        PLIST_TAIL@,
        e,
        "</string>\n  <key>StandardErrorPath</key>\n  <string>"@,
        e,
        "</string>\n</dict>\n</plist>\n"@,
    );
    assert(front + arguments + behind_arguments(log) =~= front + (arguments + behind_arguments(
        log,
    )));
}

proof fn lemma_seven(
    s: Seq<char>,
    a: Seq<char>,
    b: Seq<char>,
    c: Seq<char>,
    d: Seq<char>,
    e: Seq<char>,
    f: Seq<char>,
    g: Seq<char>,
)
    ensures
        s + a + b + c + d + e + f + g == s + (a + b + c + d + e + f + g),
{
    assert(s + a + b =~= s + (a + b));
    assert(s + (a + b) + c =~= s + (a + b + c));
    assert(s + (a + b + c) + d =~= s + (a + b + c + d));
    assert(s + (a + b + c + d) + e =~= s + (a + b + c + d + e));
    assert(s + (a + b + c + d + e) + f =~= s + (a + b + c + d + e + f));
    assert(s + (a + b + c + d + e + f) + g =~= s + (a + b + c + d + e + f + g));
}

proof fn lemma_four(a: Seq<char>, b: Seq<char>, c: Seq<char>, d: Seq<char>, e: Seq<char>)
    ensures
        a + b + c + d + e == a + (b + (c + (d + e))),
{
    assert(a + b + c + d + e =~= a + b + c + (d + e));
    assert(a + b + c + (d + e) =~= a + b + (c + (d + e)));
    assert(a + b + (c + (d + e)) =~= a + (b + (c + (d + e))));
}

proof fn lemma_six(
    a: Seq<char>,
    b: Seq<char>,
    c: Seq<char>,
    d: Seq<char>,
    e: Seq<char>,
    f: Seq<char>,
    g: Seq<char>,
)
    ensures
        a + b + c + d + e + f + g == a + (b + (c + (d + (e + (f + g))))),
{
    lemma_four(a + b + c, d, e, f, g);
    let x = d + (e + (f + g));
    assert(a + b + c + x =~= a + b + (c + x));
    assert(a + b + (c + x) =~= a + (b + (c + x)));
}

/// The installed address is read back: what is read from the plist of the HTTP
/// agent is the address it was written with, as XML spells it, and that is the
/// address itself where no character of it means something in XML. (A binary or
/// a configuration file named `--http` would be taken for the option.)
#[verifier::spinoff_prover]
#[verifier::rlimit(60)]
pub proof fn law_installed_address_is_read_back(
    binary: Seq<char>,
    addr: Seq<char>,
    log: Seq<char>,
    explicit_config: Option<Seq<char>>,
)
    requires
        binary != "--http"@,
        explicit_config != Some("--http"@),
    ensures
        ({
            let read = service::addr_in(service::http_plist(binary, addr, log, explicit_config));
            &&& read == Some(service::escaped(addr))
            &&& !addr.contains('&') && !addr.contains('<') && !addr.contains('>') ==> read == Some(
                addr,
            )
        }),
{
    reveal_strlit("--config");
    reveal_strlit("--http");
    reveal_strlit("serve");
    let s = service::http_plist(binary, addr, log, explicit_config);
    let front = PLIST_HEAD@ + HTTP_LABEL@ + PLIST_ARGUMENTS@;
    let b = service::argument(binary);
    let serve = service::argument("serve"@);
    let option = service::argument("--http"@);
    let a = service::argument(addr);
    let rest = behind_arguments(log);
    let tail = option + (a + rest);
    lemma_argument("serve"@, tail);
    lemma_behind_mark(addr, rest);
    lemma_indent("--http"@, a + rest);
    lemma_unmarked_behind(serve, tail, 4);
    let after_binary = match explicit_config {
        Some(cfg) => {
            let c = service::argument(cfg);
            let o = service::argument("--config"@);
            lemma_argument(cfg, serve + tail);
            lemma_unmarked_behind(c, serve + tail, serve.len() + 4int);
            lemma_argument("--config"@, c + (serve + tail));
            lemma_unmarked_behind(o, c + (serve + tail), c.len() + serve.len() + 4int);
            o + (c + (serve + tail))
        },
        None => serve + tail,
    };
    let n = after_binary.len() - tail.len() + 4;
    lemma_argument(binary, after_binary);
    lemma_unmarked_behind(b, after_binary, n);
    lemma_front(binary, after_binary);
    lemma_unmarked_behind(front, b + after_binary, b.len() + n);
    lemma_layout(binary, addr, log, explicit_config);
    match explicit_config {
        Some(cfg) => {
            lemma_six(
                b,
                service::argument("--config"@),
                service::argument(cfg),
                serve,
                option,
                a,
                rest,
            );
        },
        None => {
            lemma_four(b, serve, option, a, rest);
        },
    }
    assert(s == front + (b + after_binary));
    let at = front.len() + b.len() + n;
    assert(s.subrange(at, at + ADDR_MARK@.len()) =~= tail.subrange(4, 4int + ADDR_MARK@.len()));
    assert(text::part_at(s, ADDR_MARK@, at));
    lemma_found(s, ADDR_MARK@, 0, at);
    assert(s.skip(at + ADDR_MARK@.len()) =~= tail.skip(4int + ADDR_MARK@.len()));
    if !addr.contains('&') && !addr.contains('<') && !addr.contains('>') {
        lemma_plain(addr);
    }
}

/// Before its element an argument holds no mark.
proof fn lemma_indent(x: Seq<char>, rest: Seq<char>)
    ensures
        unmarked_to(service::argument(x) + rest, 4),
{
    reveal_strlit("    <string>");
    let s = service::argument(x) + rest;
    assert forall|i: int| 0 <= i < 4 implies !(#[trigger] text::part_at(s, ADDR_MARK@, i)) by {
        if text::part_at(s, ADDR_MARK@, i) {
            lemma_mark(s, i);
            assert(s[i] == "    <string>"@[i]);
        }
    }
}

} // verus!
