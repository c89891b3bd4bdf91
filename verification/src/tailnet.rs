//! Best-effort Tailscale detection: where this machine's MCP server can be
//! reached on a tailnet, as far as the command line tool reports it.
use crate::json;
use crate::json::{as_str, get, read, str_at, Level, LevelView};
use crate::lists;
use crate::text;
use crate::text::{as_deref, chars_of, split_at_last, str_eq, substring, trim_end_char};
use vstd::prelude::*;
use vstd::string::*;

verus! {

/// A running tailnet node, as reported by `tailscale status`.
#[derive(Debug, Clone, PartialEq, Eq)]
pub struct TailnetInfo {
    /// MagicDNS name without the trailing dot, e.g. `mac.tail1234.ts.net`.
    pub dns_name: String,
    pub ips: Vec<String>,
}

/// The strings among some JSON texts.
pub open spec fn strings(values: Seq<Seq<char>>) -> Seq<Seq<char>>
    decreases values.len(),
{
    if values.len() == 0 {
        Seq::empty()
    } else {
        match json::string_of(values.last()) {
            Some(s) => strings(values.drop_last()).push(s),
            None => strings(values.drop_last()),
        }
    }
}

/// The addresses of a node.
pub open spec fn addresses(node: Seq<char>) -> Seq<Seq<char>> {
    match json::member(node, "TailscaleIPs"@) {
        Some(v) => match json::reading(v) {
            Ok(LevelView::Array(a)) => strings(a),
            _ => Seq::empty(),
        },
        None => Seq::empty(),
    }
}

/// The node that a report describes: none unless the backend runs and the
/// node has a name.
pub open spec fn node_name(state: Option<Seq<char>>, dns_name: Option<Seq<char>>) -> Option<
    Seq<char>,
> {
    match dns_name {
        Some(name) => if state == Some("Running"@) && text::without_trailing(name, '.').len() > 0 {
            Some(text::without_trailing(name, '.'))
        } else {
            None
        },
        None => None,
    }
}

/// The name of a node, given the state of the backend and what the node
/// reports as its name: none unless the backend runs.
pub fn running_node(state: Option<&str>, dns_name: Option<&str>) -> (r: Option<String>)
    ensures
        text::opt_view(r) == node_name(text::opt_str(state), text::opt_str(dns_name)),
{
    match state {
        Some(state) => {
            if !str_eq(state, "Running") {
                return None;
            }
        },
        None => {
            return None;
        },
    }
    match dns_name {
        Some(name) => {
            let name = trim_end_char(name, '.');
            if name.as_str().is_empty() {
                None
            } else {
                Some(name)
            }
        },
        None => None,
    }
}

/// The node name that a status holds.
pub open spec fn reported_name(status: Seq<char>) -> Option<Seq<char>> {
    match json::member(status, "Self"@) {
        Some(node) => json::string_at(node, "DNSName"@),
        None => None,
    }
}

/// The node addresses that a status holds.
pub open spec fn reported_addresses(status: Seq<char>) -> Seq<Seq<char>> {
    match json::member(status, "Self"@) {
        Some(node) => addresses(node),
        None => Seq::empty(),
    }
}

/// The name of the running node that a status reports.
pub open spec fn status_name(status: Seq<char>) -> Option<Seq<char>> {
    node_name(json::string_at(status, "BackendState"@), reported_name(status))
}

fn strings_of(values: &Vec<String>) -> (r: Vec<String>)
    ensures
        text::views(r@) == strings(text::views(values@)),
{
    let ghost all = text::views(values@);
    let mut r: Vec<String> = Vec::new();
    let mut i: usize = 0;
    proof {
        assert(text::views(r@) =~= strings(all.take(0)));
    }
    while i < values.len()
        invariant
            i <= values@.len(),
            all == text::views(values@),
            text::views(r@) == strings(all.take(i as int)),
        decreases values@.len() - i,
    {
        proof {
            assert(all[i as int] == values@[i as int]@);
            assert(all.take(i + 1).drop_last() =~= all.take(i as int));
        }
        let ghost before = text::views(r@);
        match as_str(values[i].as_str()) {
            Some(s) => {
                let ghost shown = s@;
                r.push(s);
                proof {
                    assert(text::views(r@) =~= before.push(shown));
                }
            },
            None => {},
        }
        i = i + 1;
    }
    proof {
        assert(all.take(i as int) =~= all);
    }
    r
}

/// Node info from `tailscale status --json`, only when the backend runs.
pub fn parse_status(status: &str) -> (r: Option<TailnetInfo>)
    ensures
        r is Some <==> status_name(status@) is Some,
        r matches Some(info) ==> {
            &&& status_name(status@) == Some(info.dns_name@)
            &&& text::views(info.ips@) == reported_addresses(status@)
        },
{
    let state = str_at(status, "BackendState");
    let mut name: Option<String> = None;
    let mut ips: Vec<String> = Vec::new();
    proof {
        assert(text::views(ips@) =~= Seq::<Seq<char>>::empty());
    }
    match get(status, "Self") {
        Some(node) => {
            name = str_at(node.as_str(), "DNSName");
            match get(node.as_str(), "TailscaleIPs") {
                Some(v) => match read(v.as_str()) {
                    Ok(Level::Array(a)) => {
                        ips = strings_of(&a);
                    },
                    _ => {},
                },
                None => {},
            }
        },
        None => {},
    }
    match running_node(as_deref(&state), as_deref(&name)) {
        Some(dns_name) => Some(TailnetInfo { dns_name, ips }),
        None => None,
    }
}

/// One site of a serve configuration: its host and port, and for each mount
/// what it proxies to, if anything.
#[derive(Debug, Clone, PartialEq, Eq)]
pub struct Site {
    pub host_port: String,
    pub mounts: Vec<(String, Option<String>)>,
}

/// The contents of a [`Site`].
pub struct SiteView {
    pub host_port: Seq<char>,
    pub mounts: Seq<(Seq<char>, Option<Seq<char>>)>,
}

impl View for Site {
    type V = SiteView;

    open spec fn view(&self) -> SiteView {
        SiteView { host_port: self.host_port@, mounts: mount_views(self.mounts@) }
    }
}

/// The contents of a list of mounts.
pub open spec fn mount_views(m: Seq<(String, Option<String>)>) -> Seq<
    (Seq<char>, Option<Seq<char>>),
> {
    m.map_values(|m: (String, Option<String>)| (m.0@, text::opt_view(m.1)))
}

/// The contents of a list of sites.
pub open spec fn site_views(s: Seq<Site>) -> Seq<SiteView> {
    s.map_values(|s: Site| s@)
}

/// The condition that a mount proxies to a target.
pub open spec fn proxies_to(target: Seq<char>) -> spec_fn((Seq<char>, Option<Seq<char>>)) -> bool {
    |m: (Seq<char>, Option<Seq<char>>)| m.1 == Some(target)
}

/// The URL of the first site and its first mount that proxy to a target.
pub open spec fn site_for(sites: Seq<SiteView>, target: Seq<char>) -> Option<Seq<char>>
    decreases sites.len(),
{
    if sites.len() == 0 {
        None
    } else {
        match lists::first_index(sites[0].mounts, proxies_to(target)) {
            Some(i) => Some(
                "https://"@ + sites[0].host_port + text::without_trailing(
                    sites[0].mounts[i].0,
                    '/',
                ),
            ),
            None => site_for(sites.drop_first(), target),
        }
    }
}

fn find_mount(mounts: &Vec<(String, Option<String>)>, target: &str) -> (r: Option<usize>)
    ensures
        r is Some <==> lists::first_index(mount_views(mounts@), proxies_to(target@)) is Some,
        r matches Some(i) ==> i < mounts@.len() && lists::first_index(
            mount_views(mounts@),
            proxies_to(target@),
        ) == Some(i as int),
{
    let ghost all = mount_views(mounts@);
    let ghost p = proxies_to(target@);
    let mut i: usize = 0;
    while i < mounts.len()
        invariant
            i <= mounts@.len(),
            all == mount_views(mounts@),
            p == proxies_to(target@),
            forall|j: int| 0 <= j < i ==> !p(#[trigger] all[j]),
        decreases mounts@.len() - i,
    {
        assert(all[i as int] == (mounts@[i as int].0@, text::opt_view(mounts@[i as int].1)));
        match &mounts[i].1 {
            Some(proxy) => {
                if str_eq(proxy.as_str(), target) {
                    proof {
                        lists::lemma_is_first_index(all, p, i as int);
                    }
                    return Some(i);
                }
            },
            None => {},
        }
        i = i + 1;
    }
    proof {
        lists::lemma_no_first_index(all, p);
    }
    None
}

/// The `https://host:port` of the site that proxies to a target, with the
/// mount behind it unless that is the root.
pub fn find_proxy(sites: &Vec<Site>, target: &str) -> (r: Option<String>)
    ensures
        text::opt_view(r) == site_for(site_views(sites@), target@),
{
    let ghost all = site_views(sites@);
    let mut i: usize = 0;
    proof {
        assert(all.skip(0) =~= all);
    }
    while i < sites.len()
        invariant
            i <= sites@.len(),
            all == site_views(sites@),
            site_for(all, target@) == site_for(all.skip(i as int), target@),
        decreases sites@.len() - i,
    {
        proof {
            assert(all[i as int] == sites@[i as int]@);
            assert(all.skip(i as int)[0] == all[i as int]);
            assert(all.skip(i as int).drop_first() =~= all.skip(i + 1));
        }
        match find_mount(&sites[i].mounts, target) {
            Some(k) => {
                let mut url = "https://".to_owned();
                url.append(sites[i].host_port.as_str());
                url.append(trim_end_char(sites[i].mounts[k].0.as_str(), '/').as_str());
                proof {
                    assert(mount_views(sites@[i as int].mounts@)[k as int].0
                        == sites@[i as int].mounts@[k as int].0@);
                }
                return Some(url);
            },
            None => {},
        }
        i = i + 1;
    }
    None
}

/// The mounts that the handlers of a site describe.
pub open spec fn mounts_of(site: Seq<char>) -> Seq<(Seq<char>, Option<Seq<char>>)> {
    match json::member(site, "Handlers"@) {
        Some(h) => match json::members_of(json::reading(h)) {
            Some(o) => o.map_values(
                |m: (Seq<char>, Seq<char>)| (m.0, json::string_at(m.1, "Proxy"@)),
            ),
            None => Seq::empty(),
        },
        None => Seq::empty(),
    }
}

/// The sites that a serve configuration describes.
pub open spec fn sites_of(serve: Seq<char>) -> Seq<SiteView> {
    match json::member(serve, "Web"@) {
        Some(web) => match json::members_of(json::reading(web)) {
            Some(o) => o.map_values(
                |m: (Seq<char>, Seq<char>)|
                    SiteView { host_port: m.0, mounts: mounts_of(m.1) },
            ),
            None => Seq::empty(),
        },
        None => Seq::empty(),
    }
}

/// The URL that a serve configuration has for a backend.
pub open spec fn proxy_url(serve: Seq<char>, backend_addr: Seq<char>) -> Option<Seq<char>> {
    site_for(sites_of(serve), "http://"@ + backend_addr)
}

fn read_mounts(site: &str) -> (r: Vec<(String, Option<String>)>)
    ensures
        mount_views(r@) == mounts_of(site@),
{
    let mut r: Vec<(String, Option<String>)> = Vec::new();
    proof {
        assert(mount_views(r@) =~= Seq::<(Seq<char>, Option<Seq<char>>)>::empty());
    }
    let handlers = match get(site, "Handlers") {
        Some(h) => match read(h.as_str()) {
            Ok(Level::Object(handlers)) => handlers,
            _ => {
                return r;
            },
        },
        None => {
            return r;
        },
    };
    let ghost all = json::member_views(handlers@);
    let ghost want = mounts_of(site@);
    let mut i: usize = 0;
    proof {
        assert(mount_views(r@) =~= want.take(0));
    }
    while i < handlers.len()
        invariant
            i <= handlers@.len(),
            all == json::member_views(handlers@),
            want == all.map_values(
                |m: (Seq<char>, Seq<char>)| (m.0, json::string_at(m.1, "Proxy"@)),
            ),
            mount_views(r@) == want.take(i as int),
        decreases handlers@.len() - i,
    {
        let m = (handlers[i].0.clone(), str_at(handlers[i].1.as_str(), "Proxy"));
        let ghost before = mount_views(r@);
        let ghost shown = (m.0@, text::opt_view(m.1));
        r.push(m);
        proof {
            assert(all[i as int] == (handlers@[i as int].0@, handlers@[i as int].1@));
            assert(want[i as int] == shown);
            assert(mount_views(r@) =~= before.push(shown));
            assert(want.take(i + 1) =~= want.take(i as int).push(want[i as int]));
        }
        i = i + 1;
    }
    proof {
        assert(want.take(i as int) =~= want);
    }
    r
}

fn read_sites(serve: &str) -> (r: Vec<Site>)
    ensures
        site_views(r@) == sites_of(serve@),
{
    let mut r: Vec<Site> = Vec::new();
    proof {
        assert(site_views(r@) =~= Seq::<SiteView>::empty());
    }
    let sites = match get(serve, "Web") {
        Some(web) => match read(web.as_str()) {
            Ok(Level::Object(sites)) => sites,
            _ => {
                return r;
            },
        },
        None => {
            return r;
        },
    };
    let ghost all = json::member_views(sites@);
    let ghost want = sites_of(serve@);
    let mut i: usize = 0;
    proof {
        assert(site_views(r@) =~= want.take(0));
    }
    while i < sites.len()
        invariant
            i <= sites@.len(),
            all == json::member_views(sites@),
            want == all.map_values(
                |m: (Seq<char>, Seq<char>)|
                    SiteView { host_port: m.0, mounts: mounts_of(m.1) },
            ),
            site_views(r@) == want.take(i as int),
        decreases sites@.len() - i,
    {
        let s = Site { host_port: sites[i].0.clone(), mounts: read_mounts(sites[i].1.as_str()) };
        let ghost before = site_views(r@);
        let ghost shown = s@;
        r.push(s);
        proof {
            assert(all[i as int] == (sites@[i as int].0@, sites@[i as int].1@));
            assert(want[i as int] == shown);
            assert(site_views(r@) =~= before.push(shown));
            assert(want.take(i + 1) =~= want.take(i as int).push(want[i as int]));
        }
        i = i + 1;
    }
    proof {
        assert(want.take(i as int) =~= want);
    }
    r
}

/// The `https://host:port` that proxies to `http://backend_addr`, from
/// `tailscale serve status --json`.
pub fn parse_serve_proxy(serve: &str, backend_addr: &str) -> (r: Option<String>)
    ensures
        text::opt_view(r) == proxy_url(serve@, backend_addr@),
{
    let sites = read_sites(serve);
    let mut target = "http://".to_owned();
    target.append(backend_addr);
    find_proxy(&sites, target.as_str())
}

/// A host without the brackets that an IPv6 address stands in.
pub open spec fn unbracketed(host: Seq<char>) -> Seq<char> {
    if host.len() >= 2 && host[0] == '[' && host.last() == ']' {
        host.subrange(1, host.len() - 1)
    } else {
        host
    }
}

/// Whether a server bound to a host answers on the tailnet: the host is the
/// unspecified address of either family or one of the node's addresses.
pub open spec fn answers_on(host: Seq<char>, ips: Seq<Seq<char>>) -> bool {
    ||| host == "0.0.0.0"@
    ||| host == "[::]"@
    ||| ips.contains(host)
    ||| ips.contains(unbracketed(host))
}

/// The URL of a server at an address on a node: through a proxy (HTTPS), or
/// because the server is bound to a tailnet or unspecified address (HTTP).
pub open spec fn node_url(
    backend_addr: Seq<char>,
    name: Seq<char>,
    ips: Seq<Seq<char>>,
    proxy: Option<Seq<char>>,
) -> Option<Seq<char>> {
    match proxy {
        Some(base) => Some(base + "/mcp"@),
        None => match text::last_index(backend_addr, ':') {
            Some(i) => {
                if answers_on(backend_addr.take(i), ips) {
                    Some("http://"@ + name + ":"@ + backend_addr.skip(i + 1) + "/mcp"@)
                } else {
                    None
                }
            },
            None => None,
        },
    }
}

/// The tailnet URL where the MCP server at an address is reachable, given
/// what the tool reported.
pub open spec fn tailnet_url(
    backend_addr: Seq<char>,
    status: Option<Seq<char>>,
    serve: Option<Seq<char>>,
) -> Option<Seq<char>> {
    match (status, serve) {
        (Some(status), Some(serve)) => match status_name(status) {
            Some(name) => node_url(
                backend_addr,
                name,
                reported_addresses(status),
                proxy_url(serve, backend_addr),
            ),
            None => None,
        },
        _ => None,
    }
}

fn holds(list: &Vec<String>, s: &str) -> (r: bool)
    ensures
        r == text::views(list@).contains(s@),
{
    let ghost all = text::views(list@);
    let mut i: usize = 0;
    while i < list.len()
        invariant
            i <= list@.len(),
            all == text::views(list@),
            forall|j: int| 0 <= j < i ==> all[j] != s@,
        decreases list@.len() - i,
    {
        assert(all[i as int] == list@[i as int]@);
        if str_eq(list[i].as_str(), s) {
            return true;
        }
        i = i + 1;
    }
    false
}

fn without_brackets(host: &str) -> (r: String)
    ensures
        r@ == unbracketed(host@),
{
    let chars = chars_of(host);
    let n: usize = chars.len();
    if n >= 2 && chars[0] == '[' && chars[n - 1] == ']' {
        substring(&chars, 1, n - 1)
    } else {
        host.to_owned()
    }
}

fn answers(host: &str, ips: &Vec<String>) -> (r: bool)
    ensures
        r == answers_on(host@, text::views(ips@)),
{
    str_eq(host, "0.0.0.0") || str_eq(host, "[::]") || holds(ips, host) || holds(
        ips,
        without_brackets(host).as_str(),
    )
}

/// The URL of a server at an address on a node, given the proxy that fronts
/// it, if any.
pub fn url_on(info: &TailnetInfo, backend_addr: &str, proxy: Option<String>) -> (r: Option<String>)
    ensures
        text::opt_view(r) == node_url(
            backend_addr@,
            info.dns_name@,
            text::views(info.ips@),
            text::opt_view(proxy),
        ),
{
    match proxy {
        Some(base) => {
            let mut url = base;
            url.append("/mcp");
            return Some(url);
        },
        None => {},
    }
    match split_at_last(backend_addr, ':') {
        Some((host, port)) => {
            if answers(host.as_str(), &info.ips) {
                let mut url = "http://".to_owned();
                url.append(info.dns_name.as_str());
                url.append(":");
                url.append(port.as_str());
                url.append("/mcp");
                Some(url)
            } else {
                None
            }
        },
        None => None,
    }
}

/// The tailnet URL, if any, where the MCP server at `backend_addr` is
/// reachable. `status` and `serve` are what `tailscale status --json` and
/// `tailscale serve status --json` printed, where they could be run.
pub fn mcp_url_for(backend_addr: &str, status: Option<&str>, serve: Option<&str>) -> (r: Option<
    String,
>)
    ensures
        text::opt_view(r) == tailnet_url(
            backend_addr@,
            text::opt_str(status),
            text::opt_str(serve),
        ),
{
    match (status, serve) {
        (Some(status), Some(serve)) => match parse_status(status) {
            Some(info) => url_on(&info, backend_addr, parse_serve_proxy(serve, backend_addr)),
            None => None,
        },
        _ => None,
    }
}

/// No tailnet URL without a running backend.
pub proof fn law_no_url_unless_running(
    backend_addr: Seq<char>,
    status: Option<Seq<char>>,
    serve: Option<Seq<char>>,
)
    requires
        tailnet_url(backend_addr, status, serve) is Some,
    ensures
        status is Some,
        json::string_at(status->0, "BackendState"@) == Some("Running"@),
{
}

/// Where a proxy fronts a target: the site `i` and its mount `k` are the first
/// that proxy to it. The URL is that of the site and the mount, over HTTPS, without
/// the slashes at its end.
pub proof fn law_which_site_fronts_a_target(
    sites: Seq<SiteView>,
    target: Seq<char>,
    i: int,
    k: int,
)
    requires
        0 <= i < sites.len(),
        0 <= k < sites[i].mounts.len(),
        sites[i].mounts[k].1 == Some(target),
        forall|a: int| 0 <= a < k ==> (#[trigger] sites[i].mounts[a]).1 != Some(target),
        forall|a: int, b: int|
            0 <= a < i && 0 <= b < sites[a].mounts.len() ==> (#[trigger] sites[a].mounts[b]).1
                != Some(target),
    ensures
        site_for(sites, target) == Some(
            "https://"@ + sites[i].host_port + text::without_trailing(sites[i].mounts[k].0, '/'),
        ),
    decreases sites.len(),
{
    let p = proxies_to(target);
    if i == 0 {
        lists::lemma_is_first_index(sites[0].mounts, p, k);
    } else {
        assert forall|b: int| 0 <= b < sites[0].mounts.len() implies !p(
            #[trigger] sites[0].mounts[b],
        ) by {}
        lists::lemma_no_first_index(sites[0].mounts, p);
        let rest = sites.drop_first();
        assert forall|a: int, b: int|
            0 <= a < i - 1 && 0 <= b < rest[a].mounts.len() implies (
        #[trigger] rest[a].mounts[b]).1 != Some(target) by {
            assert(rest[a] == sites[a + 1]);
            assert(sites[a + 1].mounts[b].1 != Some(target));
        }
        assert(rest[i - 1] == sites[i]);
        law_which_site_fronts_a_target(rest, target, i - 1, k);
    }
}

/// No proxy fronts a target to which no mount proxies.
pub proof fn law_no_site_without_a_mount(sites: Seq<SiteView>, target: Seq<char>)
    requires
        forall|a: int, b: int|
            0 <= a < sites.len() && 0 <= b < sites[a].mounts.len() ==> (
            #[trigger] sites[a].mounts[b]).1 != Some(target),
    ensures
        site_for(sites, target) is None,
    decreases sites.len(),
{
    if sites.len() > 0 {
        let p = proxies_to(target);
        assert forall|b: int| 0 <= b < sites[0].mounts.len() implies !p(
            #[trigger] sites[0].mounts[b],
        ) by {}
        lists::lemma_no_first_index(sites[0].mounts, p);
        let rest = sites.drop_first();
        assert forall|a: int, b: int|
            0 <= a < rest.len() && 0 <= b < rest[a].mounts.len() implies (
        #[trigger] rest[a].mounts[b]).1 != Some(target) by {
            assert(rest[a] == sites[a + 1]);
            assert(sites[a + 1].mounts[b].1 != Some(target));
        }
        law_no_site_without_a_mount(rest, target);
    }
}

/// At which URL a server is reached. One that a proxy fronts is reached through it.
/// Any other is reached over HTTP at the node's name and its own port, where it is
/// bound to every address, of either family, or to one of the node's, in brackets
/// or not; and not at all where it is bound to another.
pub proof fn law_where_a_server_is_reached(
    host: Seq<char>,
    port: Seq<char>,
    name: Seq<char>,
    ips: Seq<Seq<char>>,
    proxy: Option<Seq<char>>,
)
    requires
        !port.contains(':'),
    ensures
        ({
            let url = node_url(host + seq![':'] + port, name, ips, proxy);
            let bound = host == "0.0.0.0"@ || host == "[::]"@ || exists|i: int|
                0 <= i < ips.len() && (host == #[trigger] ips[i] || host == seq!['['] + ips[i]
                    + seq![']']);
            &&& proxy is Some ==> url == Some(proxy->0 + "/mcp"@)
            &&& proxy is None && bound ==> url == Some(
                "http://"@ + name + ":"@ + port + "/mcp"@,
            )
            &&& proxy is None && !bound ==> url is None
        }),
{
    let addr = host + seq![':'] + port;
    text::lemma_last_index_concat(host, ':', port);
    text::lemma_last_index(port, ':');
    assert(addr.take(host.len() as int) =~= host);
    assert(addr.skip(host.len() as int + 1) =~= port);
    let inner = unbracketed(host);
    if ips.contains(inner) {
        let i = choose|i: int| 0 <= i < ips.len() && ips[i] == inner;
        if inner != host {
            assert(host =~= seq!['['] + ips[i] + seq![']']);
        }
    }
    if ips.contains(host) {
        let i = choose|i: int| 0 <= i < ips.len() && ips[i] == host;
        assert(host == ips[i]);
    }
    if exists|i: int|
        0 <= i < ips.len() && (host == #[trigger] ips[i] || host == seq!['['] + ips[i] + seq![
            ']',
        ]) {
        let i = choose|i: int|
            0 <= i < ips.len() && (host == #[trigger] ips[i] || host == seq!['['] + ips[i] + seq![
                ']',
            ]);
        if host == seq!['['] + ips[i] + seq![']'] {
            assert(host[0] == '[' && host.last() == ']');
            assert(inner =~= ips[i]);
        }
        assert(ips.contains(ips[i]));
    }
}

/// What a node is called: what it reports, without the dots at the end; nothing
/// unless the backend runs and something is left.
pub proof fn law_what_a_node_is_called(state: Option<Seq<char>>, reported: Seq<char>, n: int)
    requires
        0 <= n <= reported.len(),
        forall|i: int| n <= i < reported.len() ==> (#[trigger] reported[i]) == '.',
        n > 0 ==> reported[n - 1] != '.',
    ensures
        node_name(state, None) is None,
        node_name(state, Some(reported)) == (if state == Some("Running"@) && n > 0 {
            Some(reported.take(n))
        } else {
            None
        }),
{
    lemma_without_dots(reported, n);
}

proof fn lemma_without_dots(s: Seq<char>, n: int)
    requires
        0 <= n <= s.len(),
        forall|i: int| n <= i < s.len() ==> (#[trigger] s[i]) == '.',
        n > 0 ==> s[n - 1] != '.',
    ensures
        text::without_trailing(s, '.') == s.take(n),
    decreases s.len(),
{
    if s.len() > n {
        let f = s.drop_last();
        assert(s[s.len() - 1] == '.');
        assert forall|i: int| n <= i < f.len() implies (#[trigger] f[i]) == '.' by {
            assert(f[i] == s[i]);
        }
        lemma_without_dots(f, n);
        assert(f.take(n) =~= s.take(n));
    } else {
        assert(s.take(n) =~= s);
    }
}

/// The addresses of a node are the strings of the list it reports, in their order.
pub proof fn law_addresses_are_the_strings(values: Seq<Seq<char>>, v: Seq<char>)
    ensures
        strings(Seq::empty()) == Seq::<Seq<char>>::empty(),
        strings(values.push(v)) == (match json::reading(v) {
            Ok(LevelView::Text(s)) => strings(values).push(s),
            _ => strings(values),
        }),
{
    assert(values.push(v).drop_last() =~= values);
}

/// Which sites a serve configuration describes: those of its member `Web`, each
/// under its own host and port, in their order.
pub proof fn law_which_sites_are_described(
    serve: Seq<char>,
    o: Seq<(Seq<char>, Seq<char>)>,
    k: int,
    web: Seq<(Seq<char>, Seq<char>)>,
)
    requires
        json::reading(serve) == Ok::<LevelView, Seq<char>>(LevelView::Object(o)),
        0 <= k < o.len(),
        o[k].0 == "Web"@,
        forall|j: int| 0 <= j < k ==> (#[trigger] o[j]).0 != o[k].0,
        json::reading(o[k].1) == Ok::<LevelView, Seq<char>>(LevelView::Object(web)),
    ensures
        sites_of(serve).len() == web.len(),
        forall|i: int|
            0 <= i < web.len() ==> (#[trigger] sites_of(serve)[i]).host_port == web[i].0
                && sites_of(serve)[i].mounts == mounts_of(web[i].1),
{
    json::law_what_is_under_a_key(serve, o, k);
}

/// Which mounts a site has: those of its member `Handlers`, each with the target
/// that it proxies to, where it proxies, in their order.
pub proof fn law_which_mounts_are_described(
    site: Seq<char>,
    o: Seq<(Seq<char>, Seq<char>)>,
    k: int,
    handlers: Seq<(Seq<char>, Seq<char>)>,
)
    requires
        json::reading(site) == Ok::<LevelView, Seq<char>>(LevelView::Object(o)),
        0 <= k < o.len(),
        o[k].0 == "Handlers"@,
        forall|j: int| 0 <= j < k ==> (#[trigger] o[j]).0 != o[k].0,
        json::reading(o[k].1) == Ok::<LevelView, Seq<char>>(LevelView::Object(handlers)),
    ensures
        mounts_of(site).len() == handlers.len(),
        forall|i: int|
            0 <= i < handlers.len() ==> (#[trigger] mounts_of(site)[i]).0 == handlers[i].0
                && mounts_of(site)[i].1 == json::string_at(handlers[i].1, "Proxy"@),
{
    json::law_what_is_under_a_key(site, o, k);
}

/// Where a server is looked for: on the node that the status reports, through the
/// proxy that the serve configuration has for its address over HTTP. Without
/// either report it is not found.
pub proof fn law_where_a_server_is_looked_for(
    addr: Seq<char>,
    status: Option<Seq<char>>,
    serve: Option<Seq<char>>,
)
    ensures
        status is None || serve is None ==> tailnet_url(addr, status, serve) is None,
        status is Some && serve is Some ==> ({
            let node = json::member(status->0, "Self"@);
            let reported = if node is Some {
                json::string_at(node->0, "DNSName"@)
            } else {
                None
            };
            let name = node_name(json::string_at(status->0, "BackendState"@), reported);
            &&& name is None ==> tailnet_url(addr, status, serve) is None
            &&& name is Some ==> tailnet_url(addr, status, serve) == node_url(
                addr,
                name->0,
                if node is Some {
                    addresses(node->0)
                } else {
                    Seq::empty()
                },
                site_for(sites_of(serve->0), "http://"@ + addr),
            )
        }),
{
}

} // verus!
