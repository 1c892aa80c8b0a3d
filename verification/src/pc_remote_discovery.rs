//! Finding the desktop app on the local network and reading its answers:
//! the discovery replies, the merging of what mDNS and UDP found, and the
//! verdicts on connection tests.
use vstd::prelude::*;

use crate::text::{
    all_digits, chars_of, concat, contains_chars, contains_seq, dec_nat, dec_u64, digits_value,
    find_char, first_index_of, lemma_first_index_of, parse_u16, parse_u32_chars, slice_vec,
    sort_dedup_texts, sort_texts, sorted_texts, split_on, split_on_chars, string_of,
    strictly_sorted, text_eq, trim, trim_chars, views,
};

verus! {

/// A desktop app found on the network.
#[derive(Debug, Clone)]
pub struct DiscoveredRemotePc {
    pub name: String,
    /// The IPv4 addresses it may be reached at (one per network card).
    pub hosts: Vec<String>,
    pub port: u16,
}

/// The verdict of a connection test.
#[derive(Debug, Clone)]
pub struct RemotePcConnectionResult {
    pub connected: bool,
    pub message: String,
    pub connected_host: Option<String>,
}

/// One entry of a folder on the desktop.
#[derive(Debug, Clone)]
pub struct RemotePcDirEntry {
    pub name: String,
    pub is_dir: bool,
    pub size: Option<u64>,
}

/// A folder on the desktop and its entries.
#[derive(Debug, Clone)]
pub struct RemotePcBrowseResult {
    pub path: String,
    pub entries: Vec<RemotePcDirEntry>,
}

/// A file under a folder on the desktop.
#[derive(Debug, Clone)]
pub struct RemotePcFileItem {
    pub relative_path: String,
    pub size: u64,
}

/// The remote API version of a desktop app that does not report one.
pub fn default_remote_api_v1() -> (r: u32)
    ensures
        r == 1,
{
    1
}

pub open spec fn string_views(v: Seq<String>) -> Seq<Seq<char>> {
    v.map_values(|s: String| s@)
}

fn to_char_vecs(v: &Vec<String>) -> (r: Vec<Vec<char>>)
    ensures
        views(r@) == string_views(v@),
{
    let mut r: Vec<Vec<char>> = Vec::new();
    let mut i: usize = 0;
    while i < v.len()
        invariant
            i <= v.len(),
            views(r@) == string_views(v@.take(i as int)),
        decreases v.len() - i,
    {
        r.push(chars_of(v[i].as_str()));
        assert(string_views(v@.take(i + 1)) =~= string_views(v@.take(i as int)).push(v@[i as int]@));
        assert(views(r@) =~= views(r@.drop_last()).push(r@.last()@));
        i += 1;
    }
    assert(v@.take(v.len() as int) =~= v@);
    r
}

fn to_strings(v: &Vec<Vec<char>>) -> (r: Vec<String>)
    ensures
        string_views(r@) == views(v@),
{
    let mut r: Vec<String> = Vec::new();
    let mut i: usize = 0;
    while i < v.len()
        invariant
            i <= v.len(),
            string_views(r@) == views(v@.take(i as int)),
        decreases v.len() - i,
    {
        r.push(string_of(&v[i]));
        assert(views(v@.take(i + 1)) =~= views(v@.take(i as int)).push(v@[i as int]@));
        assert(string_views(r@) =~= string_views(r@.drop_last()).push(r@.last()@));
        i += 1;
    }
    assert(v@.take(v.len() as int) =~= v@);
    r
}

// ---------------------------------------------------------------------------
// Merging what the searches found
// ---------------------------------------------------------------------------

/// The hosts of an entry after more hosts of the same app arrive: each new
/// host that is not there yet is added, in the order they arrive.
pub open spec fn with_new_hosts(existing: Seq<Seq<char>>, incoming: Seq<Seq<char>>) -> Seq<Seq<char>>
    decreases incoming.len(),
{
    if incoming.len() == 0 {
        existing
    } else {
        let acc = with_new_hosts(existing, incoming.drop_last());
        if acc.contains(incoming.last()) {
            acc
        } else {
            acc.push(incoming.last())
        }
    }
}

/// Merging hosts keeps every host listed before, in its place, and lists
/// every incoming host: the hosts after are those before together with the
/// incoming ones, and a host is listed once when it was before.
pub proof fn lemma_with_new_hosts_keeps_all(existing: Seq<Seq<char>>, incoming: Seq<Seq<char>>)
    ensures
        existing.is_prefix_of(with_new_hosts(existing, incoming)),
        forall|h: Seq<char>|
            #[trigger] with_new_hosts(existing, incoming).contains(h) <==> existing.contains(h) || incoming.contains(
                h,
            ),
        existing.no_duplicates() ==> with_new_hosts(existing, incoming).no_duplicates(),
    decreases incoming.len(),
{
    if incoming.len() > 0 {
        let d = incoming.drop_last();
        let x = incoming.last();
        lemma_with_new_hosts_keeps_all(existing, d);
        let acc = with_new_hosts(existing, d);
        assert forall|h: Seq<char>| #[trigger] with_new_hosts(existing, incoming).contains(h) <==> existing.contains(h)
            || incoming.contains(h) by {
            if incoming.contains(h) && !d.contains(h) {
                let k = choose|k: int| 0 <= k < incoming.len() && incoming[k] == h;
                if k < d.len() {
                    assert(d[k] == h);
                }
                assert(h == x);
                if !acc.contains(x) {
                    assert(acc.push(x)[acc.len() as int] == x);
                }
            }
            if d.contains(h) {
                let k = choose|k: int| 0 <= k < d.len() && d[k] == h;
                assert(incoming[k] == h);
            }
            if !acc.contains(x) {
                let w = acc.push(x);
                if w.contains(h) {
                    let k = choose|k: int| 0 <= k < w.len() && w[k] == h;
                    if k < acc.len() {
                        assert(acc[k] == h);
                    } else {
                        assert(incoming[incoming.len() - 1] == h);
                    }
                }
                if acc.contains(h) {
                    let k = choose|k: int| 0 <= k < acc.len() && acc[k] == h;
                    assert(w[k] == h);
                }
            }
        }
        if !acc.contains(x) {
            let w = acc.push(x);
            assert(existing.is_prefix_of(w)) by {
                assert forall|i: int| 0 <= i < existing.len() implies w[i] == existing[i] by {
                    assert(acc[i] == existing[i]);
                }
            }
            if existing.no_duplicates() {
                assert forall|i: int, j: int| 0 <= i < j < w.len() implies w[i] != w[j] by {
                    if j == w.len() - 1 {
                        assert(acc.contains(acc[i]));
                    }
                }
            }
        }
    }
}

/// The first entry for the same app name and port.
pub open spec fn same_app_index(found: Seq<DiscoveredRemotePc>, name: Seq<char>, port: u16) -> Option<int> {
    if exists|i: int| 0 <= i < found.len() && (#[trigger] found[i]).name@ == name && found[i].port == port {
        Some(
            choose|i: int|
                0 <= i < found.len() && (#[trigger] found[i]).name@ == name && found[i].port == port
                    && forall|j: int| 0 <= j < i ==> !(found[j].name@ == name && found[j].port == port),
        )
    } else {
        None
    }
}

fn add_new_hosts(existing: &Vec<Vec<char>>, incoming: &Vec<Vec<char>>) -> (r: Vec<Vec<char>>)
    ensures
        views(r@) == with_new_hosts(views(existing@), views(incoming@)),
{
    let mut acc: Vec<Vec<char>> = Vec::new();
    let mut i: usize = 0;
    while i < existing.len()
        invariant
            i <= existing.len(),
            views(acc@) == views(existing@.take(i as int)),
        decreases existing.len() - i,
    {
        let ghost prev = acc@;
        let x = slice_vec(&existing[i], 0, existing[i].len());
        assert(x@ =~= existing@[i as int]@);
        acc.push(x);
        assert(views(existing@.take(i + 1)) =~= views(existing@.take(i as int)).push(existing@[i as int]@));
        assert(acc@ == prev.push(x));
        assert(views(acc@) =~= views(prev).push(x@));
        i += 1;
    }
    assert(existing@.take(existing.len() as int) =~= existing@);
    let mut k: usize = 0;
    while k < incoming.len()
        invariant
            k <= incoming.len(),
            views(acc@) == with_new_hosts(views(existing@), views(incoming@.take(k as int))),
        decreases incoming.len() - k,
    {
        let h = &incoming[k];
        let ghost before = views(acc@);
        let mut present = false;
        let mut j: usize = 0;
        while j < acc.len() && !present
            invariant
                j <= acc.len(),
                before == views(acc@),
                present == exists|m: int| 0 <= m < j && before[m] == h@,
                !present ==> forall|m: int| 0 <= m < j ==> before[m] != h@,
            decreases acc.len() - j + (if present { 0int } else { 1int }),
        {
            if text_eq(&acc[j], h) {
                assert(before[j as int] == acc@[j as int]@);
                present = true;
            } else {
                assert(before[j as int] == acc@[j as int]@);
            }
            j += 1;
        }
        proof {
            assert(views(incoming@.take(k + 1)).drop_last() =~= views(incoming@.take(k as int)));
            assert(views(incoming@.take(k + 1)).last() == h@);
            if present {
                let m = choose|m: int| 0 <= m < j && before[m] == h@;
                assert(before.contains(h@));
            } else {
                assert(!before.contains(h@));
            }
        }
        if !present {
            let ghost prev = acc@;
            let x = slice_vec(h, 0, h.len());
            assert(x@ =~= h@);
            acc.push(x);
            assert(acc@ == prev.push(x));
            assert(views(acc@) =~= views(prev).push(x@));
        }
        i += 0;
        k += 1;
    }
    assert(incoming@.take(incoming.len() as int) =~= incoming@);
    acc
}

/// Adds a found app to the list: an app with no host is dropped; one already
/// listed under the same name and port gets the hosts it lacks, and its
/// hosts are sorted; any other is appended.
pub fn merge_discovered(found: &mut Vec<DiscoveredRemotePc>, pc: DiscoveredRemotePc)
    ensures
        pc.hosts@.len() == 0 ==> final(found)@ == old(found)@,
        pc.hosts@.len() > 0 ==> match same_app_index(old(found)@, pc.name@, pc.port) {
            None => final(found)@ == old(found)@.push(pc),
            Some(e) => {
                &&& final(found)@.len() == old(found)@.len()
                &&& forall|j: int| 0 <= j < old(found)@.len() && j != e ==> #[trigger] final(found)@[j] == old(found)@[j]
                &&& final(found)@[e].name == old(found)@[e].name
                &&& final(found)@[e].port == old(found)@[e].port
                &&& sorted_texts(string_views(final(found)@[e].hosts@))
                &&& string_views(final(found)@[e].hosts@).to_multiset() == with_new_hosts(
                    string_views(old(found)@[e].hosts@),
                    string_views(pc.hosts@),
                ).to_multiset()
                // No host is lost: the hosts listed before and the incoming
                // ones, all of them.
                &&& forall|h: Seq<char>|
                    #[trigger] string_views(final(found)@[e].hosts@).contains(h) <==> (string_views(
                        old(found)@[e].hosts@,
                    ).contains(h) || string_views(pc.hosts@).contains(h))
            },
        },
{
    if pc.hosts.len() == 0 {
        return;
    }
    let mut e: usize = 0;
    let mut hit = false;
    while e < found.len() && !hit
        invariant
            e <= found.len(),
            found@ == old(found)@,
            hit ==> e < found.len() && found@[e as int].name@ == pc.name@ && found@[e as int].port == pc.port,
            forall|j: int| 0 <= j < e ==> !(#[trigger] found@[j].name@ == pc.name@ && found@[j].port == pc.port),
        decreases found.len() - e + (if hit { 0int } else { 1int }),
    {
        if found[e].port == pc.port && text_eq(&chars_of(found[e].name.as_str()), &chars_of(pc.name.as_str())) {
            hit = true;
        } else {
            e += 1;
        }
    }
    if !hit {
        proof {
            if exists|i: int| 0 <= i < found@.len() && (#[trigger] found@[i]).name@ == pc.name@ && found@[i].port == pc.port {
                let i = choose|i: int| 0 <= i < found@.len() && (#[trigger] found@[i]).name@ == pc.name@ && found@[i].port == pc.port;
                assert(!(found@[i].name@ == pc.name@ && found@[i].port == pc.port));
            }
        }
        found.push(pc);
        return;
    }
    proof {
        let q = same_app_index(old(found)@, pc.name@, pc.port);
        assert(0 <= e < found@.len() && found@[e as int].name@ == pc.name@ && found@[e as int].port == pc.port && forall|j: int| 0 <= j < e ==> !(found@[j].name@ == pc.name@ && found@[j].port == pc.port));
        let c = choose|i: int|
            0 <= i < found@.len() && (#[trigger] found@[i]).name@ == pc.name@ && found@[i].port == pc.port
                && forall|j: int| 0 <= j < i ==> !(found@[j].name@ == pc.name@ && found@[j].port == pc.port);
        if c < e {
            assert(!(found@[c].name@ == pc.name@ && found@[c].port == pc.port));
        }
        if c > e {
            assert(!(found@[e as int].name@ == pc.name@ && found@[e as int].port == pc.port));
        }
        assert(q == Some(e as int));
    }
    let existing = to_char_vecs(&found[e].hosts);
    let incoming = to_char_vecs(&pc.hosts);
    let merged = add_new_hosts(&existing, &incoming);
    let sorted = sort_texts(merged);
    let hosts = to_strings(&sorted);
    let name = found[e].name.clone();
    let port = found[e].port;
    let ghost before = string_views(found@[e as int].hosts@);
    let ghost fresh = string_views(pc.hosts@);
    found.set(e, DiscoveredRemotePc { name, hosts, port });
    proof {
        lemma_with_new_hosts_keeps_all(before, fresh);
        let after = string_views(found@[e as int].hosts@);
        let w = with_new_hosts(before, fresh);
        after.to_multiset_ensures();
        w.to_multiset_ensures();
        assert forall|h: Seq<char>| #[trigger] after.contains(h) <==> (before.contains(h) || fresh.contains(h)) by {
            assert(after.contains(h) <==> after.to_multiset().count(h) > 0);
            assert(w.contains(h) <==> w.to_multiset().count(h) > 0);
        }
    }
}

/// Apps ordered by name.
pub open spec fn sorted_by_name(v: Seq<DiscoveredRemotePc>) -> bool {
    forall|i: int, j: int| 0 <= i < j < v.len() ==> !crate::text::text_lt(#[trigger] v[j].name@, #[trigger] v[i].name@)
}

/// `x` put into a list ordered by name after every app whose name is not
/// greater than its own.
pub open spec fn insert_by_name(s: Seq<DiscoveredRemotePc>, x: DiscoveredRemotePc) -> Seq<DiscoveredRemotePc>
    decreases s.len(),
{
    if s.len() == 0 {
        seq![x]
    } else if crate::text::text_lt(x.name@, s.last().name@) {
        insert_by_name(s.drop_last(), x).push(s.last())
    } else {
        s.push(x)
    }
}

/// The stable sort by name: apps with the same name keep their order.
pub open spec fn stable_sort_by_name(s: Seq<DiscoveredRemotePc>) -> Seq<DiscoveredRemotePc>
    decreases s.len(),
{
    if s.len() == 0 {
        s
    } else {
        insert_by_name(stable_sort_by_name(s.drop_last()), s.last())
    }
}

proof fn lemma_insert_by_name_at(s: Seq<DiscoveredRemotePc>, x: DiscoveredRemotePc, k: int)
    requires
        0 <= k <= s.len(),
        forall|j: int| k <= j < s.len() ==> crate::text::text_lt(x.name@, #[trigger] s[j].name@),
        k == 0 || !crate::text::text_lt(x.name@, s[k - 1].name@),
    ensures
        insert_by_name(s, x) == s.insert(k, x),
    decreases s.len(),
{
    if s.len() == k {
        if s.len() == 0 {
            assert(s.insert(0, x) =~= seq![x]);
        } else {
            assert(s.push(x) =~= s.insert(k, x));
        }
    } else {
        let d = s.drop_last();
        assert(crate::text::text_lt(x.name@, s[s.len() - 1].name@));
        assert forall|j: int| k <= j < d.len() implies crate::text::text_lt(x.name@, #[trigger] d[j].name@) by {
            assert(d[j] == s[j]);
        }
        lemma_insert_by_name_at(d, x, k);
        assert(d.insert(k, x).push(s.last()) =~= s.insert(k, x));
    }
}

/// Orders the apps found by name, those with the same name in the order
/// they were found (`sort_by` on the name).
pub fn sort_discovered_by_name(found: Vec<DiscoveredRemotePc>) -> (r: Vec<DiscoveredRemotePc>)
    ensures
        r@ == stable_sort_by_name(found@),
{
    let ghost orig = found@;
    let mut rest = found;
    let n: usize = rest.len();
    let mut out: Vec<DiscoveredRemotePc> = Vec::new();
    let mut i: usize = 0;
    while rest.len() > 0
        invariant
            orig.len() == n,
            i + rest@.len() == orig.len(),
            rest@ == orig.skip(i as int),
            out@ == stable_sort_by_name(orig.take(i as int)),
        decreases rest.len(),
    {
        let x = rest.remove(0);
        let xn = chars_of(x.name.as_str());
        let mut k = out.len();
        while k > 0 && crate::text::text_less(&xn, &chars_of(out[k - 1].name.as_str()))
            invariant
                k <= out@.len(),
                xn@ == x.name@,
                forall|j: int| k <= j < out@.len() ==> crate::text::text_lt(x.name@, #[trigger] out@[j].name@),
            decreases k,
        {
            k -= 1;
        }
        proof {
            assert(x == orig[i as int]);
            assert(orig.take(i + 1).drop_last() =~= orig.take(i as int));
            assert(orig.take(i + 1).last() == orig[i as int]);
            lemma_insert_by_name_at(out@, x, k as int);
        }
        out.insert(k, x);
        i += 1;
        assert(rest@ =~= orig.skip(i as int));
    }
    assert(orig.take(orig.len() as int) =~= orig);
    out
}

// ---------------------------------------------------------------------------
// Discovery replies
// ---------------------------------------------------------------------------

/// A line without the carriage return that ends it, if any.
pub open spec fn strip_cr(s: Seq<char>) -> Seq<char> {
    if s.len() > 0 && s.last() == '\r' {
        s.drop_last()
    } else {
        s
    }
}

/// The lines of a text as `str::lines` gives them: split at `\n`, a `\r`
/// before a `\n` dropped, and no empty line after a final `\n`.
pub open spec fn text_lines(s: Seq<char>) -> Seq<Seq<char>> {
    let parts = split_on(s, seq!['\n']);
    let n = parts.len();
    let body = Seq::new((n - 1) as nat, |i: int| strip_cr(parts[i]));
    if n == 0 {
        Seq::empty()
    } else if parts[n - 1].len() == 0 {
        body
    } else {
        body.push(parts[n - 1])
    }
}

pub fn text_lines_of(s: &str) -> (r: Vec<Vec<char>>)
    ensures
        views(r@) == text_lines(s@),
{
    let mut nl: Vec<char> = Vec::new();
    nl.push('\n');
    assert(nl@ =~= seq!['\n']);
    let parts = split_on_chars(&chars_of(s), &nl);
    let ghost ps = split_on(s@, seq!['\n']);
    assert(views(parts@) == ps);
    let n = parts.len();
    let mut r: Vec<Vec<char>> = Vec::new();
    if n == 0 {
        assert(views(r@) =~= text_lines(s@));
        return r;
    }
    let mut i: usize = 0;
    while i + 1 < n
        invariant
            n == parts@.len(),
            n >= 1,
            i + 1 <= n,
            views(parts@) == ps,
            views(r@) == Seq::new(i as nat, |k: int| strip_cr(ps[k])),
        decreases n - i,
    {
        let p = &parts[i];
        let piece = if p.len() > 0 && p[p.len() - 1] == '\r' {
            slice_vec(p, 0, p.len() - 1)
        } else {
            slice_vec(p, 0, p.len())
        };
        assert(p@ == views(parts@)[i as int]);
        assert(p@ == ps[i as int]);
        assert(piece@ =~= strip_cr(ps[i as int]));
        let ghost prev = r@;
        r.push(piece);
        assert(r@ == prev.push(piece));
        assert(views(r@) =~= views(prev).push(piece@));
        assert(views(r@) =~= Seq::new((i + 1) as nat, |k: int| strip_cr(ps[k])));
        i += 1;
    }
    let last = &parts[n - 1];
    assert(last@ == views(parts@)[n - 1]);
    assert(last@ == ps[n - 1]);
    assert(n == ps.len());
    if last.len() > 0 {
        let ghost prev = r@;
        let x = slice_vec(last, 0, last.len());
        assert(x@ =~= last@);
        r.push(x);
        assert(r@ == prev.push(x));
        assert(views(r@) =~= views(prev).push(x@));
    }
    assert(views(r@) =~= text_lines(s@));
    r
}

/// A decimal octet as the IPv4 parser takes it: one to three ASCII digits,
/// no leading zero, at most 255.
pub open spec fn is_octet(p: Seq<char>) -> bool {
    1 <= p.len() <= 3 && all_digits(p) && (p.len() == 1 || p[0] != '0') && digits_value(p) <= 255
}

/// Dot-decimal IPv4 text (what `str::parse::<Ipv4Addr>` accepts): four
/// octets separated by dots.
pub open spec fn is_ipv4_text(s: Seq<char>) -> bool {
    let parts = split_on(s, seq!['.']);
    parts.len() == 4 && forall|i: int| 0 <= i < 4 ==> is_octet(#[trigger] parts[i])
}

fn is_octet_chars(p: &Vec<char>) -> (b: bool)
    ensures
        b == is_octet(p@),
{
    if p.len() < 1 || p.len() > 3 {
        return false;
    }
    let mut i: usize = 0;
    while i < p.len()
        invariant
            i <= p.len(),
            p.len() <= 3,
            forall|k: int| 0 <= k < i ==> crate::text::is_ascii_digit(#[trigger] p@[k]),
        decreases p.len() - i,
    {
        if !('0' <= p[i] && p[i] <= '9') {
            assert(!crate::text::is_ascii_digit(p@[i as int]));
            return false;
        }
        i += 1;
    }
    assert(all_digits(p@));
    if p.len() > 1 && p[0] == '0' {
        return false;
    }
    match parse_u32_chars(p) {
        Some(v) => {
            proof {
                assert(p@.len() > 0 && p@[0] != '+');
            }
            v <= 255
        },
        None => {
            proof {
                assert(p@.len() > 0 && p@[0] != '+');
                assert(digits_value(p@) > u32::MAX);
            }
            false
        },
    }
}

pub fn is_ipv4(s: &Vec<char>) -> (b: bool)
    ensures
        b == is_ipv4_text(s@),
{
    let mut dot: Vec<char> = Vec::new();
    dot.push('.');
    assert(dot@ =~= seq!['.']);
    let parts = split_on_chars(s, &dot);
    if parts.len() != 4 {
        return false;
    }
    let mut i: usize = 0;
    while i < 4
        invariant
            i <= 4,
            parts@.len() == 4,
            views(parts@) == split_on(s@, seq!['.']),
            forall|k: int| 0 <= k < i ==> is_octet(#[trigger] split_on(s@, seq!['.'])[k]),
        decreases 4 - i,
    {
        assert(parts@[i as int]@ == split_on(s@, seq!['.'])[i as int]);
        if !is_octet_chars(&parts[i]) {
            return false;
        }
        i += 1;
    }
    true
}

pub open spec fn reply_magic() -> Seq<char> {
    "GM_REMOTE_V1"@
}

pub open spec fn reply_ok() -> Seq<char> {
    "OK"@
}

/// The IPv4 hosts among the lines, trimmed.
pub open spec fn ipv4_lines(lines: Seq<Seq<char>>) -> Seq<Seq<char>>
    decreases lines.len(),
{
    if lines.len() == 0 {
        Seq::empty()
    } else if is_ipv4_text(trim(lines.last())) {
        ipv4_lines(lines.drop_last()).push(trim(lines.last()))
    } else {
        ipv4_lines(lines.drop_last())
    }
}

/// What a UDP discovery reply says, given its text: after the lines
/// `GM_REMOTE_V1` and `OK`, the app's name, its port (0 where it does not
/// parse), then its hosts, one IPv4 address per line. Anything else gives
/// an empty name, port 0 and no host.
pub open spec fn reply_name(text: Option<Seq<char>>) -> Seq<char> {
    match text {
        Some(t) => {
            let ls = text_lines(t);
            if ls.len() >= 2 && ls[0] == reply_magic() && ls[1] == reply_ok() && ls.len() >= 3 {
                ls[2]
            } else {
                Seq::empty()
            }
        },
        None => Seq::empty(),
    }
}

pub open spec fn reply_port(text: Option<Seq<char>>) -> u16 {
    match text {
        Some(t) => {
            let ls = text_lines(t);
            if ls.len() >= 4 && ls[0] == reply_magic() && ls[1] == reply_ok() {
                match parse_u16(ls[3]) {
                    Some(p) => p,
                    None => 0,
                }
            } else {
                0
            }
        },
        None => 0,
    }
}

pub open spec fn reply_hosts(text: Option<Seq<char>>) -> Seq<Seq<char>> {
    match text {
        Some(t) => {
            let ls = text_lines(t);
            if ls.len() >= 5 && ls[0] == reply_magic() && ls[1] == reply_ok() {
                ipv4_lines(ls.skip(4))
            } else {
                Seq::empty()
            }
        },
        None => Seq::empty(),
    }
}

/// The text of some bytes where they are valid UTF-8, as
/// `std::str::from_utf8` decodes them.
pub uninterp spec fn utf8_text(bytes: Seq<u8>) -> Option<Seq<char>>;

/// `std::str::from_utf8`: the contract names the decoded text and says no
/// more of it.
#[verifier::external_body]
fn decode_utf8(data: &[u8]) -> (r: Option<String>)
    ensures
        match r {
            Some(s) => utf8_text(data@) == Some(s@),
            None => utf8_text(data@) is None,
        },
{
    std::str::from_utf8(data).ok().map(|s| s.to_string())
}

fn ipv4_hosts_from(ls: &Vec<Vec<char>>, from: usize) -> (r: Vec<Vec<char>>)
    requires
        from <= ls.len(),
    ensures
        views(r@) == ipv4_lines(views(ls@).skip(from as int)),
{
    let mut hosts: Vec<Vec<char>> = Vec::new();
    let mut i: usize = from;
    while i < ls.len()
        invariant
            from <= i <= ls.len(),
            views(hosts@) == ipv4_lines(views(ls@).subrange(from as int, i as int)),
        decreases ls.len() - i,
    {
        let line = trim_chars(&ls[i]);
        proof {
            assert(views(ls@).subrange(from as int, i + 1).drop_last() =~= views(ls@).subrange(
                from as int,
                i as int,
            ));
            assert(views(ls@).subrange(from as int, i + 1).last() == ls@[i as int]@);
        }
        if is_ipv4(&line) {
            hosts.push(line);
            assert(views(hosts@) =~= views(hosts@.drop_last()).push(hosts@.last()@));
        }
        i += 1;
    }
    assert(views(ls@).subrange(from as int, ls.len() as int) =~= views(ls@).skip(from as int));
    hosts
}

/// Reads a decoded UDP discovery reply (see `reply_name`, `reply_port`,
/// `reply_hosts`); the hosts come sorted, each once.
pub fn discovered_from_reply_text(text: Option<&str>) -> (r: DiscoveredRemotePc)
    ensures
        r.name@ == reply_name(match text {
            Some(t) => Some(t@),
            None => None,
        }),
        r.port == reply_port(match text {
            Some(t) => Some(t@),
            None => None,
        }),
        strictly_sorted(string_views(r.hosts@)),
        string_views(r.hosts@).to_set() == reply_hosts(match text {
            Some(t) => Some(t@),
            None => None,
        }).to_set(),
{
    let t = match text {
        Some(t) => t,
        None => {
            let empty: Vec<Vec<char>> = Vec::new();
            let sorted = sort_dedup_texts(empty);
            assert(views(Seq::<Vec<char>>::empty()).to_set() =~= Seq::<Seq<char>>::empty().to_set());
            return DiscoveredRemotePc { name: String::new(), hosts: to_strings(&sorted), port: 0 };
        },
    };
    let ls = text_lines_of(t);
    let magic = chars_of("GM_REMOTE_V1");
    let ok = chars_of("OK");
    let good = ls.len() >= 2 && text_eq(&ls[0], &magic) && text_eq(&ls[1], &ok);
    proof {
        if ls.len() >= 2 {
            assert(views(ls@)[0] == ls@[0]@);
            assert(views(ls@)[1] == ls@[1]@);
        }
    }
    let name = if good && ls.len() >= 3 {
        assert(views(ls@)[2] == ls@[2]@);
        slice_vec(&ls[2], 0, ls[2].len())
    } else {
        Vec::new()
    };
    let port: u16 = if good && ls.len() >= 4 {
        assert(views(ls@)[3] == ls@[3]@);
        match parse_u32_chars(&ls[3]) {
            Some(v) => if v <= 65535 {
                v as u16
            } else {
                0
            },
            None => 0,
        }
    } else {
        0
    };
    let hosts = if good && ls.len() >= 5 {
        ipv4_hosts_from(&ls, 4)
    } else {
        Vec::new()
    };
    let sorted = sort_dedup_texts(hosts);
    assert(name@ =~= reply_name(Some(t@)));
    DiscoveredRemotePc { name: string_of(&name), hosts: to_strings(&sorted), port }
}

/// Reads a UDP discovery reply.
pub fn parse_udp_reply(data: &[u8]) -> (r: DiscoveredRemotePc)
    ensures
        r.name@ == reply_name(utf8_text(data@)),
        r.port == reply_port(utf8_text(data@)),
        strictly_sorted(string_views(r.hosts@)),
        string_views(r.hosts@).to_set() == reply_hosts(utf8_text(data@)).to_set(),
{
    let text = decode_utf8(data);
    match text {
        Some(t) => discovered_from_reply_text(Some(t.as_str())),
        None => discovered_from_reply_text(None),
    }
}

/// The part of an mDNS full name before its first dot.
pub open spec fn display_name(full: Seq<char>) -> Seq<char> {
    if full.contains('.') {
        full.take(first_index_of(full, '.'))
    } else {
        full
    }
}

/// An app found by mDNS, given its full service name, its IPv4 addresses
/// and its port: the name up to the first dot, the hosts sorted, each once.
pub fn discovered_from_mdns(fullname: &str, ipv4_hosts: &Vec<String>, port: u16) -> (r: DiscoveredRemotePc)
    ensures
        r.name@ == display_name(fullname@),
        r.port == port,
        strictly_sorted(string_views(r.hosts@)),
        string_views(r.hosts@).to_set() == string_views(ipv4_hosts@).to_set(),
{
    let full = chars_of(fullname);
    let name = match find_char(&full, '.') {
        Some(k) => {
            proof {
                lemma_first_index_of(full@, '.', k as int);
            }
            slice_vec(&full, 0, k)
        },
        None => slice_vec(&full, 0, full.len()),
    };
    assert(name@ =~= display_name(fullname@));
    let sorted = sort_dedup_texts(to_char_vecs(ipv4_hosts));
    DiscoveredRemotePc { name: string_of(&name), hosts: to_strings(&sorted), port }
}

// ---------------------------------------------------------------------------
// Connection tests
// ---------------------------------------------------------------------------

/// `a、b、c`: texts joined with an ideographic comma.
pub open spec fn joined(parts: Seq<Seq<char>>) -> Seq<char>
    decreases parts.len(),
{
    if parts.len() == 0 {
        Seq::empty()
    } else if parts.len() == 1 {
        parts[0]
    } else {
        joined(parts.drop_last()) + seq!['、'] + parts.last()
    }
}

fn join_hosts(hosts: &[String]) -> (r: Vec<char>)
    ensures
        r@ == joined(hosts@.map_values(|s: String| s@)),
{
    let mut r: Vec<char> = Vec::new();
    let mut i: usize = 0;
    while i < hosts.len()
        invariant
            i <= hosts.len(),
            r@ == joined(hosts@.take(i as int).map_values(|s: String| s@)),
        decreases hosts.len() - i,
    {
        proof {
            assert(hosts@.take(i + 1).map_values(|s: String| s@).drop_last() =~= hosts@.take(
                i as int,
            ).map_values(|s: String| s@));
        }
        if i > 0 {
            r.push('、');
        }
        r = concat(&r, &chars_of(hosts[i].as_str()));
        i += 1;
    }
    assert(hosts@.take(hosts.len() as int) =~= hosts@);
    r
}

/// The message of a failed connection test: a refusal and a timeout get
/// advice; anything else is reported with the hosts tried.
pub open spec fn connection_failure_text(ips: Seq<char>, port: u16, detail: Seq<char>) -> Seq<char> {
    let target = ips + ":"@ + dec_nat(port as nat);
    if contains_seq(detail, "connection refused"@) || contains_seq(detail, "積極拒絕"@) {
        "無法連線 "@ + target
            + "（PC 未開啟 HTTP 服務或 Windows 防火牆阻擋）。請確認 PC 設定顯示「執行中」，並在防火牆允許 Gentleman Manager 私人網路。"@
    } else if contains_seq(detail, "timed out"@) || contains_seq(detail, "逾時"@) {
        "連線逾時（"@ + target
            + "）。請確認手機與 PC 同一 Wi‑Fi 網段，且路由器未開啟「AP 隔離／訪客網路隔離」。"@
    } else {
        "不能連線（已試 "@ + ips + "）："@ + detail
    }
}

pub fn format_connection_failure(hosts: &[String], port: u16, detail: &str) -> (r: String)
    ensures
        r@ == connection_failure_text(joined(hosts@.map_values(|s: String| s@)), port, detail@),
{
    let ips = join_hosts(hosts);
    let d = chars_of(detail);
    let target = concat(&concat(&ips, &chars_of(":")), &dec_u64(port as u64));
    let v = if contains_chars(&d, &chars_of("connection refused")) || contains_chars(&d, &chars_of("積極拒絕")) {
        concat(
            &concat(&chars_of("無法連線 "), &target),
            &chars_of("（PC 未開啟 HTTP 服務或 Windows 防火牆阻擋）。請確認 PC 設定顯示「執行中」，並在防火牆允許 Gentleman Manager 私人網路。"),
        )
    } else if contains_chars(&d, &chars_of("timed out")) || contains_chars(&d, &chars_of("逾時")) {
        concat(
            &concat(&chars_of("連線逾時（"), &target),
            &chars_of("）。請確認手機與 PC 同一 Wi‑Fi 網段，且路由器未開啟「AP 隔離／訪客網路隔離」。"),
        )
    } else {
        concat(&concat(&concat(&chars_of("不能連線（已試 "), &ips), &chars_of("）：")), &d)
    };
    string_of(&v)
}

/// The hosts a connection test tries: each trimmed, the blank ones left out.
pub open spec fn test_hosts(hosts: Seq<Seq<char>>) -> Seq<Seq<char>>
    decreases hosts.len(),
{
    if hosts.len() == 0 {
        Seq::empty()
    } else if trim(hosts.last()).len() == 0 {
        test_hosts(hosts.drop_last())
    } else {
        test_hosts(hosts.drop_last()).push(trim(hosts.last()))
    }
}

pub fn connection_test_hosts(hosts: &Vec<String>) -> (r: Vec<String>)
    ensures
        string_views(r@) == test_hosts(string_views(hosts@)),
{
    let mut r: Vec<String> = Vec::new();
    let mut i: usize = 0;
    while i < hosts.len()
        invariant
            i <= hosts.len(),
            string_views(r@) == test_hosts(string_views(hosts@.take(i as int))),
        decreases hosts.len() - i,
    {
        let t = trim_chars(&chars_of(hosts[i].as_str()));
        proof {
            assert(string_views(hosts@.take(i + 1)).drop_last() =~= string_views(hosts@.take(i as int)));
            assert(string_views(hosts@.take(i + 1)).last() == hosts@[i as int]@);
        }
        if t.len() > 0 {
            r.push(string_of(&t));
            assert(string_views(r@) =~= string_views(r@.drop_last()).push(r@.last()@));
        }
        i += 1;
    }
    assert(hosts@.take(hosts.len() as int) =~= hosts@);
    r
}

/// The verdict when there is no host to try.
pub fn no_host_result() -> (r: RemotePcConnectionResult)
    ensures
        !r.connected,
        r.message@ == "沒有可測試的 IP"@,
        r.connected_host is None,
{
    RemotePcConnectionResult { connected: false, message: "沒有可測試的 IP".to_string(), connected_host: None }
}

/// The verdict when `host`, one of `host_count` hosts tried, answered.
pub fn connected_result(host: &str, host_count: usize) -> (r: RemotePcConnectionResult)
    ensures
        r.connected,
        r.message@ == (if host_count > 1 {
            "能連線（"@ + host@ + "）"@
        } else {
            "能連線"@
        }),
        r.connected_host matches Some(h) && h@ == host@,
{
    let message = if host_count > 1 {
        string_of(&concat(&concat(&chars_of("能連線（"), &chars_of(host)), &chars_of("）")))
    } else {
        "能連線".to_string()
    };
    RemotePcConnectionResult { connected: true, message, connected_host: Some(host.to_string()) }
}

/// What a health answer with `ok` set says of a host: a remote API older
/// than version 2 gets a warning.
pub fn healthy_result(host: &str, remote_api: u32) -> (r: RemotePcConnectionResult)
    ensures
        r.connected,
        r.message@ == (if remote_api >= 2 {
            "能連線"@
        } else {
            "能連線（PC 程式過舊，長檔名或 [ ] 可能失敗，請更新 EXE）"@
        }),
        r.connected_host matches Some(h) && h@ == host@,
{
    let message = if remote_api >= 2 {
        "能連線".to_string()
    } else {
        "能連線（PC 程式過舊，長檔名或 [ ] 可能失敗，請更新 EXE）".to_string()
    };
    RemotePcConnectionResult { connected: true, message, connected_host: Some(host.to_string()) }
}

/// Why the desktop app cannot serve a transfer.
#[derive(Debug, Clone, Copy, PartialEq, Eq, Structural)]
pub enum RemoteApiError {
    /// Its health answer was not `ok`.
    NotOk,
    /// Its remote API is older than needed (the version it reports).
    TooOld(u32),
}

/// The health check before a transfer: the answer must be `ok` and report
/// remote API 2 or later.
pub fn check_remote_api_v2(ok: bool, remote_api: u32) -> (r: Result<(), RemoteApiError>)
    ensures
        r == (if !ok {
            Err::<(), RemoteApiError>(RemoteApiError::NotOk)
        } else if remote_api < 2 {
            Err(RemoteApiError::TooOld(remote_api))
        } else {
            Ok(())
        }),
{
    if !ok {
        Err(RemoteApiError::NotOk)
    } else if remote_api < 2 {
        Err(RemoteApiError::TooOld(remote_api))
    } else {
        Ok(())
    }
}

/// The second check before an upload: remote API 3 or later.
pub fn check_remote_api_v3(remote_api: u32) -> (r: Result<(), RemoteApiError>)
    ensures
        r == (if remote_api < 3 {
            Err::<(), RemoteApiError>(RemoteApiError::TooOld(remote_api))
        } else {
            Ok(())
        }),
{
    if remote_api < 3 {
        Err(RemoteApiError::TooOld(remote_api))
    } else {
        Ok(())
    }
}

/// `http://{host}:{port}/api/v1/{endpoint}`.
pub fn remote_api_url(host: &str, port: u16, endpoint: &str) -> (r: String)
    ensures
        r@ == "http://"@ + host@ + ":"@ + dec_nat(port as nat) + "/api/v1/"@ + endpoint@,
{
    let v = concat(&chars_of("http://"), &chars_of(host));
    let v = concat(&v, &chars_of(":"));
    let v = concat(&v, &dec_u64(port as u64));
    let v = concat(&v, &chars_of("/api/v1/"));
    let v = concat(&v, &chars_of(endpoint));
    string_of(&v)
}

/// A connection test that tries the hosts in turn: the hosts left after
/// trimming and dropping blanks, and the one tried next.
pub struct HostProbe {
    pub hosts: Vec<String>,
    pub next: usize,
    pub port: u16,
}

/// What a connection test does next.
#[derive(Debug, Clone)]
pub enum ProbeAction {
    /// Ask this host for its health.
    Probe(String),
    /// The test is over with this verdict.
    Finish(RemotePcConnectionResult),
}

/// Starts a connection test: with no host left after trimming, the verdict
/// is at once that there is nothing to test; else the first host is asked.
pub fn start_host_probe(hosts: &Vec<String>, port: u16) -> (r: (HostProbe, ProbeAction))
    ensures
        string_views(r.0.hosts@) == test_hosts(string_views(hosts@)),
        r.0.next == 0,
        r.0.port == port,
        r.0.hosts@.len() == 0 ==> (r.1 matches ProbeAction::Finish(res) && !res.connected
            && res.message@ == "沒有可測試的 IP"@ && res.connected_host is None),
        r.0.hosts@.len() > 0 ==> (r.1 matches ProbeAction::Probe(h) && h@ == r.0.hosts@[0]@),
{
    let hs = connection_test_hosts(hosts);
    if hs.len() == 0 {
        return (HostProbe { hosts: hs, next: 0, port }, ProbeAction::Finish(no_host_result()));
    }
    let first = hs[0].clone();
    (HostProbe { hosts: hs, next: 0, port }, ProbeAction::Probe(first))
}

/// The answer of the host asked last: the first host that answers wins;
/// after a refusal the next host is asked; when none is left the verdict
/// explains the last refusal (`format_connection_failure`).
pub fn host_probe_step(probe: HostProbe, connected: bool, message: &str) -> (r: (HostProbe, ProbeAction))
    requires
        probe.next < probe.hosts@.len(),
    ensures
        r.0.hosts@ == probe.hosts@,
        r.0.port == probe.port,
        connected ==> (r.1 matches ProbeAction::Finish(res) && res.connected
            && res.message@ == (if probe.hosts@.len() > 1 {
            "能連線（"@ + probe.hosts@[probe.next as int]@ + "）"@
        } else {
            "能連線"@
        }) && (res.connected_host matches Some(h) && h@ == probe.hosts@[probe.next as int]@)),
        !connected && probe.next + 1 < probe.hosts@.len() ==> (r.0.next == probe.next + 1 && (r.1 matches ProbeAction::Probe(h)
            && h@ == probe.hosts@[probe.next + 1]@)),
        !connected && probe.next + 1 == probe.hosts@.len() ==> (r.1 matches ProbeAction::Finish(res)
            && !res.connected && res.connected_host is None && res.message@ == connection_failure_text(
            joined(probe.hosts@.map_values(|s: String| s@)),
            probe.port,
            message@,
        )),
{
    let i = probe.next;
    if connected {
        let res = connected_result(probe.hosts[i].as_str(), probe.hosts.len());
        return (probe, ProbeAction::Finish(res));
    }
    if i < probe.hosts.len() - 1 {
        let h = probe.hosts[i + 1].clone();
        return (HostProbe { hosts: probe.hosts, next: i + 1, port: probe.port }, ProbeAction::Probe(h));
    }
    let msg = format_connection_failure(probe.hosts.as_slice(), probe.port, message);
    (probe, ProbeAction::Finish(RemotePcConnectionResult { connected: false, message: msg, connected_host: None }))
}

} // verus!
