//! Server identity: role, port, replication id and offset, the primary's
//! address, and the text of the INFO sections.
use crate::text::{
    all_ascii, ascii_chars, ascii_string, decimal, decimal_string, join, join_lines, parse_u64,
    parse_u64_bytes, str_equal,
};
use vstd::utf8::encode_utf8;
use vstd::prelude::*;

verus! {

broadcast use vstd::seq::group_seq_axioms;

/// The length of a replication id.
pub const REPLID_LEN: usize = 40;

#[allow(non_camel_case_types)]
#[derive(PartialEq, Eq, Structural, Clone, Copy, Debug)]
pub enum ReplicaRole {
    MASTER,
    SLAVE,
}

pub open spec fn role_name(role: ReplicaRole) -> Seq<char> {
    match role {
        ReplicaRole::MASTER => "master"@,
        ReplicaRole::SLAVE => "slave"@,
    }
}

impl ReplicaRole {
    /// The role's name as the INFO text shows it.
    pub fn to_string(&self) -> (r: String)
        ensures
            r@ == role_name(*self),
    {
        match self {
            ReplicaRole::MASTER => String::from_str("master"),
            ReplicaRole::SLAVE => String::from_str("slave"),
        }
    }
}

pub struct Server {
    pub tcp_port: u16,
}

impl Server {
    pub fn port(&self) -> (r: u16)
        ensures
            r == self.tcp_port,
    {
        self.tcp_port
    }
}

pub struct Replication {
    pub role: ReplicaRole,
    pub master_replid: Option<String>,
    pub master_repl_offset: Option<u64>,
    pub master_host: Option<String>,
    pub master_port: Option<u16>,
}

/// An ASCII digit or letter.
pub open spec fn is_alphanumeric_byte(b: u8) -> bool {
    (48 <= b <= 57) || (65 <= b <= 90) || (97 <= b <= 122)
}

pub open spec fn is_alphanumeric(c: char) -> bool {
    ('0' <= c <= '9') || ('A' <= c <= 'Z') || ('a' <= c <= 'z')
}

/// A replication id: forty ASCII digits and letters.
pub open spec fn is_replid(id: Seq<char>) -> bool {
    id.len() == REPLID_LEN && forall|i: int| 0 <= i < id.len() ==> is_alphanumeric(#[trigger] id[i])
}

/// `key:value` and a line feed.
pub open spec fn info_line(key: Seq<char>, value: Seq<char>) -> Seq<char> {
    key + ":"@ + value + "\n"@
}

/// The `replication` section: its heading, then one line per field that is present.
pub open spec fn replication_section(r: Replication) -> Seq<char> {
    "# replication\n"@ + info_line("role"@, role_name(r.role)) + match r.master_replid {
        Some(id) => info_line("master_replid"@, id@),
        None => Seq::empty(),
    } + match r.master_repl_offset {
        Some(o) => info_line("master_repl_offset"@, ascii_chars(decimal(o as nat))),
        None => Seq::empty(),
    } + match r.master_host {
        Some(h) => info_line("master_host"@, h@),
        None => Seq::empty(),
    } + match r.master_port {
        Some(p) => info_line("master_port"@, ascii_chars(decimal(p as nat))),
        None => Seq::empty(),
    }
}

/// The address of the primary, `host:port`.
pub open spec fn addr_text(host: Seq<char>, port: u16) -> Seq<char> {
    host + ":"@ + ascii_chars(decimal(port as nat))
}

impl Replication {
    /// A primary has a replication id of forty digits and letters and an offset,
    /// and a replica has neither; a replica has its primary's host and port, and
    /// a primary has neither.
    pub open spec fn wf(&self) -> bool {
        &&& (self.role == ReplicaRole::MASTER) == (self.master_replid is Some)
        &&& (self.role == ReplicaRole::MASTER) == (self.master_repl_offset is Some)
        &&& self.master_replid matches Some(id) ==> is_replid(id@)
        &&& (self.role == ReplicaRole::SLAVE) == (self.master_host is Some)
        &&& (self.role == ReplicaRole::SLAVE) == (self.master_port is Some)
    }

    /// The primary's address, `host:port`; a replica knows it.
    pub fn master_addr(&self) -> (r: String)
        requires
            self.master_host is Some,
            self.master_port is Some,
        ensures
            r@ == addr_text(self.master_host->0@, self.master_port->0),
    {
        match (&self.master_host, self.master_port) {
            (Some(host), Some(port)) => {
                let mut r = host.clone();
                r.append(":");
                let digits = decimal_string(port as u64);
                r.append(digits.as_str());
                r
            },
            _ => String::new(),
        }
    }

    pub fn master_replid(&self) -> (r: &String)
        requires
            self.master_replid is Some,
        ensures
            *r == self.master_replid->0,
    {
        self.master_replid.as_ref().unwrap()
    }

    pub fn master_repl_offset(&self) -> (r: &u64)
        requires
            self.master_repl_offset is Some,
        ensures
            *r == self.master_repl_offset->0,
    {
        self.master_repl_offset.as_ref().unwrap()
    }
}

pub struct Info {
    pub server: Server,
    pub replication: Replication,
}

/// The named section's text, for the sections that exist.
pub open spec fn section_text(info: Info, name: Seq<char>) -> Option<Seq<char>> {
    if name == "replication"@ {
        Some(replication_section(info.replication))
    } else {
        None
    }
}

/// The names of the known sections, in the order INFO shows them.
pub open spec fn known_sections() -> Seq<Seq<char>> {
    seq!["replication"@]
}

/// The texts of the sections among `names` that exist, in order.
pub open spec fn present_sections(info: Info, names: Seq<Seq<char>>) -> Seq<Seq<char>>
    decreases names.len(),
{
    if names.len() == 0 {
        Seq::empty()
    } else {
        present_sections(info, names.drop_last()) + match section_text(info, names.last()) {
            Some(t) => seq![t],
            None => Seq::empty(),
        }
    }
}

/// The INFO text for `names`: the sections that exist, one line feed between each two.
pub open spec fn info_text(info: Info, names: Seq<Seq<char>>) -> Seq<char> {
    join_lines(present_sections(info, names))
}

/// The INFO text of all known sections.
pub open spec fn info_all(info: Info) -> Seq<char> {
    info_text(info, known_sections())
}

fn push_line(out: &mut String, key: &str, value: &str)
    ensures
        final(out)@ == old(out)@ + info_line(key@, value@),
{
    out.append(key);
    out.append(":");
    out.append(value);
    out.append("\n");
    assert(final(out)@ =~= old(out)@ + info_line(key@, value@));
}

impl Info {
    pub fn new(server: Server, replication: Replication) -> (r: Info)
        ensures
            r == (Info { server, replication }),
    {
        Info { server, replication }
    }

    /// The text of the section called `name`, if there is one.
    pub fn get_section(&self, name: &str) -> (r: Option<String>)
        ensures
            match section_text(*self, name@) {
                Some(t) => r matches Some(s) && s@ == t,
                None => r is None,
            },
    {
        if !str_equal(name, "replication") {
            return None;
        }
        let r = &self.replication;
        let mut res = String::from_str("# replication\n");
        let role = r.role.to_string();
        push_line(&mut res, "role", role.as_str());
        if let Some(master_replid) = &r.master_replid {
            push_line(&mut res, "master_replid", master_replid.as_str());
        }
        if let Some(master_repl_offset) = r.master_repl_offset {
            let digits = decimal_string(master_repl_offset);
            push_line(&mut res, "master_repl_offset", digits.as_str());
        }
        if let Some(master_host) = &r.master_host {
            push_line(&mut res, "master_host", master_host.as_str());
        }
        if let Some(master_port) = r.master_port {
            let digits = decimal_string(master_port as u64);
            push_line(&mut res, "master_port", digits.as_str());
        }
        assert(res@ =~= replication_section(self.replication));
        Some(res)
    }

    /// The text of every known section, one line feed between each two.
    pub fn get_all(&self) -> (r: String)
        ensures
            r@ == info_all(*self),
    {
        let mut res: Vec<String> = Vec::new();
        match self.get_section("replication") {
            Some(s) => res.push(s),
            None => {},
        }
        proof {
            let names = known_sections();
            assert(names.drop_last() =~= Seq::<Seq<char>>::empty());
            assert(present_sections(*self, names.drop_last()) =~= Seq::<Seq<char>>::empty());
            assert(res@.map_values(|s: String| s@) =~= present_sections(*self, names));
        }
        join(&res)
    }
}

/// Relies on rand's `Alphanumeric` distribution, sampled from
/// `rand::thread_rng()`: each draw is one of the ASCII bytes `0-9`, `A-Z`, `a-z`.
#[verifier::external_body]
fn random_alphanumeric(n: usize) -> (r: Vec<u8>)
    ensures
        r@.len() == n,
        forall|i: int| 0 <= i < r@.len() ==> is_alphanumeric_byte(#[trigger] r@[i]),
{
    rand::Rng::sample_iter(rand::thread_rng(), rand::distributions::Alphanumeric).take(n).collect()
}

/// A fresh random replication id.
fn random_replid() -> (r: String)
    ensures
        is_replid(r@),
{
    let bytes = random_alphanumeric(REPLID_LEN);
    assert(all_ascii(bytes@));
    let r = ascii_string(bytes);
    assert forall|i: int| 0 <= i < r@.len() implies is_alphanumeric(#[trigger] r@[i]) by {
        assert(is_alphanumeric_byte(bytes@[i]));
    }
    r
}

/// The identity of a server: a primary gets a fresh random replication id and
/// offset zero, and no primary's address; a replica records the primary's
/// address it was given.
pub fn create_info(
    port: u16,
    role: ReplicaRole,
    master_host: Option<String>,
    master_port: Option<u16>,
) -> (r: Info)
    requires
        role == ReplicaRole::SLAVE ==> master_host is Some && master_port is Some,
    ensures
        r.server.tcp_port == port,
        r.replication.role == role,
        r.replication.wf(),
        role == ReplicaRole::MASTER ==> r.replication.master_repl_offset == Some(0u64)
            && r.replication.master_host is None && r.replication.master_port is None,
        role == ReplicaRole::SLAVE ==> r.replication.master_host == master_host
            && r.replication.master_port == master_port,
{
    let (master_host, master_port) = match role {
        ReplicaRole::MASTER => (None, None),
        ReplicaRole::SLAVE => (master_host, master_port),
    };
    let master_replid = match role {
        ReplicaRole::MASTER => Some(random_replid()),
        ReplicaRole::SLAVE => None,
    };
    let master_repl_offset = match role {
        ReplicaRole::MASTER => Some(0),
        ReplicaRole::SLAVE => None,
    };
    Info::new(
        Server { tcp_port: port },
        Replication { role, master_replid, master_repl_offset, master_host, master_port },
    )
}

/// INFO with no names shows every section that INFO with one known name shows.
pub proof fn lemma_info_all_covers_section(info: Info, name: Seq<char>)
    requires
        section_text(info, name) is Some,
    ensures
        contains_text(info_all(info), info_text(info, seq![name])),
{
    let one = seq![name];
    assert(one.drop_last() =~= Seq::<Seq<char>>::empty());
    assert(known_sections().drop_last() =~= Seq::<Seq<char>>::empty());
    assert(name == "replication"@);
    assert(info_text(info, one) == info_all(info));
    let all = info_all(info);
    let needle = info_text(info, one);
    assert(all.subrange(0, 0 + needle.len() as int) =~= needle);
}

/// The first position at or after `i` that holds a space, or the end.
pub open spec fn space_at_or_after(s: Seq<char>, i: int) -> int
    decreases s.len() - i,
{
    if 0 <= i < s.len() && s[i] != ' ' {
        space_at_or_after(s, i + 1)
    } else {
        i
    }
}

/// The primary's address given as `<host> <port>`: the host up to the first
/// space, and the port up to the next space or the end. Anything after that
/// is ignored.
pub open spec fn master_address(s: Seq<char>) -> Option<(Seq<char>, u16)> {
    let a = space_at_or_after(s, 0);
    if a < s.len() {
        let b = space_at_or_after(s, a + 1);
        match parse_u64(encode_utf8(s.subrange(a + 1, b))) {
            Some(p) => if p <= u16::MAX {
                Some((s.subrange(0, a), p as u16))
            } else {
                None
            },
            None => None,
        }
    } else {
        None
    }
}

fn find_space(s: &str, from: usize) -> (r: usize)
    requires
        from <= s@.len(),
    ensures
        r == space_at_or_after(s@, from as int),
        from <= r <= s@.len(),
{
    let n = s.unicode_len();
    let mut i = from;
    while i < n
        invariant
            n == s@.len(),
            from <= i <= n,
            space_at_or_after(s@, from as int) == space_at_or_after(s@, i as int),
        ensures
            from <= i <= n,
            space_at_or_after(s@, from as int) == i,
        decreases n - i,
    {
        if s.get_char(i) == ' ' {
            break;
        }
        i = i + 1;
    }
    i
}

/// Reads the primary's address, `<host> <port>`.
pub fn parse_master_address(s: &str) -> (r: Option<(String, u16)>)
    ensures
        match master_address(s@) {
            Some((host, port)) => r matches Some((h, p)) && h@ == host && p == port,
            None => r is None,
        },
{
    let a = find_space(s, 0);
    if a >= s.unicode_len() {
        return None;
    }
    let b = find_space(s, a + 1);
    let port_text = s.substring_char(a + 1, b);
    match parse_u64_bytes(port_text.as_bytes()) {
        Some(p) => if p <= 65535 {
            Some((String::from_str(s.substring_char(0, a)), p as u16))
        } else {
            None
        },
        None => None,
    }
}

/// `needle` occurs in `hay` as a contiguous run.
pub open spec fn contains_text(hay: Seq<char>, needle: Seq<char>) -> bool {
    exists|i: int|
        0 <= i <= hay.len() - needle.len() && #[trigger] hay.subrange(i, i + needle.len() as int) == needle
}

} // verus!
