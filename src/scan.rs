//! What the system reports: the network devices (from the kernel's device table) and
//! the established TCP connections of each process (from the socket-statistics tool).
use vstd::prelude::*;

use crate::text::{
    chars_of, find_chars_from, find_from, find_last, lemma_find_from_at_least, has_prefix, last_index, lines, parse_usize, parse_usize_chars, pieces,
    slice_chars, split_lines, split_pieces, split_words, starts_with, string_of, trim,
    trim_chars, words,
};

verus! {

#[derive(PartialEq, Eq, Structural, Clone, Copy, Debug)]
pub enum Status {
    Up,
    Down,
}

/// A network device.
#[derive(PartialEq, Eq, Debug)]
pub struct Interface {
    pub name: String,
    pub status: Status,
}

impl Interface {
    /// Whether the device is up.
    pub fn is_up(&self) -> (r: bool)
        ensures
            r == (self.status == Status::Up),
    {
        self.status == Status::Up
    }
}

/// The device names that the kernel's device table lists: after two header lines,
/// one device per line, its name before the first `:`.
pub open spec fn device_names(raw: Seq<char>) -> Seq<Seq<char>> {
    let ls = lines(raw);
    Seq::new(
        if ls.len() >= 2 {
            (ls.len() - 2) as nat
        } else {
            0
        },
        |i: int| trim(pieces(ls[i + 2], ':')[0]),
    )
}

/// Reads the kernel's device table (the text of `/proc/net/dev`). The table does not
/// say whether a device is up, so each is taken to be down.
pub fn ifconfig(raw: &str) -> (r: Vec<Interface>)
    ensures
        r@.len() == device_names(raw@).len(),
        forall|i: int|
            0 <= i < r@.len() ==> (#[trigger] r@[i]).name@ == device_names(raw@)[i]
                && r@[i].status == Status::Down,
{
    let cs = chars_of(raw);
    let ls = split_lines(cs.as_slice());
    let ghost all = ls@.map_values(|v: Vec<char>| v@);
    let mut r: Vec<Interface> = Vec::new();
    if ls.len() < 2 {
        return r;
    }
    let mut i: usize = 2;
    while i < ls.len()
        invariant
            all == ls@.map_values(|v: Vec<char>| v@),
            all == lines(raw@),
            2 <= i <= ls@.len(),
            r@.len() == i - 2,
            forall|m: int|
                0 <= m < r@.len() ==> (#[trigger] r@[m]).name@ == device_names(raw@)[m]
                    && r@[m].status == Status::Down,
        decreases ls@.len() - i,
    {
        let ps = split_pieces(ls[i].as_slice(), ':');
        assert(all[i as int] == ls@[i as int]@);
        assert(ps@.map_values(|v: Vec<char>| v@)[0] == ps@[0]@);
        let name = trim_chars(ps[0].as_slice());
        let ghost r0 = r@;
        r.push(Interface { name: string_of(name.as_slice()), status: Status::Down });
        proof {
            assert forall|m: int| 0 <= m < r@.len() implies (#[trigger] r@[m]).name@ == device_names(raw@)[m]
                && r@[m].status == Status::Down by {
                if m < r0.len() {
                    assert(r@[m] == r0[m]);
                }
            }
        }
        i = i + 1;
    }
    r
}

/// How to come by the redirect device.
#[derive(PartialEq, Eq, Debug)]
pub enum IfbChoice {
    /// The named redirect device exists and is up.
    Use(String),
    /// The named redirect device exists but is down: bring it up.
    Activate(String),
    /// There is none: create one.
    Create,
}

/// A redirect device: its name begins with `ifb`.
pub open spec fn is_ifb(i: Interface) -> bool {
    starts_with(i.name@, "ifb"@)
}

/// Picks the first redirect device (a device whose name begins with `ifb`) of
/// `interfaces`, or asks for one to be created.
pub fn acquire_ifb_device(interfaces: &Vec<Interface>) -> (r: IfbChoice)
    ensures
        r is Create <==> forall|i: int| 0 <= i < interfaces@.len() ==> !is_ifb(#[trigger] interfaces@[i]),
        !(r is Create) ==> exists|i: int|
            0 <= i < interfaces@.len() && is_ifb(interfaces@[i]) && (forall|j: int|
                0 <= j < i ==> !is_ifb(#[trigger] interfaces@[j])) && match r {
                IfbChoice::Use(n) => n@ == interfaces@[i].name@ && interfaces@[i].status == Status::Up,
                IfbChoice::Activate(n) => n@ == interfaces@[i].name@ && interfaces@[i].status
                    != Status::Up,
                IfbChoice::Create => false,
            },
{
    let head = chars_of("ifb");
    let mut i: usize = 0;
    while i < interfaces.len()
        invariant
            i <= interfaces@.len(),
            head@ == "ifb"@,
            forall|j: int| 0 <= j < i ==> !is_ifb(#[trigger] interfaces@[j]),
        decreases interfaces@.len() - i,
    {
        let name = chars_of(interfaces[i].name.as_str());
        if has_prefix(name.as_slice(), head.as_slice()) {
            let n = interfaces[i].name.clone();
            if interfaces[i].is_up() {
                return IfbChoice::Use(n);
            } else {
                return IfbChoice::Activate(n);
            }
        }
        i = i + 1;
    }
    IfbChoice::Create
}

/// Some device of `v` is named `n`.
pub open spec fn named_in(v: Seq<Interface>, n: Seq<char>) -> bool {
    exists|i: int| 0 <= i < v.len() && (#[trigger] v[i]).name@ == n
}

fn listed(v: &Vec<Interface>, n: &String) -> (r: bool)
    ensures
        r == named_in(v@, n@),
{
    let mut i: usize = 0;
    while i < v.len()
        invariant
            i <= v@.len(),
            forall|m: int| 0 <= m < i ==> (#[trigger] v@[m]).name@ != n@,
        decreases v@.len() - i,
    {
        if v[i].name == *n {
            return true;
        }
        i = i + 1;
    }
    false
}

/// Why no single new device could be told apart.
#[derive(PartialEq, Eq, Structural, Clone, Copy, Debug)]
pub enum NewDeviceError {
    /// No device appeared.
    NoneAppeared,
    /// More than one device appeared.
    Several,
}

/// The device that loading the redirect module created: the one entry of `after`
/// (the devices listed afterwards) whose name `before` lacks.
pub fn created_ifb_device(before: &Vec<Interface>, after: &Vec<Interface>) -> (r: Result<String, NewDeviceError>)
    ensures
        match r {
            Ok(n) => exists|i: int|
                0 <= i < after@.len() && after@[i].name@ == n@ && !named_in(before@, n@) && forall|j: int|
                    0 <= j < after@.len() && j != i ==> named_in(before@, (#[trigger] after@[j]).name@),
            Err(NewDeviceError::NoneAppeared) => forall|j: int|
                0 <= j < after@.len() ==> named_in(before@, (#[trigger] after@[j]).name@),
            Err(NewDeviceError::Several) => exists|a: int, b: int|
                0 <= a < b < after@.len() && !named_in(before@, after@[a].name@) && !named_in(
                    before@,
                    after@[b].name@,
                ),
        },
{
    let mut found: Option<usize> = None;
    let mut j: usize = 0;
    while j < after.len()
        invariant
            j <= after@.len(),
            match found {
                Some(a) => a < j && !named_in(before@, after@[a as int].name@) && forall|m: int|
                    0 <= m < j && m != a ==> named_in(before@, (#[trigger] after@[m]).name@),
                None => forall|m: int| 0 <= m < j ==> named_in(before@, (#[trigger] after@[m]).name@),
            },
        decreases after@.len() - j,
    {
        if !listed(before, &after[j].name) {
            match found {
                Some(a) => {
                    return Err(NewDeviceError::Several);
                },
                None => {
                    found = Some(j);
                },
            }
        }
        j = j + 1;
    }
    match found {
        Some(a) => Ok(after[a].name.clone()),
        None => Err(NewDeviceError::NoneAppeared),
    }
}

/// One established TCP connection of a process.
#[derive(Debug, PartialEq, Eq)]
pub struct Connection {
    pub laddr: String,
    pub lport: usize,
    pub raddr: String,
    pub rport: usize,
}

/// The connections of one process, under the process's name.
#[derive(Debug, PartialEq, Eq)]
pub struct ProcessConnections {
    pub name: String,
    pub connections: Vec<Connection>,
}

pub ghost struct ConnectionView {
    pub laddr: Seq<char>,
    pub lport: usize,
    pub raddr: Seq<char>,
    pub rport: usize,
}

impl View for Connection {
    type V = ConnectionView;

    open spec fn view(&self) -> ConnectionView {
        ConnectionView { laddr: self.laddr@, lport: self.lport, raddr: self.raddr@, rport: self.rport }
    }
}

/// An address in brackets (an IPv6 one) loses them.
pub open spec fn unbracket(a: Seq<char>) -> Seq<char> {
    if a.len() >= 2 && a[0] == '[' && a.last() == ']' {
        a.subrange(1, a.len() - 1)
    } else {
        a
    }
}

/// `address:port` split at the last `:`, the address unbracketed.
pub open spec fn split_endpoint(s: Seq<char>) -> Option<(Seq<char>, Seq<char>)> {
    match last_index(s, ':') {
        Some(k) => Some((unbracket(s.subrange(0, k)), s.subrange(k + 1, s.len() as int))),
        None => None,
    }
}

/// The process that an `ss` row names: the text between the first two `"` of its
/// fifth word, once the local and remote endpoints (third and fourth words) have
/// been read.
pub open spec fn row_process(row: Seq<char>) -> Option<Seq<char>> {
    let w = words(row);
    if w.len() < 5 || split_endpoint(w[2]) is None || split_endpoint(w[3]) is None {
        None
    } else {
        let ps = pieces(w[4], '"');
        if ps.len() < 2 {
            None
        } else {
            Some(ps[1])
        }
    }
}

/// The connection that an `ss` row describes, where its ports read as numbers.
pub open spec fn row_connection(row: Seq<char>) -> Option<ConnectionView> {
    let w = words(row);
    match (split_endpoint(w[2]), split_endpoint(w[3])) {
        (Some((la, lp)), Some((ra, rp))) => match (parse_usize(lp), parse_usize(rp)) {
            (Some(l), Some(r)) => Some(ConnectionView { laddr: la, lport: l, raddr: ra, rport: r }),
            _ => None,
        },
        _ => None,
    }
}

/// No two entries of the table share a process name.
pub open spec fn table_names_unique(t: Seq<ProcessConnections>) -> bool {
    forall|i: int, j: int| 0 <= i < j < t.len() ==> t[i].name@ != t[j].name@
}

/// What reading `row` into the table `t0` gives: `t1`, and whether a connection was
/// read (`ok`).
pub open spec fn row_parsed(t0: Seq<ProcessConnections>, t1: Seq<ProcessConnections>, row: Seq<char>, ok: bool) -> bool {
    match row_process(row) {
        None => !ok && t1 == t0,
        Some(name) => exists|i: int|
            0 <= i < t1.len() && (#[trigger] t1[i]).name@ == name && {
                let before = if i < t0.len() {
                    t0[i].connections@
                } else {
                    Seq::empty()
                };
                &&& i < t0.len() ==> t1.len() == t0.len() && t0[i].name@ == name
                &&& i >= t0.len() ==> i == t0.len() && t1.len() == t0.len() + 1 && forall|m: int|
                    0 <= m < t0.len() ==> t0[m].name@ != name
                &&& forall|m: int| 0 <= m < t0.len() && m != i ==> t1[m] == t0[m]
                &&& match row_connection(row) {
                    Some(c) => ok && t1[i].connections@.len() == before.len() + 1
                        && t1[i].connections@.last()@ == c && t1[i].connections@.drop_last() == before,
                    None => !ok && t1[i].connections@ == before,
                }
            },
    }
}

fn unbracket_chars(a: Vec<char>) -> (r: Vec<char>)
    ensures
        r@ == unbracket(a@),
{
    let n = a.len();
    if n >= 2 && a[0] == '[' && a[n - 1] == ']' {
        slice_chars(a.as_slice(), 1, n - 1)
    } else {
        a
    }
}

fn endpoint(s: &[char]) -> (r: Option<(Vec<char>, Vec<char>)>)
    ensures
        match split_endpoint(s@) {
            Some((a, p)) => r matches Some((ra, rp)) && ra@ == a && rp@ == p,
            None => r is None,
        },
{
    let n = s.len();
    match find_last(s, ':') {
        None => None,
        Some(k) => {
            let a = unbracket_chars(slice_chars(s, 0, k));
            let p = slice_chars(s, k + 1, s.len());
            Some((a, p))
        },
    }
}

/// Reads one row of `ss -n -t -p state established` into `net_table`. Once the row
/// names its process, that process has an entry (a new one, without connections, if
/// it had none); where the ports also read as numbers the connection is appended to
/// it and the result is `Some`.
pub fn ss_parse(row: &str, net_table: &mut Vec<ProcessConnections>) -> (r: Option<()>)
    requires
        table_names_unique(old(net_table)@),
    ensures
        table_names_unique(final(net_table)@),
        row_parsed(old(net_table)@, final(net_table)@, row@, r is Some),
{
    let cs = chars_of(row);
    let w = split_words(cs.as_slice());
    let ghost wv = w@.map_values(|v: Vec<char>| v@);
    if w.len() < 5 {
        return None;
    }
    assert(wv[2] == w@[2]@ && wv[3] == w@[3]@ && wv[4] == w@[4]@);
    let local = match endpoint(w[2].as_slice()) {
        Some(e) => e,
        None => {
            return None;
        },
    };
    let remote = match endpoint(w[3].as_slice()) {
        Some(e) => e,
        None => {
            return None;
        },
    };
    let ps = split_pieces(w[4].as_slice(), '"');
    if ps.len() < 2 {
        return None;
    }
    assert(ps@.map_values(|v: Vec<char>| v@)[1] == ps@[1]@);
    let name = string_of(ps[1].as_slice());
    assert(row_process(row@) == Some(name@));
    let mut idx: usize = 0;
    let mut found = false;
    while idx < net_table.len() && !found
        invariant
            idx <= net_table@.len(),
            net_table@ == old(net_table)@,
            found ==> idx < net_table@.len() && net_table@[idx as int].name@ == name@,
            forall|m: int| 0 <= m < idx ==> (#[trigger] net_table@[m]).name@ != name@,
        decreases net_table@.len() - idx + (if found { 0int } else { 1int }),
    {
        if net_table[idx].name == name {
            found = true;
        } else {
            idx = idx + 1;
        }
    }
    let ghost t0 = net_table@;
    if idx == net_table.len() {
        net_table.push(ProcessConnections { name, connections: Vec::new() });
        proof {
            assert forall|a: int, b: int| 0 <= a < b < net_table@.len() implies net_table@[a].name@
                != net_table@[b].name@ by {
                assert(net_table@[a] == t0[a]);
                if b < t0.len() {
                    assert(net_table@[b] == t0[b]);
                }
            }
        }
    }
    let ghost t1 = net_table@;
    assert(t1[idx as int].name@ == name@);
    assert(idx < t0.len() ==> t1[idx as int] == t0[idx as int]);
    assert(idx >= t0.len() ==> t1[idx as int].connections@ == Seq::<Connection>::empty());
    let lport = parse_usize_chars(local.1.as_slice());
    let rport = parse_usize_chars(remote.1.as_slice());
    match (lport, rport) {
        (Some(l), Some(r)) => {
            let c = Connection {
                laddr: string_of(local.0.as_slice()),
                lport: l,
                raddr: string_of(remote.0.as_slice()),
                rport: r,
            };
            assert(row_connection(row@) == Some(c@));
            let mut entry = net_table.remove(idx);
            entry.connections.push(c);
            net_table.insert(idx, entry);
            proof {
                assert forall|m: int| 0 <= m < t1.len() && m != idx implies net_table@[m] == t1[m] by {
                    if m < idx {
                    } else {
                    }
                }
                assert forall|a: int, b: int| 0 <= a < b < net_table@.len() implies net_table@[a].name@
                    != net_table@[b].name@ by {
                    assert(net_table@[a].name@ == t1[a].name@);
                    assert(net_table@[b].name@ == t1[b].name@);
                }
                assert(net_table@[idx as int].connections@.drop_last() == t1[idx as int].connections@);
                assert(net_table@[idx as int].name@ == name@);
            }
            Some(())
        },
        _ => {
            assert(row_connection(row@) is None);
            assert(net_table@[idx as int].name@ == name@);
            None
        },
    }
}

/// The connections that rows `1..k` of `ls` give process `n`, in row order.
pub open spec fn ss_connections(ls: Seq<Seq<char>>, n: Seq<char>, k: int) -> Seq<ConnectionView>
    decreases k,
{
    if k <= 1 || ls.len() < k {
        seq![]
    } else {
        let prev = ss_connections(ls, n, k - 1);
        let row = ls[k - 1];
        if row_process(row) == Some(n) && row_connection(row) is Some {
            prev.push(row_connection(row)->Some_0)
        } else {
            prev
        }
    }
}

/// Some row among `1..k` of `ls` names process `n`.
pub open spec fn names_row_before(ls: Seq<Seq<char>>, n: Seq<char>, k: int) -> bool {
    exists|j: int| 1 <= j < k && j < ls.len() && row_process(#[trigger] ls[j]) == Some(n)
}

proof fn lemma_ss_connections_named(ls: Seq<Seq<char>>, n: Seq<char>, k: int)
    requires
        ss_connections(ls, n, k).len() > 0,
    ensures
        names_row_before(ls, n, k),
    decreases k,
{
    if k > 1 && ls.len() >= k {
        let row = ls[k - 1];
        if row_process(row) == Some(n) && row_connection(row) is Some {
            assert(row_process(ls[k - 1]) == Some(n));
        } else {
            lemma_ss_connections_named(ls, n, k - 1);
            let j = choose|j: int| 1 <= j < k - 1 && j < ls.len() && row_process(#[trigger] ls[j]) == Some(n);
            assert(row_process(ls[j]) == Some(n));
        }
    }
}

/// The views of the connections `cs`.
pub open spec fn conn_views(cs: Seq<Connection>) -> Seq<ConnectionView> {
    cs.map_values(|c: Connection| c@)
}

/// Some row of `ls` after the header names process `n`.
pub open spec fn names_row(ls: Seq<Seq<char>>, n: Seq<char>) -> bool {
    exists|k: int| 1 <= k < ls.len() && row_process(#[trigger] ls[k]) == Some(n)
}

/// Reads the output of `ss -n -t -p state established` (a header line, then one row
/// per connection) into the connections of each process: one entry per process that
/// a row names, holding the connections of its rows in order.
pub fn ss(raw: &str) -> (r: Vec<ProcessConnections>)
    ensures
        table_names_unique(r@),
        forall|i: int| 0 <= i < r@.len() ==> names_row(lines(raw@), (#[trigger] r@[i]).name@),
        forall|k: int|
            1 <= k < lines(raw@).len() && #[trigger] row_process(lines(raw@)[k]) is Some ==> exists|i: int|
                0 <= i < r@.len() && Some(r@[i].name@) == row_process(lines(raw@)[k]),
        forall|i: int|
            0 <= i < r@.len() ==> conn_views((#[trigger] r@[i]).connections@) == ss_connections(
                lines(raw@),
                r@[i].name@,
                lines(raw@).len() as int,
            ),
{
    let cs = chars_of(raw);
    let ls = split_lines(cs.as_slice());
    let ghost all = ls@.map_values(|v: Vec<char>| v@);
    let mut table: Vec<ProcessConnections> = Vec::new();
    if ls.len() == 0 {
        return table;
    }
    let mut i: usize = 1;
    while i < ls.len()
        invariant
            all == ls@.map_values(|v: Vec<char>| v@),
            all == lines(raw@),
            1 <= i <= ls@.len(),
            table_names_unique(table@),
            forall|m: int| 0 <= m < table@.len() ==> names_row(all, (#[trigger] table@[m]).name@),
            forall|k: int|
                1 <= k < i && k < all.len() && #[trigger] row_process(all[k]) is Some ==> exists|m: int|
                    0 <= m < table@.len() && Some(table@[m].name@) == row_process(all[k]),
            forall|m: int|
                0 <= m < table@.len() ==> conn_views((#[trigger] table@[m]).connections@) == ss_connections(
                    all,
                    table@[m].name@,
                    i as int,
                ),
        decreases ls@.len() - i,
    {
        let row = string_of(ls[i].as_slice());
        assert(all[i as int] == row@);
        let ghost t0 = table@;
        let ok = ss_parse(row.as_str(), &mut table);
        proof {
            lemma_ss_step(all, i as int, t0, table@, ok is Some);
        }
        i = i + 1;
    }
    table
}

/// One row read into the table keeps the table's account of rows `1..k` true for
/// rows `1..k+1`.
proof fn lemma_ss_step(all: Seq<Seq<char>>, k: int, t0: Seq<ProcessConnections>, t1: Seq<ProcessConnections>, ok: bool)
    requires
        1 <= k < all.len(),
        table_names_unique(t0),
        row_parsed(t0, t1, all[k], ok),
        forall|m: int| 0 <= m < t0.len() ==> names_row(all, (#[trigger] t0[m]).name@),
        forall|j: int|
            1 <= j < k && j < all.len() && #[trigger] row_process(all[j]) is Some ==> exists|m: int|
                0 <= m < t0.len() && Some(t0[m].name@) == row_process(all[j]),
        forall|m: int|
            0 <= m < t0.len() ==> conn_views((#[trigger] t0[m]).connections@) == ss_connections(all, t0[m].name@, k),
    ensures
        forall|m: int| 0 <= m < t1.len() ==> names_row(all, (#[trigger] t1[m]).name@),
        forall|j: int|
            1 <= j < k + 1 && j < all.len() && #[trigger] row_process(all[j]) is Some ==> exists|m: int|
                0 <= m < t1.len() && Some(t1[m].name@) == row_process(all[j]),
        forall|m: int|
            0 <= m < t1.len() ==> conn_views((#[trigger] t1[m]).connections@) == ss_connections(all, t1[m].name@, k + 1),
{
    let row = all[k];
    match row_process(row) {
        None => {
            assert forall|m: int| 0 <= m < t1.len() implies conn_views((#[trigger] t1[m]).connections@) == ss_connections(all, t1[m].name@, k + 1) by {
                assert(t1[m] == t0[m]);
            }
        },
        Some(name) => {
            let w = choose|w: int| 0 <= w < t1.len() && (#[trigger] t1[w]).name@ == name && {
                let before = if w < t0.len() {
                    t0[w].connections@
                } else {
                    Seq::empty()
                };
                &&& w < t0.len() ==> t1.len() == t0.len() && t0[w].name@ == name
                &&& w >= t0.len() ==> w == t0.len() && t1.len() == t0.len() + 1 && forall|m: int|
                    0 <= m < t0.len() ==> t0[m].name@ != name
                &&& forall|m: int| 0 <= m < t0.len() && m != w ==> t1[m] == t0[m]
                &&& match row_connection(row) {
                    Some(c) => ok && t1[w].connections@.len() == before.len() + 1
                        && t1[w].connections@.last()@ == c && t1[w].connections@.drop_last() == before,
                    None => !ok && t1[w].connections@ == before,
                }
            };
            let before = if w < t0.len() {
                t0[w].connections@
            } else {
                Seq::empty()
            };
            if w >= t0.len() {
                // a process that had no entry had no connections so far
                if ss_connections(all, name, k).len() > 0 {
                    lemma_ss_connections_named(all, name, k);
                    let j = choose|j: int| 1 <= j < k && j < all.len() && row_process(#[trigger] all[j]) == Some(name);
                    let m = choose|m: int| 0 <= m < t0.len() && Some(t0[m].name@) == row_process(all[j]);
                    assert(t0[m].name@ != name);
                }
                assert(conn_views(before) =~= ss_connections(all, name, k));
            } else {
                assert(t0[w].name@ == name);
            }
            assert(conn_views(before) == ss_connections(all, name, k));
            match row_connection(row) {
                Some(c) => {
                    assert(t1[w].connections@ == before.push(t1[w].connections@.last()));
                    assert(conn_views(t1[w].connections@) =~= conn_views(before).push(c));
                },
                None => {},
            }
            assert forall|m: int| 0 <= m < t1.len() implies conn_views((#[trigger] t1[m]).connections@) == ss_connections(all, t1[m].name@, k + 1) by {
                if m != w {
                    assert(m < t0.len());
                    assert(t1[m] == t0[m]);
                    if w < t0.len() {
                        assert(t0[m].name@ != t0[w].name@);
                    }
                }
            }
            assert forall|m: int| 0 <= m < t1.len() implies names_row(all, (#[trigger] t1[m]).name@) by {
                if m != w {
                    assert(t1[m] == t0[m]);
                } else {
                    assert(row_process(all[k]) == Some(t1[m].name@));
                }
            }
            assert forall|j: int|
                1 <= j < k + 1 && j < all.len() && #[trigger] row_process(all[j]) is Some implies exists|m: int|
                    0 <= m < t1.len() && Some(t1[m].name@) == row_process(all[j]) by {
                if j < k {
                    let m = choose|m: int| 0 <= m < t0.len() && Some(t0[m].name@) == row_process(all[j]);
                    if m != w {
                        assert(t1[m] == t0[m]);
                    } else {
                        assert(Some(t1[w].name@) == row_process(all[j]));
                    }
                } else {
                    assert(Some(t1[w].name@) == row_process(all[j]));
                }
            }
        },
    }
}

/// The process and connection that a row of `lsof -i -n -P` describes: an established
/// connection whose ninth word is `laddr:lport->raddr:rport`, its process the first
/// word; a row whose ports do not read as numbers describes none.
pub open spec fn lsof_row(row: Seq<char>) -> Option<(Seq<char>, ConnectionView)> {
    let w = words(row);
    if find_from(row, "ESTABLISHED"@, 0) >= row.len() || w.len() < 9 {
        None
    } else {
        let raw = w[8];
        let a = find_from(raw, "->"@, 0);
        if a >= raw.len() {
            None
        } else {
            let local = pieces(raw.subrange(0, a), ':');
            let remote = pieces(raw.subrange(a + 2, find_from(raw, "->"@, (a + 2) as nat)), ':');
            if local.len() < 2 || remote.len() < 2 {
                None
            } else {
                match (parse_usize(local[1]), parse_usize(remote[1])) {
                    (Some(l), Some(r)) => Some(
                        (w[0], ConnectionView { laddr: local[0], lport: l, raddr: remote[0], rport: r }),
                    ),
                    _ => None,
                }
            }
        }
    }
}

fn lsof_parse_row(row: &Vec<char>) -> (r: Option<(String, Connection)>)
    ensures
        match lsof_row(row@) {
            Some((n, c)) => r matches Some((rn, rc)) && rn@ == n && rc@ == c,
            None => r is None,
        },
{
    let est = chars_of("ESTABLISHED");
    if find_chars_from(row.as_slice(), est.as_slice(), 0) >= row.len() {
        return None;
    }
    let w = split_words(row.as_slice());
    if w.len() < 9 {
        return None;
    }
    let ghost wv = w@.map_values(|v: Vec<char>| v@);
    assert(wv[8] == w@[8]@ && wv[0] == w@[0]@);
    let raw = w[8].as_slice();
    let arrow = chars_of("->");
    proof {
        reveal_strlit("->");
    }
    let a = find_chars_from(raw, arrow.as_slice(), 0);
    if a >= raw.len() {
        return None;
    }
    let b = find_chars_from(raw, arrow.as_slice(), a + 2);
    let local = split_pieces(slice_chars(raw, 0, a).as_slice(), ':');
    let remote_end = if b < a + 2 { a + 2 } else { b };
    proof {
        if b < a + 2 {
            assert(false) by {
                lemma_find_from_at_least(raw@, arrow@, (a + 2) as nat);
            }
        }
    }
    let remote = split_pieces(slice_chars(raw, a + 2, remote_end).as_slice(), ':');
    if local.len() < 2 || remote.len() < 2 {
        return None;
    }
    assert(local@.map_values(|v: Vec<char>| v@)[0] == local@[0]@);
    assert(local@.map_values(|v: Vec<char>| v@)[1] == local@[1]@);
    assert(remote@.map_values(|v: Vec<char>| v@)[0] == remote@[0]@);
    assert(remote@.map_values(|v: Vec<char>| v@)[1] == remote@[1]@);
    match (parse_usize_chars(local[1].as_slice()), parse_usize_chars(remote[1].as_slice())) {
        (Some(l), Some(r)) => Some(
            (
                string_of(w[0].as_slice()),
                Connection {
                    laddr: string_of(local[0].as_slice()),
                    lport: l,
                    raddr: string_of(remote[0].as_slice()),
                    rport: r,
                },
            ),
        ),
        _ => None,
    }
}

/// Adds connection `c` of process `name` to `table`: to its entry, or to a new one.
fn add_connection(table: &mut Vec<ProcessConnections>, name: String, c: Connection)
    requires
        table_names_unique(old(table)@),
    ensures
        table_names_unique(final(table)@),
        exists|i: int|
            0 <= i <= old(table)@.len() && i < final(table)@.len() && (#[trigger] final(table)@[i]).name@ == name@ && final(table)@[i].connections@
                == (if i < old(table)@.len() {
                old(table)@[i].connections@
            } else {
                Seq::empty()
            }).push(c) && (i == old(table)@.len() ==> final(table)@.len() == old(table)@.len() + 1)
                && (i < old(table)@.len() ==> final(table)@.len() == old(table)@.len() && old(table)@[i].name@ == name@)
                && forall|m: int| 0 <= m < old(table)@.len() && m != i ==> final(table)@[m] == old(table)@[m],
{
    let mut idx: usize = 0;
    let mut found = false;
    while idx < table.len() && !found
        invariant
            idx <= table@.len(),
            table@ == old(table)@,
            found ==> idx < table@.len() && table@[idx as int].name@ == name@,
            forall|m: int| 0 <= m < idx ==> (#[trigger] table@[m]).name@ != name@,
        decreases table@.len() - idx + (if found { 0int } else { 1int }),
    {
        if table[idx].name == name {
            found = true;
        } else {
            idx = idx + 1;
        }
    }
    let ghost n = name@;
    let ghost cv = c;
    if !found {
        let ghost t0 = table@;
        table.push(ProcessConnections { name, connections: vec![c] });
        proof {
            assert(table@[idx as int].name@ == n);
            assert(forall|m: int| 0 <= m < t0.len() && m != idx ==> table@[m] == t0[m]);
            assert forall|a: int, b: int| 0 <= a < b < table@.len() implies table@[a].name@ != table@[b].name@ by {
                assert(table@[a] == t0[a]);
                if b < t0.len() {
                    assert(table@[b] == t0[b]);
                }
            }
            assert(table@[idx as int].connections@ == Seq::<Connection>::empty().push(c));
        }
    } else {
        let ghost t1 = table@;
        let mut entry = table.remove(idx);
        entry.connections.push(c);
        table.insert(idx, entry);
        proof {
            assert forall|a: int, b: int| 0 <= a < b < table@.len() implies table@[a].name@ != table@[b].name@ by {
                assert(table@[a].name@ == t1[a].name@);
                assert(table@[b].name@ == t1[b].name@);
            }
            assert forall|m: int| 0 <= m < t1.len() && m != idx implies table@[m] == t1[m] by {}
            assert(table@[idx as int].name@ == n);
            assert(t1[idx as int].name@ == n);
            assert(table@[idx as int].connections@ == t1[idx as int].connections@.push(cv));
        }
    }
}

/// The process of a parsed row.
pub open spec fn row_owner(r: Option<(Seq<char>, ConnectionView)>) -> Option<Seq<char>> {
    match r {
        Some((n, _)) => Some(n),
        None => None,
    }
}

/// Some row of `ls` after the header gives process `n` a connection.
pub open spec fn lsof_names(ls: Seq<Seq<char>>, n: Seq<char>) -> bool {
    exists|k: int| 1 <= k < ls.len() && row_owner(#[trigger] lsof_row(ls[k])) == Some(n)
}

/// The connections that rows `1..k` of `ls` give process `n`, in row order.
pub open spec fn lsof_connections(ls: Seq<Seq<char>>, n: Seq<char>, k: int) -> Seq<ConnectionView>
    decreases k,
{
    if k <= 1 || ls.len() < k {
        seq![]
    } else {
        let prev = lsof_connections(ls, n, k - 1);
        match lsof_row(ls[k - 1]) {
            Some((rn, c)) => if rn == n {
                prev.push(c)
            } else {
                prev
            },
            None => prev,
        }
    }
}

proof fn lemma_lsof_connections_named(ls: Seq<Seq<char>>, n: Seq<char>, k: int)
    requires
        lsof_connections(ls, n, k).len() > 0,
    ensures
        exists|j: int| 1 <= j < k && j < ls.len() && row_owner(#[trigger] lsof_row(ls[j])) == Some(n),
    decreases k,
{
    if k > 1 && ls.len() >= k {
        if row_owner(lsof_row(ls[k - 1])) == Some(n) {
        } else {
            lemma_lsof_connections_named(ls, n, k - 1);
            let j = choose|j: int| 1 <= j < k - 1 && j < ls.len() && row_owner(#[trigger] lsof_row(ls[j])) == Some(n);
            assert(row_owner(lsof_row(ls[j])) == Some(n));
        }
    }
}

/// Reads the output of `lsof -i -n -P` (a header line, then one row per socket) into
/// the established connections of each process: one entry per process that a row
/// gives a connection, holding those connections in row order.
pub fn lsof(raw: &str) -> (r: Vec<ProcessConnections>)
    ensures
        table_names_unique(r@),
        forall|i: int| 0 <= i < r@.len() ==> lsof_names(lines(raw@), (#[trigger] r@[i]).name@),
        forall|k: int|
            1 <= k < lines(raw@).len() && #[trigger] lsof_row(lines(raw@)[k]) is Some ==> exists|i: int|
                0 <= i < r@.len() && Some(r@[i].name@) == row_owner(lsof_row(lines(raw@)[k])),
        forall|i: int|
            0 <= i < r@.len() ==> conn_views((#[trigger] r@[i]).connections@) == lsof_connections(
                lines(raw@),
                r@[i].name@,
                lines(raw@).len() as int,
            ),
{
    let cs = chars_of(raw);
    let ls = split_lines(cs.as_slice());
    let ghost all = ls@.map_values(|v: Vec<char>| v@);
    let mut table: Vec<ProcessConnections> = Vec::new();
    if ls.len() == 0 {
        return table;
    }
    let mut i: usize = 1;
    while i < ls.len()
        invariant
            all == ls@.map_values(|v: Vec<char>| v@),
            all == lines(raw@),
            1 <= i <= ls@.len(),
            table_names_unique(table@),
            forall|m: int| 0 <= m < table@.len() ==> lsof_names(all, (#[trigger] table@[m]).name@),
            forall|k: int|
                1 <= k < i && k < all.len() && #[trigger] lsof_row(all[k]) is Some ==> exists|m: int|
                    0 <= m < table@.len() && Some(table@[m].name@) == row_owner(lsof_row(all[k])),
            forall|m: int|
                0 <= m < table@.len() ==> conn_views((#[trigger] table@[m]).connections@) == lsof_connections(
                    all,
                    table@[m].name@,
                    i as int,
                ),
        decreases ls@.len() - i,
    {
        assert(all[i as int] == ls@[i as int]@);
        let ghost t0 = table@;
        match lsof_parse_row(&ls[i]) {
            Some((name, c)) => {
                let ghost n = name@;
                let ghost cg = c;
                add_connection(&mut table, name, c);
                proof {
                    lemma_lsof_step(all, i as int, t0, table@, n, cg@, cg);
                }
            },
            None => {
                proof {
                    assert forall|m: int| 0 <= m < table@.len() implies conn_views((#[trigger] table@[m]).connections@)
                        == lsof_connections(all, table@[m].name@, i + 1) by {}
                }
            },
        }
        i = i + 1;
    }
    table
}

/// Row `k` giving process `n` connection `c` keeps the table's account of rows `1..k`
/// true for rows `1..k+1`.
proof fn lemma_lsof_step(
    all: Seq<Seq<char>>,
    k: int,
    t0: Seq<ProcessConnections>,
    t1: Seq<ProcessConnections>,
    n: Seq<char>,
    cv: ConnectionView,
    c: Connection,
)
    requires
        1 <= k < all.len(),
        lsof_row(all[k]) == Some((n, cv)),
        table_names_unique(t0),
        forall|m: int| 0 <= m < t0.len() ==> lsof_names(all, (#[trigger] t0[m]).name@),
        forall|j: int|
            1 <= j < k && j < all.len() && #[trigger] lsof_row(all[j]) is Some ==> exists|m: int|
                0 <= m < t0.len() && Some(t0[m].name@) == row_owner(lsof_row(all[j])),
        forall|m: int|
            0 <= m < t0.len() ==> conn_views((#[trigger] t0[m]).connections@) == lsof_connections(all, t0[m].name@, k),
        c@ == cv,
        exists|i: int|
            0 <= i <= t0.len() && i < t1.len() && (#[trigger] t1[i]).name@ == n && t1[i].connections@
                == (if i < t0.len() {
                t0[i].connections@
            } else {
                Seq::empty()
            }).push(c) && (i == t0.len() ==> t1.len() == t0.len() + 1)
                && (i < t0.len() ==> t1.len() == t0.len() && t0[i].name@ == n)
                && forall|m: int| 0 <= m < t0.len() && m != i ==> t1[m] == t0[m],
        table_names_unique(t1),
    ensures
        forall|m: int| 0 <= m < t1.len() ==> lsof_names(all, (#[trigger] t1[m]).name@),
        forall|j: int|
            1 <= j < k + 1 && j < all.len() && #[trigger] lsof_row(all[j]) is Some ==> exists|m: int|
                0 <= m < t1.len() && Some(t1[m].name@) == row_owner(lsof_row(all[j])),
        forall|m: int|
            0 <= m < t1.len() ==> conn_views((#[trigger] t1[m]).connections@) == lsof_connections(all, t1[m].name@, k + 1),
{
    let w = choose|i: int|
        0 <= i <= t0.len() && i < t1.len() && (#[trigger] t1[i]).name@ == n && t1[i].connections@
            == (if i < t0.len() {
            t0[i].connections@
        } else {
            Seq::empty()
        }).push(c) && (i == t0.len() ==> t1.len() == t0.len() + 1)
            && (i < t0.len() ==> t1.len() == t0.len() && t0[i].name@ == n)
            && forall|m: int| 0 <= m < t0.len() && m != i ==> t1[m] == t0[m];
    let before = if w < t0.len() {
        t0[w].connections@
    } else {
        Seq::empty()
    };
    if w == t0.len() {
        if lsof_connections(all, n, k).len() > 0 {
            lemma_lsof_connections_named(all, n, k);
            let j = choose|j: int| 1 <= j < k && j < all.len() && row_owner(#[trigger] lsof_row(all[j])) == Some(n);
            let m = choose|m: int| 0 <= m < t0.len() && Some(t0[m].name@) == row_owner(lsof_row(all[j]));
            assert(t1[m] == t0[m]);
            assert(t1[m].name@ == t1[w].name@);
        }
        assert(conn_views(before) =~= lsof_connections(all, n, k));
    }
    assert(conn_views(before) == lsof_connections(all, n, k));
    assert(conn_views(t1[w].connections@) =~= conn_views(before).push(cv));
    assert forall|m: int| 0 <= m < t1.len() implies conn_views((#[trigger] t1[m]).connections@) == lsof_connections(all, t1[m].name@, k + 1) by {
        if m != w {
            assert(m < t0.len());
            assert(t1[m] == t0[m]);
            assert(t1[m].name@ != t1[w].name@);
        }
    }
    assert forall|m: int| 0 <= m < t1.len() implies lsof_names(all, (#[trigger] t1[m]).name@) by {
        if m != w {
            assert(t1[m] == t0[m]);
        } else {
            assert(row_owner(lsof_row(all[k])) == Some(t1[m].name@));
        }
    }
    assert forall|j: int|
        1 <= j < k + 1 && j < all.len() && #[trigger] lsof_row(all[j]) is Some implies exists|m: int|
            0 <= m < t1.len() && Some(t1[m].name@) == row_owner(lsof_row(all[j])) by {
        if j < k {
            let m = choose|m: int| 0 <= m < t0.len() && Some(t0[m].name@) == row_owner(lsof_row(all[j]));
            if m != w {
                assert(t1[m] == t0[m]);
            } else {
                assert(t0[w].name@ == t1[w].name@);
            }
        } else {
            assert(Some(t1[w].name@) == row_owner(lsof_row(all[j])));
        }
    }
}

} // verus!
