//! Traffic-control operations: the commands that build and tear down the shaping
//! hierarchy, and the reading of the tool's listings that they depend on.
use vstd::prelude::*;

use crate::ids::{find_free_ids, smallest_free};
use crate::scan::{acquire_ifb_device, created_ifb_device, device_names, ifconfig, is_ifb, named_in, IfbChoice, Interface, NewDeviceError, Status};
use crate::text::{
    chars_of, decimal, find_chars_from, find_from, has_prefix, push_decimal, push_str, lines, parse_hex, parse_hex_chars, parse_usize,
    parse_usize_chars, pieces, split_lines, split_pieces, split_words, starts_with, string_of,
    words,
};

verus! {

/// The least rate a class can be given, and the default guaranteed floor.
pub const MIN_RATE: &'static str = "8";

/// The greatest rate the tool can represent (it stores rates as 32-bit integers);
/// the default ceiling, meaning no limit.
pub const MAX_RATE: &'static str = "4294967295";

/// The parent identifier under which the ingress discipline is listed.
pub const INGRESS_QDISC_PARENT_ID: &'static str = "ffff:fff1";

/// One direction's root of the shaping hierarchy: an HTB discipline on `device` with
/// identifier `id`, and the root class `root_class_id` under it.
#[derive(Debug)]
pub struct QDisc {
    pub device: String,
    pub id: usize,
    pub root_class_id: usize,
}

impl QDisc {
    /// A copy of this handle.
    pub fn duplicate(&self) -> (r: QDisc)
        ensures
            r == *self,
    {
        QDisc { device: self.device.clone(), id: self.id, root_class_id: self.root_class_id }
    }
}

/// Why a traffic-control step could not go on.
#[derive(PartialEq, Eq, Structural, Clone, Copy, Debug)]
pub enum TcError {
    /// A listing holds an identifier that does not read as a number.
    UnreadableListing,
    /// Every identifier that fits is taken.
    IdSpaceExhausted,
    /// Adding a filter left no new filter identifier in the listing.
    NoNewFilter,
    /// Loading the redirect module created no new device.
    NoNewDevice,
    /// Loading the redirect module created more than one new device.
    ManyNewDevices,
}

/// What a `qdisc show` line says: `None` for a line that names no discipline,
/// `Some(None)` for an identifier that reads neither as decimal nor as hexadecimal
/// (the ingress discipline is listed as `ffff:`).
pub open spec fn qdisc_line_id(line: Seq<char>) -> Option<Option<usize>> {
    if !starts_with(line, "qdisc"@) || words(line).len() < 3 {
        None
    } else {
        let h = pieces(words(line)[2], ':')[0];
        match parse_usize(h) {
            Some(v) => Some(Some(v)),
            None => Some(parse_hex(h)),
        }
    }
}

/// What a `class show` line says of the classes under discipline `qdisc_id`: `None`
/// for a line that names none of them, `Some(None)` for an identifier that does not
/// read as a number.
pub open spec fn class_line_id(line: Seq<char>, qdisc_id: usize) -> Option<Option<usize>> {
    if !starts_with(line, "class"@) || words(line).len() < 3 {
        None
    } else {
        let ps = pieces(words(line)[2], ':');
        match parse_usize(ps[0]) {
            None => Some(None),
            Some(q) => if q != qdisc_id || ps.len() < 2 {
                None
            } else {
                Some(parse_usize(ps[1]))
            },
        }
    }
}

/// Prepends `acc` to a result that may have failed.
pub open spec fn prepend(acc: Seq<usize>, rest: Option<Seq<usize>>) -> Option<Seq<usize>> {
    match rest {
        Some(r) => Some(acc + r),
        None => None,
    }
}

/// The identifiers that the listing lines `ls` hold, in order, or `None` if one of
/// them does not read; `class_of` is `None` for a discipline listing and the parent
/// discipline for a class listing.
pub open spec fn listed_ids(ls: Seq<Seq<char>>, class_of: Option<usize>) -> Option<Seq<usize>>
    decreases ls.len(),
{
    if ls.len() == 0 {
        Some(seq![])
    } else {
        let here = match class_of {
            None => qdisc_line_id(ls[0]),
            Some(q) => class_line_id(ls[0], q),
        };
        match here {
            None => listed_ids(ls.drop_first(), class_of),
            Some(None) => None,
            Some(Some(v)) => prepend(seq![v], listed_ids(ls.drop_first(), class_of)),
        }
    }
}

fn qdisc_line(line: &Vec<char>) -> (r: Option<Option<usize>>)
    ensures
        r == qdisc_line_id(line@),
{
    let head = chars_of("qdisc");
    if !has_prefix(line.as_slice(), head.as_slice()) {
        return None;
    }
    let w = split_words(line.as_slice());
    if w.len() < 3 {
        return None;
    }
    let ps = split_pieces(w[2].as_slice(), ':');
    assert(w@.map_values(|v: Vec<char>| v@)[2] == w@[2]@);
    assert(ps@.map_values(|v: Vec<char>| v@)[0] == ps@[0]@);
    match parse_usize_chars(ps[0].as_slice()) {
        Some(v) => Some(Some(v)),
        None => Some(parse_hex_chars(ps[0].as_slice())),
    }
}

fn class_line(line: &Vec<char>, qdisc_id: usize) -> (r: Option<Option<usize>>)
    ensures
        r == class_line_id(line@, qdisc_id),
{
    let head = chars_of("class");
    if !has_prefix(line.as_slice(), head.as_slice()) {
        return None;
    }
    let w = split_words(line.as_slice());
    if w.len() < 3 {
        return None;
    }
    let ps = split_pieces(w[2].as_slice(), ':');
    assert(w@.map_values(|v: Vec<char>| v@)[2] == w@[2]@);
    assert(ps@.map_values(|v: Vec<char>| v@)[0] == ps@[0]@);
    match parse_usize_chars(ps[0].as_slice()) {
        None => Some(None),
        Some(q) => {
            if q != qdisc_id || ps.len() < 2 {
                None
            } else {
                assert(ps@.map_values(|v: Vec<char>| v@)[1] == ps@[1]@);
                Some(parse_usize_chars(ps[1].as_slice()))
            }
        },
    }
}

/// Reads the identifiers of a listing; see `listed_ids`.
fn read_ids(listing: &str, class_of: Option<usize>) -> (r: Option<Vec<usize>>)
    ensures
        match listed_ids(lines(listing@), class_of) {
            Some(ids) => r matches Some(v) && v@ == ids,
            None => r is None,
        },
{
    let cs = chars_of(listing);
    let ls = split_lines(cs.as_slice());
    let ghost all = ls@.map_values(|v: Vec<char>| v@);
    let mut ids: Vec<usize> = Vec::new();
    let mut i: usize = 0;
    assert(all.skip(0) == all);
    while i < ls.len()
        invariant
            all == ls@.map_values(|v: Vec<char>| v@),
            all == lines(listing@),
            i <= ls@.len(),
            listed_ids(all, class_of) == prepend(ids@, listed_ids(all.skip(i as int), class_of)),
        decreases ls@.len() - i,
    {
        let ghost rest = all.skip(i as int);
        assert(rest[0] == ls@[i as int]@);
        assert(rest.drop_first() == all.skip(i + 1));
        let here = match class_of {
            None => qdisc_line(&ls[i]),
            Some(q) => class_line(&ls[i], q),
        };
        match here {
            None => {},
            Some(None) => {
                return None;
            },
            Some(Some(v)) => {
                let ghost before = ids@;
                ids.push(v);
                proof {
                    match listed_ids(all.skip(i + 1), class_of) {
                        Some(r) => {
                            assert(before + (seq![v] + r) == ids@ + r);
                        },
                        None => {},
                    }
                }
            },
        }
        i = i + 1;
    }
    assert(all.skip(ls@.len() as int) == Seq::<Seq<char>>::empty());
    assert(ids@ + Seq::<usize>::empty() == ids@);
    Some(ids)
}

/// Allocates from the listing's identifiers; see `listed_ids`.
fn free_id(listing: &str, class_of: Option<usize>) -> (r: Result<usize, TcError>)
    ensures
        match listed_ids(lines(listing@), class_of) {
            Some(ids) => if ids.len() < usize::MAX {
                r matches Ok(v) && smallest_free(ids, v as int)
            } else {
                r == Err::<usize, TcError>(TcError::IdSpaceExhausted)
            },
            None => r == Err::<usize, TcError>(TcError::UnreadableListing),
        },
{
    match read_ids(listing, class_of) {
        None => Err(TcError::UnreadableListing),
        Some(ids) => {
            if ids.len() == usize::MAX {
                Err(TcError::IdSpaceExhausted)
            } else {
                Ok(find_free_ids(&ids))
            }
        },
    }
}

/// The smallest free discipline identifier, from a `tc qdisc show` listing.
pub fn get_free_qdisc_id(listing: &str) -> (r: Result<usize, TcError>)
    ensures
        match listed_ids(lines(listing@), None) {
            Some(ids) => if ids.len() < usize::MAX {
                r matches Ok(v) && smallest_free(ids, v as int)
            } else {
                r == Err::<usize, TcError>(TcError::IdSpaceExhausted)
            },
            None => r == Err::<usize, TcError>(TcError::UnreadableListing),
        },
{
    free_id(listing, None)
}

/// The smallest free class identifier under discipline `qdisc_id`, from a
/// `tc class show` listing.
pub fn get_free_class_id(listing: &str, qdisc_id: usize) -> (r: Result<usize, TcError>)
    ensures
        match listed_ids(lines(listing@), Some(qdisc_id)) {
            Some(ids) => if ids.len() < usize::MAX {
                r matches Ok(v) && smallest_free(ids, v as int)
            } else {
                r == Err::<usize, TcError>(TcError::IdSpaceExhausted)
            },
            None => r == Err::<usize, TcError>(TcError::UnreadableListing),
        },
{
    free_id(listing, Some(qdisc_id))
}

/// A filter handle as the listing shows it: two parts around a single `::`.
pub open spec fn is_filter_handle(h: Seq<char>) -> bool {
    let first = find_from(h, "::"@, 0);
    first < h.len() && find_from(h, "::"@, (first + 2) as nat) == h.len()
}

/// The filter handle that a `filter show` line names, if any: its twelfth word.
pub open spec fn filter_line_id(line: Seq<char>) -> Option<Seq<char>> {
    if starts_with(line, "filter"@) && words(line).len() > 11 && is_filter_handle(words(line)[11]) {
        Some(words(line)[11])
    } else {
        None
    }
}

/// Some line of `ls` names filter `id`.
pub open spec fn lists_filter(ls: Seq<Seq<char>>, id: Seq<char>) -> bool {
    exists|i: int| 0 <= i < ls.len() && filter_line_id(#[trigger] ls[i]) == Some(id)
}

/// Some string of `v` reads `x`.
pub open spec fn holds_string(v: Seq<String>, x: Seq<char>) -> bool {
    exists|i: int| 0 <= i < v.len() && (#[trigger] v[i])@ == x
}

/// No two strings of `v` read the same.
pub open spec fn strings_distinct(v: Seq<String>) -> bool {
    forall|i: int, j: int| 0 <= i < j < v.len() ==> v[i]@ != v[j]@
}

fn filter_line(line: &Vec<char>) -> (r: Option<Vec<char>>)
    ensures
        match filter_line_id(line@) {
            Some(id) => r matches Some(v) && v@ == id,
            None => r is None,
        },
{
    let head = chars_of("filter");
    if !has_prefix(line.as_slice(), head.as_slice()) {
        return None;
    }
    let w = split_words(line.as_slice());
    if w.len() <= 11 {
        return None;
    }
    assert(w@.map_values(|v: Vec<char>| v@)[11] == w@[11]@);
    let h = w[11].as_slice();
    let sep = chars_of("::");
    proof {
        reveal_strlit("::");
    }
    let first = find_chars_from(h, sep.as_slice(), 0);
    if first >= h.len() {
        return None;
    }
    let second = find_chars_from(h, sep.as_slice(), first + 2);
    if second != h.len() {
        return None;
    }
    Some(w[11].clone())
}

fn contains_string(v: &Vec<String>, x: &String) -> (r: bool)
    ensures
        r == holds_string(v@, x@),
{
    let mut i: usize = 0;
    while i < v.len()
        invariant
            i <= v@.len(),
            forall|m: int| 0 <= m < i ==> (#[trigger] v@[m])@ != x@,
        decreases v@.len() - i,
    {
        if v[i] == *x {
            return true;
        }
        i = i + 1;
    }
    false
}

/// The filter handles that a `tc filter show` listing names, each once, in order.
pub fn get_filter_ids(listing: &str) -> (r: Vec<String>)
    ensures
        strings_distinct(r@),
        forall|id: Seq<char>| holds_string(r@, id) <==> lists_filter(lines(listing@), id),
{
    let cs = chars_of(listing);
    let ls = split_lines(cs.as_slice());
    let ghost all = ls@.map_values(|v: Vec<char>| v@);
    let mut ids: Vec<String> = Vec::new();
    let mut i: usize = 0;
    while i < ls.len()
        invariant
            all == ls@.map_values(|v: Vec<char>| v@),
            all == lines(listing@),
            i <= ls@.len(),
            strings_distinct(ids@),
            forall|id: Seq<char>|
                holds_string(ids@, id) <==> exists|m: int| 0 <= m < i && filter_line_id(#[trigger] all[m]) == Some(id),
        decreases ls@.len() - i,
    {
        assert(all[i as int] == ls@[i as int]@);
        let ghost i0 = ids@;
        match filter_line(&ls[i]) {
            None => {},
            Some(h) => {
                let hs = string_of(h.as_slice());
                let known = contains_string(&ids, &hs);
                if !known {
                    ids.push(hs);
                    proof {
                        assert forall|a: int, b: int| 0 <= a < b < ids@.len() implies ids@[a]@ != ids@[b]@ by {
                            assert(ids@[a] == i0[a]);
                            if b < i0.len() {
                                assert(ids@[b] == i0[b]);
                            }
                        }
                    }
                }
            },
        }
        proof {
            assert forall|id: Seq<char>| holds_string(ids@, id) <==> exists|m: int| 0 <= m < i + 1 && filter_line_id(#[trigger] all[m]) == Some(id) by {
                if holds_string(ids@, id) {
                    let x = choose|x: int| 0 <= x < ids@.len() && (#[trigger] ids@[x])@ == id;
                    if x < i0.len() {
                        assert(ids@[x] == i0[x]);
                        assert(holds_string(i0, id));
                    } else {
                        assert(filter_line_id(all[i as int]) == Some(id));
                    }
                }
                if exists|m: int| 0 <= m < i + 1 && filter_line_id(#[trigger] all[m]) == Some(id) {
                    let m = choose|m: int| 0 <= m < i + 1 && filter_line_id(#[trigger] all[m]) == Some(id);
                    if m < i {
                        assert(exists|m2: int| 0 <= m2 < i && filter_line_id(#[trigger] all[m2]) == Some(id));
                        assert(holds_string(i0, id));
                        let x = choose|x: int| 0 <= x < i0.len() && (#[trigger] i0[x])@ == id;
                        assert(ids@[x] == i0[x]);
                    } else if ids@.len() > i0.len() {
                        assert(ids@[i0.len() as int]@ == id);
                    } else {
                        assert(holds_string(i0, id));
                        let x = choose|x: int| 0 <= x < i0.len() && (#[trigger] i0[x])@ == id;
                        assert(ids@[x] == i0[x]);
                    }
                }
            }
        }
        i = i + 1;
    }
    ids
}

/// The handles of `after` that `before` lacks, in the order of `after`.
pub fn new_filter_ids(before: &Vec<String>, after: &Vec<String>) -> (r: Vec<String>)
    ensures
        forall|x: Seq<char>| holds_string(r@, x) <==> holds_string(after@, x) && !holds_string(before@, x),
        forall|m: int| 0 <= m < r@.len() ==> holds_string(after@, (#[trigger] r@[m])@),
{
    let mut r: Vec<String> = Vec::new();
    let mut i: usize = 0;
    while i < after.len()
        invariant
            i <= after@.len(),
            forall|x: Seq<char>| holds_string(r@, x) <==> (exists|m: int| 0 <= m < i && (#[trigger] after@[m])@ == x) && !holds_string(before@, x),
            forall|m: int| 0 <= m < r@.len() ==> holds_string(after@, (#[trigger] r@[m])@),
        decreases after@.len() - i,
    {
        let ghost r0 = r@;
        if !contains_string(before, &after[i]) {
            r.push(after[i].clone());
        }
        proof {
            assert forall|x: Seq<char>| holds_string(r@, x) <==> (exists|m: int| 0 <= m < i + 1 && (#[trigger] after@[m])@ == x) && !holds_string(before@, x) by {
                if holds_string(r@, x) {
                    let y = choose|y: int| 0 <= y < r@.len() && (#[trigger] r@[y])@ == x;
                    if y < r0.len() {
                        assert(r@[y] == r0[y]);
                        assert(holds_string(r0, x));
                    }
                }
                if (exists|m: int| 0 <= m < i + 1 && (#[trigger] after@[m])@ == x) && !holds_string(before@, x) {
                    let m = choose|m: int| 0 <= m < i + 1 && (#[trigger] after@[m])@ == x;
                    if m < i {
                        let y = choose|y: int| 0 <= y < r0.len() && (#[trigger] r0[y])@ == x;
                        assert(r@[y] == r0[y]);
                    } else {
                        assert(r@[r0.len() as int]@ == x);
                    }
                }
            }
            assert forall|m: int| 0 <= m < r@.len() implies holds_string(after@, (#[trigger] r@[m])@) by {
                if m < r0.len() {
                    assert(r@[m] == r0[m]);
                } else {
                    assert(after@[i as int]@ == r@[m]@);
                }
            }
        }
        i = i + 1;
    }
    proof {
        assert forall|x: Seq<char>| holds_string(after@, x) implies exists|m: int| 0 <= m < i && (#[trigger] after@[m])@ == x by {
            let m = choose|m: int| 0 <= m < after@.len() && (#[trigger] after@[m])@ == x;
            assert(0 <= m < i && after@[m]@ == x);
        }
    }
    r
}

/// The handle of the filter that an add created, from the `tc filter show` listings
/// taken before and after it: the first handle that only the second names. Where it
/// names several new ones, that first one is taken.
pub fn tc_add_u32_filter(before: &str, after: &str) -> (r: Result<String, TcError>)
    ensures
        match r {
            Ok(id) => lists_filter(lines(after@), id@) && !lists_filter(lines(before@), id@),
            Err(e) => e == TcError::NoNewFilter && forall|id: Seq<char>|
                lists_filter(lines(after@), id) ==> lists_filter(lines(before@), id),
        },
{
    let b = get_filter_ids(before);
    let a = get_filter_ids(after);
    let fresh = new_filter_ids(&b, &a);
    if fresh.len() == 0 {
        proof {
            assert forall|id: Seq<char>| lists_filter(lines(after@), id) implies lists_filter(lines(before@), id) by {
                if !holds_string(b@, id) {
                    assert(holds_string(a@, id));
                    assert(!holds_string(fresh@, id));
                }
            }
        }
        Err(TcError::NoNewFilter)
    } else {
        proof {
            assert(holds_string(fresh@, fresh@[0]@));
        }
        Ok(fresh[0].clone())
    }
}

/// The decimal digits of `n`.
pub open spec fn dec(n: usize) -> Seq<char> {
    decimal(n as nat)
}

/// The text given, or `d` where none is.
pub open spec fn or_default(o: Option<Seq<char>>, d: Seq<char>) -> Seq<char> {
    match o {
        Some(v) => v,
        None => d,
    }
}

// The command lines of the traffic-control and link tools, as the builder and
// the engine's callers issue them.

/// Installs the ingress discipline on `dev`.
pub open spec fn ingress_qdisc_cmd(dev: Seq<char>) -> Seq<char> {
    "tc qdisc add dev "@ + dev + " handle ffff: ingress"@
}

/// Hands all ingress traffic of `dev` to the egress of `ifb`.
pub open spec fn mirror_cmd(dev: Seq<char>, ifb: Seq<char>) -> Seq<char> {
    "tc filter add dev "@ + dev
        + " parent ffff: protocol ip u32 match u32 0 0 action mirred egress redirect dev "@ + ifb
}

/// Installs an HTB root discipline `qid` on `dev`.
pub open spec fn htb_qdisc_cmd(dev: Seq<char>, qid: usize) -> Seq<char> {
    "tc qdisc add dev "@ + dev + " root handle "@ + dec(qid) + ": htb"@
}

/// Adds the root class `qid:cid` capped at `rate`.
pub open spec fn root_class_cmd(dev: Seq<char>, qid: usize, cid: usize, rate: Seq<char>) -> Seq<char> {
    "tc class add dev "@ + dev + " parent "@ + dec(qid) + ": classid "@ + dec(qid) + ":"@ + dec(cid)
        + " htb rate "@ + rate
}

/// Adds class `cid` under the root class of `q`, guaranteed `rate`, capped at `ceil`.
pub open spec fn htb_class_cmd(
    q: QDisc,
    cid: usize,
    rate: Seq<char>,
    ceil: Seq<char>,
    prio: usize,
) -> Seq<char> {
    "tc class add dev "@ + q.device@ + " parent "@ + dec(q.id) + ":"@ + dec(q.root_class_id)
        + " classid "@ + dec(q.id) + ":"@ + dec(cid) + " htb rate "@ + rate + " ceil "@ + ceil
        + " prio "@ + dec(prio)
}

/// The catch-all filter (priority 2) that routes to class `qid:cid`.
pub open spec fn default_filter_cmd(dev: Seq<char>, qid: usize, cid: usize) -> Seq<char> {
    "tc filter add dev "@ + dev + " parent "@ + dec(qid)
        + ": prio 2 protocol ip u32 match u32 0 0 flowid "@ + dec(qid) + ":"@ + dec(cid)
}

/// A priority-1 filter under `q` that routes traffic matching `predicate` to class `cid`.
pub open spec fn u32_filter_cmd(q: QDisc, predicate: Seq<char>, cid: usize) -> Seq<char> {
    "tc filter add dev "@ + q.device@ + " protocol ip parent "@ + dec(q.id) + ": prio 1 u32 "@
        + predicate + " flowid "@ + dec(q.id) + ":"@ + dec(cid)
}

/// Deletes filter `fid` under `q`.
pub open spec fn remove_filter_cmd(q: QDisc, fid: Seq<char>) -> Seq<char> {
    "tc filter del dev "@ + q.device@ + " parent "@ + dec(q.id) + ": handle "@ + fid
        + " prio 1 protocol ip u32"@
}

/// Deletes the discipline of `dev` at `parent`.
pub open spec fn remove_qdisc_cmd(dev: Seq<char>, parent: Seq<char>) -> Seq<char> {
    "tc qdisc del dev "@ + dev + " parent "@ + parent
}

/// Matches the destination port (ingress) or the source port (egress).
pub open spec fn port_predicate(ingress: bool, port: usize) -> Seq<char> {
    (if ingress {
        "match ip dport "@
    } else {
        "match ip sport "@
    }) + dec(port) + " 0xffff"@
}

/// Brings `dev` up.
pub open spec fn activate_cmd(dev: Seq<char>) -> Seq<char> {
    "ip link set dev "@ + dev + " up"@
}

/// `tc qdisc add dev <device> handle ffff: ingress`
pub fn ingress_qdisc_command(device: &str) -> (r: String)
    ensures
        r@ == ingress_qdisc_cmd(device@),
{
    let mut e: Vec<char> = Vec::new();
    push_str(&mut e, "tc qdisc add dev ");
    push_str(&mut e, device);
    push_str(&mut e, " handle ffff: ingress");
    assert(e@ =~= ingress_qdisc_cmd(device@));
    string_of(e.as_slice())
}

/// The filter that hands all ingress traffic of `device` to the egress of `ifb`.
pub fn mirror_command(device: &str, ifb: &str) -> (r: String)
    ensures
        r@ == mirror_cmd(device@, ifb@),
{
    let mut e: Vec<char> = Vec::new();
    push_str(&mut e, "tc filter add dev ");
    push_str(&mut e, device);
    push_str(&mut e, " parent ffff: protocol ip u32 match u32 0 0 action mirred egress redirect dev ");
    push_str(&mut e, ifb);
    assert(e@ =~= mirror_cmd(device@, ifb@));
    string_of(e.as_slice())
}

/// `tc qdisc add dev <device> root handle <qid>: htb`
pub fn htb_qdisc_command(device: &str, qid: usize) -> (r: String)
    ensures
        r@ == htb_qdisc_cmd(device@, qid),
{
    let mut e: Vec<char> = Vec::new();
    push_str(&mut e, "tc qdisc add dev ");
    push_str(&mut e, device);
    push_str(&mut e, " root handle ");
    push_decimal(&mut e, qid);
    push_str(&mut e, ": htb");
    assert(e@ =~= htb_qdisc_cmd(device@, qid));
    string_of(e.as_slice())
}

/// The root class `<qid>:<cid>` capped at `rate`.
pub fn root_class_command(device: &str, qid: usize, cid: usize, rate: &str) -> (r: String)
    ensures
        r@ == root_class_cmd(device@, qid, cid, rate@),
{
    let mut e: Vec<char> = Vec::new();
    push_str(&mut e, "tc class add dev ");
    push_str(&mut e, device);
    push_str(&mut e, " parent ");
    push_decimal(&mut e, qid);
    push_str(&mut e, ": classid ");
    push_decimal(&mut e, qid);
    push_str(&mut e, ":");
    push_decimal(&mut e, cid);
    push_str(&mut e, " htb rate ");
    push_str(&mut e, rate);
    assert(e@ =~= root_class_cmd(device@, qid, cid, rate@));
    string_of(e.as_slice())
}

/// A class `cid` under the root class of `q`, guaranteed `rate`, capped at `ceil`.
pub fn htb_class_command(q: &QDisc, cid: usize, rate: &str, ceil: &str, prio: usize) -> (r: String)
    ensures
        r@ == htb_class_cmd(*q, cid, rate@, ceil@, prio),
{
    let mut e: Vec<char> = Vec::new();
    push_str(&mut e, "tc class add dev ");
    push_str(&mut e, q.device.as_str());
    push_str(&mut e, " parent ");
    push_decimal(&mut e, q.id);
    push_str(&mut e, ":");
    push_decimal(&mut e, q.root_class_id);
    push_str(&mut e, " classid ");
    push_decimal(&mut e, q.id);
    push_str(&mut e, ":");
    push_decimal(&mut e, cid);
    push_str(&mut e, " htb rate ");
    push_str(&mut e, rate);
    push_str(&mut e, " ceil ");
    push_str(&mut e, ceil);
    push_str(&mut e, " prio ");
    push_decimal(&mut e, prio);
    assert(e@ =~= htb_class_cmd(*q, cid, rate@, ceil@, prio));
    string_of(e.as_slice())
}

/// The catch-all filter, below every port filter, that routes to class `<qid>:<cid>`.
pub fn default_filter_command(device: &str, qid: usize, cid: usize) -> (r: String)
    ensures
        r@ == default_filter_cmd(device@, qid, cid),
{
    let mut e: Vec<char> = Vec::new();
    push_str(&mut e, "tc filter add dev ");
    push_str(&mut e, device);
    push_str(&mut e, " parent ");
    push_decimal(&mut e, qid);
    push_str(&mut e, ": prio 2 protocol ip u32 match u32 0 0 flowid ");
    push_decimal(&mut e, qid);
    push_str(&mut e, ":");
    push_decimal(&mut e, cid);
    assert(e@ =~= default_filter_cmd(device@, qid, cid));
    string_of(e.as_slice())
}

/// A filter under `q` that routes traffic matching `predicate` to class `cid`.
pub fn u32_filter_command(q: &QDisc, predicate: &str, cid: usize) -> (r: String)
    ensures
        r@ == u32_filter_cmd(*q, predicate@, cid),
{
    let mut e: Vec<char> = Vec::new();
    push_str(&mut e, "tc filter add dev ");
    push_str(&mut e, q.device.as_str());
    push_str(&mut e, " protocol ip parent ");
    push_decimal(&mut e, q.id);
    push_str(&mut e, ": prio 1 u32 ");
    push_str(&mut e, predicate);
    push_str(&mut e, " flowid ");
    push_decimal(&mut e, q.id);
    push_str(&mut e, ":");
    push_decimal(&mut e, cid);
    assert(e@ =~= u32_filter_cmd(*q, predicate@, cid));
    string_of(e.as_slice())
}

/// Deletes the filter with handle `filter_id` under `qdisc`.
pub fn tc_remove_u32_filter(qdisc: &QDisc, filter_id: &str) -> (r: String)
    ensures
        r@ == remove_filter_cmd(*qdisc, filter_id@),
{
    let mut e: Vec<char> = Vec::new();
    push_str(&mut e, "tc filter del dev ");
    push_str(&mut e, qdisc.device.as_str());
    push_str(&mut e, " parent ");
    push_decimal(&mut e, qdisc.id);
    push_str(&mut e, ": handle ");
    push_str(&mut e, filter_id);
    push_str(&mut e, " prio 1 protocol ip u32");
    assert(e@ =~= remove_filter_cmd(*qdisc, filter_id@));
    string_of(e.as_slice())
}

/// Deletes the discipline of `device` at `parent`, the root when none is given.
pub fn tc_remove_qdisc(device: &str, parent: Option<&str>) -> (r: String)
    ensures
        r@ == remove_qdisc_cmd(
            device@,
            match parent {
                Some(p) => p@,
                None => "root"@,
            },
        ),
{
    let mut e: Vec<char> = Vec::new();
    push_str(&mut e, "tc qdisc del dev ");
    push_str(&mut e, device);
    push_str(&mut e, " parent ");
    match parent {
        Some(p) => push_str(&mut e, p),
        None => push_str(&mut e, "root"),
    }
    assert(e@ =~= remove_qdisc_cmd(
        device@,
        match parent {
            Some(p) => p@,
            None => "root"@,
        },
    ));
    string_of(e.as_slice())
}

/// The full teardown, in order: the egress root discipline on `ingress_device` (the
/// redirect device), the root discipline of `egress_device`, and its ingress
/// discipline.
pub fn clean_up(ingress_device: &str, egress_device: &str) -> (r: Vec<String>)
    ensures
        r@.len() == 3,
        r@[0]@ == remove_qdisc_cmd(ingress_device@, "root"@),
        r@[1]@ == remove_qdisc_cmd(egress_device@, "root"@),
        r@[2]@ == remove_qdisc_cmd(egress_device@, "ffff:fff1"@),
{
    let mut r: Vec<String> = Vec::new();
    r.push(tc_remove_qdisc(ingress_device, None));
    r.push(tc_remove_qdisc(egress_device, None));
    r.push(tc_remove_qdisc(egress_device, Some(INGRESS_QDISC_PARENT_ID)));
    r
}

fn port_filter_command(ingress: bool, port: usize, qdisc: &QDisc, class_id: usize) -> (r: String)
    ensures
        r@ == u32_filter_cmd(*qdisc, port_predicate(ingress, port), class_id),
{
    let mut e: Vec<char> = Vec::new();
    if ingress {
        push_str(&mut e, "match ip dport ");
    } else {
        push_str(&mut e, "match ip sport ");
    }
    push_decimal(&mut e, port);
    push_str(&mut e, " 0xffff");
    assert(e@ =~= port_predicate(ingress, port));
    let predicate = string_of(e.as_slice());
    u32_filter_command(qdisc, predicate.as_str(), class_id)
}

/// The filter that routes incoming traffic to local `port` into class `class_id`.
pub fn add_ingress_filter(port: usize, ingress_qdisc: &QDisc, class_id: usize) -> (r: String)
    ensures
        r@ == u32_filter_cmd(*ingress_qdisc, port_predicate(true, port), class_id),
{
    port_filter_command(true, port, ingress_qdisc, class_id)
}

/// The filter that routes outgoing traffic from local `port` into class `class_id`.
pub fn add_egress_filter(port: usize, egress_qdisc: &QDisc, class_id: usize) -> (r: String)
    ensures
        r@ == u32_filter_cmd(*egress_qdisc, port_predicate(false, port), class_id),
{
    port_filter_command(false, port, egress_qdisc, class_id)
}

/// `ip link set dev <name> up`
pub fn activate_device(name: &str) -> (r: String)
    ensures
        r@ == activate_cmd(name@),
{
    let mut e: Vec<char> = Vec::new();
    push_str(&mut e, "ip link set dev ");
    push_str(&mut e, name);
    push_str(&mut e, " up");
    assert(e@ =~= activate_cmd(name@));
    string_of(e.as_slice())
}

/// `<tool> <kind> show dev <device>`, the listing command for `kind`.
fn show_command(kind: &str, device: &str) -> (r: String)
    ensures
        r@ == "tc "@ + kind@ + " show dev "@ + device@,
{
    let mut e: Vec<char> = Vec::new();
    push_str(&mut e, "tc ");
    push_str(&mut e, kind);
    push_str(&mut e, " show dev ");
    push_str(&mut e, device);
    assert(e@ =~= "tc "@ + kind@ + " show dev "@ + device@);
    string_of(e.as_slice())
}

/// `tc qdisc show dev <device>`
pub fn qdisc_show_command(device: &str) -> (r: String)
    ensures
        r@ == "tc "@ + "qdisc"@ + " show dev "@ + device@,
{
    show_command("qdisc", device)
}

/// `tc class show dev <device>`
pub fn class_show_command(device: &str) -> (r: String)
    ensures
        r@ == "tc "@ + "class"@ + " show dev "@ + device@,
{
    show_command("class", device)
}

/// `tc filter show dev <device>`
pub fn filter_show_command(device: &str) -> (r: String)
    ensures
        r@ == "tc "@ + "filter"@ + " show dev "@ + device@,
{
    show_command("filter", device)
}

fn opt_text(o: &Option<String>, default: &str) -> (r: String)
    ensures
        r@ == or_default(crate::ipc::opt_view(*o), default@),
{
    match o {
        Some(s) => s.clone(),
        None => string_of(chars_of(default).as_slice()),
    }
}

/// Adds a class under the root class of `qdisc`: its identifier is the smallest free
/// one in `class_listing` (the `tc class show` listing of the device), its guaranteed
/// rate `rate` (by default the minimal one), its cap `ceil` (by default none), its
/// priority `priority` (by default 0). Returns the identifier and the command that
/// adds the class.
pub fn tc_add_htb_class(
    qdisc: &QDisc,
    ceil: Option<String>,
    rate: Option<String>,
    priority: Option<usize>,
    class_listing: &str,
) -> (r: Result<(usize, String), TcError>)
    ensures
        match listed_ids(lines(class_listing@), Some(qdisc.id)) {
            Some(ids) => if ids.len() < usize::MAX {
                r matches Ok((id, cmd)) && smallest_free(ids, id as int) && cmd@ == htb_class_cmd(
                    *qdisc,
                    id,
                    or_default(crate::ipc::opt_view(rate), "8"@),
                    or_default(crate::ipc::opt_view(ceil), "4294967295"@),
                    match priority {
                        Some(p) => p,
                        None => 0,
                    },
                )
            } else {
                r == Err::<(usize, String), TcError>(TcError::IdSpaceExhausted)
            },
            None => r == Err::<(usize, String), TcError>(TcError::UnreadableListing),
        },
{
    let ceil = opt_text(&ceil, MAX_RATE);
    let rate = opt_text(&rate, MIN_RATE);
    let priority = match priority {
        Some(p) => p,
        None => 0,
    };
    let class_id = get_free_class_id(class_listing, qdisc.id)?;
    let cmd = htb_class_command(qdisc, class_id, rate.as_str(), ceil.as_str(), priority);
    Ok((class_id, cmd))
}

/// A step of traffic-control work that the hierarchy builder asks for.
#[derive(PartialEq, Eq, Debug)]
pub enum Request {
    /// Run the command; its output is not needed.
    Run(String),
    /// Run the command and hand back what it prints.
    Read(String),
    /// Hand back the kernel's device table (the text of `/proc/net/dev`).
    ListDevices,
}

pub ghost enum RequestView {
    Run(Seq<char>),
    Read(Seq<char>),
    ListDevices,
}

impl View for Request {
    type V = RequestView;

    open spec fn view(&self) -> RequestView {
        match self {
            Request::Run(c) => RequestView::Run(c@),
            Request::Read(c) => RequestView::Read(c@),
            Request::ListDevices => RequestView::ListDevices,
        }
    }
}

#[derive(PartialEq, Eq, Structural, Clone, Copy, Debug)]
pub enum SetupStage {
    AddIngress,
    ListDevices,
    ActivateIfb,
    LoadIfb,
    ListNewDevices,
    Mirror,
    ShowQdisc,
    AddQdisc,
    ShowRootClass,
    AddRootClass,
    ShowDefaultClass,
    AddDefaultClass,
    AddDefaultFilter,
    Done,
}

/// The building of the two-direction hierarchy on `device`: the ingress discipline
/// that hands incoming traffic to a redirect device, then on the redirect device
/// (download) and on `device` itself (upload) an HTB root discipline, a root class
/// capped at the direction's rate, and a default class with a catch-all filter.
/// `request` says what to do next; `advance` takes what it gave.
#[derive(Debug)]
pub struct TcSetup {
    pub device: String,
    pub download_rate: String,
    pub download_minimum_rate: String,
    pub upload_rate: String,
    pub upload_minimum_rate: String,
    pub download_priority: usize,
    pub upload_priority: usize,
    pub stage: SetupStage,
    /// Whether the upload side is being built (else the download side).
    pub upload: bool,
    pub ifb: String,
    /// The devices listed before the redirect module was loaded.
    pub before: Vec<Interface>,
    pub qdisc_id: usize,
    pub root_class_id: usize,
    pub default_class_id: usize,
    pub ingress: Option<QDisc>,
    pub egress: Option<QDisc>,
}

impl TcSetup {
    /// The device of the side being built.
    pub open spec fn side_device(&self) -> Seq<char> {
        if self.upload {
            self.device@
        } else {
            self.ifb@
        }
    }

    /// The rate cap of the side being built.
    pub open spec fn side_rate(&self) -> Seq<char> {
        if self.upload {
            self.upload_rate@
        } else {
            self.download_rate@
        }
    }

    /// The guaranteed rate of the side's default class.
    pub open spec fn side_floor(&self) -> Seq<char> {
        if self.upload {
            self.upload_minimum_rate@
        } else {
            self.download_minimum_rate@
        }
    }

    /// The priority of the side's default class.
    pub open spec fn side_priority(&self) -> usize {
        if self.upload {
            self.upload_priority
        } else {
            self.download_priority
        }
    }

    /// The root of the side being built, once its identifiers are known.
    pub open spec fn side_handle(&self) -> QDisc {
        QDisc {
            device: if self.upload {
                self.device
            } else {
                self.ifb
            },
            id: self.qdisc_id,
            root_class_id: self.root_class_id,
        }
    }

    /// What the builder asks for at its current stage.
    pub open spec fn next_request(&self) -> Option<RequestView> {
        match self.stage {
            SetupStage::AddIngress => Some(RequestView::Run(ingress_qdisc_cmd(self.device@))),
            SetupStage::ListDevices => Some(RequestView::ListDevices),
            SetupStage::ActivateIfb => Some(RequestView::Run(activate_cmd(self.ifb@))),
            SetupStage::LoadIfb => Some(RequestView::Run("modprobe ifb numifbs=1"@)),
            SetupStage::ListNewDevices => Some(RequestView::ListDevices),
            SetupStage::Mirror => Some(RequestView::Run(mirror_cmd(self.device@, self.ifb@))),
            SetupStage::ShowQdisc => Some(RequestView::Read("tc "@ + "qdisc"@ + " show dev "@ + self.side_device())),
            SetupStage::AddQdisc => Some(RequestView::Run(htb_qdisc_cmd(self.side_device(), self.qdisc_id))),
            SetupStage::ShowRootClass => Some(RequestView::Read("tc "@ + "class"@ + " show dev "@ + self.side_device())),
            SetupStage::AddRootClass => Some(
                RequestView::Run(root_class_cmd(self.side_device(), self.qdisc_id, self.root_class_id, self.side_rate())),
            ),
            SetupStage::ShowDefaultClass => Some(RequestView::Read("tc "@ + "class"@ + " show dev "@ + self.side_device())),
            SetupStage::AddDefaultClass => Some(
                RequestView::Run(
                    htb_class_cmd(self.side_handle(), self.default_class_id, self.side_floor(), self.side_rate(), self.side_priority()),
                ),
            ),
            SetupStage::AddDefaultFilter => Some(
                RequestView::Run(default_filter_cmd(self.side_device(), self.qdisc_id, self.default_class_id)),
            ),
            SetupStage::Done => None,
        }
    }

    /// `self` is `s` at stage `stage`, nothing else changed.
    pub open spec fn moved_to(&self, s: TcSetup, stage: SetupStage) -> bool {
        *self == TcSetup { stage, ..s }
    }

    /// What `advance` does with the output `out` of the current request.
    pub open spec fn advanced(s0: TcSetup, out: Seq<char>, s1: TcSetup, r: Result<(), TcError>) -> bool {
        match s0.stage {
            SetupStage::AddIngress => r is Ok && s1.moved_to(s0, SetupStage::ListDevices),
            SetupStage::ListDevices => {
                let names = device_names(out);
                r is Ok && if exists|i: int| 0 <= i < names.len() && starts_with(#[trigger] names[i], "ifb"@) {
                    exists|i: int|
                        0 <= i < names.len() && starts_with(names[i], "ifb"@) && (forall|j: int|
                            0 <= j < i ==> !starts_with(#[trigger] names[j], "ifb"@)) && s1 == TcSetup {
                            stage: SetupStage::ActivateIfb,
                            ifb: s1.ifb,
                            ..s0
                        } && s1.ifb@ == names[i]
                } else {
                    s1 == TcSetup { stage: SetupStage::LoadIfb, before: s1.before, ..s0 } && s1.before@.len() == names.len()
                        && forall|i: int| 0 <= i < names.len() ==> (#[trigger] s1.before@[i]).name@ == names[i]
                }
            },
            SetupStage::ActivateIfb => r is Ok && s1.moved_to(s0, SetupStage::Mirror),
            SetupStage::LoadIfb => r is Ok && s1.moved_to(s0, SetupStage::ListNewDevices),
            SetupStage::ListNewDevices => {
                let names = device_names(out);
                match r {
                    Ok(_) => exists|i: int|
                        0 <= i < names.len() && !named_in(s0.before@, names[i]) && (forall|j: int|
                            0 <= j < names.len() && j != i ==> named_in(s0.before@, #[trigger] names[j])) && s1
                            == TcSetup { stage: SetupStage::ActivateIfb, ifb: s1.ifb, ..s0 } && s1.ifb@ == names[i],
                    Err(TcError::NoNewDevice) => s1 == s0 && forall|j: int|
                        0 <= j < names.len() ==> named_in(s0.before@, #[trigger] names[j]),
                    Err(TcError::ManyNewDevices) => s1 == s0 && exists|a: int, b: int|
                        0 <= a < b < names.len() && !named_in(s0.before@, names[a]) && !named_in(s0.before@, names[b]),
                    Err(_) => false,
                }
            },
            SetupStage::Mirror => r is Ok && s1 == TcSetup { stage: SetupStage::ShowQdisc, upload: false, ..s0 },
            SetupStage::ShowQdisc => match listed_ids(lines(out), None) {
                Some(ids) => if ids.len() < usize::MAX {
                    r is Ok && s1 == TcSetup { stage: SetupStage::AddQdisc, qdisc_id: s1.qdisc_id, ..s0 }
                        && smallest_free(ids, s1.qdisc_id as int)
                } else {
                    r == Err::<(), TcError>(TcError::IdSpaceExhausted) && s1 == s0
                },
                None => r == Err::<(), TcError>(TcError::UnreadableListing) && s1 == s0,
            },
            SetupStage::AddQdisc => r is Ok && s1.moved_to(s0, SetupStage::ShowRootClass),
            SetupStage::ShowRootClass => match listed_ids(lines(out), Some(s0.qdisc_id)) {
                Some(ids) => if ids.len() < usize::MAX {
                    r is Ok && s1 == TcSetup { stage: SetupStage::AddRootClass, root_class_id: s1.root_class_id, ..s0 }
                        && smallest_free(ids, s1.root_class_id as int)
                } else {
                    r == Err::<(), TcError>(TcError::IdSpaceExhausted) && s1 == s0
                },
                None => r == Err::<(), TcError>(TcError::UnreadableListing) && s1 == s0,
            },
            SetupStage::AddRootClass => r is Ok && s1.moved_to(s0, SetupStage::ShowDefaultClass),
            SetupStage::ShowDefaultClass => match listed_ids(lines(out), Some(s0.qdisc_id)) {
                Some(ids) => if ids.len() < usize::MAX {
                    r is Ok && s1 == TcSetup { stage: SetupStage::AddDefaultClass, default_class_id: s1.default_class_id, ..s0 }
                        && smallest_free(ids, s1.default_class_id as int)
                } else {
                    r == Err::<(), TcError>(TcError::IdSpaceExhausted) && s1 == s0
                },
                None => r == Err::<(), TcError>(TcError::UnreadableListing) && s1 == s0,
            },
            SetupStage::AddDefaultClass => r is Ok && s1.moved_to(s0, SetupStage::AddDefaultFilter),
            SetupStage::AddDefaultFilter => r is Ok && if s0.upload {
                s1 == TcSetup { stage: SetupStage::Done, egress: Some(s0.side_handle()), ..s0 }
            } else {
                s1 == TcSetup { stage: SetupStage::ShowQdisc, upload: true, ingress: Some(s0.side_handle()), ..s0 }
            },
            SetupStage::Done => r is Ok && s1 == s0,
        }
    }
}

/// Starts building the hierarchy on `device`. An absent rate means no cap, an absent
/// minimum rate the minimal floor, an absent priority the highest (0).
pub fn tc_setup(
    device: String,
    download_rate: Option<String>,
    download_minimum_rate: Option<String>,
    upload_rate: Option<String>,
    upload_minimum_rate: Option<String>,
    default_download_priority: Option<usize>,
    default_upload_priority: Option<usize>,
) -> (r: TcSetup)
    ensures
        r.device == device,
        r.download_rate@ == or_default(crate::ipc::opt_view(download_rate), "4294967295"@),
        r.download_minimum_rate@ == or_default(crate::ipc::opt_view(download_minimum_rate), "8"@),
        r.upload_rate@ == or_default(crate::ipc::opt_view(upload_rate), "4294967295"@),
        r.upload_minimum_rate@ == or_default(crate::ipc::opt_view(upload_minimum_rate), "8"@),
        r.download_priority == match default_download_priority {
            Some(p) => p,
            None => 0,
        },
        r.upload_priority == match default_upload_priority {
            Some(p) => p,
            None => 0,
        },
        r.stage == SetupStage::AddIngress,
        !r.upload,
        r.ingress is None,
        r.egress is None,
{
    TcSetup {
        device,
        download_rate: opt_text(&download_rate, MAX_RATE),
        download_minimum_rate: opt_text(&download_minimum_rate, MIN_RATE),
        upload_rate: opt_text(&upload_rate, MAX_RATE),
        upload_minimum_rate: opt_text(&upload_minimum_rate, MIN_RATE),
        download_priority: match default_download_priority {
            Some(p) => p,
            None => 0,
        },
        upload_priority: match default_upload_priority {
            Some(p) => p,
            None => 0,
        },
        stage: SetupStage::AddIngress,
        upload: false,
        ifb: String::new(),
        before: Vec::new(),
        qdisc_id: 0,
        root_class_id: 0,
        default_class_id: 0,
        ingress: None,
        egress: None,
    }
}

impl TcSetup {
    fn side_device_text(&self) -> (r: &String)
        ensures
            r@ == self.side_device(),
            *r == (if self.upload {
                self.device
            } else {
                self.ifb
            }),
    {
        if self.upload {
            &self.device
        } else {
            &self.ifb
        }
    }

    fn side_handle_value(&self) -> (r: QDisc)
        ensures
            r == self.side_handle(),
    {
        QDisc { device: self.side_device_text().clone(), id: self.qdisc_id, root_class_id: self.root_class_id }
    }

    /// What to do next; `None` once the hierarchy stands.
    pub fn request(&self) -> (r: Option<Request>)
        ensures
            match r {
                Some(q) => self.next_request() == Some(q@),
                None => self.next_request() is None,
            },
    {
        match self.stage {
            SetupStage::AddIngress => Some(Request::Run(ingress_qdisc_command(self.device.as_str()))),
            SetupStage::ListDevices => Some(Request::ListDevices),
            SetupStage::ActivateIfb => Some(Request::Run(activate_device(self.ifb.as_str()))),
            SetupStage::LoadIfb => {
                let c = string_of(chars_of("modprobe ifb numifbs=1").as_slice());
                Some(Request::Run(c))
            },
            SetupStage::ListNewDevices => Some(Request::ListDevices),
            SetupStage::Mirror => Some(Request::Run(mirror_command(self.device.as_str(), self.ifb.as_str()))),
            SetupStage::ShowQdisc => Some(Request::Read(qdisc_show_command(self.side_device_text().as_str()))),
            SetupStage::AddQdisc => Some(
                Request::Run(htb_qdisc_command(self.side_device_text().as_str(), self.qdisc_id)),
            ),
            SetupStage::ShowRootClass => Some(Request::Read(class_show_command(self.side_device_text().as_str()))),
            SetupStage::AddRootClass => {
                let rate = if self.upload {
                    &self.upload_rate
                } else {
                    &self.download_rate
                };
                Some(
                    Request::Run(
                        root_class_command(
                            self.side_device_text().as_str(),
                            self.qdisc_id,
                            self.root_class_id,
                            rate.as_str(),
                        ),
                    ),
                )
            },
            SetupStage::ShowDefaultClass => Some(Request::Read(class_show_command(self.side_device_text().as_str()))),
            SetupStage::AddDefaultClass => {
                let (rate, floor, prio) = if self.upload {
                    (&self.upload_rate, &self.upload_minimum_rate, self.upload_priority)
                } else {
                    (&self.download_rate, &self.download_minimum_rate, self.download_priority)
                };
                let handle = self.side_handle_value();
                Some(
                    Request::Run(
                        htb_class_command(&handle, self.default_class_id, floor.as_str(), rate.as_str(), prio),
                    ),
                )
            },
            SetupStage::AddDefaultFilter => Some(
                Request::Run(
                    default_filter_command(self.side_device_text().as_str(), self.qdisc_id, self.default_class_id),
                ),
            ),
            SetupStage::Done => None,
        }
    }

    /// Takes what the current request gave (`output`: the command's output, or the
    /// device table) and moves on; an error ends the building.
    pub fn advance(&mut self, output: &str) -> (r: Result<(), TcError>)
        ensures
            TcSetup::advanced(*old(self), output@, *final(self), r),
    {
        match self.stage {
            SetupStage::AddIngress => {
                self.stage = SetupStage::ListDevices;
                Ok(())
            },
            SetupStage::ListDevices => {
                let devs = ifconfig(output);
                let ghost names = device_names(output@);
                proof {
                    assert forall|i: int| 0 <= i < devs@.len() implies is_ifb(#[trigger] devs@[i]) == starts_with(names[i], "ifb"@) by {}
                }
                match acquire_ifb_device(&devs) {
                    IfbChoice::Use(n) => {
                        proof {
                            let i = choose|i: int| 0 <= i < devs@.len() && is_ifb(devs@[i]) && (forall|j: int|
                                0 <= j < i ==> !is_ifb(#[trigger] devs@[j])) && n@ == devs@[i].name@ && devs@[i].status == Status::Up;
                            assert(devs@[i].status == Status::Down);
                        }
                        self.ifb = n;
                        self.stage = SetupStage::ActivateIfb;
                    },
                    IfbChoice::Activate(n) => {
                        let ghost s0 = *self;
                        self.ifb = n;
                        self.stage = SetupStage::ActivateIfb;
                        proof {
                            let i = choose|i: int| 0 <= i < devs@.len() && is_ifb(devs@[i]) && (forall|j: int|
                                0 <= j < i ==> !is_ifb(#[trigger] devs@[j])) && n@ == devs@[i].name@ && devs@[i].status != Status::Up;
                            assert(starts_with(names[i], "ifb"@));
                            assert forall|j: int| 0 <= j < i implies !starts_with(#[trigger] names[j], "ifb"@) by {
                                assert(!is_ifb(devs@[j]));
                            }
                        }
                    },
                    IfbChoice::Create => {
                        self.before = devs;
                        self.stage = SetupStage::LoadIfb;
                        proof {
                            assert forall|i: int| 0 <= i < names.len() implies !starts_with(#[trigger] names[i], "ifb"@) by {
                                assert(!is_ifb(self.before@[i]));
                            }
                        }
                    },
                }
                Ok(())
            },
            SetupStage::ActivateIfb => {
                self.stage = SetupStage::Mirror;
                Ok(())
            },
            SetupStage::LoadIfb => {
                self.stage = SetupStage::ListNewDevices;
                Ok(())
            },
            SetupStage::ListNewDevices => {
                let after = ifconfig(output);
                let ghost names = device_names(output@);
                match created_ifb_device(&self.before, &after) {
                    Ok(n) => {
                        proof {
                            let i = choose|i: int|
                                0 <= i < after@.len() && after@[i].name@ == n@ && !named_in(self.before@, n@) && forall|j: int|
                                    0 <= j < after@.len() && j != i ==> named_in(self.before@, (#[trigger] after@[j]).name@);
                            assert(names[i] == n@);
                            assert forall|j: int| 0 <= j < names.len() && j != i implies named_in(self.before@, #[trigger] names[j]) by {
                                assert(named_in(self.before@, after@[j].name@));
                            }
                        }
                        self.ifb = n;
                        self.stage = SetupStage::ActivateIfb;
                        Ok(())
                    },
                    Err(NewDeviceError::NoneAppeared) => {
                        proof {
                            assert forall|j: int| 0 <= j < names.len() implies named_in(self.before@, #[trigger] names[j]) by {
                                assert(named_in(self.before@, after@[j].name@));
                            }
                        }
                        Err(TcError::NoNewDevice)
                    },
                    Err(NewDeviceError::Several) => {
                        proof {
                            let (a, b) = choose|a: int, b: int|
                                0 <= a < b < after@.len() && !named_in(self.before@, after@[a].name@) && !named_in(
                                    self.before@,
                                    after@[b].name@,
                                );
                            assert(names[a] == after@[a].name@ && names[b] == after@[b].name@);
                        }
                        Err(TcError::ManyNewDevices)
                    },
                }
            },
            SetupStage::Mirror => {
                self.stage = SetupStage::ShowQdisc;
                self.upload = false;
                Ok(())
            },
            SetupStage::ShowQdisc => {
                let q = get_free_qdisc_id(output)?;
                self.qdisc_id = q;
                self.stage = SetupStage::AddQdisc;
                Ok(())
            },
            SetupStage::AddQdisc => {
                self.stage = SetupStage::ShowRootClass;
                Ok(())
            },
            SetupStage::ShowRootClass => {
                let c = get_free_class_id(output, self.qdisc_id)?;
                self.root_class_id = c;
                self.stage = SetupStage::AddRootClass;
                Ok(())
            },
            SetupStage::AddRootClass => {
                self.stage = SetupStage::ShowDefaultClass;
                Ok(())
            },
            SetupStage::ShowDefaultClass => {
                let c = get_free_class_id(output, self.qdisc_id)?;
                self.default_class_id = c;
                self.stage = SetupStage::AddDefaultClass;
                Ok(())
            },
            SetupStage::AddDefaultClass => {
                self.stage = SetupStage::AddDefaultFilter;
                Ok(())
            },
            SetupStage::AddDefaultFilter => {
                let handle = self.side_handle_value();
                if self.upload {
                    self.egress = Some(handle);
                    self.stage = SetupStage::Done;
                } else {
                    self.ingress = Some(handle);
                    self.upload = true;
                    self.stage = SetupStage::ShowQdisc;
                }
                Ok(())
            },
            SetupStage::Done => Ok(()),
        }
    }

    /// The ingress and egress roots, once the hierarchy stands.
    pub fn result(&self) -> (r: Option<(QDisc, QDisc)>)
        ensures
            match r {
                Some((i, e)) => self.stage == SetupStage::Done && self.ingress == Some(i) && self.egress == Some(e),
                None => !(self.stage == SetupStage::Done && self.ingress is Some && self.egress is Some),
            },
    {
        if self.stage != SetupStage::Done {
            return None;
        }
        match (&self.ingress, &self.egress) {
            (Some(i), Some(e)) => Some((i.duplicate(), e.duplicate())),
            _ => None,
        }
    }
}

} // verus!
