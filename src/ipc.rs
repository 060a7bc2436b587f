//! The line-oriented control protocol: one message per line, fields separated by
//! whitespace, an absent value spelled `None`.
use vstd::prelude::*;

use crate::text::{
    after_prefix, chars_of, decimal, decimal_chars, find_from, has_prefix, is_digit, is_ws,
    join_chars, join_words, lemma_decimal_parses, lemma_join_last, lemma_parse_usize_decimal,
    lemma_words_of_join, no_ws, parse_usize, parse_usize_chars, piece_after_prefix, push_all,
    push_str, same_chars, split_words, starts_with, string_of, trim, trim_chars, trim_end,
    trim_start, words,
};

verus! {

/// Bandwidth limits for the whole device or for one program. An absent value means the
/// implicit default: no cap for a rate, the minimal floor for a minimum rate, the
/// highest priority (0) for a priority.
#[derive(Eq, PartialEq, Debug, Default)]
pub struct LimitConfig {
    pub download_rate: Option<String>,
    pub download_minimum_rate: Option<String>,
    pub upload_rate: Option<String>,
    pub upload_minimum_rate: Option<String>,
    pub download_priority: Option<usize>,
    pub upload_priority: Option<usize>,
}

pub ghost struct LimitView {
    pub download_rate: Option<Seq<char>>,
    pub download_minimum_rate: Option<Seq<char>>,
    pub upload_rate: Option<Seq<char>>,
    pub upload_minimum_rate: Option<Seq<char>>,
    pub download_priority: Option<usize>,
    pub upload_priority: Option<usize>,
}

/// The view of an optional text.
pub open spec fn opt_view(o: Option<String>) -> Option<Seq<char>> {
    match o {
        Some(s) => Some(s@),
        None => None,
    }
}

impl View for LimitConfig {
    type V = LimitView;

    open spec fn view(&self) -> LimitView {
        LimitView {
            download_rate: opt_view(self.download_rate),
            download_minimum_rate: opt_view(self.download_minimum_rate),
            upload_rate: opt_view(self.upload_rate),
            upload_minimum_rate: opt_view(self.upload_minimum_rate),
            download_priority: self.download_priority,
            upload_priority: self.upload_priority,
        }
    }
}

/// A copy of an optional text.
pub fn copy_opt(o: &Option<String>) -> (r: Option<String>)
    ensures
        opt_view(r) == opt_view(*o),
{
    match o {
        Some(s) => Some(s.clone()),
        None => None,
    }
}

impl LimitConfig {
    /// A copy of these limits.
    pub fn duplicate(&self) -> (r: LimitConfig)
        ensures
            r@ == self@,
    {
        LimitConfig {
            download_rate: copy_opt(&self.download_rate),
            download_minimum_rate: copy_opt(&self.download_minimum_rate),
            upload_rate: copy_opt(&self.upload_rate),
            upload_minimum_rate: copy_opt(&self.upload_minimum_rate),
            download_priority: self.download_priority,
            upload_priority: self.upload_priority,
        }
    }
}

/// A control message.
#[derive(Eq, PartialEq, Debug)]
pub enum Message {
    Stop,
    Interface(String),
    Global { config: LimitConfig },
    Program { name: String, config: LimitConfig },
}

pub ghost enum MessageView {
    Stop,
    Interface(Seq<char>),
    Global(LimitView),
    Program(Seq<char>, LimitView),
}

impl View for Message {
    type V = MessageView;

    open spec fn view(&self) -> MessageView {
        match self {
            Message::Stop => MessageView::Stop,
            Message::Interface(n) => MessageView::Interface(n@),
            Message::Global { config } => MessageView::Global(config@),
            Message::Program { name, config } => MessageView::Program(name@, config@),
        }
    }
}

/// Field `k` of the words `w`: absent when missing or spelled `None`.
pub open spec fn field(w: Seq<Seq<char>>, k: int) -> Option<Seq<char>> {
    if 0 <= k < w.len() && w[k] != "None"@ {
        Some(w[k])
    } else {
        None
    }
}

/// Field `k` of the words `w` read as a priority: absent also when it is not a number.
pub open spec fn priority_field(w: Seq<Seq<char>>, k: int) -> Option<usize> {
    match field(w, k) {
        Some(t) => parse_usize(t),
        None => None,
    }
}

/// The limits that the six fields of `w` from `k` on give, in wire order: download,
/// upload, download minimum, upload minimum, download priority, upload priority.
pub open spec fn limits_at(w: Seq<Seq<char>>, k: int) -> LimitView {
    LimitView {
        download_rate: field(w, k),
        upload_rate: field(w, k + 1),
        download_minimum_rate: field(w, k + 2),
        upload_minimum_rate: field(w, k + 3),
        download_priority: priority_field(w, k + 4),
        upload_priority: priority_field(w, k + 5),
    }
}

/// The message that a control line holds, if any.
pub open spec fn parse_message(line: Seq<char>) -> Option<MessageView> {
    let m = trim(line);
    if m == "Stop"@ {
        Some(MessageView::Stop)
    } else if starts_with(m, "Interface: "@) {
        Some(MessageView::Interface(after_prefix(m, "Interface: "@)))
    } else if starts_with(m, "Global: "@) {
        Some(MessageView::Global(limits_at(words(after_prefix(m, "Global: "@)), 0)))
    } else if starts_with(m, "Program: "@) {
        let w = words(after_prefix(m, "Program: "@));
        if w.len() >= 1 {
            Some(MessageView::Program(w[0], limits_at(w, 1)))
        } else {
            None
        }
    } else {
        None
    }
}

/// The error text for a line that holds no message.
pub open spec fn parse_error(line: Seq<char>) -> Seq<char> {
    "failed to parse message: "@ + line
}

/// How a rate is written on the wire.
pub open spec fn rate_token(o: Option<Seq<char>>) -> Seq<char> {
    match o {
        Some(t) => t,
        None => "None"@,
    }
}

/// How a priority is written on the wire.
pub open spec fn priority_token(o: Option<usize>) -> Seq<char> {
    match o {
        Some(n) => decimal(n as nat),
        None => "None"@,
    }
}

/// The six wire fields of `l`, in order.
pub open spec fn limit_tokens(l: LimitView) -> Seq<Seq<char>> {
    seq![
        rate_token(l.download_rate),
        rate_token(l.upload_rate),
        rate_token(l.download_minimum_rate),
        rate_token(l.upload_minimum_rate),
        priority_token(l.download_priority),
        priority_token(l.upload_priority),
    ]
}

/// The control line that carries `m`.
pub open spec fn encode_message(m: MessageView) -> Seq<char> {
    match m {
        MessageView::Stop => "Stop"@,
        MessageView::Interface(n) => "Interface: "@ + n,
        MessageView::Global(l) => "Global: "@ + join_words(limit_tokens(l)),
        MessageView::Program(n, l) => "Program: "@ + join_words(seq![n] + limit_tokens(l)),
    }
}

/// A field that survives being joined by spaces and split again: not empty, no
/// whitespace.
pub open spec fn is_word(t: Seq<char>) -> bool {
    t.len() > 0 && no_ws(t)
}

/// A rate that can be written on the wire: a word other than `None`.
pub open spec fn valid_rate(o: Option<Seq<char>>) -> bool {
    match o {
        Some(t) => is_word(t) && t != "None"@,
        None => true,
    }
}

/// Every rate of `l` can be written on the wire.
pub open spec fn valid_limits(l: LimitView) -> bool {
    &&& valid_rate(l.download_rate)
    &&& valid_rate(l.upload_rate)
    &&& valid_rate(l.download_minimum_rate)
    &&& valid_rate(l.upload_minimum_rate)
}

/// `line` holds `p` at its start and nowhere after it.
pub open spec fn keyword_once(line: Seq<char>, p: Seq<char>) -> bool {
    find_from(line, p, p.len()) == line.len()
}

/// A message whose line reads back as the same message: names and rates are words
/// (an interface name need only not begin or end with whitespace), no rate is the
/// word `None`, and the line holds its keyword only at its start.
pub open spec fn valid_message(m: MessageView) -> bool {
    match m {
        MessageView::Stop => true,
        MessageView::Interface(n) => n.len() > 0 && !is_ws(n[0]) && !is_ws(n.last()) && keyword_once(
            encode_message(m),
            "Interface: "@,
        ),
        MessageView::Global(l) => valid_limits(l) && keyword_once(encode_message(m), "Global: "@),
        MessageView::Program(n, l) => is_word(n) && valid_limits(l) && keyword_once(
            encode_message(m),
            "Program: "@,
        ),
    }
}

fn field_at(w: &Vec<Vec<char>>, k: usize) -> (r: Option<String>)
    ensures
        opt_view(r) == field(w@.map_values(|v: Vec<char>| v@), k as int),
{
    let none = chars_of("None");
    if k < w.len() && !same_chars(w[k].as_slice(), none.as_slice()) {
        Some(string_of(w[k].as_slice()))
    } else {
        None
    }
}

fn priority_at(w: &Vec<Vec<char>>, k: usize) -> (r: Option<usize>)
    ensures
        r == priority_field(w@.map_values(|v: Vec<char>| v@), k as int),
{
    let none = chars_of("None");
    if k < w.len() && !same_chars(w[k].as_slice(), none.as_slice()) {
        parse_usize_chars(w[k].as_slice())
    } else {
        None
    }
}

fn limits_from_words(w: &Vec<Vec<char>>, k: usize) -> (r: LimitConfig)
    requires
        k <= 1,
    ensures
        r@ == limits_at(w@.map_values(|v: Vec<char>| v@), k as int),
{
    LimitConfig {
        download_rate: field_at(w, k),
        upload_rate: field_at(w, k + 1),
        download_minimum_rate: field_at(w, k + 2),
        upload_minimum_rate: field_at(w, k + 3),
        download_priority: priority_at(w, k + 4),
        upload_priority: priority_at(w, k + 5),
    }
}

fn push_rate(e: &mut Vec<Vec<char>>, o: &Option<String>)
    ensures
        final(e)@.map_values(|v: Vec<char>| v@) == old(e)@.map_values(|v: Vec<char>| v@).push(
            rate_token(opt_view(*o)),
        ),
{
    let t = match o {
        Some(s) => chars_of(s.as_str()),
        None => chars_of("None"),
    };
    e.push(t);
    assert(final(e)@.map_values(|v: Vec<char>| v@) == old(e)@.map_values(|v: Vec<char>| v@).push(
        rate_token(opt_view(*o)),
    ));
}

fn push_priority(e: &mut Vec<Vec<char>>, o: Option<usize>)
    ensures
        final(e)@.map_values(|v: Vec<char>| v@) == old(e)@.map_values(|v: Vec<char>| v@).push(
            priority_token(o),
        ),
{
    let t = match o {
        Some(n) => decimal_chars(n),
        None => chars_of("None"),
    };
    e.push(t);
    assert(final(e)@.map_values(|v: Vec<char>| v@) == old(e)@.map_values(|v: Vec<char>| v@).push(
        priority_token(o),
    ));
}

impl LimitConfig {
    /// The six wire fields of these limits, in order, `None` for an absent one.
    fn tokens_into(&self, e: &mut Vec<Vec<char>>)
        ensures
            final(e)@.map_values(|v: Vec<char>| v@) == old(e)@.map_values(|v: Vec<char>| v@)
                + limit_tokens(self@),
    {
        let ghost start = e@.map_values(|v: Vec<char>| v@);
        push_rate(e, &self.download_rate);
        push_rate(e, &self.upload_rate);
        push_rate(e, &self.download_minimum_rate);
        push_rate(e, &self.upload_minimum_rate);
        push_priority(e, self.download_priority);
        push_priority(e, self.upload_priority);
        assert(e@.map_values(|v: Vec<char>| v@) == start + limit_tokens(self@));
    }
}

/// The notification that announces a newly observed program: `ProgramEntry: <name>`.
pub fn program_entry(name: &str) -> (r: String)
    ensures
        r@ == "ProgramEntry: "@ + name@,
{
    let mut e: Vec<char> = Vec::new();
    push_str(&mut e, "ProgramEntry: ");
    push_str(&mut e, name);
    string_of(e.as_slice())
}

impl Message {
    /// The control line that carries this message.
    pub fn encode(&self) -> (r: String)
        ensures
            r@ == encode_message(self@),
    {
        let mut e: Vec<char> = Vec::new();
        match self {
            Message::Stop => {
                push_str(&mut e, "Stop");
            },
            Message::Interface(n) => {
                push_str(&mut e, "Interface: ");
                push_str(&mut e, n.as_str());
            },
            Message::Global { config } => {
                push_str(&mut e, "Global: ");
                let mut ts: Vec<Vec<char>> = Vec::new();
                config.tokens_into(&mut ts);
                let j = join_chars(&ts, 0);
                assert(ts@.map_values(|v: Vec<char>| v@).skip(0) == limit_tokens(config@));
                push_all(&mut e, j.as_slice());
            },
            Message::Program { name, config } => {
                push_str(&mut e, "Program: ");
                let mut ts: Vec<Vec<char>> = Vec::new();
                ts.push(chars_of(name.as_str()));
                assert(ts@.map_values(|v: Vec<char>| v@) == seq![name@]);
                config.tokens_into(&mut ts);
                let j = join_chars(&ts, 0);
                assert(ts@.map_values(|v: Vec<char>| v@).skip(0) == seq![name@] + limit_tokens(
                    config@,
                ));
                push_all(&mut e, j.as_slice());
            },
        }
        string_of(e.as_slice())
    }

    /// Reads a control line. A line that holds no message gives the error text
    /// `failed to parse message: <line>`.
    pub fn try_from(msg: String) -> (r: Result<Message, String>)
        ensures
            match parse_message(msg@) {
                Some(m) => r is Ok && r->Ok_0@ == m,
                None => r is Err && r->Err_0@ == parse_error(msg@),
            },
    {
        let cs = chars_of(msg.as_str());
        let t = trim_chars(cs.as_slice());
        let stop = chars_of("Stop");
        let interface = chars_of("Interface: ");
        let global = chars_of("Global: ");
        let program = chars_of("Program: ");
        if same_chars(t.as_slice(), stop.as_slice()) {
            return Ok(Message::Stop);
        } else if has_prefix(t.as_slice(), interface.as_slice()) {
            let piece = piece_after_prefix(t.as_slice(), interface.as_slice());
            return Ok(Message::Interface(string_of(piece.as_slice())));
        } else if has_prefix(t.as_slice(), global.as_slice()) {
            let piece = piece_after_prefix(t.as_slice(), global.as_slice());
            let w = split_words(piece.as_slice());
            return Ok(Message::Global { config: limits_from_words(&w, 0) });
        } else if has_prefix(t.as_slice(), program.as_slice()) {
            let piece = piece_after_prefix(t.as_slice(), program.as_slice());
            let w = split_words(piece.as_slice());
            if w.len() >= 1 {
                let name = string_of(w[0].as_slice());
                return Ok(Message::Program { name, config: limits_from_words(&w, 1) });
            }
        }
        let mut e: Vec<char> = Vec::new();
        push_str(&mut e, "failed to parse message: ");
        push_all(&mut e, cs.as_slice());
        Err(string_of(e.as_slice()))
    }
}

proof fn lemma_limit_tokens(l: LimitView)
    requires
        valid_limits(l),
    ensures
        forall|k: int|
            0 <= k < 6 ==> is_word(#[trigger] limit_tokens(l)[k]),
        !is_ws(limit_tokens(l).last().last()),
        limits_at(limit_tokens(l), 0) == l,
{
    reveal_strlit("None");
    let ts = limit_tokens(l);
    let none = "None"@;
    assert(is_word(none)) by {
        assert forall|i: int| 0 <= i < none.len() implies !is_ws(#[trigger] none[i]) by {}
    }
    if let Some(n) = l.download_priority {
        lemma_decimal_parses(n as nat);
        lemma_parse_usize_decimal(n);
        assert(decimal(n as nat)[0] != none[0]);
    }
    if let Some(n) = l.upload_priority {
        lemma_decimal_parses(n as nat);
        lemma_parse_usize_decimal(n);
        assert(decimal(n as nat)[0] != none[0]);
        assert(is_digit(decimal(n as nat).last()));
    }
    assert forall|k: int| 0 <= k < 6 implies is_word(#[trigger] ts[k]) by {}
}

proof fn lemma_limits_shift(n: Seq<char>, ts: Seq<Seq<char>>)
    ensures
        limits_at(seq![n] + ts, 1) == limits_at(ts, 0),
{
    let w = seq![n] + ts;
    assert forall|k: int| 0 <= k < ts.len() implies w[k + 1] == ts[k] by {}
    assert(field(w, 1) == field(ts, 0));
    assert(field(w, 2) == field(ts, 1));
    assert(field(w, 3) == field(ts, 2));
    assert(field(w, 4) == field(ts, 3));
    assert(field(w, 5) == field(ts, 4));
    assert(field(w, 6) == field(ts, 5));
}

/// A line that is `p` followed by a body in which `p` does not start again is read as
/// that body.
proof fn lemma_piece(p: Seq<char>, body: Seq<char>)
    requires
        keyword_once(p + body, p),
    ensures
        starts_with(p + body, p),
        after_prefix(p + body, p) == body,
{
    let s = p + body;
    assert(s.subrange(0, p.len() as int) == p);
    assert(s.subrange(p.len() as int, s.len() as int) == body);
}

/// A line that begins and ends with a character other than whitespace is its own trim.
proof fn lemma_trim_fixed(s: Seq<char>)
    requires
        s.len() > 0,
        !is_ws(s[0]),
        !is_ws(s.last()),
    ensures
        trim(s) == s,
{
    assert(trim_start(s) == s);
    assert(trim_end(s) == s);
}

/// Encoding a message and reading the line back gives the same message, for every
/// message whose line can carry it (see `valid_message`).
pub proof fn lemma_message_round_trip(m: Message)
    requires
        valid_message(m@),
    ensures
        parse_message(encode_message(m@)) == Some(m@),
{
    reveal_strlit("Stop");
    reveal_strlit("Interface: ");
    reveal_strlit("Global: ");
    reveal_strlit("Program: ");
    let stop = "Stop"@;
    let ip = "Interface: "@;
    let gp = "Global: "@;
    let pp = "Program: "@;
    let s = encode_message(m@);
    match m@ {
        MessageView::Stop => {
            lemma_trim_fixed(s);
        },
        MessageView::Interface(n) => {
            lemma_piece(ip, n);
            assert(s[0] == 'I');
            assert(s.last() == n.last());
            lemma_trim_fixed(s);
            assert(s[0] != stop[0]);
        },
        MessageView::Global(l) => {
            let ts = limit_tokens(l);
            lemma_limit_tokens(l);
            lemma_words_of_join(ts);
            lemma_join_last(ts);
            let j = join_words(ts);
            lemma_piece(gp, j);
            assert(s[0] == 'G');
            assert(s.last() == j.last());
            lemma_trim_fixed(s);
            assert(s[0] != stop[0]);
            if starts_with(s, ip) {
                assert(s.subrange(0, ip.len() as int)[0] == s[0]);
            }
        },
        MessageView::Program(n, l) => {
            let lt = limit_tokens(l);
            let ts = seq![n] + lt;
            lemma_limit_tokens(l);
            assert forall|k: int| 0 <= k < ts.len() implies is_word(#[trigger] ts[k]) by {
                if k > 0 {
                    assert(ts[k] == lt[k - 1]);
                }
            }
            lemma_words_of_join(ts);
            lemma_join_last(ts);
            lemma_limits_shift(n, lt);
            let j = join_words(ts);
            lemma_piece(pp, j);
            assert(s[0] == 'P');
            assert(ts.last() == lt.last());
            assert(s.last() == j.last());
            lemma_trim_fixed(s);
            assert(s[0] != stop[0]);
            if starts_with(s, ip) {
                assert(s.subrange(0, ip.len() as int)[0] == s[0]);
            }
            if starts_with(s, gp) {
                assert(s.subrange(0, gp.len() as int)[0] == s[0]);
            }
        },
    }
}

} // verus!
