use vstd::prelude::*;

use crate::clock::{keys_distinct, Clock, Entries};
use crate::push_char;
use crate::messages::{lemma_msgs_view, msgs_view, Header, HeaderV, Msg, MsgV};

verus! {

broadcast use vstd::seq::group_seq_axioms;

/// The decimal digit `d` (0 to 9) as a character.
pub open spec fn digit_char(d: nat) -> char {
    if d == 0 {
        '0'
    } else if d == 1 {
        '1'
    } else if d == 2 {
        '2'
    } else if d == 3 {
        '3'
    } else if d == 4 {
        '4'
    } else if d == 5 {
        '5'
    } else if d == 6 {
        '6'
    } else if d == 7 {
        '7'
    } else if d == 8 {
        '8'
    } else {
        '9'
    }
}

/// The value of the decimal digit `c`.
pub open spec fn char_digit(c: char) -> nat {
    if c == '1' {
        1
    } else if c == '2' {
        2
    } else if c == '3' {
        3
    } else if c == '4' {
        4
    } else if c == '5' {
        5
    } else if c == '6' {
        6
    } else if c == '7' {
        7
    } else if c == '8' {
        8
    } else if c == '9' {
        9
    } else {
        0
    }
}

pub open spec fn is_digit(c: char) -> bool {
    '0' <= c <= '9'
}

/// The number that the decimal digits `s` stand for.
pub open spec fn digits_value(s: Seq<char>) -> nat
    decreases s.len(),
{
    if s.len() == 0 {
        0
    } else {
        digits_value(s.drop_last()) * 10 + char_digit(s.last())
    }
}

/// `n` written in decimal, without leading zeros.
pub open spec fn digits(n: nat) -> Seq<char>
    decreases n,
{
    if n < 10 {
        seq![digit_char(n)]
    } else {
        digits(n / 10).push(digit_char(n % 10))
    }
}

/// The hexadecimal digit `d` (0 to 15), in lower case.
pub open spec fn hex_char(d: nat) -> char {
    if d < 10 {
        digit_char(d)
    } else if d == 10 {
        'a'
    } else if d == 11 {
        'b'
    } else if d == 12 {
        'c'
    } else if d == 13 {
        'd'
    } else if d == 14 {
        'e'
    } else {
        'f'
    }
}

/// How one character stands inside a JSON string: quote, backslash and the control
/// characters are escaped, everything else stands as it is.
pub open spec fn escaped_char(c: char) -> Seq<char> {
    if c == '"' {
        seq!['\\', '"']
    } else if c == '\\' {
        seq!['\\', '\\']
    } else if c == '\n' {
        seq!['\\', 'n']
    } else if c == '\r' {
        seq!['\\', 'r']
    } else if c == '\t' {
        seq!['\\', 't']
    } else if (c as u32) == 8 {
        seq!['\\', 'b']
    } else if (c as u32) == 12 {
        seq!['\\', 'f']
    } else if (c as u32) < 32 {
        seq!['\\', 'u', '0', '0', hex_char((c as u32 / 16) as nat), hex_char((c as u32 % 16) as nat)]
    } else {
        seq![c]
    }
}

pub open spec fn escaped(s: Seq<char>) -> Seq<char>
    decreases s.len(),
{
    if s.len() == 0 {
        Seq::empty()
    } else {
        escaped(s.drop_last()) + escaped_char(s.last())
    }
}

/// `s` as a JSON string.
pub open spec fn str_text(s: Seq<char>) -> Seq<char> {
    seq!['"'] + escaped(s) + seq!['"']
}

/// One entry of a clock: `"id":date`.
pub open spec fn entry_text(e: (Seq<char>, u64)) -> Seq<char> {
    str_text(e.0) + seq![':'] + digits(e.1 as nat)
}

pub open spec fn entries_body(s: Entries) -> Seq<char>
    decreases s.len(),
{
    if s.len() == 0 {
        Seq::empty()
    } else if s.len() == 1 {
        entry_text(s[0])
    } else {
        entries_body(s.drop_last()) + seq![','] + entry_text(s.last())
    }
}

/// A clock as a JSON object from node id to date.
pub open spec fn clock_text(s: Entries) -> Seq<char> {
    seq!['{'] + entries_body(s) + seq!['}']
}

/// A header: a unit variant as its bare name, any other as an object of one field, named
/// after the variant, whose value is its payload (an array where it has two parts).
pub open spec fn header_text(h: HeaderV) -> Seq<char>
    decreases h,
{
    match h {
        HeaderV::Private(to, text) => tagged(private_tag(), pair(str_text(to), str_text(text))),
        HeaderV::Public(text) => tagged(public_tag(), str_text(text)),
        HeaderV::Connection => str_text(connection_tag()),
        HeaderV::Disconnection => str_text(disconnection_tag()),
        HeaderV::SnapshotRequest(r) => tagged(request_tag(), str_text(r)),
        HeaderV::SnapshotResponse(r, list) => tagged(
            response_tag(),
            pair(str_text(r), seq!['['] + list_body(list) + seq![']']),
        ),
    }
}

/// An object of one field: `{"tag":v}`.
pub open spec fn tagged(tag: Seq<char>, v: Seq<char>) -> Seq<char> {
    seq!['{'] + str_text(tag) + seq![':'] + v + seq!['}']
}

/// An array of two values: `[a,b]`.
pub open spec fn pair(a: Seq<char>, b: Seq<char>) -> Seq<char> {
    seq!['['] + a + seq![','] + b + seq![']']
}

/// The messages of a list, written one after the other and parted by commas.
pub open spec fn list_body(s: Seq<MsgV>) -> Seq<char>
    decreases s,
{
    if s.len() == 0 {
        Seq::empty()
    } else if s.len() == 1 {
        msg_text(s[0])
    } else {
        list_body(s.drop_last()) + seq![','] + msg_text(s.last())
    }
}

/// A message as one JSON object, its fields in the order id, sender_id, header, clock.
pub open spec fn msg_text(m: MsgV) -> Seq<char>
    decreases m,
{
    seq!['{'] + field(id_key(), digits(m.id as nat)) + seq![','] + field(sender_key(), str_text(m.sender_id))
        + seq![','] + field(header_key(), header_text(m.header)) + seq![','] + field(
        clock_key(),
        clock_text(m.clock),
    ) + seq!['}']
}

/// A field of an object: `"key":v`.
pub open spec fn field(key: Seq<char>, v: Seq<char>) -> Seq<char> {
    str_text(key) + seq![':'] + v
}

pub open spec fn id_key() -> Seq<char> {
    seq!['i', 'd']
}

pub open spec fn sender_key() -> Seq<char> {
    seq!['s', 'e', 'n', 'd', 'e', 'r', '_', 'i', 'd']
}

pub open spec fn header_key() -> Seq<char> {
    seq!['h', 'e', 'a', 'd', 'e', 'r']
}

pub open spec fn clock_key() -> Seq<char> {
    seq!['c', 'l', 'o', 'c', 'k']
}

pub open spec fn private_tag() -> Seq<char> {
    seq!['P', 'r', 'i', 'v', 'a', 't', 'e']
}

pub open spec fn public_tag() -> Seq<char> {
    seq!['P', 'u', 'b', 'l', 'i', 'c']
}

pub open spec fn connection_tag() -> Seq<char> {
    seq!['C', 'o', 'n', 'n', 'e', 'c', 't', 'i', 'o', 'n']
}

pub open spec fn disconnection_tag() -> Seq<char> {
    seq!['D', 'i', 's', 'c', 'o', 'n', 'n', 'e', 'c', 't', 'i', 'o', 'n']
}

pub open spec fn request_tag() -> Seq<char> {
    seq!['S', 'n', 'a', 'p', 's', 'h', 'o', 't', 'R', 'e', 'q', 'u', 'e', 's', 't']
}

pub open spec fn response_tag() -> Seq<char> {
    seq!['S', 'n', 'a', 'p', 's', 'h', 'o', 't', 'R', 'e', 's', 'p', 'o', 'n', 's', 'e']
}

/// Relies on str::chars: the characters of `s`, in order.
#[verifier::external_body]
fn chars_of(s: &str) -> (r: Vec<char>)
    ensures
        r@ == s@,
{
    s.chars().collect()
}

/// The hexadecimal digit `d` as a character.
fn digit(d: u64) -> (c: char)
    requires
        d < 16,
    ensures
        c == hex_char(d as nat),
{
    match d {
        0 => '0',
        1 => '1',
        2 => '2',
        3 => '3',
        4 => '4',
        5 => '5',
        6 => '6',
        7 => '7',
        8 => '8',
        9 => '9',
        10 => 'a',
        11 => 'b',
        12 => 'c',
        13 => 'd',
        14 => 'e',
        _ => 'f',
    }
}

/// Appends `n` in decimal.
fn write_u64(out: &mut String, n: u64)
    ensures
        final(out)@ == old(out)@ + digits(n as nat),
    decreases n,
{
    if n >= 10 {
        write_u64(out, n / 10);
    }
    push_char(out, digit(n % 10));
    proof {
        assert(digits(n as nat) == if n < 10 { seq![digit_char(n as nat)] } else { digits((n / 10) as nat).push(digit_char((n % 10) as nat)) });
        assert(out@ =~= old(out)@ + digits(n as nat));
    }
}

/// Appends `c` as it stands inside a JSON string.
fn write_escaped_char(out: &mut String, c: char)
    ensures
        final(out)@ == old(out)@ + escaped_char(c),
{
    let ghost o = out@;
    let u = c as u32;
    if c == '"' {
        push_char(out, '\\');
        push_char(out, '"');
    } else if c == '\\' {
        push_char(out, '\\');
        push_char(out, '\\');
    } else if c == '\n' {
        push_char(out, '\\');
        push_char(out, 'n');
    } else if c == '\r' {
        push_char(out, '\\');
        push_char(out, 'r');
    } else if c == '\t' {
        push_char(out, '\\');
        push_char(out, 't');
    } else if u == 8 {
        push_char(out, '\\');
        push_char(out, 'b');
    } else if u == 12 {
        push_char(out, '\\');
        push_char(out, 'f');
    } else if u < 32 {
        push_char(out, '\\');
        push_char(out, 'u');
        push_char(out, '0');
        push_char(out, '0');
        push_char(out, digit((u / 16) as u64));
        push_char(out, digit((u % 16) as u64));
    } else {
        push_char(out, c);
    }
    assert(out@ =~= o + escaped_char(c));
}

/// Appends `s` as a JSON string.
fn write_str(out: &mut String, s: &str)
    ensures
        final(out)@ == old(out)@ + str_text(s@),
{
    let ghost o = out@;
    let cs = chars_of(s);
    push_char(out, '"');
    let mut i: usize = 0;
    proof {
        assert(cs@.subrange(0, 0) =~= Seq::<char>::empty());
        assert(out@ =~= o + seq!['"'] + escaped(cs@.subrange(0, 0)));
    }
    while i < cs.len()
        invariant
            i <= cs@.len(),
            out@ == o + seq!['"'] + escaped(cs@.subrange(0, i as int)),
        decreases cs@.len() - i,
    {
        write_escaped_char(out, cs[i]);
        proof {
            assert(cs@.subrange(0, i as int + 1).drop_last() =~= cs@.subrange(0, i as int));
            assert(out@ =~= o + seq!['"'] + escaped(cs@.subrange(0, i as int + 1)));
        }
        i = i + 1;
    }
    push_char(out, '"');
    proof {
        assert(cs@.subrange(0, cs@.len() as int) =~= s@);
        assert(out@ =~= o + str_text(s@));
    }
}

/// Appends the clock `c` as a JSON object.
fn write_clock(out: &mut String, c: &Clock)
    ensures
        final(out)@ == old(out)@ + clock_text(c@),
{
    let ghost o = out@;
    push_char(out, '{');
    let mut i: usize = 0;
    proof {
        assert(c@.subrange(0, 0) =~= Seq::<(Seq<char>, u64)>::empty());
        assert(out@ =~= o + seq!['{'] + entries_body(c@.subrange(0, 0)));
    }
    while i < c.len()
        invariant
            i <= c@.len(),
            out@ == o + seq!['{'] + entries_body(c@.subrange(0, i as int)),
        decreases c@.len() - i,
    {
        let ghost before = out@;
        if i > 0 {
            push_char(out, ',');
        }
        let (id, d) = c.entry(i);
        write_str(out, id.as_str());
        push_char(out, ':');
        write_u64(out, d);
        proof {
            let pre = c@.subrange(0, i as int);
            let cur = c@.subrange(0, i as int + 1);
            assert(cur.drop_last() =~= pre);
            assert(cur.last() == c@[i as int]);
            if i == 0 {
                assert(cur =~= seq![c@[0]]);
                assert(out@ =~= before + entry_text(c@[i as int]));
            } else {
                assert(out@ =~= before + seq![','] + entry_text(c@[i as int]));
            }
            assert(out@ =~= o + seq!['{'] + entries_body(cur));
        }
        i = i + 1;
    }
    push_char(out, '}');
    proof {
        assert(c@.subrange(0, c@.len() as int) =~= c@);
        assert(out@ =~= o + clock_text(c@));
    }
}

/// Appends `key` as a JSON string followed by a colon.
fn write_key(out: &mut String, key: &str)
    ensures
        final(out)@ == old(out)@ + str_text(key@) + seq![':'],
{
    let ghost o = out@;
    write_str(out, key);
    push_char(out, ':');
    assert(out@ =~= o + str_text(key@) + seq![':']);
}

/// Appends the header `h`.
#[verifier::rlimit(40)]
fn write_header(out: &mut String, h: &Header)
    ensures
        final(out)@ == old(out)@ + header_text(h@),
    decreases h,
{
    let ghost o = out@;
    match h {
        Header::Private(to, text) => {
            push_char(out, '{');
            write_key(out, "Private");
            push_char(out, '[');
            write_str(out, to.as_str());
            push_char(out, ',');
            write_str(out, text.as_str());
            push_char(out, ']');
            push_char(out, '}');
            proof {
                reveal_strlit("Private");
                assert("Private"@ =~= private_tag());
                assert(out@ =~= o + header_text(h@));
            }
        },
        Header::Public(text) => {
            push_char(out, '{');
            write_key(out, "Public");
            write_str(out, text.as_str());
            push_char(out, '}');
            proof {
                reveal_strlit("Public");
                assert("Public"@ =~= public_tag());
                assert(out@ =~= o + header_text(h@));
            }
        },
        Header::Connection => {
            write_str(out, "Connection");
            proof {
                reveal_strlit("Connection");
                assert("Connection"@ =~= connection_tag());
            }
        },
        Header::Disconnection => {
            write_str(out, "Disconnection");
            proof {
                reveal_strlit("Disconnection");
                assert("Disconnection"@ =~= disconnection_tag());
            }
        },
        Header::SnapshotRequest(r) => {
            push_char(out, '{');
            write_key(out, "SnapshotRequest");
            write_str(out, r.as_str());
            push_char(out, '}');
            proof {
                reveal_strlit("SnapshotRequest");
                assert("SnapshotRequest"@ =~= request_tag());
                assert(out@ =~= o + header_text(h@));
            }
        },
        Header::SnapshotResponse(r, list) => {
            push_char(out, '{');
            write_key(out, "SnapshotResponse");
            push_char(out, '[');
            write_str(out, r.as_str());
            push_char(out, ',');
            push_char(out, '[');
            write_list(out, list);
            push_char(out, ']');
            push_char(out, ']');
            push_char(out, '}');
            proof {
                reveal_strlit("SnapshotResponse");
                assert("SnapshotResponse"@ =~= response_tag());
                assert(out@ =~= o + header_text(h@));
            }
        },
    }
}

/// Appends the messages of `v`, parted by commas.
fn write_list(out: &mut String, v: &Vec<Msg>)
    ensures
        final(out)@ == old(out)@ + list_body(msgs_view(v@)),
    decreases v,
{
    let ghost o = out@;
    let ghost vv = msgs_view(v@);
    proof {
        lemma_msgs_view(v@);
        assert(vv.subrange(0, 0) =~= Seq::<MsgV>::empty());
        assert(out@ =~= o + list_body(vv.subrange(0, 0)));
    }
    let mut i: usize = 0;
    while i < v.len()
        invariant
            i <= v@.len(),
            vv == msgs_view(v@),
            vv.len() == v@.len(),
            forall|k: int| 0 <= k < v@.len() ==> #[trigger] vv[k] == v@[k]@,
            out@ == o + list_body(vv.subrange(0, i as int)),
        decreases v@.len() - i,
    {
        let ghost before = out@;
        if i > 0 {
            push_char(out, ',');
        }
        proof {
            assert(decreases_to!(v => v@[i as int]));
        }
        write_msg(out, &v[i]);
        proof {
            let pre = vv.subrange(0, i as int);
            let cur = vv.subrange(0, i as int + 1);
            assert(cur.drop_last() =~= pre);
            if i == 0 {
                assert(cur =~= seq![vv[0]]);
                assert(out@ =~= before + msg_text(vv[0]));
            } else {
                assert(out@ =~= before + seq![','] + msg_text(vv[i as int]));
            }
            assert(out@ =~= o + list_body(cur));
        }
        i = i + 1;
    }
    proof {
        assert(vv.subrange(0, v@.len() as int) =~= vv);
    }
}

/// Appends the message `m`.
fn write_msg(out: &mut String, m: &Msg)
    ensures
        final(out)@ == old(out)@ + msg_text(m@),
    decreases m,
{
    let ghost o = out@;
    proof {
        reveal_strlit("id");
        reveal_strlit("sender_id");
        reveal_strlit("header");
        reveal_strlit("clock");
        assert("id"@ =~= id_key());
        assert("sender_id"@ =~= sender_key());
        assert("header"@ =~= header_key());
        assert("clock"@ =~= clock_key());
    }
    push_char(out, '{');
    write_key(out, "id");
    write_u64(out, m.id);
    push_char(out, ',');
    let ghost p1 = seq!['{'] + field(id_key(), digits(m.id as nat)) + seq![','];
    assert(out@ =~= o + p1);
    write_key(out, "sender_id");
    write_str(out, m.sender_id.as_str());
    push_char(out, ',');
    let ghost p2 = p1 + field(sender_key(), str_text(m.sender_id@)) + seq![','];
    assert(out@ =~= o + p2);
    write_key(out, "header");
    write_header(out, &m.header);
    push_char(out, ',');
    let ghost p3 = p2 + field(header_key(), header_text(m.header@)) + seq![','];
    assert(out@ =~= o + p3);
    write_key(out, "clock");
    write_clock(out, &m.clock);
    push_char(out, '}');
    let ghost p4 = p3 + field(clock_key(), clock_text(m.clock@)) + seq!['}'];
    assert(out@ =~= o + p4);
    assert(p4 =~= msg_text(m@));
}

impl Msg {
    /// The message as one line of JSON (without the line end). Writing cannot fail.
    pub fn serialize(&self) -> (r: Result<String, CodecError>)
        ensures
            r is Ok,
            r->Ok_0@ == msg_text(self@),
    {
        let mut out = String::new();
        write_msg(&mut out, self);
        assert(out@ =~= msg_text(self@));
        Ok(out)
    }
}

/// Why a line could not be read as a message.
#[derive(Debug, Clone, Copy, PartialEq, Eq)]
pub enum CodecError {
    /// The line is not the line of any message.
    Syntax,
    /// The line is that of a message whose clock names a node twice.
    RepeatedNode,
}

/// `x` stands in `t` from position `pos` on.
pub open spec fn text_at(t: Seq<char>, pos: int, x: Seq<char>) -> bool {
    0 <= pos && pos + x.len() <= t.len() && t.subrange(pos, pos + x.len()) == x
}

proof fn lemma_text_at_concat(t: Seq<char>, pos: int, a: Seq<char>, b: Seq<char>)
    requires
        text_at(t, pos, a + b),
    ensures
        text_at(t, pos, a),
        text_at(t, pos + a.len(), b),
{
    let w = t.subrange(pos, pos + (a + b).len());
    assert(w == a + b);
    assert(t.subrange(pos, pos + a.len()) =~= w.subrange(0, a.len() as int));
    assert(w.subrange(0, a.len() as int) =~= a);
    assert(t.subrange(pos + a.len(), pos + a.len() + b.len()) =~= w.subrange(
        a.len() as int,
        w.len() as int,
    ));
    assert(w.subrange(a.len() as int, w.len() as int) =~= b);
}

proof fn lemma_text_at_char(t: Seq<char>, pos: int, x: Seq<char>, j: int)
    requires
        text_at(t, pos, x),
        0 <= j < x.len(),
    ensures
        t[pos + j] == x[j],
{
    assert(t.subrange(pos, pos + x.len())[j] == t[pos + j]);
}

proof fn lemma_text_at_chars(t: Seq<char>, pos: int, x: Seq<char>)
    requires
        text_at(t, pos, x),
    ensures
        forall|j: int| 0 <= j < x.len() ==> t[pos + j] == #[trigger] x[j],
{
    assert forall|j: int| 0 <= j < x.len() implies t[pos + j] == #[trigger] x[j] by {
        lemma_text_at_char(t, pos, x, j);
    }
}

proof fn lemma_escaped_concat(a: Seq<char>, b: Seq<char>)
    ensures
        escaped(a + b) == escaped(a) + escaped(b),
    decreases b.len(),
{
    if b.len() == 0 {
        assert(a + b =~= a);
        assert(escaped(a) + escaped(b) =~= escaped(a));
    } else {
        lemma_escaped_concat(a, b.drop_last());
        assert((a + b).drop_last() =~= a + b.drop_last());
        assert(escaped(a + b) =~= escaped(a) + escaped(b));
    }
}

proof fn lemma_escaped_one(c: char)
    ensures
        escaped(seq![c]) == escaped_char(c),
{
    assert(seq![c].drop_last() =~= Seq::<char>::empty());
    assert(escaped(Seq::<char>::empty()) == Seq::<char>::empty());
    assert(escaped(seq![c]) =~= escaped_char(c));
}

proof fn lemma_escaped_char_shape(w: char)
    ensures
        escaped_char(w).len() >= 1,
        (w == '"' || w == '\\' || (w as u32) < 32) ==> escaped_char(w)[0] == '\\' && escaped_char(
            w,
        ).len() >= 2,
        !(w == '"' || w == '\\' || (w as u32) < 32) ==> escaped_char(w) == seq![w],
        escaped_char(w).len() >= 2 && escaped_char(w)[1] == 'u' ==> escaped_char(w).len() == 6,
        escaped_char(w)[0] == '\\' ==> {
            ||| escaped_char(w) == seq!['\\', '"'] && w == '"'
            ||| escaped_char(w) == seq!['\\', '\\'] && w == '\\'
            ||| escaped_char(w) == seq!['\\', 'n'] && w == '\n'
            ||| escaped_char(w) == seq!['\\', 'r'] && w == '\r'
            ||| escaped_char(w) == seq!['\\', 't'] && w == '\t'
            ||| escaped_char(w) == seq!['\\', 'b'] && (w as u32) == 8
            ||| escaped_char(w) == seq!['\\', 'f'] && (w as u32) == 12
            ||| escaped_char(w) == seq![
                '\\',
                'u',
                '0',
                '0',
                hex_char(((w as u32) / 16) as nat),
                hex_char(((w as u32) % 16) as nat),
            ] && (w as u32) < 32
        },
{
}

/// The value of a hexadecimal digit, if `c` is one.
fn hex_value(c: char) -> (r: Option<u32>)
    ensures
        forall|d: nat| d < 16 && c == #[trigger] hex_char(d) ==> r == Some(d as u32),
        r is Some ==> r->Some_0 < 16,
{
    match c {
        '0' => Some(0),
        '1' => Some(1),
        '2' => Some(2),
        '3' => Some(3),
        '4' => Some(4),
        '5' => Some(5),
        '6' => Some(6),
        '7' => Some(7),
        '8' => Some(8),
        '9' => Some(9),
        'a' | 'A' => Some(10),
        'b' | 'B' => Some(11),
        'c' | 'C' => Some(12),
        'd' | 'D' => Some(13),
        'e' | 'E' => Some(14),
        'f' | 'F' => Some(15),
        _ => None,
    }
}

/// Reads one character of a JSON string at `i` (a plain one or an escape); gives it and
/// the position after it.
fn parse_string_char(t: &Vec<char>, i: usize) -> (r: Option<(char, usize)>)
    ensures
        r is Some ==> i < r->Some_0.1 <= t@.len(),
        forall|w: char|
            #[trigger] text_at(t@, i as int, escaped_char(w)) ==> r == Some(
                (w, (i + escaped_char(w).len()) as usize),
            ),
{
    if i >= t.len() {
        proof {
            assert forall|w: char| !#[trigger] text_at(t@, i as int, escaped_char(w)) by {
                assert(escaped_char(w).len() >= 1);
            }
        }
        return None;
    }
    let c = t[i];
    if c == '"' || (c as u32) < 32 {
        proof {
            assert forall|w: char| !#[trigger] text_at(t@, i as int, escaped_char(w)) by {
                lemma_escaped_char_shape(w);
                if text_at(t@, i as int, escaped_char(w)) {
                    lemma_text_at_chars(t@, i as int, escaped_char(w));
                    assert(escaped_char(w)[0] == c);
                }
            }
        }
        return None;
    }
    if c != '\\' {
        proof {
            assert forall|w: char| #[trigger] text_at(t@, i as int, escaped_char(w)) implies c == w
                && escaped_char(w).len() == 1 by {
                lemma_text_at_chars(t@, i as int, escaped_char(w));
                lemma_escaped_char_shape(w);
                assert(escaped_char(w)[0] == c);
            }
        }
        return Some((c, i + 1));
    }
    if i + 1 >= t.len() {
        proof {
            assert forall|w: char| !#[trigger] text_at(t@, i as int, escaped_char(w)) by {
                lemma_escaped_char_shape(w);
                if text_at(t@, i as int, escaped_char(w)) {
                    lemma_text_at_chars(t@, i as int, escaped_char(w));
                    assert(escaped_char(w)[0] == c);
                }
            }
        }
        return None;
    }
    let e = t[i + 1];
    let x: char;
    if e == '"' || e == '\\' || e == '/' {
        x = e;
    } else if e == 'b' {
        x = 8u8 as char;
    } else if e == 'f' {
        x = 12u8 as char;
    } else if e == 'n' {
        x = '\n';
    } else if e == 'r' {
        x = '\r';
    } else if e == 't' {
        x = '\t';
    } else if e == 'u' {
        if t.len() - i < 6 {
            proof {
                assert forall|w: char| !#[trigger] text_at(t@, i as int, escaped_char(w)) by {
                    lemma_escaped_char_shape(w);
                    if text_at(t@, i as int, escaped_char(w)) {
                        lemma_text_at_chars(t@, i as int, escaped_char(w));
                        assert(escaped_char(w)[0] == '\\');
                        assert(escaped_char(w)[1] == 'u');
                    }
                }
            }
            return None;
        }
        let h0 = hex_value(t[i + 2]);
        let h1 = hex_value(t[i + 3]);
        let h2 = hex_value(t[i + 4]);
        let h3 = hex_value(t[i + 5]);
        proof {
            assert forall|w: char| #[trigger] text_at(t@, i as int, escaped_char(w)) implies h0 == Some(0u32)
                && h1 == Some(0u32) && h2 == Some(((w as u32) / 16) as u32) && h3 == Some(
                ((w as u32) % 16) as u32,
            ) by {
                lemma_text_at_chars(t@, i as int, escaped_char(w));
                lemma_escaped_char_shape(w);
                assert(escaped_char(w)[0] == '\\');
                assert(escaped_char(w)[1] == 'u');
                assert(hex_char(0) == '0');
                assert(t@[i + 2] == hex_char(0));
                assert(t@[i + 3] == hex_char(0));
                assert(t@[i + 4] == hex_char(((w as u32) / 16) as nat));
                assert(t@[i + 5] == hex_char((w as u32 % 16) as nat));
            }
        }
        match (h0, h1, h2, h3) {
            (Some(a), Some(b), Some(g), Some(h)) => {
                let code = a * 4096 + b * 256 + g * 16 + h;
                proof {
                    assert forall|w: char| #[trigger] text_at(t@, i as int, escaped_char(w)) implies code
                        == (w as u32) && (w as u32) < 32 by {
                        lemma_escaped_char_shape(w);
                        lemma_text_at_chars(t@, i as int, escaped_char(w));
                        assert(escaped_char(w)[0] == '\\');
                        assert(escaped_char(w)[1] == 'u');
                        assert(a == 0 && b == 0);
                        assert(g == (w as u32) / 16 && h == (w as u32) % 16);
                    }
                }
                if code >= 128 {
                    return None;
                }
                let y = (code as u8) as char;
                proof {
                    assert forall|w: char| #[trigger] text_at(t@, i as int, escaped_char(w)) implies y == w
                        && escaped_char(w).len() == 6 by {
                        lemma_text_at_chars(t@, i as int, escaped_char(w));
                        lemma_escaped_char_shape(w);
                        assert(escaped_char(w)[0] == '\\');
                        assert(escaped_char(w)[1] == 'u');
                        assert((y as u32) == (w as u32));
                        vstd::utf8::char_u32_cast(w, w as u32);
                        vstd::utf8::char_u32_cast(y, y as u32);
                    }
                }
                return Some((y, i + 6));
            },
            _ => {
                return None;
            },
        }
    } else {
        proof {
            assert forall|w: char| !#[trigger] text_at(t@, i as int, escaped_char(w)) by {
                lemma_escaped_char_shape(w);
                if text_at(t@, i as int, escaped_char(w)) {
                    lemma_text_at_chars(t@, i as int, escaped_char(w));
                    assert(escaped_char(w)[0] == '\\');
                    assert(escaped_char(w)[1] == e);
                }
            }
        }
        return None;
    }
    proof {
        assert forall|w: char| #[trigger] text_at(t@, i as int, escaped_char(w)) implies x == w
            && escaped_char(w).len() == 2 by {
            lemma_text_at_chars(t@, i as int, escaped_char(w));
            lemma_escaped_char_shape(w);
            assert(escaped_char(w)[0] == '\\');
            assert(escaped_char(w)[1] == e);
            assert((x as u32) == (w as u32));
            vstd::utf8::char_u32_cast(w, w as u32);
            vstd::utf8::char_u32_cast(x, x as u32);
        }
    }
    Some((x, i + 2))
}

proof fn lemma_str_text_at(t: Seq<char>, pos: int, want: Seq<char>, k: int)
    requires
        text_at(t, pos, str_text(want)),
        0 <= k <= want.len(),
    ensures
        ({
            let i = pos + 1 + escaped(want.subrange(0, k)).len();
            &&& k == want.len() ==> i < t.len() && t[i] == '"' && i + 1 == pos + str_text(want).len()
            &&& k < want.len() ==> text_at(t, i, escaped_char(want[k])) && i < t.len() && t[i] != '"'
        }),
{
    let pre = want.subrange(0, k);
    let suf = want.subrange(k, want.len() as int);
    assert(want =~= pre + suf);
    lemma_escaped_concat(pre, suf);
    assert(str_text(want) =~= (seq!['"'] + escaped(pre)) + (escaped(suf) + seq!['"']));
    lemma_text_at_concat(t, pos, seq!['"'] + escaped(pre), escaped(suf) + seq!['"']);
    let i = pos + 1 + escaped(pre).len();
    if k == want.len() {
        assert(suf =~= Seq::<char>::empty());
        assert(escaped(suf) + seq!['"'] =~= seq!['"']);
        lemma_text_at_char(t, i, escaped(suf) + seq!['"'], 0);
    } else {
        let rest = want.subrange(k + 1, want.len() as int);
        assert(suf =~= seq![want[k]] + rest);
        lemma_escaped_concat(seq![want[k]], rest);
        lemma_escaped_one(want[k]);
        assert(escaped(suf) + seq!['"'] =~= escaped_char(want[k]) + (escaped(rest) + seq!['"']));
        lemma_text_at_concat(t, i, escaped_char(want[k]), escaped(rest) + seq!['"']);
        lemma_escaped_char_shape(want[k]);
        lemma_text_at_char(t, i, escaped_char(want[k]), 0);
    }
}

/// Reads a JSON string that starts at `pos`; gives it and the position after it.
fn parse_string(t: &Vec<char>, pos: usize) -> (r: Option<(String, usize)>)
    ensures
        r is Some ==> pos < r->Some_0.1 <= t@.len(),
        forall|want: Seq<char>|
            #[trigger] text_at(t@, pos as int, str_text(want)) ==> r is Some && r->Some_0.0@ == want
                && r->Some_0.1 == pos + str_text(want).len(),
{
    if pos >= t.len() || t[pos] != '"' {
        proof {
            assert forall|want: Seq<char>| !#[trigger] text_at(t@, pos as int, str_text(want)) by {
                if text_at(t@, pos as int, str_text(want)) {
                    lemma_text_at_char(t@, pos as int, str_text(want), 0);
                }
            }
        }
        return None;
    }
    let mut out = String::new();
    let mut i: usize = pos + 1;
    proof {
        assert forall|want: Seq<char>| #[trigger] text_at(t@, pos as int, str_text(want)) implies want.subrange(
            0,
            0,
        ) == out@ by {
            assert(want.subrange(0, 0) =~= out@);
        }
    }
    while i < t.len()
        invariant
            pos < i <= t@.len(),
            forall|want: Seq<char>|
                #[trigger] text_at(t@, pos as int, str_text(want)) ==> out@.len() <= want.len()
                    && want.subrange(0, out@.len() as int) == out@ && i == pos + 1 + escaped(out@).len(),
        decreases t@.len() - i,
    {
        if t[i] == '"' {
            proof {
                assert forall|want: Seq<char>| #[trigger] text_at(t@, pos as int, str_text(want)) implies out@
                    == want && i + 1 == pos + str_text(want).len() by {
                    let k = out@.len() as int;
                    lemma_str_text_at(t@, pos as int, want, k);
                    assert(want.subrange(0, want.len() as int) =~= want);
                }
            }
            return Some((out, i + 1));
        }
        let ghost o = out@;
        match parse_string_char(t, i) {
            None => {
                proof {
                    assert forall|want: Seq<char>| !#[trigger] text_at(t@, pos as int, str_text(want)) by {
                        if text_at(t@, pos as int, str_text(want)) {
                            lemma_str_text_at(t@, pos as int, want, o.len() as int);
                            if o.len() < want.len() {
                                assert(text_at(t@, i as int, escaped_char(want[o.len() as int])));
                            }
                        }
                    }
                }
                return None;
            },
            Some((x, j)) => {
                push_char(&mut out, x);
                proof {
                    assert forall|want: Seq<char>| #[trigger] text_at(t@, pos as int, str_text(want)) implies out@.len()
                        <= want.len() && want.subrange(0, out@.len() as int) == out@ && j == pos + 1
                        + escaped(out@).len() by {
                        let k = o.len() as int;
                        lemma_str_text_at(t@, pos as int, want, k);
                        assert(k < want.len());
                        assert(text_at(t@, i as int, escaped_char(want[k])));
                        assert(x == want[k]);
                        assert(want.subrange(0, k + 1) =~= want.subrange(0, k).push(x));
                        assert(out@.drop_last() =~= o);
                    }
                }
                i = j;
            },
        }
    }
    proof {
        assert forall|want: Seq<char>| !#[trigger] text_at(t@, pos as int, str_text(want)) by {
            if text_at(t@, pos as int, str_text(want)) {
                lemma_str_text_at(t@, pos as int, want, out@.len() as int);
                if out@.len() < want.len() {
                    lemma_escaped_char_shape(want[out@.len() as int]);
                }
            }
        }
    }
    None
}

proof fn lemma_digits(n: nat)
    ensures
        digits(n).len() >= 1,
        forall|j: int| 0 <= j < digits(n).len() ==> is_digit(#[trigger] digits(n)[j]),
        digits_value(digits(n)) == n,
        digits(n)[0] == '0' ==> n == 0 && digits(n).len() == 1,
    decreases n,
{
    assert(char_digit(digit_char(n % 10)) == n % 10);
    if n >= 10 {
        lemma_digits(n / 10);
        let s = digits(n);
        assert(s.drop_last() =~= digits(n / 10));
        assert(forall|j: int| 0 <= j < s.len() - 1 ==> s[j] == digits(n / 10)[j]);
        assert(s.last() == digit_char(n % 10));
        assert(digits_value(s) == digits_value(s.drop_last()) * 10 + char_digit(s.last()));
        assert(digits_value(s) == (n / 10) * 10 + n % 10);
    } else {
        let s = digits(n);
        assert(s == seq![digit_char(n)]);
        assert(s.drop_last() =~= Seq::<char>::empty());
        assert(digits_value(Seq::<char>::empty()) == 0);
        assert(char_digit(digit_char(n)) == n);
        assert(digits_value(s) == digits_value(s.drop_last()) * 10 + char_digit(s.last()));
    }
}

proof fn lemma_digits_value_prefix(s: Seq<char>, k: int)
    requires
        0 <= k <= s.len(),
    ensures
        digits_value(s.subrange(0, k)) <= digits_value(s),
    decreases s.len(),
{
    if k < s.len() {
        assert(s.drop_last().subrange(0, k) =~= s.subrange(0, k));
        lemma_digits_value_prefix(s.drop_last(), k);
    } else {
        assert(s.subrange(0, k) =~= s);
    }
}

/// The value of the decimal digit `c`, if it is one.
fn digit_value(c: char) -> (r: Option<u64>)
    ensures
        r is Some <==> is_digit(c),
        r is Some ==> r->Some_0 == char_digit(c) && r->Some_0 < 10,
{
    match c {
        '0' => Some(0),
        '1' => Some(1),
        '2' => Some(2),
        '3' => Some(3),
        '4' => Some(4),
        '5' => Some(5),
        '6' => Some(6),
        '7' => Some(7),
        '8' => Some(8),
        '9' => Some(9),
        _ => None,
    }
}

/// Whether the text at `p` cannot continue a number.
pub open spec fn number_ends(t: Seq<char>, p: int) -> bool {
    p < t.len() && !is_digit(t[p])
}

/// Reads a decimal `u64` at `pos`; gives it and the position after it.
fn parse_u64(t: &Vec<char>, pos: usize) -> (r: Option<(u64, usize)>)
    ensures
        r is Some ==> pos < r->Some_0.1 <= t@.len(),
        forall|n: u64|
            #[trigger] text_at(t@, pos as int, digits(n as nat)) && number_ends(
                t@,
                pos + digits(n as nat).len(),
            ) ==> r is Some && r->Some_0.0 == n && r->Some_0.1 == pos + digits(n as nat).len(),
{
    if pos >= t.len() || digit_value(t[pos]).is_none() {
        proof {
            assert forall|n: u64| !#[trigger] text_at(t@, pos as int, digits(n as nat)) by {
                lemma_digits(n as nat);
                if text_at(t@, pos as int, digits(n as nat)) {
                    lemma_text_at_char(t@, pos as int, digits(n as nat), 0);
                }
            }
        }
        return None;
    }
    if t[pos] == '0' {
        proof {
            assert forall|n: u64| #[trigger] text_at(t@, pos as int, digits(n as nat)) implies n == 0
                && digits(n as nat).len() == 1 by {
                lemma_digits(n as nat);
                lemma_text_at_char(t@, pos as int, digits(n as nat), 0);
            }
        }
        return Some((0, pos + 1));
    }
    let mut acc: u64 = 0;
    let mut i: usize = pos;
    proof {
        assert forall|n: u64| #[trigger] text_at(t@, pos as int, digits(n as nat)) implies digits_value(
            digits(n as nat).subrange(0, 0),
        ) == acc by {
            assert(digits(n as nat).subrange(0, 0) =~= Seq::<char>::empty());
        }
    }
    while i < t.len() && digit_value(t[i]).is_some()
        invariant
            pos <= i <= t@.len(),
            pos < t@.len(),
            is_digit(t@[pos as int]),
            forall|n: u64|
                #[trigger] text_at(t@, pos as int, digits(n as nat)) && number_ends(
                    t@,
                    pos + digits(n as nat).len(),
                ) ==> i - pos <= digits(n as nat).len() && acc == digits_value(
                    digits(n as nat).subrange(0, i - pos),
                ),
        decreases t@.len() - i,
    {
        let d = digit_value(t[i]).unwrap();
        let ghost a0 = acc;
        let next = match acc.checked_mul(10) {
            Some(x) => x.checked_add(d),
            None => None,
        };
        proof {
            assert forall|n: u64|
                #[trigger] text_at(t@, pos as int, digits(n as nat)) && number_ends(
                    t@,
                    pos + digits(n as nat).len(),
                ) implies i - pos < digits(n as nat).len() && digits_value(digits(n as nat).subrange(0, i - pos + 1))
                == a0 * 10 + d && a0 * 10 + d <= n by {
                let ds = digits(n as nat);
                lemma_digits(n as nat);
                if i - pos == ds.len() {
                    assert(!is_digit(t@[i as int]));
                }
                lemma_text_at_char(t@, pos as int, ds, i - pos);
                let pre = ds.subrange(0, i - pos + 1);
                assert(pre.drop_last() =~= ds.subrange(0, i - pos));
                lemma_digits_value_prefix(ds, i - pos + 1);
            }
        }
        match next {
            Some(x) => {
                acc = x;
            },
            None => {
                proof {
                    assert forall|n: u64|
                        !(#[trigger] text_at(t@, pos as int, digits(n as nat)) && number_ends(
                            t@,
                            pos + digits(n as nat).len(),
                        )) by {}
                }
                return None;
            },
        }
        i = i + 1;
    }
    proof {
        assert forall|n: u64|
            #[trigger] text_at(t@, pos as int, digits(n as nat)) && number_ends(
                t@,
                pos + digits(n as nat).len(),
            ) implies acc == n && i == pos + digits(n as nat).len() by {
            let ds = digits(n as nat);
            lemma_digits(n as nat);
            if i - pos < ds.len() {
                lemma_text_at_char(t@, pos as int, ds, i - pos);
            }
            assert(ds.subrange(0, ds.len() as int) =~= ds);
        }
    }
    Some((acc, i))
}

proof fn lemma_entries_body_step(s: Entries, k: int)
    requires
        0 <= k < s.len(),
    ensures
        entries_body(s.subrange(0, k + 1)) == if k == 0 {
            entry_text(s[0])
        } else {
            entries_body(s.subrange(0, k)) + seq![','] + entry_text(s[k])
        },
{
    let p = s.subrange(0, k + 1);
    assert(p.drop_last() =~= s.subrange(0, k));
    if k == 0 {
        assert(p.len() == 1);
    }
}

/// The text of the first `j` entries begins the text of all of them, and a comma follows
/// it where more entries come.
proof fn lemma_entries_body_prefix(s: Entries, j: int)
    requires
        0 <= j <= s.len(),
    ensures
        entries_body(s.subrange(0, j)).len() <= entries_body(s).len(),
        entries_body(s).subrange(0, entries_body(s.subrange(0, j)).len() as int) == entries_body(
            s.subrange(0, j),
        ),
        0 < j < s.len() ==> entries_body(s.subrange(0, j)).len() < entries_body(s).len()
            && entries_body(s)[entries_body(s.subrange(0, j)).len() as int] == ',',
    decreases s.len(),
{
    let b = entries_body(s.subrange(0, j));
    if j == s.len() {
        assert(s.subrange(0, j) =~= s);
        assert(entries_body(s).subrange(0, b.len() as int) =~= entries_body(s));
    } else {
        let d = s.drop_last();
        assert(d.subrange(0, j) =~= s.subrange(0, j));
        lemma_entries_body_prefix(d, j);
        if s.len() == 1 {
            assert(s.subrange(0, 0) =~= Seq::<(Seq<char>, u64)>::empty());
            assert(entries_body(s).subrange(0, 0) =~= Seq::<char>::empty());
        } else {
            let whole = entries_body(d) + seq![','] + entry_text(s.last());
            assert(entries_body(s) == whole);
            assert(whole.subrange(0, b.len() as int) =~= entries_body(d).subrange(0, b.len() as int));
            if 0 < j && j == d.len() {
                assert(d.subrange(0, j) =~= d);
                assert(whole[b.len() as int] == ',');
            }
            if 0 < j && j < d.len() {
                assert(whole[b.len() as int] == entries_body(d)[b.len() as int]);
            }
        }
    }
}

/// Where the clock text of `want` stands at `pos`, entry `k` stands after the first `k`
/// entries (and their comma), and after entry `k` comes a comma or the closing brace.
proof fn lemma_clock_text_at(t: Seq<char>, pos: int, want: Entries, k: int)
    requires
        text_at(t, pos, clock_text(want)),
        0 <= k < want.len(),
    ensures
        ({
            let start = if k == 0 {
                pos + 1
            } else {
                pos + 1 + entries_body(want.subrange(0, k)).len() + 1
            };
            let after = pos + 1 + entries_body(want.subrange(0, k + 1)).len();
            &&& text_at(t, start, entry_text(want[k]))
            &&& after == start + entry_text(want[k]).len()
            &&& k + 1 < want.len() ==> after < t.len() && t[after] == ','
            &&& k + 1 == want.len() ==> after < t.len() && t[after] == '}' && after + 1 == pos
                + clock_text(want).len()
        }),
{
    let body = entries_body(want);
    let b = entries_body(want.subrange(0, k + 1));
    lemma_entries_body_step(want, k);
    lemma_entries_body_prefix(want, k + 1);
    assert(clock_text(want) =~= seq!['{'] + (body + seq!['}']));
    lemma_text_at_concat(t, pos, seq!['{'], body + seq!['}']);
    assert(body + seq!['}'] =~= b + (body.subrange(b.len() as int, body.len() as int) + seq!['}']));
    lemma_text_at_concat(t, pos + 1, b, body.subrange(b.len() as int, body.len() as int) + seq!['}']);
    if k == 0 {
        assert(b == entry_text(want[0]));
    } else {
        let a = entries_body(want.subrange(0, k));
        assert(b =~= (a + seq![',']) + entry_text(want[k]));
        lemma_text_at_concat(t, pos + 1, a + seq![','], entry_text(want[k]));
    }
    let rest = body.subrange(b.len() as int, body.len() as int) + seq!['}'];
    if k + 1 < want.len() {
        assert(rest[0] == body[b.len() as int]);
        lemma_text_at_char(t, pos + 1 + b.len(), rest, 0);
    } else {
        assert(want.subrange(0, k + 1) =~= want);
        assert(rest =~= seq!['}']);
        lemma_text_at_char(t, pos + 1 + b.len(), rest, 0);
    }
}

/// Reads a clock (a JSON object from node id to date) at `pos`; gives it, entry for entry,
/// and the position after it.
fn parse_clock(t: &Vec<char>, pos: usize) -> (r: Option<(Clock, usize)>)
    ensures
        r is Some ==> pos < r->Some_0.1 <= t@.len(),
        forall|want: Entries|
            #[trigger] text_at(t@, pos as int, clock_text(want)) ==> r is Some && r->Some_0.0@ == want
                && r->Some_0.1 == pos + clock_text(want).len(),
{
    if pos >= t.len() || t[pos] != '{' {
        proof {
            assert forall|want: Entries| !#[trigger] text_at(t@, pos as int, clock_text(want)) by {
                if text_at(t@, pos as int, clock_text(want)) {
                    lemma_text_at_char(t@, pos as int, clock_text(want), 0);
                }
            }
        }
        return None;
    }
    let mut c = Clock::empty();
    if pos + 1 < t.len() && t[pos + 1] == '}' {
        proof {
            assert forall|want: Entries| #[trigger] text_at(t@, pos as int, clock_text(want)) implies c@
                == want && pos + 2 == pos + clock_text(want).len() by {
                if want.len() > 0 {
                    lemma_clock_text_at(t@, pos as int, want, 0);
                    lemma_text_at_char(t@, pos + 1, entry_text(want[0]), 0);
                } else {
                    assert(want =~= c@);
                    lemma_text_at_char(t@, pos as int, clock_text(want), 1);
                }
            }
        }
        return Some((c, pos + 2));
    }
    proof {
        assert forall|want: Entries| #[trigger] text_at(t@, pos as int, clock_text(want)) implies want.len()
            > 0 by {
            if want.len() == 0 {
                lemma_text_at_char(t@, pos as int, clock_text(want), 1);
            }
        }
    }
    let mut i: usize = pos + 1;
    loop
        invariant
            pos < i <= t@.len(),
            forall|want: Entries|
                #[trigger] text_at(t@, pos as int, clock_text(want)) ==> c@.len() < want.len()
                    && want.subrange(0, c@.len() as int) == c@ && i == (if c@.len() == 0 {
                    pos + 1
                } else {
                    pos + 1 + entries_body(want.subrange(0, c@.len() as int)).len() + 1
                }),
        decreases t@.len() - i,
    {
        let ghost k = c@.len() as int;
        let ghost start = i;
        proof {
            assert forall|want: Entries| #[trigger] text_at(t@, pos as int, clock_text(want)) implies text_at(
                t@,
                i as int,
                str_text(want[k].0) + seq![':'] + digits(want[k].1 as nat),
            ) by {
                lemma_clock_text_at(t@, pos as int, want, k);
            }
        }
        let (id, i1) = match parse_string(t, i) {
            Some(x) => x,
            None => {
                proof {
                    assert forall|want: Entries| !#[trigger] text_at(t@, pos as int, clock_text(want)) by {
                        if text_at(t@, pos as int, clock_text(want)) {
                            lemma_text_at_concat(t@, i as int, str_text(want[k].0) + seq![':'], digits(want[k].1 as nat));
                            lemma_text_at_concat(t@, i as int, str_text(want[k].0), seq![':']);
                        }
                    }
                }
                return None;
            },
        };
        if i1 >= t.len() || t[i1] != ':' {
            proof {
                assert forall|want: Entries| !#[trigger] text_at(t@, pos as int, clock_text(want)) by {
                    if text_at(t@, pos as int, clock_text(want)) {
                        lemma_text_at_concat(t@, i as int, str_text(want[k].0) + seq![':'], digits(want[k].1 as nat));
                        lemma_text_at_concat(t@, i as int, str_text(want[k].0), seq![':']);
                        lemma_text_at_char(t@, i1 as int, seq![':'], 0);
                    }
                }
            }
            return None;
        }
        let (d, i2) = match parse_u64(t, i1 + 1) {
            Some(x) => x,
            None => {
                proof {
                    assert forall|want: Entries| !#[trigger] text_at(t@, pos as int, clock_text(want)) by {
                        if text_at(t@, pos as int, clock_text(want)) {
                            lemma_text_at_concat(t@, i as int, str_text(want[k].0) + seq![':'], digits(want[k].1 as nat));
                            lemma_text_at_concat(t@, i as int, str_text(want[k].0), seq![':']);
                            lemma_clock_text_at(t@, pos as int, want, k);
                            assert(text_at(t@, i1 + 1, digits(want[k].1 as nat)));
                        }
                    }
                }
                return None;
            },
        };
        let ghost before = c@;
        c.push_entry(id, d);
        proof {
            assert forall|want: Entries| #[trigger] text_at(t@, pos as int, clock_text(want)) implies want.subrange(
                0,
                k + 1,
            ) == c@ && i2 == pos + 1 + entries_body(want.subrange(0, k + 1)).len() by {
                lemma_text_at_concat(t@, i as int, str_text(want[k].0) + seq![':'], digits(want[k].1 as nat));
                lemma_text_at_concat(t@, i as int, str_text(want[k].0), seq![':']);
                lemma_clock_text_at(t@, pos as int, want, k);
                assert(text_at(t@, i1 + 1, digits(want[k].1 as nat)));
                assert(want.subrange(0, k + 1) =~= want.subrange(0, k).push(want[k]));
            }
        }
        if i2 < t.len() && t[i2] == ',' {
            proof {
                assert forall|want: Entries| #[trigger] text_at(t@, pos as int, clock_text(want)) implies c@.len()
                    < want.len() by {
                    lemma_clock_text_at(t@, pos as int, want, k);
                }
            }
            i = i2 + 1;
        } else if i2 < t.len() && t[i2] == '}' {
            proof {
                assert forall|want: Entries| #[trigger] text_at(t@, pos as int, clock_text(want)) implies c@
                    == want && i2 + 1 == pos + clock_text(want).len() by {
                    lemma_clock_text_at(t@, pos as int, want, k);
                    assert(want.subrange(0, want.len() as int) =~= want);
                }
            }
            return Some((c, i2 + 1));
        } else {
            proof {
                assert forall|want: Entries| !#[trigger] text_at(t@, pos as int, clock_text(want)) by {
                    if text_at(t@, pos as int, clock_text(want)) {
                        lemma_clock_text_at(t@, pos as int, want, k);
                    }
                }
            }
            return None;
        }
    }
}

proof fn lemma_list_body_step(s: Seq<MsgV>, k: int)
    requires
        0 <= k < s.len(),
    ensures
        list_body(s.subrange(0, k + 1)) == if k == 0 {
            msg_text(s[0])
        } else {
            list_body(s.subrange(0, k)) + seq![','] + msg_text(s[k])
        },
{
    let p = s.subrange(0, k + 1);
    assert(p.drop_last() =~= s.subrange(0, k));
    if k == 0 {
        assert(p.len() == 1);
    }
}

/// The text of the first `j` messages begins the text of all of them, and a comma follows
/// it where more messages come.
proof fn lemma_list_body_prefix(s: Seq<MsgV>, j: int)
    requires
        0 <= j <= s.len(),
    ensures
        list_body(s.subrange(0, j)).len() <= list_body(s).len(),
        list_body(s).subrange(0, list_body(s.subrange(0, j)).len() as int) == list_body(
            s.subrange(0, j),
        ),
        0 < j < s.len() ==> list_body(s.subrange(0, j)).len() < list_body(s).len()
            && list_body(s)[list_body(s.subrange(0, j)).len() as int] == ',',
    decreases s.len(),
{
    let b = list_body(s.subrange(0, j));
    if j == s.len() {
        assert(s.subrange(0, j) =~= s);
        assert(list_body(s).subrange(0, b.len() as int) =~= list_body(s));
    } else {
        let d = s.drop_last();
        assert(d.subrange(0, j) =~= s.subrange(0, j));
        lemma_list_body_prefix(d, j);
        if s.len() == 1 {
            assert(s.subrange(0, 0) =~= Seq::<MsgV>::empty());
            assert(list_body(s).subrange(0, 0) =~= Seq::<char>::empty());
        } else {
            let whole = list_body(d) + seq![','] + msg_text(s.last());
            assert(list_body(s) == whole);
            assert(whole.subrange(0, b.len() as int) =~= list_body(d).subrange(0, b.len() as int));
            if 0 < j && j == d.len() {
                assert(d.subrange(0, j) =~= d);
                assert(whole[b.len() as int] == ',');
            }
            if 0 < j && j < d.len() {
                assert(whole[b.len() as int] == list_body(d)[b.len() as int]);
            }
        }
    }
}

/// Where `[` and the messages of `want` and `]` stand at `pos`, message `k` stands after
/// the first `k` (and their comma), and after it comes a comma or the closing bracket.
proof fn lemma_list_text_at(t: Seq<char>, pos: int, want: Seq<MsgV>, k: int)
    requires
        text_at(t, pos, seq!['['] + list_body(want) + seq![']']),
        0 <= k < want.len(),
    ensures
        ({
            let start = if k == 0 {
                pos + 1
            } else {
                pos + 1 + list_body(want.subrange(0, k)).len() + 1
            };
            let after = pos + 1 + list_body(want.subrange(0, k + 1)).len();
            &&& text_at(t, start, msg_text(want[k]))
            &&& after == start + msg_text(want[k]).len()
            &&& k + 1 < want.len() ==> after < t.len() && t[after] == ','
            &&& k + 1 == want.len() ==> after < t.len() && t[after] == ']' && after + 1 == pos + 2
                + list_body(want).len()
        }),
{
    let body = list_body(want);
    let b = list_body(want.subrange(0, k + 1));
    lemma_list_body_step(want, k);
    lemma_list_body_prefix(want, k + 1);
    assert(seq!['['] + list_body(want) + seq![']'] =~= seq!['['] + (body + seq![']']));
    lemma_text_at_concat(t, pos, seq!['['], body + seq![']']);
    assert(body + seq![']'] =~= b + (body.subrange(b.len() as int, body.len() as int) + seq![']']));
    lemma_text_at_concat(t, pos + 1, b, body.subrange(b.len() as int, body.len() as int) + seq![']']);
    if k == 0 {
        assert(b == msg_text(want[0]));
    } else {
        let a = list_body(want.subrange(0, k));
        assert(b =~= (a + seq![',']) + msg_text(want[k]));
        lemma_text_at_concat(t, pos + 1, a + seq![','], msg_text(want[k]));
    }
    let rest = body.subrange(b.len() as int, body.len() as int) + seq![']'];
    if k + 1 < want.len() {
        assert(rest[0] == body[b.len() as int]);
        lemma_text_at_char(t, pos + 1 + b.len(), rest, 0);
    } else {
        assert(want.subrange(0, k + 1) =~= want);
        assert(rest =~= seq![']']);
        lemma_text_at_char(t, pos + 1 + b.len(), rest, 0);
    }
}

/// Whether the character at `i` is `c`; gives the position after it.
fn expect_char(t: &Vec<char>, i: usize, c: char) -> (r: Option<usize>)
    ensures
        r is Some <==> (i < t@.len() && t@[i as int] == c),
        r is Some ==> r->Some_0 == i + 1,
{
    if i < t.len() && t[i] == c {
        Some(i + 1)
    } else {
        None
    }
}

/// Reads the object key `key` and its colon at `i`; gives the position after them.
fn expect_key(t: &Vec<char>, i: usize, key: &str) -> (r: Option<usize>)
    ensures
        r is Some ==> i < r->Some_0 <= t@.len(),
        text_at(t@, i as int, str_text(key@) + seq![':']) ==> r is Some && r->Some_0 == i + str_text(
            key@,
        ).len() + 1,
{
    proof {
        if text_at(t@, i as int, str_text(key@) + seq![':']) {
            lemma_text_at_concat(t@, i as int, str_text(key@), seq![':']);
            lemma_text_at_char(t@, i + str_text(key@).len(), seq![':'], 0);
        }
    }
    match parse_string(t, i) {
        Some((s, j)) => {
            if s == key.to_owned() {
                expect_char(t, j, ':')
            } else {
                None
            }
        },
        None => None,
    }
}

/// Where the text of message `m` stands at `pos`, each of its parts stands at its place.
pub open spec fn msg_parts(t: Seq<char>, pos: int, m: MsgV) -> bool {
    let o1 = pos + 1;
    let o2 = o1 + str_text(id_key()).len() + 1;
    let o3 = o2 + digits(m.id as nat).len();
    let o5 = o3 + 1 + str_text(sender_key()).len() + 1;
    let o6 = o5 + str_text(m.sender_id).len();
    let o8 = o6 + 1 + str_text(header_key()).len() + 1;
    let o9 = o8 + header_text(m.header).len();
    let o11 = o9 + 1 + str_text(clock_key()).len() + 1;
    let o12 = o11 + clock_text(m.clock).len();
    &&& o12 + 1 == pos + msg_text(m).len()
    &&& o12 < t.len()
    &&& t[pos] == '{'
    &&& text_at(t, o1, str_text(id_key()) + seq![':'])
    &&& text_at(t, o2, digits(m.id as nat))
    &&& number_ends(t, o3)
    &&& t[o3] == ','
    &&& text_at(t, o3 + 1, str_text(sender_key()) + seq![':'])
    &&& text_at(t, o5, str_text(m.sender_id))
    &&& t[o6] == ','
    &&& text_at(t, o6 + 1, str_text(header_key()) + seq![':'])
    &&& text_at(t, o8, header_text(m.header))
    &&& t[o9] == ','
    &&& text_at(t, o9 + 1, str_text(clock_key()) + seq![':'])
    &&& text_at(t, o11, clock_text(m.clock))
    &&& t[o12] == '}'
}

proof fn lemma_field(t: Seq<char>, p: int, key: Seq<char>, v: Seq<char>)
    requires
        text_at(t, p, field(key, v)),
    ensures
        text_at(t, p, str_text(key) + seq![':']),
        text_at(t, p + str_text(key).len() + 1, v),
        field(key, v).len() == str_text(key).len() + 1 + v.len(),
{
    lemma_text_at_concat(t, p, str_text(key) + seq![':'], v);
}

#[verifier::rlimit(40)]
proof fn lemma_msg_parts(t: Seq<char>, pos: int, m: MsgV)
    requires
        text_at(t, pos, msg_text(m)),
    ensures
        msg_parts(t, pos, m),
{
    let f1 = field(id_key(), digits(m.id as nat));
    let f2 = field(sender_key(), str_text(m.sender_id));
    let f3 = field(header_key(), header_text(m.header));
    let f4 = field(clock_key(), clock_text(m.clock));
    let c = seq![','];
    let a1 = seq!['{'] + f1;
    let a2 = a1 + c;
    let a3 = a2 + f2;
    let a4 = a3 + c;
    let a5 = a4 + f3;
    let a6 = a5 + c;
    let a7 = a6 + f4;
    assert(msg_text(m) == a7 + seq!['}']);
    lemma_text_at_concat(t, pos, a7, seq!['}']);
    lemma_text_at_char(t, pos + a7.len(), seq!['}'], 0);
    lemma_text_at_concat(t, pos, a6, f4);
    lemma_field(t, pos + a6.len(), clock_key(), clock_text(m.clock));
    lemma_text_at_concat(t, pos, a5, c);
    lemma_text_at_char(t, pos + a5.len(), c, 0);
    lemma_text_at_concat(t, pos, a4, f3);
    lemma_field(t, pos + a4.len(), header_key(), header_text(m.header));
    lemma_text_at_concat(t, pos, a3, c);
    lemma_text_at_char(t, pos + a3.len(), c, 0);
    lemma_text_at_concat(t, pos, a2, f2);
    lemma_field(t, pos + a2.len(), sender_key(), str_text(m.sender_id));
    lemma_text_at_concat(t, pos, a1, c);
    lemma_text_at_char(t, pos + a1.len(), c, 0);
    lemma_text_at_concat(t, pos, seq!['{'], f1);
    lemma_text_at_char(t, pos, seq!['{'], 0);
    lemma_field(t, pos + 1, id_key(), digits(m.id as nat));
}

proof fn lemma_tagged(t: Seq<char>, p: int, tag: Seq<char>, v: Seq<char>)
    requires
        text_at(t, p, tagged(tag, v)),
    ensures
        t[p] == '{',
        text_at(t, p + 1, str_text(tag)),
        t[p + 1 + str_text(tag).len()] == ':',
        text_at(t, p + 2 + str_text(tag).len(), v),
        p + 2 + str_text(tag).len() + v.len() < t.len(),
        t[p + 2 + str_text(tag).len() + v.len()] == '}',
        tagged(tag, v).len() == 3 + str_text(tag).len() + v.len(),
{
    let st = str_text(tag);
    assert(tagged(tag, v) =~= seq!['{'] + (st + (seq![':'] + (v + seq!['}']))));
    lemma_text_at_concat(t, p, seq!['{'], st + (seq![':'] + (v + seq!['}'])));
    lemma_text_at_concat(t, p + 1, st, seq![':'] + (v + seq!['}']));
    lemma_text_at_concat(t, p + 1 + st.len(), seq![':'], v + seq!['}']);
    lemma_text_at_concat(t, p + 2 + st.len(), v, seq!['}']);
    lemma_text_at_char(t, p, seq!['{'], 0);
    lemma_text_at_char(t, p + 1 + st.len(), seq![':'], 0);
    lemma_text_at_char(t, p + 2 + st.len() + v.len(), seq!['}'], 0);
}

proof fn lemma_pair(t: Seq<char>, p: int, a: Seq<char>, b: Seq<char>)
    requires
        text_at(t, p, pair(a, b)),
    ensures
        t[p] == '[',
        text_at(t, p + 1, a),
        t[p + 1 + a.len()] == ',',
        text_at(t, p + 2 + a.len(), b),
        p + 2 + a.len() + b.len() < t.len(),
        t[p + 2 + a.len() + b.len()] == ']',
        pair(a, b).len() == 3 + a.len() + b.len(),
{
    assert(pair(a, b) =~= seq!['['] + (a + (seq![','] + (b + seq![']']))));
    lemma_text_at_concat(t, p, seq!['['], a + (seq![','] + (b + seq![']'])));
    lemma_text_at_concat(t, p + 1, a, seq![','] + (b + seq![']']));
    lemma_text_at_concat(t, p + 1 + a.len(), seq![','], b + seq![']']);
    lemma_text_at_concat(t, p + 2 + a.len(), b, seq![']']);
    lemma_text_at_char(t, p, seq!['['], 0);
    lemma_text_at_char(t, p + 1 + a.len(), seq![','], 0);
    lemma_text_at_char(t, p + 2 + a.len() + b.len(), seq![']'], 0);
}

proof fn lemma_header_start(t: Seq<char>, p: int, h: HeaderV)
    requires
        text_at(t, p, header_text(h)),
    ensures
        p < t.len(),
        (h is Connection || h is Disconnection) <==> t[p] == '"',
        !(h is Connection || h is Disconnection) ==> t[p] == '{',
{
    match h {
        HeaderV::Connection => lemma_text_at_char(t, p, header_text(h), 0),
        HeaderV::Disconnection => lemma_text_at_char(t, p, header_text(h), 0),
        HeaderV::Private(a, b) => lemma_tagged(t, p, private_tag(), pair(str_text(a), str_text(b))),
        HeaderV::Public(a) => lemma_tagged(t, p, public_tag(), str_text(a)),
        HeaderV::SnapshotRequest(a) => lemma_tagged(t, p, request_tag(), str_text(a)),
        HeaderV::SnapshotResponse(a, l) => lemma_tagged(
            t,
            p,
            response_tag(),
            pair(str_text(a), seq!['['] + list_body(l) + seq![']']),
        ),
    }
}

/// Reads a header at `pos`; gives it and the position after it.
/// The tag of a header that is written as an object.
pub open spec fn header_tag(h: HeaderV) -> Seq<char> {
    match h {
        HeaderV::Public(_) => public_tag(),
        HeaderV::SnapshotRequest(_) => request_tag(),
        HeaderV::Private(_, _) => private_tag(),
        _ => response_tag(),
    }
}

/// The value of a header that is written as an object.
pub open spec fn header_value(h: HeaderV) -> Seq<char> {
    match h {
        HeaderV::Public(x) => str_text(x),
        HeaderV::SnapshotRequest(x) => str_text(x),
        HeaderV::Private(a, b) => pair(str_text(a), str_text(b)),
        HeaderV::SnapshotResponse(a, l) => pair(str_text(a), seq!['['] + list_body(l) + seq![']']),
        _ => Seq::empty(),
    }
}

proof fn lemma_header_object(h: HeaderV)
    requires
        !(h is Connection || h is Disconnection),
    ensures
        header_text(h) == tagged(header_tag(h), header_value(h)),
{
}

/// Reads the value of a header whose tag `tag` was read, then the closing brace, at `q`.
fn parse_header_value(t: &Vec<char>, q: usize, tag: &String) -> (r: Option<(Header, usize)>)
    ensures
        r is Some ==> q < r->Some_0.1 <= t@.len(),
        forall|want: HeaderV|
            !(want is Connection || want is Disconnection) && tag@ == header_tag(want) && #[trigger] text_at(
                t@,
                q as int,
                header_value(want) + seq!['}'],
            ) ==> r is Some && r->Some_0.0@ == want && r->Some_0.1 == q + header_value(want).len() + 1,
    decreases t@.len() - q, 1nat,
{
    proof {
        reveal_strlit("Public");
        reveal_strlit("Private");
        reveal_strlit("SnapshotRequest");
        reveal_strlit("SnapshotResponse");
        assert("Public"@ =~= public_tag());
        assert("Private"@ =~= private_tag());
        assert("SnapshotRequest"@ =~= request_tag());
        assert("SnapshotResponse"@ =~= response_tag());
        assert forall|want: HeaderV| #[trigger] text_at(t@, q as int, header_value(want) + seq!['}']) implies text_at(
            t@,
            q as int,
            header_value(want),
        ) && q + header_value(want).len() < t@.len() && t@[q + header_value(want).len()] == '}' by {
            lemma_text_at_concat(t@, q as int, header_value(want), seq!['}']);
            lemma_text_at_char(t@, q + header_value(want).len(), seq!['}'], 0);
        }
    }
    if *tag == "Public".to_owned() || *tag == "SnapshotRequest".to_owned() {
        let (x, p4) = match parse_string(t, q) {
            Some(v) => v,
            None => {
                return None;
            },
        };
        let p5 = match expect_char(t, p4, '}') {
            Some(p) => p,
            None => {
                return None;
            },
        };
        if *tag == "Public".to_owned() {
            return Some((Header::Public(x), p5));
        } else {
            return Some((Header::SnapshotRequest(x), p5));
        }
    }
    if !(*tag == "Private".to_owned() || *tag == "SnapshotResponse".to_owned()) {
        return None;
    }
    proof {
        assert forall|want: HeaderV|
            !(want is Connection || want is Disconnection) && tag@ == header_tag(want) && #[trigger] text_at(
                t@,
                q as int,
                header_value(want) + seq!['}'],
            ) implies ({
                let a = match want {
                    HeaderV::Private(a, _) => a,
                    HeaderV::SnapshotResponse(a, _) => a,
                    _ => Seq::empty(),
                };
                let b = match want {
                    HeaderV::Private(_, b) => str_text(b),
                    HeaderV::SnapshotResponse(_, l) => seq!['['] + list_body(l) + seq![']'],
                    _ => Seq::empty(),
                };
                &&& header_value(want) == pair(str_text(a), b)
                &&& t@[q as int] == '['
                &&& text_at(t@, q + 1, str_text(a))
                &&& t@[q + 1 + str_text(a).len()] == ','
                &&& text_at(t@, q + 2 + str_text(a).len(), b)
                &&& t@[q + 2 + str_text(a).len() + b.len()] == ']'
            }) by {
            match want {
                HeaderV::Private(a, b) => lemma_pair(t@, q as int, str_text(a), str_text(b)),
                HeaderV::SnapshotResponse(a, l) => lemma_pair(
                    t@,
                    q as int,
                    str_text(a),
                    seq!['['] + list_body(l) + seq![']'],
                ),
                _ => {},
            }
        }
    }
    let p4 = match expect_char(t, q, '[') {
        Some(p) => p,
        None => {
            return None;
        },
    };
    let (a, p5) = match parse_string(t, p4) {
        Some(v) => v,
        None => {
            return None;
        },
    };
    let p6 = match expect_char(t, p5, ',') {
        Some(p) => p,
        None => {
            return None;
        },
    };
    if *tag == "Private".to_owned() {
        let (b, p7) = match parse_string(t, p6) {
            Some(v) => v,
            None => {
                return None;
            },
        };
        let p8 = match expect_char(t, p7, ']') {
            Some(p) => p,
            None => {
                return None;
            },
        };
        let p9 = match expect_char(t, p8, '}') {
            Some(p) => p,
            None => {
                return None;
            },
        };
        return Some((Header::Private(a, b), p9));
    }
    let (list, p7) = match parse_list(t, p6) {
        Some(v) => v,
        None => {
            return None;
        },
    };
    let p8 = match expect_char(t, p7, ']') {
        Some(p) => p,
        None => {
            return None;
        },
    };
    let p9 = match expect_char(t, p8, '}') {
        Some(p) => p,
        None => {
            return None;
        },
    };
    Some((Header::SnapshotResponse(a, list), p9))
}

/// Reads a header at `pos`; gives it and the position after it.
fn parse_header(t: &Vec<char>, pos: usize) -> (r: Option<(Header, usize)>)
    ensures
        r is Some ==> pos < r->Some_0.1 <= t@.len(),
        forall|want: HeaderV|
            #[trigger] text_at(t@, pos as int, header_text(want)) ==> r is Some && r->Some_0.0@ == want
                && r->Some_0.1 == pos + header_text(want).len(),
    decreases t@.len() - pos, 2nat,
{
    proof {
        reveal_strlit("Connection");
        reveal_strlit("Disconnection");
        assert("Connection"@ =~= connection_tag());
        assert("Disconnection"@ =~= disconnection_tag());
        assert forall|want: HeaderV| #[trigger] text_at(t@, pos as int, header_text(want)) implies pos
            < t@.len() && ((want is Connection || want is Disconnection) <==> t@[pos as int] == '"') by {
            lemma_header_start(t@, pos as int, want);
        }
    }
    if pos < t.len() && t[pos] == '"' {
        let (s, j) = match parse_string(t, pos) {
            Some(x) => x,
            None => {
                return None;
            },
        };
        if s == "Connection".to_owned() {
            return Some((Header::Connection, j));
        } else if s == "Disconnection".to_owned() {
            return Some((Header::Disconnection, j));
        } else {
            return None;
        }
    }
    proof {
        assert forall|want: HeaderV| #[trigger] text_at(t@, pos as int, header_text(want)) implies ({
            let st = str_text(header_tag(want));
            &&& t@[pos as int] == '{'
            &&& text_at(t@, pos + 1, st)
            &&& t@[pos + 1 + st.len()] == ':'
            &&& text_at(t@, pos + 2 + st.len(), header_value(want) + seq!['}'])
            &&& header_text(want).len() == st.len() + 2 + header_value(want).len() + 1
        }) by {
            lemma_header_start(t@, pos as int, want);
            lemma_header_object(want);
            let st = str_text(header_tag(want));
            let v = header_value(want);
            lemma_tagged(t@, pos as int, header_tag(want), v);
            assert(tagged(header_tag(want), v) =~= (seq!['{'] + st + seq![':']) + (v + seq!['}']));
            lemma_text_at_concat(t@, pos as int, seq!['{'] + st + seq![':'], v + seq!['}']);
        }
    }
    let p1 = match expect_char(t, pos, '{') {
        Some(p) => p,
        None => {
            return None;
        },
    };
    let (tag, p2) = match parse_string(t, p1) {
        Some(x) => x,
        None => {
            return None;
        },
    };
    let p3 = match expect_char(t, p2, ':') {
        Some(p) => p,
        None => {
            return None;
        },
    };
    parse_header_value(t, p3, &tag)
}

/// Reads a JSON array of messages at `pos`; gives them and the position after it.
fn parse_list(t: &Vec<char>, pos: usize) -> (r: Option<(Vec<Msg>, usize)>)
    ensures
        r is Some ==> pos < r->Some_0.1 <= t@.len(),
        forall|want: Seq<MsgV>|
            #[trigger] text_at(t@, pos as int, seq!['['] + list_body(want) + seq![']']) ==> r is Some
                && msgs_view(r->Some_0.0@) == want && r->Some_0.1 == pos + 2 + list_body(want).len(),
    decreases t@.len() - pos, 0nat,
{
    proof {
        assert forall|want: Seq<MsgV>| #[trigger] text_at(t@, pos as int, seq!['['] + list_body(want) + seq![']'])
            implies pos < t@.len() && t@[pos as int] == '[' && (want.len() == 0 <==> (pos + 1 < t@.len()
            && t@[pos + 1] == ']')) by {
            let x = seq!['['] + list_body(want) + seq![']'];
            lemma_text_at_char(t@, pos as int, x, 0);
            if want.len() == 0 {
                lemma_text_at_char(t@, pos as int, x, 1);
            } else {
                lemma_list_text_at(t@, pos as int, want, 0);
                lemma_msg_parts(t@, pos + 1, want[0]);
            }
        }
    }
    if pos >= t.len() || t[pos] != '[' {
        return None;
    }
    let mut out: Vec<Msg> = Vec::new();
    if pos + 1 < t.len() && t[pos + 1] == ']' {
        proof {
            assert forall|want: Seq<MsgV>| #[trigger] text_at(t@, pos as int, seq!['['] + list_body(want) + seq![']'])
                implies msgs_view(out@) == want by {
                assert(msgs_view(out@) =~= want);
            }
        }
        return Some((out, pos + 2));
    }
    let mut i: usize = pos + 1;
    proof {
        assert(msgs_view(out@) =~= Seq::<MsgV>::empty());
        assert forall|want: Seq<MsgV>| #[trigger] text_at(t@, pos as int, seq!['['] + list_body(want) + seq![']'])
            implies want.subrange(0, 0) == msgs_view(out@) by {
            assert(want.subrange(0, 0) =~= msgs_view(out@));
        }
    }
    loop
        invariant
            pos < i <= t@.len(),
            forall|want: Seq<MsgV>|
                #[trigger] text_at(t@, pos as int, seq!['['] + list_body(want) + seq![']']) ==> out@.len()
                    < want.len() && want.subrange(0, out@.len() as int) == msgs_view(out@) && i == (if out@.len()
                    == 0 {
                    pos + 1
                } else {
                    pos + 1 + list_body(want.subrange(0, out@.len() as int)).len() + 1
                }),
        decreases t@.len() - i,
    {
        let ghost k = out@.len() as int;
        proof {
            assert forall|want: Seq<MsgV>| #[trigger] text_at(t@, pos as int, seq!['['] + list_body(want) + seq![']'])
                implies text_at(t@, i as int, msg_text(want[k])) by {
                lemma_list_text_at(t@, pos as int, want, k);
            }
        }
        let (m, j) = match parse_msg(t, i) {
            Some(x) => x,
            None => {
                return None;
            },
        };
        let ghost before = out@;
        proof {
            crate::messages::lemma_msgs_view_push(out@, m);
        }
        out.push(m);
        proof {
            assert forall|want: Seq<MsgV>| #[trigger] text_at(t@, pos as int, seq!['['] + list_body(want) + seq![']'])
                implies want.subrange(0, k + 1) == msgs_view(out@) && j == pos + 1 + list_body(
                want.subrange(0, k + 1),
            ).len() by {
                lemma_list_text_at(t@, pos as int, want, k);
                assert(want.subrange(0, k + 1) =~= want.subrange(0, k).push(want[k]));
            }
        }
        if j < t.len() && t[j] == ',' {
            proof {
                assert forall|want: Seq<MsgV>| #[trigger] text_at(t@, pos as int, seq!['['] + list_body(want) + seq![']'])
                    implies out@.len() < want.len() by {
                    lemma_list_text_at(t@, pos as int, want, k);
                }
            }
            i = j + 1;
        } else if j < t.len() && t[j] == ']' {
            proof {
                assert forall|want: Seq<MsgV>| #[trigger] text_at(t@, pos as int, seq!['['] + list_body(want) + seq![']'])
                    implies msgs_view(out@) == want && j + 1 == pos + 2 + list_body(want).len() by {
                    lemma_list_text_at(t@, pos as int, want, k);
                    assert(want.subrange(0, want.len() as int) =~= want);
                }
            }
            return Some((out, j + 1));
        } else {
            proof {
                assert forall|want: Seq<MsgV>| !#[trigger] text_at(t@, pos as int, seq!['['] + list_body(want) + seq![']'])
                    by {
                    if text_at(t@, pos as int, seq!['['] + list_body(want) + seq![']']) {
                        lemma_list_text_at(t@, pos as int, want, k);
                    }
                }
            }
            return None;
        }
    }
}

/// Reads a message at `pos`; gives it and the position after it.
/// Wherever the text of a message stands at `pos`, each of its parts stands at its place.
proof fn lemma_msg_parts_all(t: Seq<char>, pos: int)
    ensures
        forall|want: MsgV| #[trigger] text_at(t, pos, msg_text(want)) ==> msg_parts(t, pos, want),
{
    assert forall|want: MsgV| #[trigger] text_at(t, pos, msg_text(want)) implies msg_parts(t, pos, want) by {
        lemma_msg_parts(t, pos, want);
    }
}

#[verifier::spinoff_prover]
#[verifier::rlimit(100)]
fn parse_msg(t: &Vec<char>, pos: usize) -> (r: Option<(Msg, usize)>)
    ensures
        r is Some ==> pos < r->Some_0.1 <= t@.len(),
        forall|want: MsgV|
            #[trigger] text_at(t@, pos as int, msg_text(want)) ==> r is Some && r->Some_0.0@ == want
                && r->Some_0.1 == pos + msg_text(want).len(),
    decreases t@.len() - pos, 3nat,
{
    proof {
        reveal_strlit("id");
        reveal_strlit("sender_id");
        reveal_strlit("header");
        reveal_strlit("clock");
        assert("id"@ =~= id_key());
        assert("sender_id"@ =~= sender_key());
        assert("header"@ =~= header_key());
        assert("clock"@ =~= clock_key());
        lemma_msg_parts_all(t@, pos as int);
    }
    let p1 = match expect_char(t, pos, '{') {
        Some(p) => p,
        None => {
            return None;
        },
    };
    let p2 = match expect_key(t, p1, "id") {
        Some(p) => p,
        None => {
            return None;
        },
    };
    let (id, p3) = match parse_u64(t, p2) {
        Some(v) => v,
        None => {
            return None;
        },
    };
    let p4 = match expect_char(t, p3, ',') {
        Some(p) => p,
        None => {
            return None;
        },
    };
    let p5 = match expect_key(t, p4, "sender_id") {
        Some(p) => p,
        None => {
            return None;
        },
    };
    let (sender, p6) = match parse_string(t, p5) {
        Some(v) => v,
        None => {
            return None;
        },
    };
    let p7 = match expect_char(t, p6, ',') {
        Some(p) => p,
        None => {
            return None;
        },
    };
    let p8 = match expect_key(t, p7, "header") {
        Some(p) => p,
        None => {
            return None;
        },
    };
    let (header, p9) = match parse_header(t, p8) {
        Some(v) => v,
        None => {
            return None;
        },
    };
    let p10 = match expect_char(t, p9, ',') {
        Some(p) => p,
        None => {
            return None;
        },
    };
    let p11 = match expect_key(t, p10, "clock") {
        Some(p) => p,
        None => {
            return None;
        },
    };
    let (clock, p12) = match parse_clock(t, p11) {
        Some(v) => v,
        None => {
            return None;
        },
    };
    let p13 = match expect_char(t, p12, '}') {
        Some(p) => p,
        None => {
            return None;
        },
    };
    let m = Msg { id, sender_id: sender, header, clock };
    proof {
        assert forall|want: MsgV| #[trigger] text_at(t@, pos as int, msg_text(want)) implies m@ == want
            && p13 == pos + msg_text(want).len() by {
            lemma_msg_parts(t@, pos as int, want);
            let o2 = pos + 1 + str_text(id_key()).len() + 1;
            let o3 = o2 + digits(want.id as nat).len();
            let o5 = o3 + 1 + str_text(sender_key()).len() + 1;
            let o6 = o5 + str_text(want.sender_id).len();
            let o8 = o6 + 1 + str_text(header_key()).len() + 1;
            let o9 = o8 + header_text(want.header).len();
            let o11 = o9 + 1 + str_text(clock_key()).len() + 1;
            let o12 = o11 + clock_text(want.clock).len();
            assert(p1 == pos + 1 && p2 == o2);
            assert(id == want.id && p3 == o3 && p4 == o3 + 1 && p5 == o5);
            assert(sender@ == want.sender_id && p6 == o6 && p7 == o6 + 1 && p8 == o8);
            assert(header@ == want.header && p9 == o9 && p10 == o9 + 1 && p11 == o11);
            assert(clock@ == want.clock && p12 == o12 && p13 == o12 + 1);
        }
    }
    Some((m, p13))
}

impl Msg {
    /// Reads a message from one line of JSON. Exactly the lines that `serialize` writes
    /// are read: a line is read as message `m` if and only if it is the line of `m`, and
    /// `m`'s clock must name each node once.
    pub fn from_str(json: &str) -> (r: Result<Msg, CodecError>)
        ensures
            r is Ok <==> exists|m: MsgV| #[trigger] msg_text(m) == json@ && keys_distinct(m.clock),
            r is Ok ==> msg_text(r->Ok_0@) == json@ && r->Ok_0.clock.wf(),
            r == Err::<Msg, CodecError>(CodecError::RepeatedNode) <==> exists|m: MsgV|
                #[trigger] msg_text(m) == json@ && !keys_distinct(m.clock),
            r == Err::<Msg, CodecError>(CodecError::Syntax) <==> !exists|m: MsgV|
                #[trigger] msg_text(m) == json@,
            forall|m: MsgV|
                #[trigger] msg_text(m) == json@ && keys_distinct(m.clock) ==> r is Ok && r->Ok_0@ == m,
    {
        let t = chars_of(json);
        proof {
            assert forall|m: MsgV| #[trigger] msg_text(m) == json@ implies text_at(t@, 0, msg_text(m)) by {
                assert(t@.subrange(0, msg_text(m).len() as int) =~= t@);
            }
        }
        match parse_msg(&t, 0) {
            Some((m, end)) => {
                let again = m.serialize();
                let same = match again {
                    Ok(line) => line == json.to_owned(),
                    Err(_) => false,
                };
                if !same {
                    return Err(CodecError::Syntax);
                }
                if !m.clock.has_distinct_keys() {
                    return Err(CodecError::RepeatedNode);
                }
                Ok(m)
            },
            None => Err(CodecError::Syntax),
        }
    }
}

} // verus!
