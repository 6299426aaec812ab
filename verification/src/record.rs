//! The record model: the canonical entity (name, port, optional transport
//! protocol) and the validation rules that decide whether a raw row yields a
//! record.
//!
//! A raw row is retained only if its name is non-empty and its port field
//! parses as an unsigned integer; a present but unrecognized transport
//! protocol token is a fatal schema violation (the compiler aborts).

use vstd::prelude::*;
use vstd::string::StrSliceExecFns;

verus! {

/// Transport protocol of a service assignment.
#[derive(Clone, Copy, Debug, PartialEq, Eq, Hash, Structural)]
pub enum TransportProtocol {
    Udp,
    Tcp,
    Sctp,
    Dccp,
}

/// A network service using a port, with a given name.
#[derive(Clone, Debug)]
pub struct Service {
    pub name: String,
    pub port: u16,
    pub transport_protocol: Option<TransportProtocol>,
}

/// The mathematical value of a [`Service`]: its name as a character
/// sequence, its port, and its optional transport protocol.
#[verifier::ext_equal]
pub ghost struct ServiceView {
    pub name: Seq<char>,
    pub port: u16,
    pub transport_protocol: Option<TransportProtocol>,
}

impl View for Service {
    type V = ServiceView;

    open spec fn view(&self) -> ServiceView {
        ServiceView {
            name: self.name@,
            port: self.port,
            transport_protocol: self.transport_protocol,
        }
    }
}

impl Service {
    /// Make a fresh copy of this record, equal in value to the original.
    pub fn duplicate(&self) -> (r: Service)
        ensures
            r@ == self@,
    {
        Service {
            name: self.name.clone(),
            port: self.port,
            transport_protocol: self.transport_protocol,
        }
    }
}

/// A raw row of the source table, as handed over by the row source:
/// the three fields of interest, untouched. A missing transport protocol
/// field arrives as `None`.
#[derive(Clone, Debug)]
pub struct RawRow {
    pub name: String,
    pub port: String,
    pub transport_protocol: Option<String>,
}

/// The mathematical value of a [`RawRow`].
#[verifier::ext_equal]
pub ghost struct RawRowView {
    pub name: Seq<char>,
    pub port: Seq<char>,
    pub transport_protocol: Option<Seq<char>>,
}

impl View for RawRow {
    type V = RawRowView;

    open spec fn view(&self) -> RawRowView {
        RawRowView {
            name: self.name@,
            port: self.port@,
            transport_protocol: match self.transport_protocol {
                Option::None => Option::None,
                Option::Some(t) => Option::Some(t@),
            },
        }
    }
}

/// The transport protocol denoted by a token, if it is one of the four
/// recognized tokens; `None` stands for an unrecognized token.
pub open spec fn protocol_token(t: Seq<char>) -> Option<TransportProtocol> {
    if t.len() == 3 && t[0] == 'u' && t[1] == 'd' && t[2] == 'p' {
        Option::Some(TransportProtocol::Udp)
    } else if t.len() == 3 && t[0] == 't' && t[1] == 'c' && t[2] == 'p' {
        Option::Some(TransportProtocol::Tcp)
    } else if t.len() == 4 && t[0] == 's' && t[1] == 'c' && t[2] == 't' && t[3] == 'p' {
        Option::Some(TransportProtocol::Sctp)
    } else if t.len() == 4 && t[0] == 'd' && t[1] == 'c' && t[2] == 'c' && t[3] == 'p' {
        Option::Some(TransportProtocol::Dccp)
    } else {
        Option::None
    }
}

/// Recognize one of the four transport protocol tokens; `None` means the
/// token is unrecognized.
pub fn parse_protocol(t: &str) -> (r: Option<TransportProtocol>)
    ensures
        r == protocol_token(t@),
{
    let n = t.unicode_len();
    if n == 3 {
        let c0 = t.get_char(0);
        let c1 = t.get_char(1);
        let c2 = t.get_char(2);
        if c0 == 'u' && c1 == 'd' && c2 == 'p' {
            Option::Some(TransportProtocol::Udp)
        } else if c0 == 't' && c1 == 'c' && c2 == 'p' {
            Option::Some(TransportProtocol::Tcp)
        } else {
            Option::None
        }
    } else if n == 4 {
        let c0 = t.get_char(0);
        let c1 = t.get_char(1);
        let c2 = t.get_char(2);
        let c3 = t.get_char(3);
        if c0 == 's' && c1 == 'c' && c2 == 't' && c3 == 'p' {
            Option::Some(TransportProtocol::Sctp)
        } else if c0 == 'd' && c1 == 'c' && c2 == 'c' && c3 == 'p' {
            Option::Some(TransportProtocol::Dccp)
        } else {
            Option::None
        }
    } else {
        Option::None
    }
}

/// Whether `c` is a decimal digit.
pub open spec fn is_dec_digit(c: char) -> bool {
    48 <= c as int && c as int <= 57
}

/// The numeric value of a decimal digit.
pub open spec fn digit_value(c: char) -> int {
    c as int - 48
}

/// The value of a sequence of decimal digits, most significant first.
pub open spec fn dec_value(d: Seq<char>) -> int
    decreases d.len(),
{
    if d.len() == 0 {
        0
    } else {
        10 * dec_value(d.drop_last()) + digit_value(d.last())
    }
}

/// The digits of a port field: the field itself, or the part after one
/// leading `+` sign, which unsigned decimal syntax permits.
pub open spec fn port_digits(s: Seq<char>) -> Seq<char> {
    if s.len() > 0 && s[0] == '+' {
        s.drop_first()
    } else {
        s
    }
}

/// Whether a port field parses as an unsigned 16-bit integer: an optional
/// leading `+`, then at least one decimal digit, and a value at most 65535.
pub open spec fn is_valid_port_str(s: Seq<char>) -> bool {
    let d = port_digits(s);
    &&& d.len() > 0
    &&& forall|i: int| 0 <= i < d.len() ==> is_dec_digit(#[trigger] d[i])
    &&& dec_value(d) <= 65535
}

/// The port a valid port field denotes.
pub open spec fn parsed_port(s: Seq<char>) -> u16 {
    dec_value(port_digits(s)) as u16
}

/// The value of a digit sequence is never negative.
proof fn lemma_dec_value_nonneg(d: Seq<char>)
    requires
        forall|i: int| 0 <= i < d.len() ==> is_dec_digit(#[trigger] d[i]),
    ensures
        dec_value(d) >= 0,
    decreases d.len(),
{
    if d.len() > 0 {
        lemma_dec_value_nonneg(d.drop_last());
    }
}

/// Extending a digit sequence by one digit multiplies its value by ten and
/// adds the digit.
proof fn lemma_dec_value_step(d: Seq<char>, j: int)
    requires
        0 <= j < d.len(),
    ensures
        dec_value(d.take(j + 1)) == 10 * dec_value(d.take(j)) + digit_value(d[j]),
{
    assert(d.take(j + 1).drop_last() =~= d.take(j));
    assert(d.take(j + 1).last() == d[j]);
}

/// A digit sequence is worth at least as much as any of its prefixes.
proof fn lemma_dec_value_prefix_le(d: Seq<char>, j: int)
    requires
        forall|i: int| 0 <= i < d.len() ==> is_dec_digit(#[trigger] d[i]),
        0 <= j <= d.len(),
    ensures
        dec_value(d.take(j)) <= dec_value(d),
    decreases d.len() - j,
{
    if j == d.len() {
        assert(d.take(j) =~= d);
    } else {
        lemma_dec_value_step(d, j);
        assert(forall|i: int|
            0 <= i < d.take(j).len() ==> is_dec_digit(#[trigger] d.take(j)[i]));
        lemma_dec_value_nonneg(d.take(j));
        lemma_dec_value_prefix_le(d, j + 1);
    }
}

/// Parse a port field as an unsigned 16-bit integer: an optional leading
/// `+`, then decimal digits. `None` on an empty field, a stray character,
/// or a value above 65535.
pub fn parse_port(s: &str) -> (r: Option<u16>)
    ensures
        is_valid_port_str(s@) ==> r == Option::Some(parsed_port(s@)),
        !is_valid_port_str(s@) ==> r is None,
{
    let n = s.unicode_len();
    let mut i: usize = 0;
    if n > 0 && s.get_char(0) == '+' {
        i = 1;
    }
    let ghost d = port_digits(s@);
    let start = i;
    if i == n {
        return Option::None;
    }
    assert(d.len() == n - start);
    let mut acc: u32 = 0;
    while i < n
        invariant
            start <= i <= n,
            n == s@.len(),
            d == port_digits(s@),
            d.len() == n - start,
            forall|k: int| 0 <= k < d.len() ==> d[k] == s@[start + k],
            forall|k: int| 0 <= k < i - start ==> is_dec_digit(#[trigger] d[k]),
            acc <= 65535,
            acc == dec_value(d.take(i - start)),
        decreases n - i,
    {
        let c = s.get_char(i);
        let u = c as u32;
        if u < 48 || u > 57 {
            assert(!is_dec_digit(d[i - start]));
            return Option::None;
        }
        proof {
            lemma_dec_value_step(d, i - start);
        }
        acc = acc * 10 + (u - 48);
        if acc > 65535 {
            proof {
                assert(forall|k: int| 0 <= k < i + 1 - start ==> is_dec_digit(#[trigger] d[k]));
                if is_valid_port_str(s@) {
                    lemma_dec_value_prefix_le(d, i + 1 - start);
                }
            }
            return Option::None;
        }
        i = i + 1;
    }
    assert(d.take(i - start) =~= d);
    Option::Some(acc as u16)
}

} // verus!
