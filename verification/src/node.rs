//! Contacts: a peer's address and the key derived from it.

use vstd::prelude::*;
use vstd::std_specs::cmp::PartialEqSpecImpl;
use crate::key::{key_of, Key};
use crate::text::{
    chars_of, decimal, hex_encode, hex_lower, lemma_decimal_reads_back,
    lemma_port_reads_back, parse_port, parse_u16, push_decimal, to_upper,
};

verus! {

/// A peer: where it listens, and the key it is known by.
#[derive(Debug, Hash)]
pub struct Node {
    pub ip: String,
    pub port: u16,
    pub id: Key,
}

/// An address as text: the host, a colon, the port in decimal.
pub open spec fn addr_text(ip: Seq<char>, port: u16) -> Seq<char> {
    ip + seq![':'] + decimal(port as nat)
}

/// The position of the first colon at or after `from`, and the length of
/// the text where there is none.
pub open spec fn first_colon(s: Seq<char>, from: int) -> int
    decreases s.len() - from,
{
    if from >= s.len() {
        s.len() as int
    } else if s[from] == ':' {
        from
    } else {
        first_colon(s, from + 1)
    }
}

/// The host and port that an address names: the host is what stands
/// before the first colon, the port what stands between it and the next
/// colon or the end. `None` without a colon or without a port.
pub open spec fn parse_addr(s: Seq<char>) -> Option<(Seq<char>, u16)> {
    let c1 = first_colon(s, 0);
    if c1 >= s.len() {
        None
    } else {
        let c2 = first_colon(s, c1 + 1);
        match parse_u16(s.subrange(c1 + 1, c2)) {
            Some(port) => Some((s.subrange(0, c1), port)),
            None => None,
        }
    }
}

/// The search for a colon passes over what is no colon.
pub proof fn lemma_first_colon_skips(s: Seq<char>, from: int, to: int)
    requires
        0 <= from <= to <= s.len(),
        forall|k: int| from <= k < to ==> s[k] != ':',
    ensures
        first_colon(s, from) == first_colon(s, to),
    decreases to - from,
{
    if from < to {
        lemma_first_colon_skips(s, from + 1, to);
    }
}

/// The address of a host and port names that host and port, where the
/// host holds no colon.
pub proof fn lemma_addr_round_trip(ip: Seq<char>, port: u16)
    requires
        forall|i: int| 0 <= i < ip.len() ==> ip[i] != ':',
    ensures
        parse_addr(addr_text(ip, port)) == Some((ip, port)),
{
    let digits = decimal(port as nat);
    let s = addr_text(ip, port);
    let c1 = ip.len() as int;
    lemma_decimal_reads_back(port as nat);
    lemma_port_reads_back(port);
    lemma_first_colon_skips(s, 0, c1);
    lemma_first_colon_skips(s, c1 + 1, s.len() as int);
    assert(s.subrange(c1 + 1, s.len() as int) =~= digits);
}

/// Finds the first colon at or after `from`.
fn find_colon(chars: &Vec<char>, from: usize) -> (r: usize)
    requires
        from <= chars.len(),
    ensures
        r == first_colon(chars@, from as int),
        from <= r <= chars.len(),
{
    let mut i: usize = from;
    while i < chars.len()
        invariant
            from <= i <= chars.len(),
            first_colon(chars@, from as int) == first_colon(chars@, i as int),
        decreases chars.len() - i,
    {
        if chars[i] == ':' {
            return i;
        }
        i += 1;
    }
    i
}

impl Clone for Node {
    fn clone(&self) -> (r: Node)
        ensures
            r == *self,
    {
        Node { ip: self.ip.clone(), port: self.port, id: self.id.clone() }
    }
}

impl PartialEq for Node {
    fn eq(&self, other: &Node) -> (r: bool) {
        self.ip == other.ip && self.port == other.port && self.id == other.id
    }
}

impl PartialEqSpecImpl for Node {
    open spec fn obeys_eq_spec() -> bool {
        true
    }

    open spec fn eq_spec(&self, other: &Node) -> bool {
        self.ip@ == other.ip@ && self.port == other.port && self.id@ == other.id@
    }
}

impl Eq for Node {

}

impl Node {
    /// The text that `get_info` returns.
    pub open spec fn info_text(&self) -> Seq<char> {
        addr_text(self.ip@, self.port) + seq![':'] + to_upper(hex_lower(self.id@))
    }

    /// Whether the key is the one that the address hashes to.
    pub open spec fn derived(&self) -> bool {
        self.id@ == key_of(addr_text(self.ip@, self.port))
    }

    /// The contact at `ip:port`, known by the hash of that address.
    pub fn new(ip: String, port: u16) -> (node: Node)
        ensures
            node.ip == ip,
            node.port == port,
            node.derived(),
    {
        let mut addr = ip.clone();
        addr.push(':');
        push_decimal(&mut addr, port);
        assert(addr@ =~= addr_text(ip@, port));
        let id = Key::new(addr);
        Node { ip, port, id }
    }

    /// Address, and the key in upper-case hex, colons between.
    pub fn get_info(&self) -> (info: String)
        ensures
            info@ == self.info_text(),
    {
        let parsed_id = hex_encode(&self.id.0);
        let parsed_id = parsed_id.as_str().to_ascii_uppercase();
        let mut info = self.get_addr();
        info.push(':');
        info.append(parsed_id.as_str());
        info
    }

    /// The address: host, colon, port.
    pub fn get_addr(&self) -> (addr: String)
        ensures
            addr@ == addr_text(self.ip@, self.port),
    {
        let mut addr = self.ip.clone();
        addr.push(':');
        push_decimal(&mut addr, self.port);
        addr
    }

    /// The contact that an address names, where it names one.
    pub fn from_addr(addr: &str) -> (r: Option<Node>)
        ensures
            match parse_addr(addr@) {
                Some((ip, port)) => r matches Some(node) && node.ip@ == ip && node.port == port
                    && node.derived(),
                None => r is None,
            },
    {
        let chars = chars_of(addr);
        let c1 = find_colon(&chars, 0);
        if c1 >= chars.len() {
            return None;
        }
        let c2 = find_colon(&chars, c1 + 1);
        match parse_port(&chars, c1 + 1, c2) {
            Some(port) => {
                let mut ip = String::new();
                let mut i: usize = 0;
                while i < c1
                    invariant
                        i <= c1 < chars.len(),
                        ip@ == chars@.subrange(0, i as int),
                    decreases c1 - i,
                {
                    ip.push(chars[i]);
                    i += 1;
                }
                Some(Node::new(ip, port))
            },
            None => None,
        }
    }
}

} // verus!
