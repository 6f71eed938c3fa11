//! Multiaddresses: a network address as a path of protocol components, such as
//! `/ip4/127.0.0.1/tcp/4001/p2p/<peer id>`. Each component is a protocol name followed by its
//! value; the leading slash and empty segments are not significant when parsing.

use vstd::prelude::*;
use vstd::string::{StrSliceExecFns, StringExecFns};

verus! {

/// One component of a multiaddress: a protocol and the value written after its name.
#[derive(Debug, Clone)]
pub enum Protocol {
    Ip4(String),
    Ip6(String),
    Tcp(String),
    Udp(String),
    P2P(String),
}

/// A multiaddress: its components in order.
#[derive(Debug, Clone)]
pub struct Multiaddr {
    pub protocols: Vec<Protocol>,
}

/// Why a text could not be read as a multiaddress.
#[derive(Debug, Clone, Copy, PartialEq, Eq, Structural)]
pub enum MultiaddrError {
    /// A name is not one of the known protocols, or it has no value after it.
    InvalidMultiaddr,
}

/// The name of a protocol as written in a multiaddress.
pub open spec fn protocol_name(p: Protocol) -> Seq<char> {
    match p {
        Protocol::Ip4(_) => "ip4"@,
        Protocol::Ip6(_) => "ip6"@,
        Protocol::Tcp(_) => "tcp"@,
        Protocol::Udp(_) => "udp"@,
        Protocol::P2P(_) => "p2p"@,
    }
}

/// The value of a component.
pub open spec fn protocol_value(p: Protocol) -> Seq<char> {
    match p {
        Protocol::Ip4(v) => v@,
        Protocol::Ip6(v) => v@,
        Protocol::Tcp(v) => v@,
        Protocol::Udp(v) => v@,
        Protocol::P2P(v) => v@,
    }
}

/// The names of the known protocols.
pub open spec fn known_protocol(name: Seq<char>) -> bool {
    name == "ip4"@ || name == "ip6"@ || name == "tcp"@ || name == "udp"@ || name == "p2p"@
}

impl View for Multiaddr {
    type V = Seq<(Seq<char>, Seq<char>)>;

    /// The (name, value) pairs of the components.
    open spec fn view(&self) -> Seq<(Seq<char>, Seq<char>)> {
        self.protocols@.map_values(|p: Protocol| (protocol_name(p), protocol_value(p)))
    }
}

/// The number of characters before the first slash.
pub open spec fn run_len(s: Seq<char>) -> nat
    decreases s.len(),
{
    if s.len() == 0 || s[0] == '/' {
        0
    } else {
        1 + run_len(s.skip(1))
    }
}

/// A run is never longer than the text.
pub proof fn lemma_run_len_bound(s: Seq<char>)
    ensures
        run_len(s) <= s.len(),
        s.len() > 0 && s[0] != '/' ==> run_len(s) >= 1,
    decreases s.len(),
{
    if s.len() > 0 && s[0] != '/' {
        lemma_run_len_bound(s.skip(1));
    }
}

/// The run is exactly the characters up to the first slash or the end.
pub proof fn lemma_run_len_is(s: Seq<char>, m: nat)
    requires
        m <= s.len(),
        forall|k: int| 0 <= k < m ==> s[k] != '/',
        m == s.len() || s[m as int] == '/',
    ensures
        run_len(s) == m,
    decreases m,
{
    if m > 0 {
        assert forall|k: int| 0 <= k < m - 1 implies s.skip(1)[k] != '/' by {
            assert(s.skip(1)[k] == s[k + 1]);
        }
        lemma_run_len_is(s.skip(1), (m - 1) as nat);
    }
}

/// The segments of a text between slashes, empty ones left out.
pub open spec fn segments(s: Seq<char>) -> Seq<Seq<char>>
    decreases s.len(),
{
    if s.len() == 0 {
        Seq::empty()
    } else if s[0] == '/' {
        segments(s.skip(1))
    } else {
        proof {
            lemma_run_len_bound(s);
        }
        seq![s.take(run_len(s) as int)] + segments(s.skip(run_len(s) as int))
    }
}

/// Segments paired up as (name, value), each name a known protocol; `None` when a name is
/// unknown or has no value.
pub open spec fn paired(segs: Seq<Seq<char>>) -> Option<Seq<(Seq<char>, Seq<char>)>>
    decreases segs.len(),
{
    if segs.len() == 0 {
        Some(Seq::empty())
    } else if segs.len() == 1 || !known_protocol(segs[0]) {
        None
    } else {
        match paired(segs.skip(2)) {
            Some(rest) => Some(seq![(segs[0], segs[1])] + rest),
            None => None,
        }
    }
}

/// The components a text reads as.
pub open spec fn parse_multiaddr(s: Seq<char>) -> Option<Seq<(Seq<char>, Seq<char>)>> {
    paired(segments(s))
}

/// The text of components: `/name/value` for each.
pub open spec fn multiaddr_text(v: Seq<(Seq<char>, Seq<char>)>) -> Seq<char>
    decreases v.len(),
{
    if v.len() == 0 {
        Seq::empty()
    } else {
        multiaddr_text(v.drop_last()) + seq!['/'] + v.last().0 + seq!['/'] + v.last().1
    }
}

/// The value of the first component with the given name.
pub open spec fn first_value(v: Seq<(Seq<char>, Seq<char>)>, name: Seq<char>) -> Option<Seq<char>>
    decreases v.len(),
{
    if v.len() == 0 {
        None
    } else if v[0].0 == name {
        Some(v[0].1)
    } else {
        first_value(v.skip(1), name)
    }
}

/// The segments of a text, as strings.
fn split_segments(s: &str) -> (r: Vec<String>)
    ensures
        r@.map_values(|x: String| x@) == segments(s@),
{
    let n = s.unicode_len();
    let mut out: Vec<String> = Vec::new();
    let mut i: usize = 0;
    assert(s@.skip(0) =~= s@);
    assert(out@.map_values(|x: String| x@) + segments(s@) =~= segments(s@));
    while i < n
        invariant
            i <= n,
            n == s@.len(),
            segments(s@) == out@.map_values(|x: String| x@) + segments(s@.skip(i as int)),
        decreases n - i,
    {
        let ghost rest = s@.skip(i as int);
        if s.get_char(i) == '/' {
            assert(rest.skip(1) =~= s@.skip(i + 1));
            i += 1;
        } else {
            let mut j: usize = i + 1;
            while j < n && s.get_char(j) != '/'
                invariant
                    i < j <= n,
                    n == s@.len(),
                    forall|k: int| i <= k < j ==> s@[k] != '/',
                decreases n - j,
            {
                j += 1;
            }
            proof {
                assert forall|k: int| 0 <= k < j - i implies rest[k] != '/' by {
                    assert(rest[k] == s@[i + k]);
                }
                lemma_run_len_is(rest, (j - i) as nat);
                assert(rest.take((j - i) as int) =~= s@.subrange(i as int, j as int));
                assert(rest.skip((j - i) as int) =~= s@.skip(j as int));
            }
            let seg = s.substring_char(i, j).to_owned();
            let ghost before = out@.map_values(|x: String| x@);
            out.push(seg);
            assert(out@.map_values(|x: String| x@) =~= before.push(seg@));
            assert(before.push(seg@) + segments(s@.skip(j as int)) =~= before + (seq![seg@]
                + segments(s@.skip(j as int))));
            i = j;
        }
    }
    assert(s@.skip(n as int) =~= Seq::<char>::empty());
    assert(out@.map_values(|x: String| x@) + Seq::<Seq<char>>::empty() =~= out@.map_values(
        |x: String| x@,
    ));
    out
}

/// The component for a name and value; `None` for a name that is not a known protocol.
fn make_protocol(name: &String, value: String) -> (r: Option<Protocol>)
    ensures
        r is Some <==> known_protocol(name@),
        r matches Some(p) ==> protocol_name(p) == name@ && protocol_value(p) == value@,
{
    proof {
        reveal_strlit("ip4");
        reveal_strlit("ip6");
        reveal_strlit("tcp");
        reveal_strlit("udp");
        reveal_strlit("p2p");
    }
    if *name == "ip4".to_owned() {
        Some(Protocol::Ip4(value))
    } else if *name == "ip6".to_owned() {
        Some(Protocol::Ip6(value))
    } else if *name == "tcp".to_owned() {
        Some(Protocol::Tcp(value))
    } else if *name == "udp".to_owned() {
        Some(Protocol::Udp(value))
    } else if *name == "p2p".to_owned() {
        Some(Protocol::P2P(value))
    } else {
        None
    }
}

/// `paired` of a sequence of segments starting at an even position.
proof fn lemma_paired_step(segs: Seq<Seq<char>>, i: int)
    requires
        0 <= i,
        i + 2 <= segs.len(),
        known_protocol(segs[i]),
    ensures
        paired(segs.skip(i)) == match paired(segs.skip(i + 2)) {
            Some(rest) => Some(seq![(segs[i], segs[i + 1])] + rest),
            None => None::<Seq<(Seq<char>, Seq<char>)>>,
        },
{
    assert(segs.skip(i).skip(2) =~= segs.skip(i + 2));
}

/// The components with the value of the first one named `name` replaced; `None` when no
/// component has that name.
pub open spec fn replace_first(
    v: Seq<(Seq<char>, Seq<char>)>,
    name: Seq<char>,
    value: Seq<char>,
) -> Option<Seq<(Seq<char>, Seq<char>)>>
    decreases v.len(),
{
    if v.len() == 0 {
        None
    } else if v[0].0 == name {
        Some(seq![(name, value)] + v.skip(1))
    } else {
        match replace_first(v.skip(1), name, value) {
            Some(rest) => Some(seq![v[0]] + rest),
            None => None,
        }
    }
}

/// The number of characters before the first `c`.
pub open spec fn count_until(s: Seq<char>, c: char) -> nat
    decreases s.len(),
{
    if s.len() == 0 || s[0] == c {
        0
    } else {
        1 + count_until(s.skip(1), c)
    }
}

/// The count is exactly the characters up to the first `c` or the end.
proof fn lemma_count_until_is(s: Seq<char>, c: char, m: nat)
    requires
        m <= s.len(),
        forall|k: int| 0 <= k < m ==> s[k] != c,
        m == s.len() || s[m as int] == c,
    ensures
        count_until(s, c) == m,
    decreases m,
{
    if m > 0 {
        assert forall|k: int| 0 <= k < m - 1 implies s.skip(1)[k] != c by {
            assert(s.skip(1)[k] == s[k + 1]);
        }
        lemma_count_until_is(s.skip(1), c, (m - 1) as nat);
    }
}

/// The port of a bound address written "ip:port": the text after the first colon, up to the
/// next colon or the end; `None` when there is no colon.
pub open spec fn port_text(s: Seq<char>) -> Option<Seq<char>> {
    let a = count_until(s, ':');
    if a >= s.len() {
        None
    } else {
        let rest = s.skip((a + 1) as int);
        Some(rest.take(count_until(rest, ':') as int))
    }
}

/// The first index at or after `from` holding `c`, or the length.
fn find_char(s: &str, c: char, from: usize) -> (r: usize)
    requires
        from <= s@.len(),
    ensures
        from <= r <= s@.len(),
        forall|k: int| from <= k < r ==> s@[k] != c,
        r < s@.len() ==> s@[r as int] == c,
        count_until(s@.skip(from as int), c) == r - from,
{
    let n = s.unicode_len();
    let mut j = from;
    while j < n && s.get_char(j) != c
        invariant
            from <= j <= n,
            n == s@.len(),
            forall|k: int| from <= k < j ==> s@[k] != c,
        decreases n - j,
    {
        j += 1;
    }
    proof {
        let t = s@.skip(from as int);
        assert forall|k: int| 0 <= k < j - from implies t[k] != c by {
            assert(t[k] == s@[from + k]);
        }
        if j < n {
            assert(t[j - from] == s@[j as int]);
        }
        lemma_count_until_is(t, c, (j - from) as nat);
    }
    j
}

/// A copy of a component.
fn copy_protocol(p: &Protocol) -> (r: Protocol)
    ensures
        protocol_name(r) == protocol_name(*p),
        protocol_value(r) == protocol_value(*p),
{
    match p {
        Protocol::Ip4(v) => Protocol::Ip4(v.clone()),
        Protocol::Ip6(v) => Protocol::Ip6(v.clone()),
        Protocol::Tcp(v) => Protocol::Tcp(v.clone()),
        Protocol::Udp(v) => Protocol::Udp(v.clone()),
        Protocol::P2P(v) => Protocol::P2P(v.clone()),
    }
}

/// The name of a component, as a string.
fn name_string(p: &Protocol) -> (r: String)
    ensures
        r@ == protocol_name(*p),
{
    proof {
        reveal_strlit("ip4");
        reveal_strlit("ip6");
        reveal_strlit("tcp");
        reveal_strlit("udp");
        reveal_strlit("p2p");
    }
    match p {
        Protocol::Ip4(_) => "ip4".to_owned(),
        Protocol::Ip6(_) => "ip6".to_owned(),
        Protocol::Tcp(_) => "tcp".to_owned(),
        Protocol::Udp(_) => "udp".to_owned(),
        Protocol::P2P(_) => "p2p".to_owned(),
    }
}

/// `replace_first` after a prefix of components that do not have the name.
proof fn lemma_replace_first_skip(v: Seq<(Seq<char>, Seq<char>)>, name: Seq<char>, value: Seq<char>, i: int)
    requires
        0 <= i <= v.len(),
        forall|k: int| 0 <= k < i ==> #[trigger] v[k].0 != name,
    ensures
        replace_first(v, name, value) == match replace_first(v.skip(i), name, value) {
            Some(rest) => Some(v.take(i) + rest),
            None => None,
        },
    decreases i,
{
    if i > 0 {
        assert(v.skip(1).skip(i - 1) =~= v.skip(i));
        lemma_replace_first_skip(v.skip(1), name, value, i - 1);
        match replace_first(v.skip(i), name, value) {
            Some(rest) => {
                assert(seq![v[0]] + (v.skip(1).take(i - 1) + rest) =~= v.take(i) + rest);
            },
            None => {},
        }
    } else {
        assert(v.skip(0) =~= v);
        match replace_first(v, name, value) {
            Some(rest) => {
                assert(v.take(0) + rest =~= rest);
            },
            None => {},
        }
    }
}


impl Multiaddr {
    /// Reads a multiaddress from its text: the segments between slashes (empty ones left out)
    /// are taken two by two as a protocol name and its value.
    pub fn new(addr: &str) -> (r: Result<Multiaddr, MultiaddrError>)
        ensures
            match parse_multiaddr(addr@) {
                Some(v) => r matches Ok(m) && m@ == v,
                None => r == Err::<Multiaddr, MultiaddrError>(MultiaddrError::InvalidMultiaddr),
            },
    {
        let segs = split_segments(addr);
        let ghost sv = segs@.map_values(|x: String| x@);
        let mut protocols: Vec<Protocol> = Vec::new();
        let mut i: usize = 0;
        assert(sv.skip(0) =~= sv);
        proof {
            match paired(sv) {
                Some(rest) => {
                    assert(protocols@.map_values(|p: Protocol| (protocol_name(p), protocol_value(p)))
                        + rest =~= rest);
                },
                None => {},
            }
        }
        while i + 1 < segs.len()
            invariant
                i <= segs@.len(),
                i % 2 == 0,
                sv == segs@.map_values(|x: String| x@),
                parse_multiaddr(addr@) == match paired(sv.skip(i as int)) {
                    Some(rest) => Some(
                        protocols@.map_values(
                            |p: Protocol| (protocol_name(p), protocol_value(p)),
                        ) + rest,
                    ),
                    None => None,
                },
            decreases segs@.len() - i,
        {
            let ghost before = protocols@.map_values(
                |p: Protocol| (protocol_name(p), protocol_value(p)),
            );
            match make_protocol(&segs[i], segs[i + 1].clone()) {
                Some(p) => {
                    proof {
                        lemma_paired_step(sv, i as int);
                    }
                    protocols.push(p);
                    assert(protocols@.map_values(
                        |p: Protocol| (protocol_name(p), protocol_value(p)),
                    ) =~= before.push((sv[i as int], sv[i + 1])));
                    proof {
                        match paired(sv.skip(i + 2)) {
                            Some(rest) => {
                                assert(before.push((sv[i as int], sv[i + 1])) + rest =~= before
                                    + (seq![(sv[i as int], sv[i + 1])] + rest));
                            },
                            None => {},
                        }
                    }
                    i += 2;
                },
                None => {
                    assert(paired(sv.skip(i as int)) is None);
                    return Err(MultiaddrError::InvalidMultiaddr);
                },
            }
        }
        if i < segs.len() {
            assert(sv.skip(i as int).len() == 1);
            return Err(MultiaddrError::InvalidMultiaddr);
        }
        assert(sv.skip(i as int) =~= Seq::<Seq<char>>::empty());
        let m = Multiaddr { protocols };
        assert(m@ + Seq::<(Seq<char>, Seq<char>)>::empty() =~= m@);
        Ok(m)
    }

    /// The text of the multiaddress: `/name/value` for each component.
    pub fn to_string(&self) -> (r: String)
        ensures
            r@ == multiaddr_text(self@),
    {
        let mut r = String::new();
        let mut i: usize = 0;
        while i < self.protocols.len()
            invariant
                i <= self.protocols@.len(),
                r@ == multiaddr_text(self@.take(i as int)),
            decreases self.protocols@.len() - i,
        {
            proof {
                reveal_strlit("/");
                reveal_strlit("ip4");
                reveal_strlit("ip6");
                reveal_strlit("tcp");
                reveal_strlit("udp");
                reveal_strlit("p2p");
            }
            let (name, value): (&str, &String) = match &self.protocols[i] {
                Protocol::Ip4(v) => ("ip4", v),
                Protocol::Ip6(v) => ("ip6", v),
                Protocol::Tcp(v) => ("tcp", v),
                Protocol::Udp(v) => ("udp", v),
                Protocol::P2P(v) => ("p2p", v),
            };
            r.append("/");
            r.append(name);
            r.append("/");
            r.append(value.as_str());
            assert(self@.take(i + 1).drop_last() =~= self@.take(i as int));
            i += 1;
        }
        assert(self@.take(self@.len() as int) =~= self@);
        r
    }

    /// Adds a component at the end.
    pub fn push_proto(&mut self, p: Protocol)
        ensures
            final(self)@ == old(self)@.push((protocol_name(p), protocol_value(p))),
    {
        self.protocols.push(p);
        assert(self@ =~= old(self)@.push((protocol_name(p), protocol_value(p))));
    }

    /// The value of the first component with the given protocol name.
    pub fn value_for_protocol(&self, name: &str) -> (r: Option<String>)
        ensures
            match first_value(self@, name@) {
                Some(v) => r matches Some(s) && s@ == v,
                None => r is None,
            },
    {
        let wanted = name.to_owned();
        let mut i: usize = 0;
        assert(self@.skip(0) =~= self@);
        while i < self.protocols.len()
            invariant
                i <= self.protocols@.len(),
                wanted@ == name@,
                first_value(self@, name@) == first_value(self@.skip(i as int), name@),
            decreases self.protocols@.len() - i,
        {
            proof {
                reveal_strlit("ip4");
                reveal_strlit("ip6");
                reveal_strlit("tcp");
                reveal_strlit("udp");
                reveal_strlit("p2p");
                assert(self@.skip(i as int).skip(1) =~= self@.skip(i + 1));
            }
            let (pname, value): (String, &String) = match &self.protocols[i] {
                Protocol::Ip4(v) => ("ip4".to_owned(), v),
                Protocol::Ip6(v) => ("ip6".to_owned(), v),
                Protocol::Tcp(v) => ("tcp".to_owned(), v),
                Protocol::Udp(v) => ("udp".to_owned(), v),
                Protocol::P2P(v) => ("p2p".to_owned(), v),
            };
            if pname == wanted {
                return Some(value.clone());
            }
            i += 1;
        }
        None
    }

    /// The transport a node listening on this address uses: "tcp" when the address has a tcp
    /// component, "udp" otherwise.
    pub fn transport_name(&self) -> (r: &'static str)
        ensures
            r@ == (if first_value(self@, "tcp"@) is Some {
                "tcp"@
            } else {
                "udp"@
            }),
    {
        match self.value_for_protocol("tcp") {
            Some(_) => "tcp",
            None => "udp",
        }
    }
    /// Replaces the value of the first component named `name`; when no component has that
    /// name, or the name is not a known protocol, the address is left as it is and an error
    /// returned.
    pub fn replace_value_for_protocol(&mut self, name: &str, value: &str) -> (r: Result<(), MultiaddrError>)
        ensures
            match replace_first(old(self)@, name@, value@) {
                Some(v) => r is Ok && final(self)@ == v,
                None => r is Err && final(self)@ == old(self)@,
            },
    {
        let wanted = name.to_owned();
        let n = self.protocols.len();
        let mut i: usize = 0;
        while i < n
            invariant
                i <= n,
                n == self.protocols@.len(),
                self@ == old(self)@,
                wanted@ == name@,
                forall|k: int| 0 <= k < i ==> #[trigger] self@[k].0 != name@,
            decreases n - i,
        {
            let pname = name_string(&self.protocols[i]);
            if pname == wanted {
                let ghost v = old(self)@;
                proof {
                    lemma_replace_first_skip(v, name@, value@, i as int);
                    assert(v.skip(i as int)[0].0 == name@);
                    assert(v.skip(i as int).skip(1) =~= v.skip(i + 1));
                }
                match make_protocol(&wanted, value.to_owned()) {
                    Some(p) => {
                        self.protocols.set(i, p);
                        assert(self@ =~= v.take(i as int) + (seq![(name@, value@)] + v.skip(i + 1)));
                        return Ok(());
                    },
                    None => {
                        proof {
                            assert(known_protocol(protocol_name(self.protocols@[i as int])));
                        }
                        return Err(MultiaddrError::InvalidMultiaddr);
                    },
                }
            }
            i += 1;
        }
        proof {
            lemma_replace_first_skip(old(self)@, name@, value@, n as int);
            assert(old(self)@.skip(n as int) =~= Seq::<(Seq<char>, Seq<char>)>::empty());
        }
        Err(MultiaddrError::InvalidMultiaddr)
    }

    /// A copy of the address.
    pub fn copy(&self) -> (r: Multiaddr)
        ensures
            r@ == self@,
    {
        let mut protocols: Vec<Protocol> = Vec::new();
        let mut i: usize = 0;
        while i < self.protocols.len()
            invariant
                i <= self.protocols@.len(),
                protocols@.map_values(|p: Protocol| (protocol_name(p), protocol_value(p))) == self@.take(i as int),
            decreases self.protocols@.len() - i,
        {
            let p = copy_protocol(&self.protocols[i]);
            let ghost before = protocols@.map_values(|p: Protocol| (protocol_name(p), protocol_value(p)));
            protocols.push(p);
            assert(protocols@.map_values(|p: Protocol| (protocol_name(p), protocol_value(p))) =~= before.push(
                (protocol_name(p), protocol_value(p)),
            ));
            assert(self@[i as int] == (protocol_name(p), protocol_value(p)));
            assert(self@.take(i + 1) =~= self@.take(i as int).push(self@[i as int]));
            i += 1;
        }
        assert(self@.take(self@.len() as int) =~= self@);
        Multiaddr { protocols }
    }
}

/// The listen address after the transport is bound: the value of its tcp component (or, when
/// it has none, of its udp component) becomes the port of the bound address `listen_ip`,
/// written "ip:port". `None` when `listen_ip` has no colon or the address has no such
/// component.
pub fn with_bound_port(addr: &Multiaddr, listen_ip: &str) -> (r: Option<Multiaddr>)
    ensures
        match port_text(listen_ip@) {
            Some(p) => match replace_first(
                addr@,
                if first_value(addr@, "tcp"@) is Some {
                    "tcp"@
                } else {
                    "udp"@
                },
                p,
            ) {
                Some(v) => r matches Some(m) && m@ == v,
                None => r is None,
            },
            None => r is None,
        },
{
    let n = listen_ip.unicode_len();
    let a = find_char(listen_ip, ':', 0);
    assert(listen_ip@.skip(0) =~= listen_ip@);
    if a >= n {
        return None;
    }
    let b = find_char(listen_ip, ':', a + 1);
    let port = listen_ip.substring_char(a + 1, b);
    assert(port@ =~= listen_ip@.skip(a + 1).take(count_until(listen_ip@.skip(a + 1), ':') as int));
    let transport = addr.transport_name();
    let mut m = addr.copy();
    match m.replace_value_for_protocol(transport, port) {
        Ok(()) => Some(m),
        Err(_) => None,
    }
}

/// Components that write out and read back: known protocol names, and values that are not
/// empty and hold no slash.
pub open spec fn well_formed_components(v: Seq<(Seq<char>, Seq<char>)>) -> bool {
    forall|k: int|
        0 <= k < v.len() ==> {
            &&& known_protocol(#[trigger] v[k].0)
            &&& v[k].1.len() > 0
            &&& !v[k].1.contains('/')
        }
}

/// The names and values of components, in order.
pub open spec fn flat_components(v: Seq<(Seq<char>, Seq<char>)>) -> Seq<Seq<char>>
    decreases v.len(),
{
    if v.len() == 0 {
        Seq::empty()
    } else {
        flat_components(v.drop_last()) + seq![v.last().0, v.last().1]
    }
}

/// A known protocol name is not empty and holds no slash.
proof fn lemma_known_protocol_plain(name: Seq<char>)
    requires
        known_protocol(name),
    ensures
        name.len() > 0,
        !name.contains('/'),
{
    reveal_strlit("ip4");
    reveal_strlit("ip6");
    reveal_strlit("tcp");
    reveal_strlit("udp");
    reveal_strlit("p2p");
    assert(name.len() == 3);
    assert forall|k: int| 0 <= k < 3 implies name[k] != '/' by {}
}

/// After a slash, a segment without slashes followed by a slash or the end is read as one
/// segment.
proof fn lemma_segments_piece(x: Seq<char>, rest: Seq<char>)
    requires
        x.len() > 0,
        !x.contains('/'),
        rest.len() == 0 || rest[0] == '/',
    ensures
        segments(seq!['/'] + x + rest) == seq![x] + segments(rest),
{
    let t = seq!['/'] + x + rest;
    let u = x + rest;
    assert(t.skip(1) =~= u);
    assert forall|k: int| 0 <= k < x.len() implies u[k] != '/' by {
        if u[k] == '/' {
            assert(x[k] == '/');
            assert(x.contains('/'));
        }
    }
    lemma_run_len_is(u, x.len());
    assert(u.take(x.len() as int) =~= x);
    assert(u.skip(x.len() as int) =~= rest);
    assert(t[0] == '/');
    assert(segments(t) == segments(u));
    assert(u[0] != '/');
    assert(segments(u) == seq![u.take(run_len(u) as int)] + segments(u.skip(run_len(u) as int)));
}

/// The text of components, followed by a slash or nothing, reads as their names and values.
proof fn lemma_segments_of_text(v: Seq<(Seq<char>, Seq<char>)>, rest: Seq<char>)
    requires
        well_formed_components(v),
        rest.len() == 0 || rest[0] == '/',
    ensures
        segments(multiaddr_text(v) + rest) == flat_components(v) + segments(rest),
    decreases v.len(),
{
    if v.len() == 0 {
        assert(multiaddr_text(v) + rest =~= rest);
        assert(flat_components(v) + segments(rest) =~= segments(rest));
    } else {
        let w = v.drop_last();
        let (name, value) = v.last();
        assert(known_protocol(v[v.len() - 1].0));
        lemma_known_protocol_plain(name);
        let tail = seq!['/'] + value + rest;
        let rest2 = seq!['/'] + name + tail;
        assert(well_formed_components(w)) by {
            assert forall|k: int| 0 <= k < w.len() implies known_protocol(#[trigger] w[k].0) && w[k].1.len()
                > 0 && !w[k].1.contains('/') by {
                assert(w[k] == v[k]);
            }
        }
        lemma_segments_of_text(w, rest2);
        assert(multiaddr_text(v) + rest =~= multiaddr_text(w) + rest2);
        lemma_segments_piece(name, tail);
        lemma_segments_piece(value, rest);
        assert(flat_components(w) + (seq![name] + (seq![value] + segments(rest))) =~= flat_components(v)
            + segments(rest));
    }
}

/// Names and values of components, read from the front.
proof fn lemma_flat_components_front(v: Seq<(Seq<char>, Seq<char>)>)
    requires
        v.len() > 0,
    ensures
        flat_components(v) == seq![v[0].0, v[0].1] + flat_components(v.skip(1)),
    decreases v.len(),
{
    if v.len() == 1 {
        assert(v.drop_last() =~= Seq::<(Seq<char>, Seq<char>)>::empty());
        assert(v.skip(1) =~= Seq::<(Seq<char>, Seq<char>)>::empty());
        assert(flat_components(v) =~= seq![v[0].0, v[0].1] + flat_components(v.skip(1)));
    } else {
        lemma_flat_components_front(v.drop_last());
        assert(v.drop_last().skip(1) =~= v.skip(1).drop_last());
        assert(v.skip(1).last() == v.last());
        assert(flat_components(v) =~= seq![v[0].0, v[0].1] + flat_components(v.skip(1)));
    }
}

/// The names and values of well-formed components pair back up into them.
proof fn lemma_paired_flat(v: Seq<(Seq<char>, Seq<char>)>)
    requires
        well_formed_components(v),
    ensures
        paired(flat_components(v)) == Some(v),
    decreases v.len(),
{
    if v.len() == 0 {
        assert(v =~= Seq::<(Seq<char>, Seq<char>)>::empty());
    } else {
        lemma_flat_components_front(v);
        let f = flat_components(v);
        let rest = v.skip(1);
        assert(well_formed_components(rest)) by {
            assert forall|k: int| 0 <= k < rest.len() implies known_protocol(#[trigger] rest[k].0)
                && rest[k].1.len() > 0 && !rest[k].1.contains('/') by {
                assert(rest[k] == v[k + 1]);
            }
        }
        lemma_paired_flat(rest);
        assert(known_protocol(v[0].0));
        assert(f.skip(2) =~= flat_components(rest));
        assert(seq![(f[0], f[1])] + rest =~= v);
    }
}

/// The text of a multiaddress reads back as the same components, when every component has a
/// known protocol name and a value that is not empty and holds no slash.
pub proof fn lemma_multiaddr_text_round_trip(v: Seq<(Seq<char>, Seq<char>)>)
    requires
        well_formed_components(v),
    ensures
        parse_multiaddr(multiaddr_text(v)) == Some(v),
{
    lemma_segments_of_text(v, Seq::empty());
    assert(multiaddr_text(v) + Seq::<char>::empty() =~= multiaddr_text(v));
    assert(flat_components(v) + segments(Seq::<char>::empty()) =~= flat_components(v));
    lemma_paired_flat(v);
}

} // verus!
