//! Port-mapping strings and the publish/expose table built from them.
//!
//! A port-mapping string has one of three shapes, split on `:` from the
//! right: `containerPort`, `hostPort:containerPort`, or
//! `hostIP:hostPort:containerPort`. A host IP that itself contains `:`
//! (an IPv6 address) must stand in brackets, `[::]`; any other string with
//! extra separators is malformed.

use vstd::prelude::*;
use crate::Error;
use crate::text::str_views;

verus! {

/// One host-side binding for a published container port.
#[derive(Debug, Clone)]
pub struct PortBinding {
    pub host_ip: Option<String>,
    pub host_port: Option<String>,
}

/// Mathematical model of a [`PortBinding`].
#[verifier::ext_equal]
pub struct PortBindingModel {
    pub host_ip: Option<Seq<char>>,
    pub host_port: Option<Seq<char>>,
}

impl View for PortBinding {
    type V = PortBindingModel;

    open spec fn view(&self) -> PortBindingModel {
        PortBindingModel {
            host_ip: match self.host_ip {
                Option::Some(ip) => Option::Some(ip@),
                Option::None => Option::None,
            },
            host_port: match self.host_port {
                Option::Some(p) => Option::Some(p@),
                Option::None => Option::None,
            },
        }
    }
}

/// The bindings registered for one container port. A port published
/// without a host pair keeps an empty binding list: it is exposed, not
/// published.
#[derive(Debug, Clone)]
pub struct PortEntry {
    pub container_port: String,
    pub bindings: Vec<PortBinding>,
}

/// Mathematical model of a [`PortEntry`].
#[verifier::ext_equal]
pub struct PortEntryModel {
    pub container_port: Seq<char>,
    pub bindings: Seq<PortBindingModel>,
}

impl View for PortEntry {
    type V = PortEntryModel;

    open spec fn view(&self) -> PortEntryModel {
        PortEntryModel {
            container_port: self.container_port@,
            bindings: self.bindings@.map_values(|b: PortBinding| b@),
        }
    }
}

/// The publish/expose table: one entry per container port, in order of
/// first appearance, each holding its bindings in order of appearance.
#[derive(Debug, Clone)]
pub struct PortSpec {
    pub entries: Vec<PortEntry>,
}

impl View for PortSpec {
    type V = Seq<PortEntryModel>;

    open spec fn view(&self) -> Seq<PortEntryModel> {
        self.entries@.map_values(|e: PortEntry| e@)
    }
}

/// The index of the last occurrence of `c` in `s`, or `-1` if `c` does not
/// occur.
pub open spec fn find_last(s: Seq<char>, c: char) -> int
    decreases s.len(),
{
    if s.len() == 0 {
        -1
    } else if s[s.len() - 1] == c {
        s.len() - 1
    } else {
        find_last(s.drop_last(), c)
    }
}

/// `find_last` names the last occurrence: the position it returns holds
/// `c`, and nothing after it does; a negative answer means `c` is absent.
pub proof fn lemma_find_last(s: Seq<char>, c: char)
    ensures
        find_last(s, c) >= 0 ==> {
            &&& find_last(s, c) < s.len()
            &&& s[find_last(s, c)] == c
            &&& forall|j: int| find_last(s, c) < j < s.len() ==> s[j] != c
        },
        find_last(s, c) < 0 ==> forall|j: int| 0 <= j < s.len() ==> s[j] != c,
    decreases s.len(),
{
    if s.len() > 0 && s[s.len() - 1] != c {
        lemma_find_last(s.drop_last(), c);
        assert forall|j: int| 0 <= j < s.len() - 1 implies s.drop_last()[j] == s[j] by {}
    }
}

/// What one port-mapping string denotes.
pub enum ParsedPort {
    /// Not in the grammar.
    Invalid,
    /// A bare container port: exposed, published to no host pair.
    Bare { container_port: Seq<char> },
    /// A container port published to one host pair.
    Bound { container_port: Seq<char>, binding: PortBindingModel },
}

/// A host IP field is well formed when it has no `:` of its own or stands
/// wholly in brackets (the IPv6 form).
pub open spec fn host_ip_wf(ip: Seq<char>) -> bool {
    ||| find_last(ip, ':') < 0
    ||| (ip.len() >= 2 && ip[0] == '[' && ip[ip.len() - 1] == ']')
}

/// The meaning of one port-mapping string: split on `:` from the right
/// into at most three fields.
pub open spec fn parse_port_str(s: Seq<char>) -> ParsedPort {
    let i = find_last(s, ':');
    if i < 0 {
        ParsedPort::Bare { container_port: s }
    } else {
        let head = s.take(i);
        let container_port = s.skip(i + 1);
        let j = find_last(head, ':');
        if j < 0 {
            ParsedPort::Bound {
                container_port,
                binding: PortBindingModel {
                    host_ip: Option::None,
                    host_port: Option::Some(head),
                },
            }
        } else {
            let ip = head.take(j);
            let host_port = head.skip(j + 1);
            if host_ip_wf(ip) {
                ParsedPort::Bound {
                    container_port,
                    binding: PortBindingModel {
                        host_ip: Option::Some(ip),
                        host_port: Option::Some(host_port),
                    },
                }
            } else {
                ParsedPort::Invalid
            }
        }
    }
}

/// The index of the last `:` in `s`, if any.
fn rfind_colon(s: &str) -> (r: Option<usize>)
    ensures
        match r {
            Option::Some(i) => i < s@.len() && find_last(s@, ':') == i as int,
            Option::None => find_last(s@, ':') < 0,
        },
{
    let n = s.unicode_len();
    let mut i = n;
    proof {
        assert(s@.take(n as int) =~= s@);
    }
    while i > 0
        invariant
            i <= n,
            n == s@.len(),
            find_last(s@, ':') == find_last(s@.take(i as int), ':'),
        decreases i,
    {
        i = i - 1;
        let c = s.get_char(i);
        proof {
            assert(s@.take(i + 1).drop_last() =~= s@.take(i as int));
            assert(s@.take(i + 1)[i as int] == s@[i as int]);
        }
        if c == ':' {
            return Option::Some(i);
        }
    }
    proof {
        assert(s@.take(0).len() == 0);
    }
    Option::None
}

/// Executable counterpart of a well-formed [`ParsedPort`].
pub enum ParsedPortEntry {
    /// A bare container port.
    Bare { container_port: String },
    /// A container port with one host pair.
    Bound { container_port: String, binding: PortBinding },
}

impl View for ParsedPortEntry {
    type V = ParsedPort;

    open spec fn view(&self) -> ParsedPort {
        match self {
            ParsedPortEntry::Bare { container_port } => ParsedPort::Bare {
                container_port: container_port@,
            },
            ParsedPortEntry::Bound { container_port, binding } => ParsedPort::Bound {
                container_port: container_port@,
                binding: binding@,
            },
        }
    }
}

/// Splits one port-mapping string into its fields, or rejects it.
pub fn parse_port_entry(s: &str) -> (r: Result<ParsedPortEntry, Error>)
    ensures
        match r {
            Ok(p) => p@ == parse_port_str(s@),
            Err(e) => {
                &&& parse_port_str(s@) is Invalid
                &&& e matches Error::InvalidPortSpec(t) && t@ == s@
            },
        },
        (r is Err) <==> (parse_port_str(s@) is Invalid),
{
    let n = s.unicode_len();
    match rfind_colon(s) {
        Option::None => Ok(ParsedPortEntry::Bare { container_port: s.to_owned() }),
        Option::Some(i) => {
            let container_port = String::from_str(s.substring_char(i + 1, n));
            let head = s.substring_char(0, i);
            let head_len = i;
            match rfind_colon(head) {
                Option::None => Ok(ParsedPortEntry::Bound {
                    container_port,
                    binding: PortBinding {
                        host_ip: Option::None,
                        host_port: Option::Some(head.to_owned()),
                    },
                }),
                Option::Some(j) => {
                    let ip = head.substring_char(0, j);
                    let host_port = String::from_str(head.substring_char(j + 1, head_len));
                    let ip_len = j;
                    let bracketed = ip_len >= 2 && ip.get_char(0) == '[' && ip.get_char(
                        ip_len - 1,
                    ) == ']';
                    let ip_has_colon = rfind_colon(ip).is_some();
                    if !ip_has_colon || bracketed {
                        proof {
                            lemma_find_last(ip@, ':');
                        }
                        Ok(ParsedPortEntry::Bound {
                            container_port,
                            binding: PortBinding {
                                host_ip: Option::Some(ip.to_owned()),
                                host_port: Option::Some(host_port),
                            },
                        })
                    } else {
                        Err(Error::InvalidPortSpec(s.to_owned()))
                    }
                },
            }
        },
    }
}

/// The index of the entry for `port`, or `-1` if no entry names it.
pub open spec fn index_of_port(es: Seq<PortEntryModel>, port: Seq<char>) -> int
    decreases es.len(),
{
    if es.len() == 0 {
        -1
    } else if es[0].container_port == port {
        0
    } else {
        let r = index_of_port(es.skip(1), port);
        if r < 0 {
            -1
        } else {
            r + 1
        }
    }
}

/// `index_of_port` names the first entry for `port`, and is negative
/// exactly when no entry names it.
pub proof fn lemma_index_of_port(es: Seq<PortEntryModel>, port: Seq<char>)
    ensures
        index_of_port(es, port) >= 0 <==> exists|j: int|
            0 <= j < es.len() && es[j].container_port == port,
        index_of_port(es, port) >= 0 ==> {
            let k = index_of_port(es, port);
            &&& 0 <= k < es.len()
            &&& es[k].container_port == port
            &&& forall|j: int| 0 <= j < k ==> es[j].container_port != port
        },
    decreases es.len(),
{
    if es.len() > 0 && es[0].container_port != port {
        lemma_index_of_port(es.skip(1), port);
        assert forall|j: int| 0 <= j < es.len() - 1 implies es.skip(1)[j] == es[j + 1] by {}
        let r = index_of_port(es.skip(1), port);
        if r < 0 {
            assert forall|j: int| 0 <= j < es.len() implies es[j].container_port != port by {
                if j > 0 {
                    assert(es.skip(1)[j - 1] == es[j]);
                }
            }
        } else {
            assert(es.skip(1)[r] == es[r + 1]);
            assert forall|j: int| 0 <= j < r + 1 implies es[j].container_port != port by {
                if j > 0 {
                    assert(es.skip(1)[j - 1] == es[j]);
                }
            }
        }
    }
}

/// The first match determines `index_of_port`: an entry for `port` with
/// none before it stands at the index the function returns.
pub proof fn lemma_index_of_port_at(es: Seq<PortEntryModel>, port: Seq<char>, k: int)
    requires
        0 <= k < es.len(),
        es[k].container_port == port,
        forall|j: int| 0 <= j < k ==> es[j].container_port != port,
    ensures
        index_of_port(es, port) == k,
{
    lemma_index_of_port(es, port);
    let i = index_of_port(es, port);
    assert(i >= 0);
    if i < k {
        assert(es[i].container_port != port);
        assert(false);
    }
    if i > k {
        assert(es[k].container_port != port);
        assert(false);
    }
}

/// How one parsed string extends the table: a bare port registers its
/// entry once, a bound port appends its binding to its entry, and a new
/// container port opens a new entry at the end.
pub open spec fn add_parsed(es: Seq<PortEntryModel>, p: ParsedPort) -> Seq<PortEntryModel>
    recommends
        !(p is Invalid),
{
    match p {
        ParsedPort::Invalid => es,
        ParsedPort::Bare { container_port } => {
            let k = index_of_port(es, container_port);
            if k >= 0 {
                es
            } else {
                es.push(PortEntryModel { container_port, bindings: Seq::empty() })
            }
        },
        ParsedPort::Bound { container_port, binding } => {
            let k = index_of_port(es, container_port);
            if k >= 0 {
                es.update(
                    k,
                    PortEntryModel { container_port, bindings: es[k].bindings.push(binding) },
                )
            } else {
                es.push(PortEntryModel { container_port, bindings: seq![binding] })
            }
        },
    }
}

/// The table built from a list of port-mapping strings, or `None` if one
/// of them is malformed.
pub open spec fn parse_ports(inputs: Seq<Seq<char>>) -> Option<Seq<PortEntryModel>>
    decreases inputs.len(),
{
    if inputs.len() == 0 {
        Option::Some(Seq::empty())
    } else {
        match parse_ports(inputs.drop_last()) {
            Option::None => Option::None,
            Option::Some(es) => {
                let p = parse_port_str(inputs.last());
                if p is Invalid {
                    Option::None
                } else {
                    Option::Some(add_parsed(es, p))
                }
            },
        }
    }
}

/// No two entries of a well-formed table name the same container port.
pub open spec fn port_spec_wf(es: Seq<PortEntryModel>) -> bool {
    forall|i: int, j: int|
        0 <= i < j < es.len() ==> es[i].container_port != es[j].container_port
}

/// Extending the table keeps its container ports distinct.
pub proof fn lemma_add_parsed_wf(es: Seq<PortEntryModel>, p: ParsedPort)
    requires
        port_spec_wf(es),
    ensures
        port_spec_wf(add_parsed(es, p)),
{
    lemma_index_of_port(
        es,
        match p {
            ParsedPort::Invalid => Seq::empty(),
            ParsedPort::Bare { container_port } => container_port,
            ParsedPort::Bound { container_port, .. } => container_port,
        },
    );
}

/// If a prefix of the inputs already fails to parse, the whole list does.
proof fn lemma_parse_none_extends(inputs: Seq<Seq<char>>, m: int)
    requires
        0 <= m <= inputs.len(),
        parse_ports(inputs.take(m)) is None,
    ensures
        parse_ports(inputs) is None,
    decreases inputs.len() - m,
{
    if m < inputs.len() {
        assert(inputs.take(m + 1).drop_last() =~= inputs.take(m));
        assert(parse_ports(inputs.take(m + 1)) is None);
        lemma_parse_none_extends(inputs, m + 1);
    } else {
        assert(inputs.take(m) =~= inputs);
    }
}

impl PortSpec {
    /// An empty table.
    pub fn new() -> (r: Self)
        ensures
            r@ =~= Seq::<PortEntryModel>::empty(),
    {
        PortSpec { entries: Vec::new() }
    }

    /// The position of the entry for `port`, if one exists.
    fn find_port(&self, port: &String) -> (r: Option<usize>)
        ensures
            match r {
                Option::Some(k) => k < self@.len() && index_of_port(self@, port@) == k as int,
                Option::None => index_of_port(self@, port@) < 0,
            },
    {
        let n = self.entries.len();
        let mut k: usize = 0;
        while k < n
            invariant
                k <= n,
                n == self@.len(),
                forall|j: int| 0 <= j < k ==> self@[j].container_port != port@,
            decreases n - k,
        {
            if self.entries[k].container_port == *port {
                proof {
                    lemma_index_of_port_at(self@, port@, k as int);
                }
                return Option::Some(k);
            }
            k = k + 1;
        }
        proof {
            lemma_index_of_port(self@, port@);
        }
        Option::None
    }

    /// Registers one parsed string in the table.
    pub fn add(&mut self, p: ParsedPortEntry)
        ensures
            final(self)@ == add_parsed(old(self)@, p@),
    {
        let ghost pv = p@;
        match p {
            ParsedPortEntry::Bare { container_port } => {
                match self.find_port(&container_port) {
                    Option::Some(_) => {
                        proof {
                            assert(self@ =~~= add_parsed(old(self)@, pv));
                        }
                    },
                    Option::None => {
                        self.entries.push(
                            PortEntry { container_port, bindings: Vec::new() },
                        );
                        proof {
                            assert(self@ =~~= add_parsed(old(self)@, pv));
                        }
                    },
                }
            },
            ParsedPortEntry::Bound { container_port, binding } => {
                match self.find_port(&container_port) {
                    Option::Some(k) => {
                        proof {
                            lemma_index_of_port(self@, container_port@);
                        }
                        let entry = &mut self.entries[k];
                        entry.bindings.push(binding);
                        proof {
                            assert(self@ =~~= add_parsed(old(self)@, pv));
                        }
                    },
                    Option::None => {
                        let mut bindings = Vec::new();
                        bindings.push(binding);
                        self.entries.push(PortEntry { container_port, bindings });
                        proof {
                            assert(self@ =~~= add_parsed(old(self)@, pv));
                        }
                    },
                }
            },
        }
    }
}

/// Builds the publish/expose table from the given port-mapping strings.
///
/// Succeeds exactly when every string is in the grammar; otherwise fails
/// with [`Error::InvalidPortSpec`] carrying the first offending string.
pub fn get_port_bindings(input: &Vec<String>) -> (r: Result<PortSpec, Error>)
    ensures
        match r {
            Ok(ps) => {
                &&& parse_ports(str_views(input@)) == Option::Some(ps@)
                &&& port_spec_wf(ps@)
            },
            Err(e) => {
                &&& parse_ports(str_views(input@)) is None
                &&& exists|k: int|
                    0 <= k < input@.len() && (#[trigger] parse_port_str(input@[k]@)) is Invalid
                        && (forall|j: int| 0 <= j < k ==> !(parse_port_str(input@[j]@) is Invalid))
                        && (e matches Error::InvalidPortSpec(t) && t@ == input@[k]@)
            },
        },
{
    let ghost views = str_views(input@);
    let mut ps = PortSpec::new();
    let n = input.len();
    let mut k: usize = 0;
    proof {
        assert(views.take(0) =~= Seq::<Seq<char>>::empty());
    }
    while k < n
        invariant
            k <= n,
            n == input@.len(),
            views == str_views(input@),
            views.len() == n,
            forall|j: int| 0 <= j < n ==> views[j] == input@[j]@,
            parse_ports(views.take(k as int)) == Option::Some(ps@),
            port_spec_wf(ps@),
            forall|j: int| 0 <= j < k ==> !((#[trigger] parse_port_str(input@[j]@)) is Invalid),
        decreases n - k,
    {
        proof {
            assert(views.take(k + 1).drop_last() =~= views.take(k as int));
            assert(views.take(k + 1).last() == input@[k as int]@);
        }
        match parse_port_entry(input[k].as_str()) {
            Ok(p) => {
                proof {
                    lemma_add_parsed_wf(ps@, p@);
                }
                ps.add(p);
            },
            Err(e) => {
                proof {
                    lemma_parse_none_extends(views, k + 1);
                }
                return Err(e);
            },
        }
        k = k + 1;
    }
    proof {
        assert(views.take(n as int) =~= views);
    }
    Ok(ps)
}

/// The string a binding renders to: `hostPort:containerPort`, or
/// `hostIP:hostPort:containerPort` when a host IP is present. An absent
/// host port renders as an empty field.
pub open spec fn render_binding(container_port: Seq<char>, b: PortBindingModel) -> Seq<char> {
    let hp = match b.host_port {
        Option::Some(p) => p,
        Option::None => Seq::empty(),
    };
    match b.host_ip {
        Option::Some(ip) => ip + seq![':'] + hp + seq![':'] + container_port,
        Option::None => hp + seq![':'] + container_port,
    }
}

/// The strings one entry renders to: its bare port when it has no
/// binding, else one string per binding.
pub open spec fn render_entry(e: PortEntryModel) -> Seq<Seq<char>> {
    if e.bindings.len() == 0 {
        seq![e.container_port]
    } else {
        Seq::new(e.bindings.len(), |i: int| render_binding(e.container_port, e.bindings[i]))
    }
}

/// The strings a whole table renders to, entry by entry.
pub open spec fn render_port_entries(es: Seq<PortEntryModel>) -> Seq<Seq<char>>
    decreases es.len(),
{
    if es.len() == 0 {
        Seq::empty()
    } else {
        render_port_entries(es.drop_last()) + render_entry(es.last())
    }
}

/// Renders one binding back to its port-mapping string.
fn render_binding_str(container_port: &String, b: &PortBinding) -> (r: String)
    ensures
        r@ == render_binding(container_port@, b@),
{
    proof {
        reveal_strlit(":");
        assert(":"@ =~= seq![':']);
    }
    let mut s = String::new();
    match &b.host_ip {
        Option::Some(ip) => {
            s.append(ip.as_str());
            s.append(":");
        },
        Option::None => {},
    }
    match &b.host_port {
        Option::Some(hp) => {
            s.append(hp.as_str());
        },
        Option::None => {},
    }
    s.append(":");
    s.append(container_port.as_str());
    proof {
        assert(s@ =~= render_binding(container_port@, b@));
    }
    s
}

/// Renders the table back to a list of port-mapping strings.
pub fn render_port_spec(ps: &PortSpec) -> (r: Vec<String>)
    ensures
        str_views(r@) == render_port_entries(ps@),
{
    let mut out: Vec<String> = Vec::new();
    let n = ps.entries.len();
    let mut k: usize = 0;
    proof {
        assert(ps@.take(0) =~= Seq::<PortEntryModel>::empty());
        assert(str_views(out@) =~= render_port_entries(ps@.take(0)));
    }
    while k < n
        invariant
            k <= n,
            n == ps@.len(),
            str_views(out@) == render_port_entries(ps@.take(k as int)),
        decreases n - k,
    {
        proof {
            assert(ps@.take(k + 1).drop_last() =~= ps@.take(k as int));
            assert(ps@.take(k + 1).last() == ps@[k as int]);
        }
        let entry = &ps.entries[k];
        let m = entry.bindings.len();
        if m == 0 {
            out.push(entry.container_port.clone());
            proof {
                assert(str_views(out@) =~= render_port_entries(ps@.take(k + 1)));
            }
        } else {
            let mut t: usize = 0;
            proof {
                assert(str_views(out@) =~= render_port_entries(ps@.take(k as int)) + Seq::new(
                    0,
                    |i: int| render_binding(ps@[k as int].container_port, ps@[k as int].bindings[i]),
                ));
            }
            while t < m
                invariant
                    t <= m,
                    k < n,
                    n == ps@.len(),
                    m == ps@[k as int].bindings.len(),
                    entry == ps.entries@[k as int],
                    entry@ == ps@[k as int],
                    str_views(out@) == render_port_entries(ps@.take(k as int)) + Seq::new(
                        t as nat,
                        |i: int| render_binding(ps@[k as int].container_port, ps@[k as int].bindings[i]),
                    ),
                decreases m - t,
            {
                let ghost w0 = out@;
                let s = render_binding_str(&entry.container_port, &entry.bindings[t]);
                proof {
                    assert(str_views(w0).len() == render_port_entries(ps@.take(k as int)).len() + t);
                    assert(ps@[k as int].bindings[t as int] == entry.bindings@[t as int]@);
                    assert(s@ == render_binding(
                        ps@[k as int].container_port,
                        ps@[k as int].bindings[t as int],
                    ));
                }
                out.push(s);
                proof {
                    let a = render_port_entries(ps@.take(k as int));
                    let f = |i: int| render_binding(
                        ps@[k as int].container_port,
                        ps@[k as int].bindings[i],
                    );
                    assert(str_views(out@).len() == a.len() + t + 1);
                    assert forall|i: int| 0 <= i < a.len() + t + 1 implies str_views(out@)[i] == (a
                        + Seq::new((t + 1) as nat, f))[i] by {
                        if i < a.len() + t {
                            assert(str_views(out@)[i] == (a + Seq::new(t as nat, f))[i]);
                        }
                    }
                    assert(str_views(out@) =~= a + Seq::new((t + 1) as nat, f));
                }
                t = t + 1;
            }
            proof {
                assert(Seq::new(
                    m as nat,
                    |i: int| render_binding(ps@[k as int].container_port, ps@[k as int].bindings[i]),
                ) =~= render_entry(ps@[k as int]));
                assert(str_views(out@) =~= render_port_entries(ps@.take(k + 1)));
            }
        }
        k = k + 1;
    }
    proof {
        assert(ps@.take(n as int) =~= ps@);
    }
    out
}

/// `parse_ports`, generalized to start from an already accumulated table.
pub open spec fn parse_ports_from(
    acc: Seq<PortEntryModel>,
    inputs: Seq<Seq<char>>,
) -> Option<Seq<PortEntryModel>>
    decreases inputs.len(),
{
    if inputs.len() == 0 {
        Option::Some(acc)
    } else {
        match parse_ports_from(acc, inputs.drop_last()) {
            Option::None => Option::None,
            Option::Some(es) => {
                let p = parse_port_str(inputs.last());
                if p is Invalid {
                    Option::None
                } else {
                    Option::Some(add_parsed(es, p))
                }
            },
        }
    }
}

/// `parse_ports` is `parse_ports_from` started on the empty table.
proof fn lemma_parse_ports_is_from(inputs: Seq<Seq<char>>)
    ensures
        parse_ports(inputs) == parse_ports_from(Seq::empty(), inputs),
    decreases inputs.len(),
{
    if inputs.len() > 0 {
        lemma_parse_ports_is_from(inputs.drop_last());
    }
}

/// Parsing a concatenation parses the first part, then goes on from its
/// result.
proof fn lemma_parse_ports_from_concat(
    acc: Seq<PortEntryModel>,
    xs: Seq<Seq<char>>,
    ys: Seq<Seq<char>>,
)
    ensures
        parse_ports_from(acc, xs + ys) == match parse_ports_from(acc, xs) {
            Option::None => Option::<Seq<PortEntryModel>>::None,
            Option::Some(es) => parse_ports_from(es, ys),
        },
    decreases ys.len(),
{
    if ys.len() == 0 {
        assert(xs + ys =~= xs);
    } else {
        assert((xs + ys).drop_last() =~= xs + ys.drop_last());
        assert((xs + ys).last() == ys.last());
        lemma_parse_ports_from_concat(acc, xs, ys.drop_last());
    }
}

/// Where the last occurrence of `c` stands in a concatenation.
pub proof fn lemma_find_last_concat(x: Seq<char>, y: Seq<char>, c: char)
    ensures
        find_last(x + y, c) == if find_last(y, c) >= 0 {
            x.len() + find_last(y, c)
        } else {
            find_last(x, c)
        },
    decreases y.len(),
{
    lemma_find_last(y, c);
    if y.len() == 0 {
        assert(x + y =~= x);
    } else {
        assert((x + y).drop_last() =~= x + y.drop_last());
        assert((x + y).last() == y.last());
        lemma_find_last_concat(x, y.drop_last(), c);
    }
}

/// A binding that renders back to the grammar: its host port is present
/// and free of `:`, and its host IP, if any, is itself well formed.
pub open spec fn binding_rt_wf(b: PortBindingModel) -> bool {
    &&& match b.host_port {
        Option::Some(hp) => find_last(hp, ':') < 0,
        Option::None => false,
    }
    &&& match b.host_ip {
        Option::Some(ip) => host_ip_wf(ip),
        Option::None => true,
    }
}

/// An entry whose rendered strings are in the grammar.
pub open spec fn entry_rt_wf(e: PortEntryModel) -> bool {
    &&& find_last(e.container_port, ':') < 0
    &&& forall|i: int| 0 <= i < e.bindings.len() ==> binding_rt_wf(#[trigger] e.bindings[i])
}

/// A table whose rendered form is in the grammar: distinct container
/// ports, each entry renderable.
pub open spec fn port_spec_rt_wf(es: Seq<PortEntryModel>) -> bool {
    &&& port_spec_wf(es)
    &&& forall|i: int| 0 <= i < es.len() ==> entry_rt_wf(#[trigger] es[i])
}

/// Parsing the rendered form of one binding gives that binding back.
proof fn lemma_parse_render_binding(container_port: Seq<char>, b: PortBindingModel)
    requires
        find_last(container_port, ':') < 0,
        binding_rt_wf(b),
    ensures
        parse_port_str(render_binding(container_port, b)) == (ParsedPort::Bound {
            container_port,
            binding: b,
        }),
{
    let colon = seq![':'];
    assert(find_last(colon, ':') == 0);
    let hp = match b.host_port {
        Option::Some(p) => p,
        Option::None => Seq::<char>::empty(),
    };
    match b.host_ip {
        Option::None => {
            let s = hp + colon + container_port;
            lemma_find_last_concat(hp + colon, container_port, ':');
            lemma_find_last_concat(hp, colon, ':');
            assert(find_last(s, ':') == hp.len());
            assert(s.take(hp.len() as int) =~= hp);
            assert(s.skip(hp.len() as int + 1) =~= container_port);
            assert(parse_port_str(s) =~~= (ParsedPort::Bound { container_port, binding: b }));
        },
        Option::Some(ip) => {
            let s = ip + colon + hp + colon + container_port;
            let head = ip + colon + hp;
            lemma_find_last_concat(head + colon, container_port, ':');
            lemma_find_last_concat(head, colon, ':');
            assert(head + colon + container_port =~= s);
            assert(find_last(s, ':') == head.len());
            assert(s.take(head.len() as int) =~= head);
            assert(s.skip(head.len() as int + 1) =~= container_port);
            lemma_find_last_concat(ip + colon, hp, ':');
            lemma_find_last_concat(ip, colon, ':');
            assert(find_last(head, ':') == ip.len());
            assert(head.take(ip.len() as int) =~= ip);
            assert(head.skip(ip.len() as int + 1) =~= hp);
            assert(parse_port_str(s) =~~= (ParsedPort::Bound { container_port, binding: b }));
        },
    }
}

/// The strings the bindings of one entry render to.
spec fn binding_strs(e: PortEntryModel) -> Seq<Seq<char>> {
    Seq::new(e.bindings.len(), |i: int| render_binding(e.container_port, e.bindings[i]))
}

/// Parsing the first `t` rendered bindings of a fresh entry accumulates
/// exactly those bindings under the entry's port.
proof fn lemma_parse_binding_strings(acc: Seq<PortEntryModel>, e: PortEntryModel, t: int)
    requires
        entry_rt_wf(e),
        index_of_port(acc, e.container_port) < 0,
        1 <= t <= e.bindings.len(),
    ensures
        parse_ports_from(acc, binding_strs(e).take(t)) == Option::Some(
            acc.push(
                PortEntryModel { container_port: e.container_port, bindings: e.bindings.take(t) },
            ),
        ),
    decreases t,
{
    let strs = binding_strs(e).take(t);
    assert(strs.last() == render_binding(e.container_port, e.bindings[t - 1]));
    lemma_parse_render_binding(e.container_port, e.bindings[t - 1]);
    lemma_index_of_port(acc, e.container_port);
    if t == 1 {
        assert(strs.drop_last() =~= Seq::<Seq<char>>::empty());
        assert(parse_ports_from(acc, Seq::<Seq<char>>::empty()) == Option::Some(acc));
        assert(add_parsed(
            acc,
            ParsedPort::Bound { container_port: e.container_port, binding: e.bindings[0] },
        ) =~~= acc.push(
            PortEntryModel { container_port: e.container_port, bindings: e.bindings.take(1) },
        ));
    } else {
        lemma_parse_binding_strings(acc, e, t - 1);
        assert(strs.drop_last() =~= binding_strs(e).take(t - 1));
        let prev = acc.push(
            PortEntryModel { container_port: e.container_port, bindings: e.bindings.take(t - 1) },
        );
        lemma_index_of_port_at(prev, e.container_port, acc.len() as int);
        assert(add_parsed(
            prev,
            ParsedPort::Bound { container_port: e.container_port, binding: e.bindings[t - 1] },
        ) =~~= acc.push(
            PortEntryModel { container_port: e.container_port, bindings: e.bindings.take(t) },
        ));
    }
}

/// Parsing the rendered strings of one fresh entry appends that entry.
proof fn lemma_parse_entry_strings(acc: Seq<PortEntryModel>, e: PortEntryModel)
    requires
        entry_rt_wf(e),
        index_of_port(acc, e.container_port) < 0,
    ensures
        parse_ports_from(acc, render_entry(e)) == Option::Some(acc.push(e)),
{
    lemma_index_of_port(acc, e.container_port);
    if e.bindings.len() == 0 {
        let strs = render_entry(e);
        assert(strs.drop_last() =~= Seq::<Seq<char>>::empty());
        assert(parse_ports_from(acc, Seq::<Seq<char>>::empty()) == Option::Some(acc));
        assert(strs.last() == e.container_port);
        assert(add_parsed(acc, ParsedPort::Bare { container_port: e.container_port }) =~~= acc.push(
            e,
        ));
    } else {
        let n = e.bindings.len() as int;
        lemma_parse_binding_strings(acc, e, n);
        assert(binding_strs(e).take(n) =~= render_entry(e));
        assert(acc.push(
            PortEntryModel { container_port: e.container_port, bindings: e.bindings.take(n) },
        ) =~~= acc.push(e));
    }
}

/// Helper for the round trip, running over the entries from the left.
proof fn lemma_round_trip_from(es: Seq<PortEntryModel>)
    requires
        port_spec_rt_wf(es),
    ensures
        parse_ports_from(Seq::empty(), render_port_entries(es)) == Option::Some(es),
    decreases es.len(),
{
    if es.len() == 0 {
        assert(render_port_entries(es) =~= Seq::<Seq<char>>::empty());
        assert(Seq::<PortEntryModel>::empty() =~= es);
    } else {
        let pre = es.drop_last();
        assert(port_spec_rt_wf(pre)) by {
            assert(forall|i: int| 0 <= i < pre.len() ==> pre[i] == es[i]);
        }
        lemma_round_trip_from(pre);
        lemma_parse_ports_from_concat(
            Seq::empty(),
            render_port_entries(pre),
            render_entry(es.last()),
        );
        lemma_index_of_port(pre, es.last().container_port);
        assert(index_of_port(pre, es.last().container_port) < 0) by {
            lemma_index_of_port(pre, es.last().container_port);
            if index_of_port(pre, es.last().container_port) >= 0 {
                let j = choose|j: int|
                    0 <= j < pre.len() && pre[j].container_port == es.last().container_port;
                assert(es[j].container_port == es[es.len() - 1].container_port);
                assert(false);
            }
        }
        assert(entry_rt_wf(es.last()));
        lemma_parse_entry_strings(pre, es.last());
        assert(pre.push(es.last()) =~= es);
    }
}

/// Parsing a list of port-mapping strings fails exactly when one of them
/// is outside the grammar; well-formed lists always parse.
pub proof fn lemma_parse_ports_none_iff(inputs: Seq<Seq<char>>)
    ensures
        (parse_ports(inputs) is None) <==> exists|k: int|
            0 <= k < inputs.len() && (#[trigger] parse_port_str(inputs[k])) is Invalid,
    decreases inputs.len(),
{
    if inputs.len() > 0 {
        lemma_parse_ports_none_iff(inputs.drop_last());
        let pre = inputs.drop_last();
        if parse_ports(inputs) is None {
            if parse_ports(pre) is None {
                let k = choose|k: int|
                    0 <= k < pre.len() && (#[trigger] parse_port_str(pre[k])) is Invalid;
                assert(pre[k] == inputs[k]);
                assert(parse_port_str(inputs[k]) is Invalid);
            } else {
                assert(parse_port_str(inputs[inputs.len() - 1]) is Invalid);
            }
        } else {
            assert forall|k: int|
                0 <= k < inputs.len() implies !((#[trigger] parse_port_str(inputs[k]))
                is Invalid) by {
                if k < inputs.len() - 1 {
                    assert(pre[k] == inputs[k]);
                    assert(!(parse_port_str(pre[k]) is Invalid));
                }
            }
        }
    }
}

/// Round trip: parsing a table's own rendered form reproduces the table,
/// for every table whose strings are in the grammar.
pub proof fn lemma_port_spec_round_trip(es: Seq<PortEntryModel>)
    requires
        port_spec_rt_wf(es),
    ensures
        parse_ports(render_port_entries(es)) == Option::Some(es),
{
    lemma_parse_ports_is_from(render_port_entries(es));
    lemma_round_trip_from(es);
}

/// The fields a parse splits off are themselves free of `:`, and a host
/// IP is accepted only in its well-formed shapes: every parsed string
/// renders back into the grammar.
proof fn lemma_parse_port_str_wf(s: Seq<char>)
    ensures
        match parse_port_str(s) {
            ParsedPort::Invalid => true,
            ParsedPort::Bare { container_port } => find_last(container_port, ':') < 0,
            ParsedPort::Bound { container_port, binding } => {
                &&& find_last(container_port, ':') < 0
                &&& binding_rt_wf(binding)
            },
        },
{
    let i = find_last(s, ':');
    lemma_find_last(s, ':');
    if i >= 0 {
        let head = s.take(i);
        let container_port = s.skip(i + 1);
        lemma_find_last(container_port, ':');
        if find_last(container_port, ':') >= 0 {
            assert(container_port[find_last(container_port, ':')] == s[i + 1 + find_last(
                container_port,
                ':',
            )]);
            assert(false);
        }
        let j = find_last(head, ':');
        lemma_find_last(head, ':');
        if j >= 0 {
            let host_port = head.skip(j + 1);
            lemma_find_last(host_port, ':');
            if find_last(host_port, ':') >= 0 {
                assert(host_port[find_last(host_port, ':')] == head[j + 1 + find_last(
                    host_port,
                    ':',
                )]);
                assert(false);
            }
        }
    }
}

/// Registering a well-formed parsed string keeps the whole table
/// renderable.
proof fn lemma_add_parsed_rt_wf(es: Seq<PortEntryModel>, p: ParsedPort)
    requires
        port_spec_rt_wf(es),
        match p {
            ParsedPort::Invalid => false,
            ParsedPort::Bare { container_port } => find_last(container_port, ':') < 0,
            ParsedPort::Bound { container_port, binding } => {
                &&& find_last(container_port, ':') < 0
                &&& binding_rt_wf(binding)
            },
        },
    ensures
        port_spec_rt_wf(add_parsed(es, p)),
{
    lemma_add_parsed_wf(es, p);
    let out = add_parsed(es, p);
    match p {
        ParsedPort::Invalid => {},
        ParsedPort::Bare { container_port } => {
            assert forall|i: int| 0 <= i < out.len() implies entry_rt_wf(#[trigger] out[i]) by {}
        },
        ParsedPort::Bound { container_port, binding } => {
            let k = index_of_port(es, container_port);
            lemma_index_of_port(es, container_port);
            assert forall|i: int| 0 <= i < out.len() implies entry_rt_wf(#[trigger] out[i]) by {
                if k >= 0 && i == k {
                    assert(entry_rt_wf(es[k]));
                    let updated = out[k];
                    assert forall|t: int|
                        0 <= t < updated.bindings.len() implies binding_rt_wf(
                        #[trigger] updated.bindings[t],
                    ) by {
                        if t < es[k].bindings.len() {
                            assert(updated.bindings[t] == es[k].bindings[t]);
                        }
                    }
                }
            }
        },
    }
}

/// Every table that `parse_ports` builds is renderable: its container
/// ports are distinct and all its fields are back in the grammar.
pub proof fn lemma_parse_ports_rt_wf(inputs: Seq<Seq<char>>)
    ensures
        parse_ports(inputs) matches Option::Some(es) ==> port_spec_rt_wf(es),
    decreases inputs.len(),
{
    if inputs.len() > 0 {
        lemma_parse_ports_rt_wf(inputs.drop_last());
        if parse_ports(inputs) is Some {
            let prev = parse_ports(inputs.drop_last())->Some_0;
            lemma_parse_port_str_wf(inputs.last());
            lemma_add_parsed_rt_wf(prev, parse_port_str(inputs.last()));
        }
    }
}

/// The round trip for parser outputs, with nothing assumed: whatever
/// table a parse produced, rendering it and parsing again gives the very
/// same table.
pub proof fn lemma_parse_render_parse(inputs: Seq<Seq<char>>)
    ensures
        parse_ports(inputs) matches Option::Some(es) ==> parse_ports(render_port_entries(es))
            == Option::Some(es),
{
    if parse_ports(inputs) is Some {
        let es = parse_ports(inputs)->Some_0;
        lemma_parse_ports_rt_wf(inputs);
        lemma_port_spec_round_trip(es);
    }
}

} // verus!
