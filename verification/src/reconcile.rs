//! The reconciler: restores the exclusive-connection invariant for each
//! desired pair against a model of the routing graph's state.
//!
//! The model holds the port names that currently exist and the links between
//! them. One reconciliation step for a pair `(out, inp)` skips the pair when
//! either port is missing, does nothing when the pair is already exclusively
//! wired, and otherwise disconnects everything touching either port and
//! connects the two.

use vstd::prelude::*;

use crate::pattern::{conns_view, Conn};

verus! {

/// What one reconciliation step did for one desired pair.
#[derive(Clone, Copy, Debug, PartialEq, Eq, Structural)]
pub enum Outcome {
    /// A port was missing; nothing was touched.
    Skip,
    /// The pair was already exclusively wired; nothing was touched.
    Noop,
    /// The pair was rewired.
    Repair,
}

/// Abstract state of the routing graph: the ports that exist, and the links,
/// each an (output, input) pair of port names.
pub struct GraphView {
    pub ports: Seq<Seq<char>>,
    pub links: Seq<(Seq<char>, Seq<char>)>,
}

/// A link touches a port: the port is one of its endpoints.
pub open spec fn incident(l: (Seq<char>, Seq<char>), p: Seq<char>) -> bool {
    l.0 == p || l.1 == p
}

/// How many links touch a port.
pub open spec fn count_incident(ls: Seq<(Seq<char>, Seq<char>)>, p: Seq<char>) -> nat
    decreases ls.len(),
{
    if ls.len() == 0 {
        0
    } else {
        (if incident(ls[0], p) {
            1 as nat
        } else {
            0 as nat
        }) + count_incident(ls.skip(1), p)
    }
}

/// The links that do not touch a port: the state after disconnecting it.
pub open spec fn without(ls: Seq<(Seq<char>, Seq<char>)>, p: Seq<char>) -> Seq<
    (Seq<char>, Seq<char>),
>
    decreases ls.len(),
{
    if ls.len() == 0 {
        ls
    } else if incident(ls[0], p) {
        without(ls.skip(1), p)
    } else {
        seq![ls[0]] + without(ls.skip(1), p)
    }
}

/// The port currently exists in the graph.
pub open spec fn port_known(g: GraphView, p: Seq<char>) -> bool {
    g.ports.contains(p)
}

/// The output port is linked to the input port.
pub open spec fn linked(g: GraphView, o: Seq<char>, i: Seq<char>) -> bool {
    g.links.contains((o, i))
}

/// How many links touch a port, in a graph.
pub open spec fn conn_count(g: GraphView, p: Seq<char>) -> nat {
    count_incident(g.links, p)
}

/// The exclusive-connection invariant for one pair: the two are linked and
/// each port has exactly that one link.
pub open spec fn exclusive(g: GraphView, o: Seq<char>, i: Seq<char>) -> bool {
    linked(g, o, i) && conn_count(g, o) == 1 && conn_count(g, i) == 1
}

/// What one reconciliation step decides for a pair.
pub open spec fn rec_pair_outcome(g: GraphView, o: Seq<char>, i: Seq<char>) -> Outcome {
    if !port_known(g, o) || !port_known(g, i) {
        Outcome::Skip
    } else if exclusive(g, o, i) {
        Outcome::Noop
    } else {
        Outcome::Repair
    }
}

/// The graph after one reconciliation step for a pair: on repair, every link
/// touching either port is dropped and the pair is connected; otherwise the
/// graph is unchanged.
pub open spec fn rec_pair(g: GraphView, o: Seq<char>, i: Seq<char>) -> GraphView {
    if rec_pair_outcome(g, o, i) == Outcome::Repair {
        GraphView { ports: g.ports, links: without(without(g.links, o), i).push((o, i)) }
    } else {
        g
    }
}

/// The graph after a full reconciliation pass, pair by pair in order.
pub open spec fn rec_all(g: GraphView, pairs: Seq<(Seq<char>, Seq<char>)>) -> GraphView
    decreases pairs.len(),
{
    if pairs.len() == 0 {
        g
    } else {
        rec_all(rec_pair(g, pairs[0].0, pairs[0].1), pairs.skip(1))
    }
}

/// What a full reconciliation pass decides for each pair, in order; each
/// decision is taken in the graph as the earlier pairs left it.
pub open spec fn rec_all_outcomes(g: GraphView, pairs: Seq<(Seq<char>, Seq<char>)>) -> Seq<Outcome>
    decreases pairs.len(),
{
    if pairs.len() == 0 {
        Seq::empty()
    } else {
        seq![rec_pair_outcome(g, pairs[0].0, pairs[0].1)] + rec_all_outcomes(
            rec_pair(g, pairs[0].0, pairs[0].1),
            pairs.skip(1),
        )
    }
}

/// The name pairs a vector of string links holds.
pub open spec fn links_view(ls: Seq<(String, String)>) -> Seq<(Seq<char>, Seq<char>)> {
    ls.map_values(|l: (String, String)| (l.0@, l.1@))
}

/// The port names a vector of strings holds.
pub open spec fn ports_view(ps: Seq<String>) -> Seq<Seq<char>> {
    ps.map_values(|s: String| s@)
}

/// A model of the routing graph, for reconciliation: the existing port
/// names, and the links as (output, input) name pairs.
pub struct Graph {
    ports: Vec<String>,
    links: Vec<(String, String)>,
}

impl View for Graph {
    type V = GraphView;

    closed spec fn view(&self) -> GraphView {
        GraphView { ports: ports_view(self.ports@), links: links_view(self.links@) }
    }
}

/// A link touches a port, executably.
fn is_incident(l: &(String, String), p: &String) -> (r: bool)
    ensures
        r == incident((l.0@, l.1@), p@),
{
    l.0 == *p || l.1 == *p
}

impl Graph {
    /// An empty graph: no ports, no links.
    pub fn new() -> (g: Graph)
        ensures
            g@.ports == Seq::<Seq<char>>::empty(),
            g@.links == Seq::<(Seq<char>, Seq<char>)>::empty(),
    {
        let g = Graph { ports: Vec::new(), links: Vec::new() };
        assert(g@.ports =~= Seq::<Seq<char>>::empty());
        assert(g@.links =~= Seq::<(Seq<char>, Seq<char>)>::empty());
        g
    }

    /// Registers a port under a name.
    pub fn add_port(&mut self, name: String)
        ensures
            final(self)@.ports == old(self)@.ports.push(name@),
            final(self)@.links == old(self)@.links,
    {
        let ghost prev = self.ports@;
        self.ports.push(name);
        assert(ports_view(self.ports@) =~= ports_view(prev).push(self.ports@.last()@)) by {
            assert(forall|k: int|
                0 <= k < prev.len() ==> #[trigger] self.ports@[k] == prev[k]);
        }
    }

    /// Whether a port with this name currently exists.
    #[verifier::loop_isolation(false)]
    pub fn has_port(&self, name: &String) -> (r: bool)
        ensures
            r == port_known(self@, name@),
    {
        let mut i: usize = 0;
        while i < self.ports.len()
            invariant
                i <= self.ports@.len(),
                forall|j: int| 0 <= j < i ==> #[trigger] self.ports@[j]@ != name@,
            decreases self.ports@.len() - i,
        {
            if self.ports[i] == *name {
                assert(self@.ports[i as int] == name@);
                return true;
            }
            i += 1;
        }
        assert forall|j: int| 0 <= j < self@.ports.len() implies #[trigger] self@.ports[j]
            != name@ by {
            assert(self@.ports[j] == self.ports@[j]@);
        }
        false
    }

    /// Whether the output port is connected to the input port.
    #[verifier::loop_isolation(false)]
    pub fn is_connected(&self, out: &String, inp: &String) -> (r: bool)
        ensures
            r == linked(self@, out@, inp@),
    {
        let mut i: usize = 0;
        while i < self.links.len()
            invariant
                i <= self.links@.len(),
                forall|j: int|
                    0 <= j < i ==> #[trigger] links_view(self.links@)[j] != (out@, inp@),
            decreases self.links@.len() - i,
        {
            if self.links[i].0 == *out && self.links[i].1 == *inp {
                assert(links_view(self.links@)[i as int] == (out@, inp@));
                return true;
            }
            i += 1;
        }
        false
    }

    /// How many links touch this port.
    #[verifier::loop_isolation(false)]
    pub fn connection_count(&self, p: &String) -> (r: usize)
        ensures
            r == conn_count(self@, p@),
    {
        let ghost lv = links_view(self.links@);
        let mut r: usize = 0;
        let mut i: usize = 0;
        proof {
            assert(lv.skip(0) =~= lv);
        }
        while i < self.links.len()
            invariant
                i <= self.links@.len(),
                r + count_incident(lv.skip(i as int), p@) == count_incident(lv, p@),
                r <= i,
            decreases self.links@.len() - i,
        {
            proof {
                assert(lv.skip(i as int)[0] == lv[i as int]);
                assert(lv.skip(i as int).skip(1) =~= lv.skip(i + 1));
            }
            if is_incident(&self.links[i], p) {
                r += 1;
            }
            i += 1;
        }
        assert(lv.skip(lv.len() as int) =~= Seq::<(Seq<char>, Seq<char>)>::empty());
        r
    }

    /// Drops every link touching this port; a port with no links is left as
    /// it is.
    #[verifier::loop_isolation(false)]
    pub fn disconnect_all(&mut self, p: &String)
        ensures
            final(self)@.links == without(old(self)@.links, p@),
            final(self)@.ports == old(self)@.ports,
    {
        let ghost lv = links_view(self.links@);
        let mut kept: Vec<(String, String)> = Vec::new();
        let mut i: usize = 0;
        proof {
            assert(lv.skip(0) =~= lv);
            assert(links_view(kept@) + without(lv, p@) =~= without(lv, p@));
        }
        while i < self.links.len()
            invariant
                i <= self.links@.len(),
                lv == links_view(self.links@),
                links_view(kept@) + without(lv.skip(i as int), p@) == without(lv, p@),
            decreases self.links@.len() - i,
        {
            proof {
                assert(lv.skip(i as int)[0] == lv[i as int]);
                assert(lv.skip(i as int).skip(1) =~= lv.skip(i + 1));
            }
            if !is_incident(&self.links[i], p) {
                let ghost prev = kept@;
                let name = (self.links[i].0.clone(), self.links[i].1.clone());
                assert((name.0@, name.1@) == lv[i as int]);
                kept.push(name);
                proof {
                    assert forall|k: int| 0 <= k < kept@.len() implies #[trigger] links_view(
                        kept@,
                    )[k] == (links_view(prev) + seq![lv[i as int]])[k] by {
                        if k < prev.len() {
                            assert(kept@[k] == prev[k]);
                        }
                    }
                    assert(links_view(kept@) =~= links_view(prev) + seq![lv[i as int]]);
                    assert((links_view(prev) + seq![lv[i as int]]) + without(lv.skip(i + 1), p@)
                        =~= links_view(prev) + (seq![lv[i as int]] + without(lv.skip(i + 1), p@)));
                }
            }
            i += 1;
        }
        assert(lv.skip(lv.len() as int) =~= Seq::<(Seq<char>, Seq<char>)>::empty());
        assert(links_view(kept@) + Seq::<(Seq<char>, Seq<char>)>::empty() =~= links_view(kept@));
        self.links = kept;
    }

    /// Connects the output port to the input port.
    pub fn connect(&mut self, out: &String, inp: &String)
        ensures
            final(self)@.links == old(self)@.links.push((out@, inp@)),
            final(self)@.ports == old(self)@.ports,
    {
        let ghost prev = self.links@;
        self.links.push((out.clone(), inp.clone()));
        proof {
            assert forall|k: int| 0 <= k < self.links@.len() implies #[trigger] links_view(
                self.links@,
            )[k] == links_view(prev).push((out@, inp@))[k] by {
                if k < prev.len() {
                    assert(self.links@[k] == prev[k]);
                }
            }
            assert(links_view(self.links@) =~= links_view(prev).push((out@, inp@)));
        }
    }

    /// One reconciliation step for one desired pair: skip it when a port is
    /// missing, leave it when already exclusively wired, and otherwise
    /// disconnect both ports entirely and connect them to each other.
    pub fn reconcile_pair(&mut self, out: &String, inp: &String) -> (o: Outcome)
        ensures
            final(self)@ == rec_pair(old(self)@, out@, inp@),
            o == rec_pair_outcome(old(self)@, out@, inp@),
    {
        if !self.has_port(out) || !self.has_port(inp) {
            return Outcome::Skip;
        }
        let already = self.is_connected(out, inp) && self.connection_count(out) == 1
            && self.connection_count(inp) == 1;
        if already {
            Outcome::Noop
        } else {
            self.disconnect_all(out);
            self.disconnect_all(inp);
            self.connect(out, inp);
            Outcome::Repair
        }
    }

    /// A full reconciliation pass: every desired pair in configuration
    /// order, each step seeing the graph as the earlier steps left it.
    #[verifier::loop_isolation(false)]
    pub fn reconcile_all(&mut self, conns: &Vec<Conn>) -> (os: Vec<Outcome>)
        ensures
            final(self)@ == rec_all(old(self)@, conns_view(conns@)),
            os@ == rec_all_outcomes(old(self)@, conns_view(conns@)),
    {
        let ghost g0 = self@;
        let ghost cv = conns_view(conns@);
        let mut os: Vec<Outcome> = Vec::new();
        let mut i: usize = 0;
        proof {
            assert(cv.skip(0) =~= cv);
            assert(os@ + rec_all_outcomes(self@, cv) =~= rec_all_outcomes(g0, cv));
        }
        while i < conns.len()
            invariant
                i <= conns@.len(),
                cv == conns_view(conns@),
                rec_all(self@, cv.skip(i as int)) == rec_all(g0, cv),
                os@ + rec_all_outcomes(self@, cv.skip(i as int)) == rec_all_outcomes(g0, cv),
            decreases conns@.len() - i,
        {
            proof {
                assert(cv.skip(i as int)[0] == (conns@[i as int].out@, conns@[i as int].inp@));
                assert(cv.skip(i as int).skip(1) =~= cv.skip(i + 1));
            }
            let ghost before = self@;
            let o = self.reconcile_pair(&conns[i].out, &conns[i].inp);
            let ghost pos = os@;
            os.push(o);
            proof {
                assert(os@ =~= pos + seq![o]);
                assert((pos + seq![o]) + rec_all_outcomes(self@, cv.skip(i + 1)) =~= pos + (seq![o]
                    + rec_all_outcomes(self@, cv.skip(i + 1))));
            }
            i += 1;
        }
        proof {
            assert(cv.skip(cv.len() as int) =~= Seq::<(Seq<char>, Seq<char>)>::empty());
            assert(os@ + Seq::<Outcome>::empty() =~= os@);
        }
        os
    }
}

/// The decision of one reconciliation step, from the graph's answers alone:
/// a pair with a missing port is skipped; a pair already connected whose two
/// ports each have exactly one connection needs nothing; every other pair is
/// repaired.
pub fn pair_outcome(
    out_present: bool,
    in_present: bool,
    connected: bool,
    out_count: u64,
    in_count: u64,
) -> (o: Outcome)
    ensures
        (!out_present || !in_present) ==> o == Outcome::Skip,
        (out_present && in_present && connected && out_count == 1 && in_count == 1) ==> o
            == Outcome::Noop,
        (out_present && in_present && !(connected && out_count == 1 && in_count == 1)) ==> o
            == Outcome::Repair,
{
    if !out_present || !in_present {
        Outcome::Skip
    } else if connected && out_count == 1 && in_count == 1 {
        Outcome::Noop
    } else {
        Outcome::Repair
    }
}

/// Appending a link adds one to the count of each port it touches.
proof fn lemma_count_push(ls: Seq<(Seq<char>, Seq<char>)>, x: (Seq<char>, Seq<char>), p: Seq<char>)
    ensures
        count_incident(ls.push(x), p) == count_incident(ls, p) + (if incident(x, p) {
            1 as nat
        } else {
            0 as nat
        }),
    decreases ls.len(),
{
    if ls.len() == 0 {
        assert(ls.push(x)[0] == x);
        assert(ls.push(x).skip(1) =~= Seq::<(Seq<char>, Seq<char>)>::empty());
        assert(count_incident(Seq::<(Seq<char>, Seq<char>)>::empty(), p) == 0);
    } else {
        assert(ls.push(x)[0] == ls[0]);
        assert(ls.push(x).skip(1) =~= ls.skip(1).push(x));
        lemma_count_push(ls.skip(1), x, p);
    }
}

/// After disconnecting a port, no link touches it.
proof fn lemma_without_count_zero(ls: Seq<(Seq<char>, Seq<char>)>, p: Seq<char>)
    ensures
        count_incident(without(ls, p), p) == 0,
    decreases ls.len(),
{
    if ls.len() == 0 {
    } else {
        lemma_without_count_zero(ls.skip(1), p);
        if !incident(ls[0], p) {
            let w = without(ls.skip(1), p);
            assert((seq![ls[0]] + w)[0] == ls[0]);
            assert((seq![ls[0]] + w).skip(1) =~= w);
        }
    }
}

/// Disconnecting one port never raises another port's count.
proof fn lemma_without_count_le(ls: Seq<(Seq<char>, Seq<char>)>, p: Seq<char>, q: Seq<char>)
    ensures
        count_incident(without(ls, p), q) <= count_incident(ls, q),
    decreases ls.len(),
{
    if ls.len() == 0 {
    } else {
        lemma_without_count_le(ls.skip(1), p, q);
        if !incident(ls[0], p) {
            let w = without(ls.skip(1), p);
            assert((seq![ls[0]] + w)[0] == ls[0]);
            assert((seq![ls[0]] + w).skip(1) =~= w);
        }
    }
}

/// A link that does not touch the disconnected port survives.
proof fn lemma_without_contains(
    ls: Seq<(Seq<char>, Seq<char>)>,
    p: Seq<char>,
    x: (Seq<char>, Seq<char>),
)
    requires
        !incident(x, p),
        ls.contains(x),
    ensures
        without(ls, p).contains(x),
    decreases ls.len(),
{
    let j = choose|j: int| 0 <= j < ls.len() && ls[j] == x;
    if incident(ls[0], p) {
        assert(j >= 1);
        assert(ls.skip(1)[j - 1] == x);
        lemma_without_contains(ls.skip(1), p, x);
    } else {
        let w = without(ls.skip(1), p);
        if j == 0 {
            assert((seq![ls[0]] + w)[0] == x);
        } else {
            assert(ls.skip(1)[j - 1] == x);
            lemma_without_contains(ls.skip(1), p, x);
            let k = choose|k: int| 0 <= k < w.len() && w[k] == x;
            assert((seq![ls[0]] + w)[1 + k] == x);
        }
    }
}

/// A present link gives each of its ports a count of at least one.
proof fn lemma_contains_count_pos(
    ls: Seq<(Seq<char>, Seq<char>)>,
    x: (Seq<char>, Seq<char>),
    q: Seq<char>,
)
    requires
        ls.contains(x),
        incident(x, q),
    ensures
        count_incident(ls, q) >= 1,
    decreases ls.len(),
{
    let j = choose|j: int| 0 <= j < ls.len() && ls[j] == x;
    if j == 0 {
    } else {
        assert(ls.skip(1)[j - 1] == x);
        lemma_contains_count_pos(ls.skip(1), x, q);
    }
}

/// A repair step establishes the exclusive-connection invariant for its
/// pair.
proof fn lemma_rec_pair_establishes(g: GraphView, o: Seq<char>, i: Seq<char>)
    requires
        port_known(g, o),
        port_known(g, i),
    ensures
        exclusive(rec_pair(g, o, i), o, i),
{
    if !exclusive(g, o, i) {
        let w1 = without(g.links, o);
        let w2 = without(w1, i);
        let ls2 = w2.push((o, i));
        lemma_without_count_zero(g.links, o);
        lemma_without_count_le(w1, i, o);
        lemma_without_count_zero(w1, i);
        lemma_count_push(w2, (o, i), o);
        lemma_count_push(w2, (o, i), i);
        assert(ls2[ls2.len() - 1] == (o, i));
        assert(ls2.contains((o, i)));
    }
}

/// A reconciliation step for one pair leaves a disjoint pair's exclusive
/// wiring untouched.
proof fn lemma_rec_pair_preserves(
    g: GraphView,
    o: Seq<char>,
    i: Seq<char>,
    o2: Seq<char>,
    i2: Seq<char>,
)
    requires
        exclusive(g, o2, i2),
        o2 != o && o2 != i && i2 != o && i2 != i,
    ensures
        exclusive(rec_pair(g, o, i), o2, i2),
{
    if rec_pair_outcome(g, o, i) == Outcome::Repair {
        let w1 = without(g.links, o);
        let w2 = without(w1, i);
        let ls2 = w2.push((o, i));
        lemma_without_contains(g.links, o, (o2, i2));
        lemma_without_contains(w1, i, (o2, i2));
        let k = choose|k: int| 0 <= k < w2.len() && w2[k] == (o2, i2);
        assert(ls2[k] == (o2, i2));
        assert(ls2.contains((o2, i2)));
        lemma_without_count_le(g.links, o, o2);
        lemma_without_count_le(w1, i, o2);
        lemma_contains_count_pos(w2, (o2, i2), o2);
        lemma_count_push(w2, (o, i), o2);
        lemma_without_count_le(g.links, o, i2);
        lemma_without_count_le(w1, i, i2);
        lemma_contains_count_pos(w2, (o2, i2), i2);
        lemma_count_push(w2, (o, i), i2);
    }
}

/// Two desired pairs share no port.
pub open spec fn pair_disjoint(a: (Seq<char>, Seq<char>), b: (Seq<char>, Seq<char>)) -> bool {
    a.0 != b.0 && a.0 != b.1 && a.1 != b.0 && a.1 != b.1
}

/// No port occurs in two different desired pairs.
pub open spec fn pairwise_disjoint(pairs: Seq<(Seq<char>, Seq<char>)>) -> bool {
    forall|i: int, j: int|
        0 <= i < j < pairs.len() ==> pair_disjoint(#[trigger] pairs[i], #[trigger] pairs[j])
}

/// Reconciliation never creates or destroys ports.
proof fn lemma_rec_all_ports(g: GraphView, pairs: Seq<(Seq<char>, Seq<char>)>)
    ensures
        rec_all(g, pairs).ports == g.ports,
    decreases pairs.len(),
{
    if pairs.len() > 0 {
        lemma_rec_all_ports(rec_pair(g, pairs[0].0, pairs[0].1), pairs.skip(1));
    }
}

/// A whole pass leaves the exclusive wiring of a pair disjoint from every
/// reconciled pair untouched.
proof fn lemma_rec_all_preserves(
    g: GraphView,
    pairs: Seq<(Seq<char>, Seq<char>)>,
    o2: Seq<char>,
    i2: Seq<char>,
)
    requires
        exclusive(g, o2, i2),
        forall|k: int| 0 <= k < pairs.len() ==> pair_disjoint(#[trigger] pairs[k], (o2, i2)),
    ensures
        exclusive(rec_all(g, pairs), o2, i2),
    decreases pairs.len(),
{
    if pairs.len() > 0 {
        assert(pair_disjoint(pairs[0], (o2, i2)));
        lemma_rec_pair_preserves(g, pairs[0].0, pairs[0].1, o2, i2);
        let g1 = rec_pair(g, pairs[0].0, pairs[0].1);
        assert(forall|k: int|
            0 <= k < pairs.skip(1).len() ==> pair_disjoint(#[trigger] pairs.skip(1)[k], (o2, i2)));
        lemma_rec_all_preserves(g1, pairs.skip(1), o2, i2);
    }
}

/// Law: after a full reconciliation pass over pairwise port-disjoint desired
/// pairs, every pair whose two ports exist is exclusively wired: the two are
/// connected and each has exactly one connection. Ports themselves are
/// untouched.
pub proof fn lemma_reconcile_exclusive_law(g: GraphView, pairs: Seq<(Seq<char>, Seq<char>)>)
    requires
        pairwise_disjoint(pairs),
    ensures
        rec_all(g, pairs).ports == g.ports,
        forall|k: int|
            0 <= k < pairs.len() && port_known(g, (#[trigger] pairs[k]).0) && port_known(
                g,
                pairs[k].1,
            ) ==> exclusive(rec_all(g, pairs), pairs[k].0, pairs[k].1),
    decreases pairs.len(),
{
    lemma_rec_all_ports(g, pairs);
    if pairs.len() > 0 {
        let p0 = pairs[0];
        let g1 = rec_pair(g, p0.0, p0.1);
        assert(pairwise_disjoint(pairs.skip(1))) by {
            assert(forall|i: int, j: int|
                0 <= i < j < pairs.skip(1).len() ==> pair_disjoint(
                    #[trigger] pairs.skip(1)[i],
                    #[trigger] pairs.skip(1)[j],
                ));
        }
        lemma_reconcile_exclusive_law(g1, pairs.skip(1));
        assert forall|k: int|
            0 <= k < pairs.len() && port_known(g, (#[trigger] pairs[k]).0) && port_known(
                g,
                pairs[k].1,
            ) implies exclusive(rec_all(g, pairs), pairs[k].0, pairs[k].1) by {
            if k == 0 {
                lemma_rec_pair_establishes(g, p0.0, p0.1);
                assert(forall|j: int|
                    0 <= j < pairs.skip(1).len() ==> pair_disjoint(
                        #[trigger] pairs.skip(1)[j],
                        (p0.0, p0.1),
                    ));
                lemma_rec_all_preserves(g1, pairs.skip(1), p0.0, p0.1);
            } else {
                assert(pairs.skip(1)[k - 1] == pairs[k]);
            }
        }
    }
}

/// A pass decides exactly once per pair.
proof fn lemma_rec_all_outcomes_len(g: GraphView, pairs: Seq<(Seq<char>, Seq<char>)>)
    ensures
        rec_all_outcomes(g, pairs).len() == pairs.len(),
    decreases pairs.len(),
{
    if pairs.len() > 0 {
        lemma_rec_all_outcomes_len(rec_pair(g, pairs[0].0, pairs[0].1), pairs.skip(1));
    }
}

/// A pass over pairs that are each already satisfied, or missing a port,
/// changes nothing and repairs nothing.
proof fn lemma_rec_all_stable(g: GraphView, pairs: Seq<(Seq<char>, Seq<char>)>)
    requires
        forall|k: int|
            0 <= k < pairs.len() && port_known(g, (#[trigger] pairs[k]).0) && port_known(
                g,
                pairs[k].1,
            ) ==> exclusive(g, pairs[k].0, pairs[k].1),
    ensures
        rec_all(g, pairs) == g,
        forall|k: int|
            0 <= k < pairs.len() ==> #[trigger] rec_all_outcomes(g, pairs)[k] != Outcome::Repair,
    decreases pairs.len(),
{
    if pairs.len() > 0 {
        assert(rec_pair(g, pairs[0].0, pairs[0].1) == g);
        assert(forall|k: int|
            0 <= k < pairs.skip(1).len() ==> #[trigger] pairs.skip(1)[k] == pairs[k + 1]);
        lemma_rec_all_stable(g, pairs.skip(1));
        lemma_rec_all_outcomes_len(g, pairs.skip(1));
        assert(rec_all_outcomes(g, pairs) == seq![rec_pair_outcome(g, pairs[0].0, pairs[0].1)]
            + rec_all_outcomes(g, pairs.skip(1)));
        assert forall|k: int| 0 <= k < pairs.len() implies #[trigger] rec_all_outcomes(g, pairs)[k]
            != Outcome::Repair by {
            if k > 0 {
                assert(rec_all_outcomes(g, pairs)[k] == rec_all_outcomes(g, pairs.skip(1))[k - 1]);
            }
        }
    }
}

/// Law: reconciling twice in a row with no graph change in between does
/// nothing the second time — no step of the second pass repairs, and the
/// graph is left exactly as the first pass left it. Holds for pairwise
/// port-disjoint desired pairs.
pub proof fn lemma_reconcile_idempotent_law(g: GraphView, pairs: Seq<(Seq<char>, Seq<char>)>)
    requires
        pairwise_disjoint(pairs),
    ensures
        rec_all(rec_all(g, pairs), pairs) == rec_all(g, pairs),
        forall|k: int|
            0 <= k < pairs.len() ==> #[trigger] rec_all_outcomes(rec_all(g, pairs), pairs)[k]
                != Outcome::Repair,
{
    let g1 = rec_all(g, pairs);
    lemma_reconcile_exclusive_law(g, pairs);
    lemma_rec_all_stable(g1, pairs);
}

/// Law: a pair whose output or input port does not exist yet is skipped and
/// causes no change at all; once both ports exist, a later pass wires it, as
/// the exclusivity law states.
pub proof fn lemma_missing_port_law(g: GraphView, o: Seq<char>, i: Seq<char>)
    requires
        !port_known(g, o) || !port_known(g, i),
    ensures
        rec_pair(g, o, i) == g,
        rec_pair_outcome(g, o, i) == Outcome::Skip,
{
}

} // verus!
