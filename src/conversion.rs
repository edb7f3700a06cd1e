use crate::graph::{fold_outcome, Connection, Folded, Graph};
use crate::search::Edge;
use crate::ratio::Ratio;
use vstd::prelude::*;

verus! {

/// A unit of the closed vocabulary `m`, `in`, `ft`, `hr`, `min`, `sec`.
#[derive(Clone, Copy, Debug, PartialEq, Eq, Hash, Structural)]
pub enum Unit {
    M,
    In,
    Ft,
    Hr,
    Min,
    Sec,
}

/// The unit that a token names, if the vocabulary holds it.
pub open spec fn unit_of(s: Seq<char>) -> Option<Unit> {
    if s == seq!['m'] {
        Some(Unit::M)
    } else if s == seq!['i', 'n'] {
        Some(Unit::In)
    } else if s == seq!['f', 't'] {
        Some(Unit::Ft)
    } else if s == seq!['h', 'r'] {
        Some(Unit::Hr)
    } else if s == seq!['m', 'i', 'n'] {
        Some(Unit::Min)
    } else if s == seq!['s', 'e', 'c'] {
        Some(Unit::Sec)
    } else {
        None
    }
}

/// The key of a unit's vertex in the conversion graph.
pub open spec fn key_of(u: Unit) -> u64 {
    match u {
        Unit::M => 0,
        Unit::In => 1,
        Unit::Ft => 2,
        Unit::Hr => 3,
        Unit::Min => 4,
        Unit::Sec => 5,
    }
}

/// Whether the string `a` holds exactly the characters of `b`.
fn same_token(a: &str, b: &str) -> (r: bool)
    ensures
        r == (a@ == b@),
{
    a.to_owned() == b.to_owned()
}

impl Unit {
    /// The unit named by `token`, or `None` for a token outside the vocabulary.
    pub fn from_token(token: &str) -> (r: Option<Unit>)
        ensures
            r == unit_of(token@),
    {
        proof {
            reveal_strlit("m");
            reveal_strlit("in");
            reveal_strlit("ft");
            reveal_strlit("hr");
            reveal_strlit("min");
            reveal_strlit("sec");
            assert("m"@ =~= seq!['m']);
            assert("in"@ =~= seq!['i', 'n']);
            assert("ft"@ =~= seq!['f', 't']);
            assert("hr"@ =~= seq!['h', 'r']);
            assert("min"@ =~= seq!['m', 'i', 'n']);
            assert("sec"@ =~= seq!['s', 'e', 'c']);
        }
        if same_token(token, "m") {
            Some(Unit::M)
        } else if same_token(token, "in") {
            Some(Unit::In)
        } else if same_token(token, "ft") {
            Some(Unit::Ft)
        } else if same_token(token, "hr") {
            Some(Unit::Hr)
        } else if same_token(token, "min") {
            Some(Unit::Min)
        } else if same_token(token, "sec") {
            Some(Unit::Sec)
        } else {
            None
        }
    }

    /// The unit's key in the conversion graph.
    pub fn key(&self) -> (r: u64)
        ensures
            r == key_of(*self),
    {
        match self {
            Unit::M => 0,
            Unit::In => 1,
            Unit::Ft => 2,
            Unit::Hr => 3,
            Unit::Min => 4,
            Unit::Sec => 5,
        }
    }
}

/// A token that the unit vocabulary does not hold.
#[derive(Clone, Debug, PartialEq, Eq)]
pub struct InvalidUnit {
    pub token: String,
}

/// A conversion between units: as a fact, one `from` is `value` of `to`; as
/// a query, `value` of `from` to be expressed in `to`.
#[derive(Clone, Copy, Debug, PartialEq, Eq, Structural)]
pub struct UnitConversion {
    pub from: Unit,
    pub to: Unit,
    pub value: Ratio,
}

impl UnitConversion {
    /// The conversion between the units named `from` and `to`; the first of
    /// the two tokens that the vocabulary lacks is rejected.
    pub fn new(from: &str, to: &str, value: Ratio) -> (r: Result<UnitConversion, InvalidUnit>)
        ensures
            match (unit_of(from@), unit_of(to@)) {
                (Some(f), Some(t)) => r == Ok::<UnitConversion, InvalidUnit>(
                    UnitConversion { from: f, to: t, value },
                ),
                (None, _) => r matches Err(e) && e.token@ == from@,
                (Some(_), None) => r matches Err(e) && e.token@ == to@,
            },
    {
        let f = match Unit::from_token(from) {
            Some(f) => f,
            None => return Err(InvalidUnit { token: from.to_owned() }),
        };
        let t = match Unit::from_token(to) {
            Some(t) => t,
            None => return Err(InvalidUnit { token: to.to_owned() }),
        };
        Ok(UnitConversion { from: f, to: t, value })
    }
}

/// The connection that a fact gives the graph.
pub open spec fn connection_of(f: UnitConversion) -> Connection {
    Connection { from: key_of(f.from), to: key_of(f.to), value: f.value }
}

/// The connections of a list of facts, in order.
pub open spec fn connections_of(facts: Seq<UnitConversion>) -> Seq<Connection> {
    facts.map_values(|f: UnitConversion| connection_of(f))
}

/// The answer to a conversion query.
#[derive(Clone, Copy, Debug, PartialEq, Eq, Structural)]
pub struct ConversionResult(pub Folded);

/// Conversion facts over the unit vocabulary, ready for queries.
pub struct ConversionGraph {
    graph: Graph,
}

impl ConversionGraph {
    #[verifier::type_invariant]
    spec fn inv(&self) -> bool {
        self.graph.wf()
    }

    /// The graph of facts that queries search.
    pub closed spec fn graph_spec(&self) -> Graph {
        self.graph
    }

    /// The graph of `facts`: each fact links the keys of its two units.
    pub fn new(facts: Vec<UnitConversion>) -> (r: ConversionGraph)
        ensures
            r.graph_spec().built_from(connections_of(facts@)),
    {
        let mut conns: Vec<Connection> = Vec::new();
        let mut i: usize = 0;
        while i < facts.len()
            invariant
                i <= facts@.len(),
                conns@ == connections_of(facts@.subrange(0, i as int)),
            decreases facts@.len() - i,
        {
            let f = facts[i];
            conns.push(Connection::new(f.from.key(), f.to.key(), f.value));
            assert(connections_of(facts@.subrange(0, i as int + 1)) =~= connections_of(
                facts@.subrange(0, i as int),
            ).push(connection_of(f)));
            i += 1;
        }
        assert(facts@.subrange(0, facts@.len() as int) =~= facts@);
        ConversionGraph { graph: Graph::new(conns) }
    }

    /// Converts `query.value` of `query.from` into `query.to`, by the path
    /// that the search of the fact graph finds between the two units.
    pub fn convert(&self, query: UnitConversion) -> (r: ConversionResult)
        ensures
            r.0 == fold_outcome(
                self.graph_spec().path_spec(key_of(query.from), key_of(query.to)),
                query.value,
            ),
            r.0 == Folded::NoPath <==> !self.graph_spec().connected(
                key_of(query.from),
                key_of(query.to),
            ),
            r.0 matches Folded::Value(x) ==> exists|p: Seq<Edge>|
                self.graph_spec().joins(key_of(query.from), key_of(query.to), p) && x.pair()
                    == crate::graph::fold_all(query.value.pair(), p),
            query.from == query.to && self.graph_spec().key_seq().contains(key_of(query.from))
                ==> r.0 == Folded::Value(query.value),
    {
        proof {
            use_type_invariant(self);
        }
        ConversionResult(self.graph.fold_path(query.from.key(), query.to.key(), query.value))
    }
}

/// A fact's own rate through `convert`: when the graph was built from `facts`
/// and the fact at `i` is the only one between its two distinct units, a
/// query from its `from` to its `to` multiplies the value by its rate, and the
/// query back divides by it, wherever the products fit in `i128`.
pub proof fn lemma_convert_fact_rate(cg: ConversionGraph, facts: Seq<UnitConversion>, i: int, v: Ratio)
    requires
        cg.graph_spec().built_from(connections_of(facts)),
        0 <= i < facts.len(),
        facts[i].from != facts[i].to,
        forall|j: int|
            0 <= j < facts.len() && j != i ==> !((#[trigger] facts[j]).from == facts[i].from
                && facts[j].to == facts[i].to || facts[j].from == facts[i].to && facts[j].to
                == facts[i].from),
    ensures
        ({
            let (a, b, r) = (key_of(facts[i].from), key_of(facts[i].to), facts[i].value);
            &&& crate::graph::in_i128(v.num * r.num) && crate::graph::in_i128(v.den * r.den)
                ==> fold_outcome(cg.graph_spec().path_spec(a, b), v) == Folded::Value(
                Ratio { num: (v.num * r.num) as i128, den: (v.den * r.den) as i128 },
            )
            &&& crate::graph::in_i128(v.num * r.den) && crate::graph::in_i128(v.den * r.num)
                ==> fold_outcome(cg.graph_spec().path_spec(b, a), v) == Folded::Value(
                Ratio { num: (v.num * r.den) as i128, den: (v.den * r.num) as i128 },
            )
        }),
{
    let conns = connections_of(facts);
    let g = cg.graph_spec();
    assert(conns[i] == connection_of(facts[i]));
    assert forall|j: int|
        0 <= j < conns.len() && j != i implies !crate::graph::links(
            #[trigger] conns[j],
            conns[i].from,
            conns[i].to,
        ) by {
        assert(conns[j] == connection_of(facts[j]));
        assert(!(facts[j].from == facts[i].from && facts[j].to == facts[i].to || facts[j].from
            == facts[i].to && facts[j].to == facts[i].from));
    }
    crate::graph::lemma_fact_rate(g, conns, i, v);
    let a = key_of(facts[i].from);
    let b = key_of(facts[i].to);
    let p = g.path_spec(a, b).unwrap();
    let p2 = g.path_spec(b, a).unwrap();
    assert(crate::graph::fold_upto(v.pair(), p, 0) == v.pair());
    assert(crate::graph::fold_upto(v.pair(), p2, 0) == v.pair());
    assert(crate::graph::fold_all(v.pair(), p) == crate::graph::fold_upto(v.pair(), p, 1));
    assert(crate::graph::fold_all(v.pair(), p2) == crate::graph::fold_upto(v.pair(), p2, 1));
}

} // verus!
