//! Scopes as groups of atoms: all groups must be written to, each through any of its atoms.
use crate::entity::EntityTypeId;
use crate::entity::FieldId;
use crate::predicate::Scope;
use vstd::prelude::*;

verus! {

/// One thing that is watched.
#[derive(Clone, Copy, Debug, PartialEq, Eq, Structural)]
pub enum Atom {
    Own(FieldId),
    Inst { ref_field: FieldId, field: FieldId },
    Type(EntityTypeId, FieldId),
}

/// The views of groups.
pub open spec fn groups_of(gs: Seq<Vec<Atom>>) -> Seq<Seq<Atom>> {
    Seq::new(gs.len(), |i: int| gs[i]@)
}

/// The groups of a scope. A disjunction of conjunctions has none.
pub open spec fn flattened(s: Scope) -> Option<Seq<Seq<Atom>>>
    decreases s,
{
    match s {
        Scope::Own(f) => Some(seq![seq![Atom::Own(f)]]),
        Scope::Inst { ref_field, field } => Some(seq![seq![Atom::Inst { ref_field, field }]]),
        Scope::Type(ty, f) => Some(seq![seq![Atom::Type(ty, f)]]),
        Scope::Or(a, b) => match (flattened(*a), flattened(*b)) {
            (Some(ga), Some(gb)) => if ga.len() == 1 && gb.len() == 1 {
                Some(seq![ga[0] + gb[0]])
            } else {
                None
            },
            _ => None,
        },
        Scope::And(a, b) => match (flattened(*a), flattened(*b)) {
            (Some(ga), Some(gb)) => Some(ga + gb),
            _ => None,
        },
    }
}

fn one_atom(a: Atom) -> (r: Vec<Vec<Atom>>)
    ensures
        groups_of(r@) == seq![seq![a]],
{
    let mut g: Vec<Atom> = Vec::new();
    g.push(a);
    assert(g@ =~= seq![a]);
    let mut r: Vec<Vec<Atom>> = Vec::new();
    r.push(g);
    assert(groups_of(r@) =~= seq![seq![a]]);
    r
}

/// The groups of a scope.
pub fn flatten_scope(s: &Scope) -> (r: Option<Vec<Vec<Atom>>>)
    ensures
        r is Some <==> flattened(*s) is Some,
        r is Some ==> groups_of(r->0@) == flattened(*s)->0,
    decreases s,
{
    match s {
        Scope::Own(f) => Some(one_atom(Atom::Own(*f))),
        Scope::Inst { ref_field, field } => Some(
            one_atom(Atom::Inst { ref_field: *ref_field, field: *field }),
        ),
        Scope::Type(ty, f) => Some(one_atom(Atom::Type(*ty, *f))),
        Scope::Or(a, b) => {
            let ga = match flatten_scope(a) {
                Some(g) => g,
                None => {
                    return None;
                },
            };
            let gb = match flatten_scope(b) {
                Some(g) => g,
                None => {
                    return None;
                },
            };
            if ga.len() != 1 || gb.len() != 1 {
                return None;
            }
            let mut g: Vec<Atom> = Vec::new();
            push_atoms(&ga[0], &mut g);
            push_atoms(&gb[0], &mut g);
            let mut r: Vec<Vec<Atom>> = Vec::new();
            proof {
                assert(groups_of(ga@)[0] == ga@[0]@);
                assert(groups_of(gb@)[0] == gb@[0]@);
                assert(g@ =~= flattened(**a)->0[0] + flattened(**b)->0[0]);
            }
            r.push(g);
            assert(groups_of(r@) =~= seq![g@]);
            Some(r)
        },
        Scope::And(a, b) => {
            let mut ga = match flatten_scope(a) {
                Some(g) => g,
                None => {
                    return None;
                },
            };
            let mut gb = match flatten_scope(b) {
                Some(g) => g,
                None => {
                    return None;
                },
            };
            let ghost ga0 = groups_of(ga@);
            let ghost gb0 = groups_of(gb@);
            ga.append(&mut gb);
            assert(groups_of(ga@) =~= ga0 + gb0);
            Some(ga)
        },
    }
}

fn push_atoms(from: &Vec<Atom>, to: &mut Vec<Atom>)
    ensures
        final(to)@ == old(to)@ + from@,
{
    let ghost before = to@;
    let mut i: usize = 0;
    while i < from.len()
        invariant
            i <= from@.len(),
            to@ =~= before + from@.take(i as int),
        decreases from@.len() - i,
    {
        to.push(from[i]);
        i = i + 1;
    }
    assert(from@.take(i as int) =~= from@);
}

/// The first occurrences of the items of a group.
pub open spec fn distinct(g: Seq<Atom>) -> Seq<Atom>
    decreases g.len(),
{
    if g.len() == 0 {
        g
    } else {
        let r = distinct(g.drop_last());
        if r.contains(g.last()) {
            r
        } else {
            r.push(g.last())
        }
    }
}

/// Drops repeated atoms, so that one write is not delivered twice through one group.
pub fn distinct_atoms(g: &Vec<Atom>) -> (r: Vec<Atom>)
    ensures
        r@ == distinct(g@),
{
    let mut out: Vec<Atom> = Vec::new();
    let mut i: usize = 0;
    assert(g@.take(0) =~= Seq::empty());
    while i < g.len()
        invariant
            i <= g@.len(),
            out@ == distinct(g@.take(i as int)),
        decreases g@.len() - i,
    {
        proof {
            assert(g@.take(i + 1).drop_last() =~= g@.take(i as int));
        }
        let mut seen = false;
        let mut k: usize = 0;
        while k < out.len()
            invariant
                i < g@.len(),
                k <= out@.len(),
                seen == exists|j: int| 0 <= j < k && out@[j] == g@[i as int],
            decreases out@.len() - k,
        {
            if out[k] == g[i] {
                seen = true;
            }
            k = k + 1;
        }
        if !seen {
            out.push(g[i]);
        }
        i = i + 1;
    }
    assert(g@.take(i as int) =~= g@);
    out
}

/// Dropping repeated atoms keeps every atom once.
pub proof fn law_distinct(g: Seq<Atom>)
    ensures
        distinct(g).no_duplicates(),
        forall|a: Atom| #[trigger] distinct(g).contains(a) <==> g.contains(a),
    decreases g.len(),
{
    if g.len() > 0 {
        let t = g.drop_last();
        law_distinct(t);
        let r = distinct(t);
        let full = distinct(g);
        assert forall|a: Atom| #[trigger] full.contains(a) <==> g.contains(a) by {
            if g.contains(a) {
                let k = choose|k: int| 0 <= k < g.len() && g[k] == a;
                if k < t.len() {
                    assert(t[k] == a);
                    assert(r.contains(a));
                    let j = choose|j: int| 0 <= j < r.len() && r[j] == a;
                    assert(full[j] == a);
                } else if !r.contains(a) {
                    assert(full[full.len() - 1] == a);
                }
            }
            if full.contains(a) {
                let j = choose|j: int| 0 <= j < full.len() && full[j] == a;
                if j < r.len() {
                    assert(r[j] == a);
                    assert(r.contains(a));
                    assert(t.contains(a));
                    let k = choose|k: int| 0 <= k < t.len() && t[k] == a;
                    assert(g[k] == a);
                } else {
                    assert(g[g.len() - 1] == a);
                }
            }
        }
    }
}

/// A scope has a group.
pub proof fn lemma_some_group(s: Scope)
    requires
        flattened(s) is Some,
    ensures
        flattened(s)->0.len() >= 1,
    decreases s,
{
    match s {
        Scope::And(a, b) => {
            lemma_some_group(*a);
        },
        _ => {},
    }
}

}
