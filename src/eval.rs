use vstd::prelude::*;
use crate::num::{Kind, NumError};

verus! {

/// Failure of an evaluation.
#[derive(Debug)]
pub enum EvalError {
    /// The named variable was never assigned.
    UnknownVar(String),
    /// An operation of the numeric tower refused its operands.
    Num(NumError),
}

/// The variables of an evaluation session, each with the representation of
/// the value last assigned to it. Later entries shadow earlier ones.
pub struct Env {
    entries: Vec<(String, Kind)>,
}

/// The mapping that a list of assignments leaves, the last one winning.
pub open spec fn entries_map(es: Seq<(String, Kind)>) -> Map<Seq<char>, Kind>
    decreases es.len(),
{
    if es.len() == 0 {
        Map::empty()
    } else {
        entries_map(es.drop_last()).insert(es.last().0@, es.last().1)
    }
}

impl View for Env {
    type V = Map<Seq<char>, Kind>;

    closed spec fn view(&self) -> Map<Seq<char>, Kind> {
        entries_map(self.entries@)
    }
}

proof fn lemma_lookup_prefix(es: Seq<(String, Kind)>, i: int, name: Seq<char>)
    requires
        0 <= i <= es.len(),
        forall|j: int| i <= j < es.len() ==> (#[trigger] es[j]).0@ != name,
    ensures
        entries_map(es).contains_key(name) == entries_map(es.subrange(0, i)).contains_key(name),
        entries_map(es).contains_key(name) ==> entries_map(es)[name] == entries_map(
            es.subrange(0, i),
        )[name],
    decreases es.len() - i,
{
    if i < es.len() {
        assert(es.drop_last() =~= es.subrange(0, es.len() - 1));
        lemma_lookup_prefix(es.drop_last(), i, name);
        assert(es.drop_last().subrange(0, i) =~= es.subrange(0, i));
    } else {
        assert(es.subrange(0, i) =~= es);
    }
}

proof fn lemma_update_last_occurrence(es: Seq<(String, Kind)>, i: int, e: (String, Kind))
    requires
        0 <= i < es.len(),
        es[i].0@ == e.0@,
        forall|j: int| i < j < es.len() ==> (#[trigger] es[j]).0@ != e.0@,
    ensures
        entries_map(es.update(i, e)) == entries_map(es).insert(e.0@, e.1),
    decreases es.len(),
{
    let u = es.update(i, e);
    if i == es.len() - 1 {
        assert(u.drop_last() =~= es.drop_last());
        assert(entries_map(u) =~= entries_map(es).insert(e.0@, e.1));
    } else {
        lemma_update_last_occurrence(es.drop_last(), i, e);
        assert(u.drop_last() =~= es.drop_last().update(i, e));
        assert(u.last() == es.last());
        assert(entries_map(u) =~= entries_map(es).insert(e.0@, e.1));
    }
}

impl Env {
    /// An environment with no variables.
    pub fn new() -> (r: Env)
        ensures
            r@ == Map::<Seq<char>, Kind>::empty(),
    {
        Env { entries: Vec::new() }
    }

    /// The representation held by a variable, if it was assigned.
    pub fn get(&self, name: &String) -> (r: Option<Kind>)
        ensures
            r is Some <==> self@.contains_key(name@),
            r is Some ==> r->Some_0 == self@[name@],
    {
        let mut i: usize = self.entries.len();
        while i > 0
            invariant
                i <= self.entries@.len(),
                forall|j: int|
                    i <= j < self.entries@.len() ==> (#[trigger] self.entries@[j]).0@ != name@,
            decreases i,
        {
            if self.entries[i - 1].0 == *name {
                proof {
                    let es = self.entries@;
                    lemma_lookup_prefix(es, i as int, name@);
                    assert(es.subrange(0, i as int).drop_last() =~= es.subrange(0, i - 1));
                }
                return Some(self.entries[i - 1].1);
            }
            i = i - 1;
        }
        proof {
            lemma_lookup_prefix(self.entries@, 0, name@);
        }
        None
    }

    /// Records an assignment, replacing any earlier value of the variable.
    pub fn set(&mut self, name: String, kind: Kind)
        ensures
            final(self)@ == old(self)@.insert(name@, kind),
    {
        let mut i: usize = self.entries.len();
        while i > 0
            invariant
                i <= self.entries@.len(),
                self.entries@ == old(self).entries@,
                forall|j: int|
                    i <= j < self.entries@.len() ==> (#[trigger] self.entries@[j]).0@ != name@,
            decreases i,
        {
            if self.entries[i - 1].0 == name {
                proof {
                    lemma_update_last_occurrence(self.entries@, i - 1, (name, kind));
                }
                self.entries.set(i - 1, (name, kind));
                return;
            }
            i = i - 1;
        }
        self.entries.push((name, kind));
        proof {
            assert(self.entries@.drop_last() =~= old(self).entries@);
        }
    }
}

} // verus!
