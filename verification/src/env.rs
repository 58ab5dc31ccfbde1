use std::rc::Rc;

use vstd::prelude::*;

use crate::error::RuntimeError;
use crate::token::{Token, share};

verus! {

// ---------------------------------------------------------------------------
// The model: a chain of scopes, innermost first, each a map from names to
// values. A name is read from, and assigned in, the innermost scope that
// defines it; definitions go to the innermost scope.
// ---------------------------------------------------------------------------

/// The innermost scope of `scopes` that defines `name`, if any.
pub open spec fn scope_of<V>(scopes: Seq<Map<Seq<char>, V>>, name: Seq<char>) -> Option<int>
    decreases scopes.len(),
{
    if scopes.len() == 0 {
        None
    } else if scopes[0].contains_key(name) {
        Some(0)
    } else {
        match scope_of(scopes.drop_first(), name) {
            Some(i) => Some(i + 1),
            None => None,
        }
    }
}

/// The value `name` has in `scopes`, if it is defined.
pub open spec fn lookup<V>(scopes: Seq<Map<Seq<char>, V>>, name: Seq<char>) -> Option<V> {
    match scope_of(scopes, name) {
        Some(i) => Some(scopes[i][name]),
        None => None,
    }
}

/// `scopes` after defining `name` as `value` in the innermost scope.
pub open spec fn define_in<V>(scopes: Seq<Map<Seq<char>, V>>, name: Seq<char>, value: V) -> Seq<
    Map<Seq<char>, V>,
> {
    scopes.update(0, scopes[0].insert(name, value))
}

/// `scopes` after assigning `value` to `name` where it is defined (unchanged
/// if it is not).
pub open spec fn assign_in<V>(scopes: Seq<Map<Seq<char>, V>>, name: Seq<char>, value: V) -> Seq<
    Map<Seq<char>, V>,
> {
    match scope_of(scopes, name) {
        Some(i) => scopes.update(i, scopes[i].insert(name, value)),
        None => scopes,
    }
}

/// The map of one scope's entries; a later entry for a name overrides an
/// earlier one.
pub open spec fn entries_map<V>(entries: Seq<(String, V)>) -> Map<Seq<char>, V>
    decreases entries.len(),
{
    if entries.len() == 0 {
        Map::empty()
    } else {
        entries_map(entries.drop_last()).insert(entries.last().0@, entries.last().1)
    }
}

/// No name occurs twice among a scope's entries.
pub open spec fn distinct_names<V>(entries: Seq<(String, V)>) -> bool {
    forall|i: int, j: int| 0 <= i < j < entries.len() ==> entries[i].0@ != entries[j].0@
}

/// Past an innermost scope that does not define `name`, reading and
/// assigning act on the enclosing scopes.
pub proof fn lemma_outer_scopes<V>(scopes: Seq<Map<Seq<char>, V>>, name: Seq<char>, value: V)
    requires
        scopes.len() > 0,
        !scopes[0].contains_key(name),
    ensures
        scope_of(scopes, name) == match scope_of(scopes.drop_first(), name) {
            Some(i) => Some(i + 1),
            None => None::<int>,
        },
        lookup(scopes, name) == lookup(scopes.drop_first(), name),
        assign_in(scopes, name, value) == seq![scopes[0]] + assign_in(scopes.drop_first(), name, value),
{
    let rest = scopes.drop_first();
    match scope_of(rest, name) {
        Some(i) => {
            lemma_scope_of_range(rest, name);
            assert(scopes[i + 1] == rest[i]);
            assert(assign_in(scopes, name, value) =~= seq![scopes[0]] + assign_in(rest, name, value));
        },
        None => {
            assert(assign_in(scopes, name, value) =~= seq![scopes[0]] + assign_in(rest, name, value));
        },
    }
}

/// The scope found for a name is one of the scopes, and defines the name.
pub proof fn lemma_scope_of_range<V>(scopes: Seq<Map<Seq<char>, V>>, name: Seq<char>)
    ensures
        scope_of(scopes, name) matches Some(i) ==> 0 <= i < scopes.len() && scopes[i].contains_key(name),
        scope_of(scopes, name) is None ==> forall|i: int| 0 <= i < scopes.len() ==> !(#[trigger] scopes[i]).contains_key(name),
    decreases scopes.len(),
{
    if scopes.len() > 0 {
        lemma_scope_of_range(scopes.drop_first(), name);
        if !scopes[0].contains_key(name) {
            assert forall|i: int| 0 < i < scopes.len() implies scopes[i] == scopes.drop_first()[i - 1] by {}
        }
    }
}

/// A chain of variable scopes: the values defined in this scope and the
/// enclosing environment, if any.
///
/// A scope keeps its entries in a vector in which no name occurs twice: the
/// specification of a hash map keyed by strings does not let lookups be
/// proved. Each environment owns its enclosing one, so a block's scope is
/// entered by wrapping the current environment and left by unwrapping it
/// (`new_from`, `into_enclosing`), with no shared cells.
#[derive(Debug)]
pub struct Environment<V> {
    enclosing: Option<Box<Environment<V>>>,
    values: Vec<(String, V)>,
}

impl<V> Environment<V> {
    /// The scopes of the environment, innermost first.
    pub closed spec fn scopes(self) -> Seq<Map<Seq<char>, V>>
        decreases self,
    {
        seq![entries_map(self.values@)] + match self.enclosing {
            Some(e) => e.scopes(),
            None => Seq::empty(),
        }
    }

    /// Every scope's names are distinct.
    pub closed spec fn wf(self) -> bool
        decreases self,
    {
        &&& distinct_names(self.values@)
        &&& match self.enclosing {
            Some(e) => e.wf(),
            None => true,
        }
    }

    /// An environment has at least one scope.
    pub proof fn lemma_has_scope(self)
        ensures
            self.scopes().len() >= 1,
    {
        self.lemma_scopes_len();
    }

    proof fn lemma_scopes_len(self)
        ensures
            self.scopes().len() >= 1,
            self.scopes()[0] == entries_map(self.values@),
            self.enclosing matches Some(e) ==> self.scopes().drop_first() == e.scopes(),
            self.enclosing is None ==> self.scopes().len() == 1,
    {
        match self.enclosing {
            Some(e) => {
                assert(self.scopes().drop_first() =~= e.scopes());
            },
            None => {},
        }
    }
}

} // verus!

verus! {

proof fn lemma_entries_map_at<V>(entries: Seq<(String, V)>, i: int)
    requires
        distinct_names(entries),
        0 <= i < entries.len(),
    ensures
        entries_map(entries).contains_key(entries[i].0@),
        entries_map(entries)[entries[i].0@] == entries[i].1,
    decreases entries.len(),
{
    if i < entries.len() - 1 {
        lemma_entries_map_at(entries.drop_last(), i);
    }
}

proof fn lemma_entries_map_absent<V>(entries: Seq<(String, V)>, name: Seq<char>)
    requires
        forall|i: int| 0 <= i < entries.len() ==> entries[i].0@ != name,
    ensures
        !entries_map(entries).contains_key(name),
    decreases entries.len(),
{
    if entries.len() > 0 {
        lemma_entries_map_absent(entries.drop_last(), name);
    }
}

proof fn lemma_entries_map_update<V>(entries: Seq<(String, V)>, i: int, e: (String, V))
    requires
        distinct_names(entries),
        0 <= i < entries.len(),
        e.0@ == entries[i].0@,
    ensures
        distinct_names(entries.update(i, e)),
        entries_map(entries.update(i, e)) == entries_map(entries).insert(e.0@, e.1),
    decreases entries.len(),
{
    let u = entries.update(i, e);
    if i == entries.len() - 1 {
        assert(u.drop_last() =~= entries.drop_last());
        assert(entries_map(u) =~= entries_map(entries).insert(e.0@, e.1));
    } else {
        lemma_entries_map_update(entries.drop_last(), i, e);
        assert(u.drop_last() =~= entries.drop_last().update(i, e));
        assert(entries_map(u) =~= entries_map(entries).insert(e.0@, e.1));
    }
}

impl<V> Environment<V> {
    /// An environment of one empty scope.
    pub fn new() -> (r: Self)
        ensures
            r.wf(),
            r.scopes() == seq![Map::<Seq<char>, V>::empty()],
    {
        let r = Self { enclosing: None, values: Vec::new() };
        assert(r.scopes() =~= seq![Map::<Seq<char>, V>::empty()]);
        r
    }

    /// A new empty scope inside `enclosing`.
    pub fn new_from(enclosing: Self) -> (r: Self)
        requires
            enclosing.wf(),
        ensures
            r.wf(),
            r.scopes() == seq![Map::<Seq<char>, V>::empty()] + enclosing.scopes(),
    {
        let r = Self { enclosing: Some(Box::new(enclosing)), values: Vec::new() };
        assert(r.scopes() =~= seq![Map::<Seq<char>, V>::empty()] + enclosing.scopes());
        r
    }

    /// Leaves the innermost scope: the enclosing environment, if there is one.
    pub fn into_enclosing(self) -> (r: Option<Self>)
        requires
            self.wf(),
        ensures
            match r {
                Some(e) => e.wf() && self.scopes().len() > 1 && e.scopes() == self.scopes().drop_first(),
                None => self.scopes().len() == 1,
            },
    {
        proof {
            self.lemma_scopes_len();
        }
        match self.enclosing {
            Some(e) => Some(*e),
            None => None,
        }
    }

    /// The index of `name` among this scope's entries.
    fn find_local(&self, name: &String) -> (r: Option<usize>)
        requires
            self.wf(),
        ensures
            match r {
                Some(i) => i < self.values@.len() && self.values@[i as int].0@ == name@
                    && entries_map(self.values@).contains_key(name@)
                    && entries_map(self.values@)[name@] == self.values@[i as int].1,
                None => !entries_map(self.values@).contains_key(name@),
            },
    {
        let mut i: usize = 0;
        while i < self.values.len()
            invariant
                distinct_names(self.values@),
                0 <= i <= self.values@.len(),
                forall|k: int| 0 <= k < i ==> self.values@[k].0@ != name@,
            decreases self.values@.len() - i,
        {
            if self.values[i].0 == *name {
                proof {
                    lemma_entries_map_at(self.values@, i as int);
                }
                return Some(i);
            }
            i = i + 1;
        }
        proof {
            lemma_entries_map_absent(self.values@, name@);
        }
        None
    }

    /// Defines `name` as `value` in the innermost scope and hands back the
    /// value it replaced there, if any.
    pub fn define(&mut self, name: String, value: V) -> (r: Option<V>)
        requires
            old(self).wf(),
        ensures
            final(self).wf(),
            final(self).scopes() == define_in(old(self).scopes(), name@, value),
            r == if old(self).scopes()[0].contains_key(name@) {
                Some(old(self).scopes()[0][name@])
            } else {
                None::<V>
            },
    {
        proof {
            self.lemma_scopes_len();
        }
        let ghost name_view = name@;
        match self.find_local(&name) {
            Some(i) => {
                let ghost before = self.values@;
                let mut entry = (name, value);
                let ghost e = entry;
                std::mem::swap(&mut self.values[i], &mut entry);
                proof {
                    assert(self.values@ == before.update(i as int, e));
                    lemma_entries_map_update(before, i as int, e);
                    self.lemma_scopes_len();
                    assert(self.scopes() =~= define_in(old(self).scopes(), name_view, value));
                }
                Some(entry.1)
            },
            None => {
                let ghost before = self.values@;
                proof {
                    assert forall|k: int| 0 <= k < before.len() implies before[k].0@ != name_view by {
                        if before[k].0@ == name_view {
                            lemma_entries_map_at(before, k);
                        }
                    }
                }
                self.values.push((name, value));
                proof {
                    assert(self.values@.drop_last() =~= before);
                    self.lemma_scopes_len();
                    assert(self.scopes() =~= define_in(old(self).scopes(), name_view, value));
                }
                None
            },
        }
    }

    /// The value of `name` in the innermost scope that defines it (a clone),
    /// or an error if no scope does.
    pub fn get(&self, name: &Rc<Token>) -> (r: Result<V, RuntimeError>)
        where
            V: Clone,
        requires
            self.wf(),
        ensures
            match lookup(self.scopes(), name.lexeme@) {
                Some(v) => r is Ok && cloned::<V>(v, r->Ok_0),
                None => r == Err::<V, RuntimeError>(RuntimeError::UndefinedVariable(*name)),
            },
        decreases self,
    {
        proof {
            self.lemma_scopes_len();
        }
        if let Some(i) = self.find_local(&name.lexeme) {
            return Ok(self.values[i].1.clone());
        }
        proof {
            lemma_outer_scopes(self.scopes(), name.lexeme@, arbitrary());
        }
        if let Some(enclosing) = &self.enclosing {
            return enclosing.get(name);
        }
        assert(self.scopes().drop_first() =~= Seq::<Map<Seq<char>, V>>::empty());
        Err(RuntimeError::UndefinedVariable(share(name)))
    }

    /// Assigns `value` to `name` in the innermost scope that defines it (the
    /// scope keeps a clone) and hands `value` back, or reports that no scope
    /// defines it and changes nothing.
    pub fn assign(&mut self, name: &Rc<Token>, value: V) -> (r: Result<V, RuntimeError>)
        where
            V: Clone,
        requires
            old(self).wf(),
        ensures
            final(self).wf(),
            match scope_of(old(self).scopes(), name.lexeme@) {
                Some(_) => r == Ok::<V, RuntimeError>(value) && exists|stored: V|
                    cloned::<V>(value, stored) && final(self).scopes() == assign_in(
                        old(self).scopes(),
                        name.lexeme@,
                        stored,
                    ),
                None => r == Err::<V, RuntimeError>(RuntimeError::UndefinedVariable(*name))
                    && final(self).scopes() == old(self).scopes(),
            },
        decreases *old(self),
    {
        proof {
            self.lemma_scopes_len();
        }
        let ghost k = name.lexeme@;
        if let Some(i) = self.find_local(&name.lexeme) {
            let stored = value.clone();
            let ghost before = self.values@;
            let mut entry = (name.lexeme.clone(), stored);
            let ghost e = entry;
            std::mem::swap(&mut self.values[i], &mut entry);
            proof {
                assert(self.values@ == before.update(i as int, e));
                lemma_entries_map_update(before, i as int, e);
                self.lemma_scopes_len();
                assert(self.scopes() =~= assign_in(old(self).scopes(), k, e.1));
                assert(cloned::<V>(value, e.1) && self.scopes() == assign_in(old(self).scopes(), k, e.1));
            }
            return Ok(value);
        }
        proof {
            lemma_outer_scopes(old(self).scopes(), k, value);
        }
        let enclosing = self.enclosing.take();
        match enclosing {
            Some(mut e) => {
                proof {
                    e.lemma_scopes_len();
                }
                let ghost e_before = *e;
                let r = e.assign(name, value);
                self.enclosing = Some(e);
                proof {
                    self.lemma_scopes_len();
                    let olds = old(self).scopes();
                    assert(olds.drop_first() == e_before.scopes());
                    match scope_of(e_before.scopes(), k) {
                        Some(j) => {
                            assert(scope_of(olds, k) == Some(j + 1));
                            let stored = choose|stored: V|
                                cloned::<V>(value, stored) && e.scopes() == assign_in(e_before.scopes(), k, stored);
                            lemma_outer_scopes(olds, k, stored);
                            assert(self.scopes() =~= assign_in(olds, k, stored));
                            assert(cloned::<V>(value, stored) && self.scopes() == assign_in(olds, k, stored));
                        },
                        None => {
                            assert(scope_of(olds, k) is None);
                            assert(self.scopes() =~= olds);
                        },
                    }
                }
                r
            },
            None => {
                proof {
                    assert(scope_of(old(self).scopes(), k) is None) by {
                        assert(old(self).scopes().drop_first() =~= Seq::<Map<Seq<char>, V>>::empty());
                    }
                }
                Err(RuntimeError::UndefinedVariable(share(name)))
            },
        }
    }
}

} // verus!

verus! {

/// Reading a name right after defining it gives the defined value.
pub proof fn law_get_after_define<V>(scopes: Seq<Map<Seq<char>, V>>, name: Seq<char>, value: V)
    requires
        scopes.len() > 0,
    ensures
        lookup(define_in(scopes, name, value), name) == Some(value),
{
}

/// Defining a name leaves the values of all other names as they were.
pub proof fn law_define_keeps_others<V>(
    scopes: Seq<Map<Seq<char>, V>>,
    name: Seq<char>,
    other: Seq<char>,
    value: V,
)
    requires
        scopes.len() > 0,
        name != other,
    ensures
        lookup(define_in(scopes, name, value), other) == lookup(scopes, other),
{
    let d = define_in(scopes, name, value);
    if !scopes[0].contains_key(other) {
        lemma_outer_scopes(scopes, other, value);
        lemma_outer_scopes(d, other, value);
        assert(d.drop_first() =~= scopes.drop_first());
    }
}

/// Reading a defined name right after assigning it gives the assigned value.
pub proof fn law_get_after_assign<V>(scopes: Seq<Map<Seq<char>, V>>, name: Seq<char>, value: V)
    requires
        lookup(scopes, name) is Some,
    ensures
        lookup(assign_in(scopes, name, value), name) == Some(value),
    decreases scopes.len(),
{
    lemma_scope_of_range(scopes, name);
    if !scopes[0].contains_key(name) {
        let rest = scopes.drop_first();
        lemma_outer_scopes(scopes, name, value);
        law_get_after_assign(rest, name, value);
        let a = assign_in(scopes, name, value);
        assert(a[0] == scopes[0]);
        assert(a.drop_first() =~= assign_in(rest, name, value));
        lemma_outer_scopes(a, name, value);
    }
}

/// Assigning a name that no scope defines changes nothing.
pub proof fn law_assign_undefined<V>(scopes: Seq<Map<Seq<char>, V>>, name: Seq<char>, value: V)
    requires
        lookup(scopes, name) is None,
    ensures
        assign_in(scopes, name, value) == scopes,
{
}

/// Definitions made in an inner scope are gone once it is left: every name
/// reads as it did before the scope was entered.
pub proof fn law_block_definitions_vanish<V>(
    scopes: Seq<Map<Seq<char>, V>>,
    name: Seq<char>,
    other: Seq<char>,
    value: V,
)
    ensures
        lookup(define_in(seq![Map::empty()] + scopes, name, value).drop_first(), other) == lookup(
            scopes,
            other,
        ),
{
    assert(define_in(seq![Map::empty()] + scopes, name, value).drop_first() =~= scopes);
}

/// An assignment made inside an inner scope to a name of an enclosing scope
/// stays in force once the inner scope is left.
pub proof fn law_block_assignment_persists<V>(scopes: Seq<Map<Seq<char>, V>>, name: Seq<char>, value: V)
    requires
        lookup(scopes, name) is Some,
    ensures
        lookup(assign_in(seq![Map::empty()] + scopes, name, value).drop_first(), name) == Some(value),
{
    let inner = seq![Map::<Seq<char>, V>::empty()] + scopes;
    assert(inner.drop_first() =~= scopes);
    lemma_outer_scopes(inner, name, value);
    assert(assign_in(inner, name, value).drop_first() =~= assign_in(scopes, name, value));
    law_get_after_assign(scopes, name, value);
}

} // verus!
