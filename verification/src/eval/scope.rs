//! The environment: a mapping from identifier text to expression values,
//! chained to an enclosing scope so that user-defined functions can capture
//! the environment they were defined in.

use vstd::prelude::*;
use crate::reader::{expr_view, Expression, ExprV};

verus! {

broadcast use vstd::seq::axiom_seq_index_decreases, vstd::seq::axiom_seq_subrange_decreases, vstd::std_specs::vec::axiom_vec_index_decreases, vstd::std_specs::vec::axiom_vec_decreases_to_view;

/// A failure of name resolution.
#[derive(Debug, Clone, PartialEq)]
pub enum ScopeError {
    /// No scope in the chain binds the queried name; carries that name.
    IdentifierNotFound(String),
}

/// A mapping from names to values, possibly chained to an enclosing scope.
/// A `bind` always writes the innermost mapping; a lookup walks outward.
#[derive(Debug, PartialEq)]
pub struct Scope {
    names: Vec<(String, Expression)>,
    parent: Option<Box<Scope>>,
}

/// The mathematical shape of a [`Scope`]: its own bindings as a map (the
/// newest binding of a name wins), plus the enclosing scope, if any.
pub struct ScopeV {
    pub bindings: Map<Seq<char>, ExprV>,
    pub parent: Option<Box<ScopeV>>,
}

/// The map held by one list of bindings: each entry inserted in order, so
/// that the newest binding of a name overwrites the older ones.
pub closed spec fn frame_map(s: Seq<(String, Expression)>) -> Map<Seq<char>, ExprV>
    decreases s,
{
    if s.len() == 0 {
        Map::empty()
    } else {
        frame_map(s.drop_last()).insert(s.last().0@, expr_view(s.last().1))
    }
}

/// The shape of a [`Scope`].
pub closed spec fn scope_view(s: Scope) -> ScopeV
    decreases s,
{
    ScopeV {
        bindings: frame_map(s.names@),
        parent: match s.parent {
            Some(p) => Some(Box::new(scope_view(*p))),
            None => None,
        },
    }
}

impl View for Scope {
    type V = ScopeV;

    open spec fn view(&self) -> ScopeV {
        scope_view(*self)
    }
}

/// What a name resolves to: the innermost scope is searched first, then
/// each ancestor in turn; `None` where no scope in the chain binds it.
pub open spec fn lookup_spec(sv: ScopeV, name: Seq<char>) -> Option<ExprV>
    decreases sv,
{
    if sv.bindings.dom().contains(name) {
        Some(sv.bindings[name])
    } else {
        match sv.parent {
            Some(p) => lookup_spec(*p, name),
            None => None,
        }
    }
}

/// Scanning a list of bindings from the newest entry to the oldest: the
/// value of the newest entry whose name is `name`, if any.
pub closed spec fn assoc_lookup(s: Seq<(String, Expression)>, name: Seq<char>) -> Option<ExprV>
    decreases s,
{
    if s.len() == 0 {
        None
    } else if s.last().0@ == name {
        Some(expr_view(s.last().1))
    } else {
        assoc_lookup(s.drop_last(), name)
    }
}

/// Scanning bindings newest-first agrees with the map they fold to.
proof fn lemma_assoc_lookup_frame_map(s: Seq<(String, Expression)>, name: Seq<char>)
    ensures
        match assoc_lookup(s, name) {
            Some(v) => frame_map(s).dom().contains(name) && frame_map(s)[name] == v,
            None => !frame_map(s).dom().contains(name),
        },
    decreases s,
{
    if s.len() > 0 {
        lemma_assoc_lookup_frame_map(s.drop_last(), name);
    }
}

/// Two binding lists whose names and values have the same shape fold to
/// the same map.
proof fn lemma_frame_map_congruence(s1: Seq<(String, Expression)>, s2: Seq<(String, Expression)>)
    requires
        s1.len() == s2.len(),
        forall|j: int|
            0 <= j < s1.len() ==> s1[j].0@ == s2[j].0@ && expr_view(s1[j].1) == expr_view(s2[j].1),
    ensures
        frame_map(s1) == frame_map(s2),
    decreases s1,
{
    if s1.len() > 0 {
        lemma_frame_map_congruence(s1.drop_last(), s2.drop_last());
    }
}

impl Scope {
    /// A root scope: no bindings, no parent.
    pub fn new() -> (s: Self)
        ensures
            s@.bindings == Map::<Seq<char>, ExprV>::empty(),
            s@.parent is None,
    {
        let names: Vec<(String, Expression)> = Vec::new();
        proof {
            assert(names@.len() == 0);
            assert(frame_map(names@) =~= Map::<Seq<char>, ExprV>::empty());
        }
        let s = Scope { names, parent: None };
        proof {
            assert(s@.bindings =~= Map::<Seq<char>, ExprV>::empty());
        }
        s
    }

    /// A child scope whose lookups fall back to `parent`.
    pub fn new_child(parent: Scope) -> (s: Self)
        ensures
            s@.bindings == Map::<Seq<char>, ExprV>::empty(),
            s@.parent == Some(Box::new(parent@)),
    {
        let names: Vec<(String, Expression)> = Vec::new();
        proof {
            assert(names@.len() == 0);
            assert(frame_map(names@) =~= Map::<Seq<char>, ExprV>::empty());
        }
        let s = Scope { names, parent: Some(Box::new(parent)) };
        proof {
            assert(s@.bindings =~= Map::<Seq<char>, ExprV>::empty());
        }
        s
    }

    /// Binds `name` to `value` in this scope, inserting or overwriting.
    pub fn put(&mut self, name: &str, value: Expression)
        ensures
            final(self)@.bindings == old(self)@.bindings.insert(name@, value@),
            final(self)@.parent == old(self)@.parent,
    {
        let ghost names0 = self.names@;
        let key = name.to_owned();
        self.names.push((key, value));
        proof {
            assert(self.names@.drop_last() =~= names0);
            assert(frame_map(self.names@) == frame_map(names0).insert(name@, value@));
            assert(self@.bindings == old(self)@.bindings.insert(name@, value@));
            assert(self@.parent == old(self)@.parent);
        }
    }

    /// The value bound to `name`, as a copy, searching this scope first and
    /// then each ancestor; a not-found failure carrying the queried name
    /// where no scope in the chain binds it.
    pub fn get(&self, name: &str) -> (r: Result<Expression, ScopeError>)
        ensures
            match lookup_spec(self@, name@) {
                Some(v) => r matches Ok(e) && e@ == v,
                None => r matches Err(ScopeError::IdentifierNotFound(m)) && m@ == name@,
            },
        decreases *self,
    {
        let key = name.to_owned();
        let mut i: usize = self.names.len();
        proof {
            assert(self.names@.subrange(0, self.names@.len() as int) =~= self.names@);
        }
        while i > 0
            invariant
                i <= self.names@.len(),
                key@ == name@,
                assoc_lookup(self.names@, name@) == assoc_lookup(
                    self.names@.subrange(0, i as int),
                    name@,
                ),
            decreases i,
        {
            let ghost prefix = self.names@.subrange(0, i as int);
            proof {
                assert(prefix.last() == self.names@[i - 1]);
                assert(prefix.drop_last() =~= self.names@.subrange(0, i - 1));
            }
            let pair = &self.names[i - 1];
            if pair.0 == key {
                proof {
                    assert(assoc_lookup(self.names@, name@) == Some(expr_view(self.names@[i - 1].1)));
                    lemma_assoc_lookup_frame_map(self.names@, name@);
                }
                return Ok(pair.1.duplicate());
            }
            i -= 1;
        }
        proof {
            assert(self.names@.subrange(0, 0) =~= Seq::<(String, Expression)>::empty());
            assert(assoc_lookup(self.names@, name@) is None);
            lemma_assoc_lookup_frame_map(self.names@, name@);
            assert(!self@.bindings.dom().contains(name@));
        }
        match &self.parent {
            Some(p) => p.get(name),
            None => Err(ScopeError::IdentifierNotFound(key)),
        }
    }

    /// A copy of this scope chain, equal to it binding for binding.
    pub fn duplicate(&self) -> (r: Scope)
        ensures
            r@ == self@,
        decreases *self,
    {
        let mut names_copy: Vec<(String, Expression)> = Vec::new();
        let mut i: usize = 0;
        while i < self.names.len()
            invariant
                i <= self.names@.len(),
                names_copy@.len() == i,
                forall|j: int|
                    0 <= j < i ==> names_copy@[j].0@ == self.names@[j].0@ && expr_view(
                        names_copy@[j].1,
                    ) == expr_view(self.names@[j].1),
            decreases self.names@.len() - i,
        {
            let pair = &self.names[i];
            names_copy.push((pair.0.clone(), pair.1.duplicate()));
            i += 1;
        }
        proof {
            lemma_frame_map_congruence(names_copy@, self.names@);
        }
        let parent_copy = match &self.parent {
            Some(p) => Some(Box::new(p.duplicate())),
            None => None,
        };
        Scope { names: names_copy, parent: parent_copy }
    }
}

} // verus!
