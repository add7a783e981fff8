//! Lexically scoped variables: a stack of scopes, innermost last.
//!
//! `define` always binds in the innermost scope (replacing a binding of
//! the same name there); `get` and `assign` look a name up from the
//! innermost scope outward and fail with `Undefined variable` when no
//! scope binds it. Entering a block pushes a scope, leaving it pops one.
//!
//! The stack is one value owning its scopes, each a vector of
//! `(name, value)` pairs in which no name occurs twice, rather than scopes
//! that point to their enclosing scope through shared, mutable cells
//! (`Rc<RefCell<..>>`), which Verus does not reason about. A `HashMap`
//! keyed by `String` would serve for lookup, but vstd's specification of
//! such a map says nothing of what `String` keys find, so no contract of
//! `get` or `assign` could be proved over it; the vectors give exact
//! contracts. Nothing here needs a scope shared between two stacks (there
//! are no closures in this language subset), so a child scope is pushed
//! onto the stack instead of being made as a separate environment.

use vstd::prelude::*;

use crate::error::{LoxError, LoxErrorV};
use crate::token::{Token, TokenV};

verus! {

/// The bindings of one scope as a map from names.
pub open spec fn scope_map<V>(s: Seq<(String, V)>) -> Map<Seq<char>, V>
    decreases s.len(),
{
    if s.len() == 0 {
        Map::empty()
    } else {
        scope_map(s.drop_last()).insert(s.last().0@, s.last().1)
    }
}

/// No name is bound twice in a scope.
pub open spec fn distinct_names<V>(s: Seq<(String, V)>) -> bool {
    forall|i: int, j: int| 0 <= i < j < s.len() ==> s[i].0@ != s[j].0@
}

/// The value `name` has in a stack of scopes: its binding in the innermost
/// scope that binds it.
pub open spec fn lookup<V>(scopes: Seq<Map<Seq<char>, V>>, name: Seq<char>) -> Option<V>
    decreases scopes.len(),
{
    if scopes.len() == 0 {
        None
    } else if scopes.last().contains_key(name) {
        Some(scopes.last()[name])
    } else {
        lookup(scopes.drop_last(), name)
    }
}

/// `scopes` with the innermost binding of `name` set to `value` (unchanged
/// when no scope binds `name`).
pub open spec fn assigned<V>(scopes: Seq<Map<Seq<char>, V>>, name: Seq<char>, value: V) -> Seq<
    Map<Seq<char>, V>,
>
    decreases scopes.len(),
{
    if scopes.len() == 0 {
        scopes
    } else if scopes.last().contains_key(name) {
        scopes.update(scopes.len() - 1, scopes.last().insert(name, value))
    } else {
        assigned(scopes.drop_last(), name, value).push(scopes.last())
    }
}

/// The runtime error for reading or assigning an unbound name.
pub open spec fn undefined_error(name: TokenV) -> LoxErrorV {
    LoxErrorV::Runtime {
        line: name.line,
        message: "Undefined variable '"@ + name.lexeme + "'."@,
    }
}

proof fn lemma_scope_map_keys<V>(s: Seq<(String, V)>, k: Seq<char>)
    requires
        distinct_names(s),
    ensures
        scope_map(s).contains_key(k) <==> exists|i: int| 0 <= i < s.len() && s[i].0@ == k,
        forall|i: int| 0 <= i < s.len() && s[i].0@ == k ==> scope_map(s)[k] == s[i].1,
    decreases s.len(),
{
    if s.len() > 0 {
        let d = s.drop_last();
        assert(distinct_names(d));
        lemma_scope_map_keys(d, k);
        if scope_map(s).contains_key(k) && s.last().0@ != k {
            let i = choose|i: int| 0 <= i < d.len() && d[i].0@ == k;
            assert(s[i] == d[i]);
        }
        if exists|i: int| 0 <= i < s.len() && s[i].0@ == k {
            let i = choose|i: int| 0 <= i < s.len() && s[i].0@ == k;
            if i < s.len() - 1 {
                assert(d[i] == s[i]);
            }
        }
        assert forall|i: int| 0 <= i < s.len() && s[i].0@ == k implies scope_map(s)[k] == s[i].1 by {
            if i < s.len() - 1 {
                assert(d[i] == s[i]);
                assert(s[i].0@ != s[s.len() - 1].0@);
            }
        }
    }
}

proof fn lemma_scope_map_update<V>(s: Seq<(String, V)>, i: int, p: (String, V))
    requires
        distinct_names(s),
        0 <= i < s.len(),
        s[i].0@ == p.0@,
    ensures
        distinct_names(s.update(i, p)),
        scope_map(s.update(i, p)) == scope_map(s).insert(p.0@, p.1),
    decreases s.len(),
{
    let t = s.update(i, p);
    assert forall|a: int, b: int| 0 <= a < b < t.len() implies t[a].0@ != t[b].0@ by {
        assert(s[a].0@ != s[b].0@);
    }
    if i == s.len() - 1 {
        assert(t.drop_last() =~= s.drop_last());
        assert(scope_map(t) =~= scope_map(s).insert(p.0@, p.1));
    } else {
        let d = s.drop_last();
        assert(distinct_names(d));
        assert(t.drop_last() =~= d.update(i, p));
        lemma_scope_map_update(d, i, p);
        assert(s.last().0@ != s[i].0@);
        assert(scope_map(t) =~= scope_map(s).insert(p.0@, p.1));
    }
}

proof fn lemma_scope_map_push<V>(s: Seq<(String, V)>, p: (String, V))
    requires
        distinct_names(s),
        forall|i: int| 0 <= i < s.len() ==> s[i].0@ != p.0@,
    ensures
        distinct_names(s.push(p)),
        scope_map(s.push(p)) == scope_map(s).insert(p.0@, p.1),
{
    assert(s.push(p).drop_last() =~= s);
    let t = s.push(p);
    assert forall|a: int, b: int| 0 <= a < b < t.len() implies t[a].0@ != t[b].0@ by {
        if b < s.len() {
            assert(t[a] == s[a] && t[b] == s[b]);
        } else {
            assert(t[a] == s[a]);
        }
    }
}

/// A stack of variable scopes holding values of type `V`.
pub struct Environment<V> {
    scopes: Vec<Vec<(String, V)>>,
}

impl<V> View for Environment<V> {
    type V = Seq<Map<Seq<char>, V>>;

    /// The scopes as maps from names, innermost last.
    closed spec fn view(&self) -> Seq<Map<Seq<char>, V>> {
        self.scopes@.map_values(|s: Vec<(String, V)>| scope_map(s@))
    }
}

impl<V> Environment<V> {
    /// There is always a global scope, and no scope binds a name twice.
    #[verifier::type_invariant]
    closed spec fn well_formed(&self) -> bool {
        &&& self.scopes@.len() >= 1
        &&& forall|d: int| 0 <= d < self.scopes@.len() ==> distinct_names(#[trigger] self.scopes@[d]@)
    }
}

impl<V: Clone> Environment<V> {
    /// A fresh environment holding only the (empty) global scope.
    pub fn new() -> (env: Self)
        ensures
            env@ == seq![Map::<Seq<char>, V>::empty()],
    {
        let mut scopes: Vec<Vec<(String, V)>> = Vec::new();
        scopes.push(Vec::new());
        let env = Environment { scopes };
        assert(env@ =~= seq![Map::<Seq<char>, V>::empty()]);
        env
    }

    /// Number of scopes, the global one included.
    pub fn depth(&self) -> (n: usize)
        ensures
            n == self@.len(),
            n >= 1,
    {
        proof {
            use_type_invariant(self);
        }
        self.scopes.len()
    }

    /// Enter a new, empty innermost scope.
    pub fn push(&mut self)
        ensures
            final(self)@ == old(self)@.push(Map::empty()),
    {
        proof {
            use_type_invariant(&*self);
        }
        let mut scopes = placeholder();
        std::mem::swap(&mut scopes, &mut self.scopes);
        let ghost before = scopes@;
        scopes.push(Vec::new());
        proof {
            assert forall|d: int| 0 <= d < scopes@.len() implies distinct_names(
                #[trigger] scopes@[d]@,
            ) by {
                if d < before.len() {
                    assert(scopes@[d] == before[d]);
                }
            }
        }
        self.scopes = scopes;
        assert(self@ =~= old(self)@.push(Map::empty()));
    }

    /// Leave the innermost scope, dropping its bindings. The global scope
    /// is never popped.
    pub fn pop(&mut self)
        requires
            old(self)@.len() >= 2,
        ensures
            final(self)@ == old(self)@.drop_last(),
    {
        proof {
            use_type_invariant(&*self);
        }
        let mut scopes = placeholder();
        std::mem::swap(&mut scopes, &mut self.scopes);
        let ghost before = scopes@;
        let _ = scopes.pop();
        proof {
            assert forall|d: int| 0 <= d < scopes@.len() implies distinct_names(
                #[trigger] scopes@[d]@,
            ) by {
                assert(scopes@[d] == before[d]);
            }
        }
        self.scopes = scopes;
        assert(self@ =~= old(self)@.drop_last());
    }

    /// Bind `name` to `value` in the innermost scope, replacing any binding
    /// of that name there.
    pub fn define(&mut self, name: &str, value: V)
        ensures
            final(self)@ == old(self)@.update(
                old(self)@.len() - 1,
                old(self)@.last().insert(name@, value),
            ),
    {
        proof {
            use_type_invariant(&*self);
        }
        let mut scopes = placeholder();
        std::mem::swap(&mut scopes, &mut self.scopes);
        let ghost before = scopes@;
        let mut scope = scopes.pop().unwrap();
        let ghost s0 = scope@;
        proof {
            assert(s0 == before[before.len() - 1]@);
        }
        let key = String::from_str(name);
        let found = find(&scope, &key);
        match found {
            Some(i) => {
                proof {
                    lemma_scope_map_update(s0, i as int, (key, value));
                }
                scope.set(i, (key, value));
            },
            None => {
                proof {
                    lemma_scope_map_keys(s0, key@);
                    lemma_scope_map_push(s0, (key, value));
                }
                scope.push((key, value));
            },
        }
        scopes.push(scope);
        proof {
            assert forall|d: int| 0 <= d < scopes@.len() implies distinct_names(
                #[trigger] scopes@[d]@,
            ) by {
                if d < scopes@.len() - 1 {
                    assert(scopes@[d] == before[d]);
                }
            }
        }
        self.scopes = scopes;
        assert(self@ =~= old(self)@.update(
            old(self)@.len() - 1,
            old(self)@.last().insert(name@, value),
        ));
    }

    /// The value of the variable `name`, from the innermost scope that
    /// binds it.
    pub fn get(&self, name: &Token) -> (r: Result<V, LoxError>)
        ensures
            match lookup(self@, name@.lexeme) {
                Some(v) => r matches Ok(x) && cloned(v, x),
                None => r matches Err(e) && e@ == undefined_error(name@),
            },
    {
        proof {
            use_type_invariant(self);
        }
        let ghost all = self@;
        let ghost n = name@.lexeme;
        let mut d = self.scopes.len();
        assert(all.take(d as int) =~= all);
        while d > 0
            invariant
                all == self@,
                n == name@.lexeme,
                d <= self.scopes@.len(),
                forall|k: int| 0 <= k < self.scopes@.len() ==> distinct_names(
                    #[trigger] self.scopes@[k]@,
                ),
                lookup(all, n) == lookup(all.take(d as int), n),
            decreases d,
        {
            let scope = &self.scopes[d - 1];
            let found = find(scope, &name.lexeme);
            proof {
                assert(all.take(d as int).last() == scope_map(scope@));
                assert(all.take(d as int).drop_last() =~= all.take(d - 1));
            }
            match found {
                Some(i) => {
                    return Ok(scope[i].1.clone());
                },
                None => {},
            }
            d = d - 1;
        }
        let mut message = String::from_str("Undefined variable '");
        message.append(name.lexeme.as_str());
        message.append("'.");
        Err(LoxError::runtime(name, message.as_str()))
    }

    /// Set the variable `name` in the innermost scope that binds it, and
    /// return the value assigned; never creates a binding.
    pub fn assign(&mut self, name: &Token, value: V) -> (r: Result<V, LoxError>)
        ensures
            match lookup(old(self)@, name@.lexeme) {
                Some(_) => {
                    &&& r matches Ok(x) && cloned(value, x)
                    &&& final(self)@ == assigned(old(self)@, name@.lexeme, value)
                },
                None => {
                    &&& r matches Err(e) && e@ == undefined_error(name@)
                    &&& final(self)@ == old(self)@
                },
            },
    {
        proof {
            use_type_invariant(&*self);
        }
        let ghost all = self@;
        let ghost n = name@.lexeme;
        let mut d = self.scopes.len();
        assert(all.take(d as int) =~= all);
        while d > 0
            invariant
                all == self@,
                all == old(self)@,
                n == name@.lexeme,
                d <= self.scopes@.len(),
                forall|k: int| 0 <= k < self.scopes@.len() ==> distinct_names(
                    #[trigger] self.scopes@[k]@,
                ),
                lookup(all, n) == lookup(all.take(d as int), n),
                forall|k: int| d <= k < all.len() ==> !(#[trigger] all[k]).contains_key(n),
            decreases d,
        {
            let found = find(&self.scopes[d - 1], &name.lexeme);
            proof {
                assert(all.take(d as int).last() == scope_map(self.scopes@[d - 1]@));
                assert(all.take(d as int).drop_last() =~= all.take(d - 1));
                assert(all[d - 1] == scope_map(self.scopes@[d - 1]@));
            }
            match found {
                Some(i) => {
                    let ret = value.clone();
                    let mut scopes = placeholder();
                    std::mem::swap(&mut scopes, &mut self.scopes);
                    let ghost before = scopes@;
                    let mut tail: Vec<Vec<(String, V)>> = Vec::new();
                    while scopes.len() > d
                        invariant
                            d <= scopes@.len(),
                            scopes@.len() + tail@.len() == before.len(),
                            forall|k: int| 0 <= k < scopes@.len() ==> scopes@[k] == before[k],
                            forall|k: int|
                                0 <= k < tail@.len() ==> tail@[k] == before[before.len() - 1 - k],
                        decreases scopes@.len(),
                    {
                        let s = scopes.pop().unwrap();
                        tail.push(s);
                    }
                    let mut scope = scopes.pop().unwrap();
                    let ghost s0 = scope@;
                    assert(s0 == before[d - 1]@);
                    let key = name.lexeme.clone();
                    proof {
                        lemma_scope_map_update(s0, i as int, (key, value));
                    }
                    scope.set(i, (key, value));
                    let ghost sd = scope@;
                    scopes.push(scope);
                    while tail.len() > 0
                        invariant
                            1 <= d <= scopes@.len(),
                            scopes@.len() + tail@.len() == before.len(),
                            forall|k: int|
                                0 <= k < scopes@.len() && k != d - 1 ==> scopes@[k] == before[k],
                            scopes@[d - 1]@ == sd,
                            sd == s0.update(i as int, (key, value)),
                            forall|k: int|
                                0 <= k < tail@.len() ==> tail@[k] == before[before.len() - 1 - k],
                        decreases tail@.len(),
                    {
                        let s = tail.pop().unwrap();
                        scopes.push(s);
                    }
                    proof {
                        assert forall|k: int| 0 <= k < scopes@.len() implies distinct_names(
                            #[trigger] scopes@[k]@,
                        ) by {
                            if k != d - 1 {
                                assert(scopes@[k] == before[k]);
                            }
                        }
                    }
                    self.scopes = scopes;
                    proof {
                        lemma_assigned_at(all, n, value, d - 1);
                        assert(self@ =~= all.update(d - 1, all[d - 1].insert(n, value)));
                    }
                    return Ok(ret);
                },
                None => {},
            }
            d = d - 1;
        }
        let mut message = String::from_str("Undefined variable '");
        message.append(name.lexeme.as_str());
        message.append("'.");
        Err(LoxError::runtime(name, message.as_str()))
    }
}

/// A stack holding one empty scope, to stand in while the real one is
/// being edited.
fn placeholder<V>() -> (s: Vec<Vec<(String, V)>>)
    ensures
        s@.len() == 1,
        s@[0]@.len() == 0,
{
    let mut s: Vec<Vec<(String, V)>> = Vec::new();
    s.push(Vec::new());
    s
}

/// The index of the binding of `name` in a scope, if any.
fn find<V>(scope: &Vec<(String, V)>, name: &String) -> (r: Option<usize>)
    requires
        distinct_names(scope@),
    ensures
        match r {
            Some(i) => {
                &&& i < scope@.len()
                &&& scope@[i as int].0@ == name@
                &&& scope_map(scope@).contains_key(name@)
                &&& scope_map(scope@)[name@] == scope@[i as int].1
            },
            None => !scope_map(scope@).contains_key(name@),
        },
{
    proof {
        lemma_scope_map_keys(scope@, name@);
    }
    let mut i: usize = 0;
    while i < scope.len()
        invariant
            i <= scope@.len(),
            distinct_names(scope@),
            forall|k: int| 0 <= k < i ==> scope@[k].0@ != name@,
        decreases scope@.len() - i,
    {
        if scope[i].0 == *name {
            proof {
                lemma_scope_map_keys(scope@, name@);
                assert(scope@[i as int].0@ == name@);
            }
            return Some(i);
        }
        i = i + 1;
    }
    None
}

/// Assigning to a name bound at depth `d` and unbound above it updates
/// that scope only.
proof fn lemma_assigned_at<V>(scopes: Seq<Map<Seq<char>, V>>, n: Seq<char>, v: V, d: int)
    requires
        0 <= d < scopes.len(),
        scopes[d].contains_key(n),
        forall|k: int| d < k < scopes.len() ==> !(#[trigger] scopes[k]).contains_key(n),
    ensures
        assigned(scopes, n, v) == scopes.update(d, scopes[d].insert(n, v)),
    decreases scopes.len(),
{
    if d == scopes.len() - 1 {
    } else {
        let dl = scopes.drop_last();
        assert(!scopes.last().contains_key(n)) by {
            assert(scopes.last() == scopes[scopes.len() - 1]);
        }
        assert forall|k: int| d < k < dl.len() implies !(#[trigger] dl[k]).contains_key(n) by {
            assert(dl[k] == scopes[k]);
        }
        lemma_assigned_at(dl, n, v, d);
        assert(assigned(scopes, n, v) =~= scopes.update(d, scopes[d].insert(n, v)));
    }
}

/// Reading a name right after defining it gives the defined value.
pub proof fn lemma_define_then_lookup<V>(scopes: Seq<Map<Seq<char>, V>>, n: Seq<char>, v: V)
    requires
        scopes.len() >= 1,
    ensures
        lookup(scopes.update(scopes.len() - 1, scopes.last().insert(n, v)), n) == Some(v),
{
    let s2 = scopes.update(scopes.len() - 1, scopes.last().insert(n, v));
    assert(s2.last() == scopes.last().insert(n, v));
}

/// A scope pushed and popped again leaves every lookup as it was; in
/// between, its bindings shadow the outer ones.
pub proof fn lemma_push_pop_restores<V>(scopes: Seq<Map<Seq<char>, V>>, inner: Map<Seq<char>, V>)
    ensures
        scopes.push(inner).drop_last() == scopes,
        forall|n: Seq<char>|
            #[trigger] lookup(scopes.push(inner), n) == if inner.contains_key(n) {
                Some(inner[n])
            } else {
                lookup(scopes, n)
            },
{
    assert(scopes.push(inner).drop_last() =~= scopes);
}

/// Assignment changes the value of the assigned name only, and a read
/// afterwards gives the assigned value.
pub proof fn lemma_assign_then_lookup<V>(scopes: Seq<Map<Seq<char>, V>>, n: Seq<char>, v: V, m: Seq<char>)
    requires
        lookup(scopes, n) is Some,
    ensures
        lookup(assigned(scopes, n, v), m) == if m == n {
            Some(v)
        } else {
            lookup(scopes, m)
        },
        assigned(scopes, n, v).len() == scopes.len(),
    decreases scopes.len(),
{
    if scopes.last().contains_key(n) {
        let s2 = assigned(scopes, n, v);
        assert(s2.drop_last() =~= scopes.drop_last());
    } else {
        lemma_assign_then_lookup(scopes.drop_last(), n, v, m);
        let s2 = assigned(scopes, n, v);
        assert(s2.drop_last() =~= assigned(scopes.drop_last(), n, v));
    }
}

} // verus!
