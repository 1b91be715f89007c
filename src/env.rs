//! Chained scopes of variable bindings.
use crate::parser::{Object, Sexp};
use vstd::prelude::*;

verus! {

/// The bindings of scopes, innermost last.
pub type Scopes = Seq<Map<Seq<char>, Sexp>>;

/// The value of `name` in the innermost scope that binds it.
pub open spec fn lookup(env: Scopes, name: Seq<char>) -> Option<Sexp>
    decreases env.len(),
{
    if env.len() == 0 {
        None
    } else if env.last().contains_key(name) {
        Some(env.last()[name])
    } else {
        lookup(env.drop_last(), name)
    }
}

/// Binds `name` to `value` in the innermost scope, leaving outer scopes alone.
pub open spec fn bind(env: Scopes, name: Seq<char>, value: Sexp) -> Scopes {
    env.update(env.len() - 1, env.last().insert(name, value))
}

/// The map that a list of bindings makes, a later binding of a name
/// replacing an earlier one.
pub open spec fn bindings_map(names: Seq<Seq<char>>, values: Seq<Sexp>) -> Map<Seq<char>, Sexp>
    decreases names.len(),
{
    if names.len() == 0 {
        Map::empty()
    } else {
        bindings_map(names.drop_last(), values.drop_last()).insert(
            names.last(),
            values[names.len() - 1],
        )
    }
}

/// `j` is the last position that holds `k`, or -1 where none does.
pub open spec fn last_index_of(names: Seq<Seq<char>>, k: Seq<char>, j: int) -> bool {
    &&& -1 <= j < names.len()
    &&& (j >= 0 ==> names[j] == k)
    &&& forall|m: int| j < m < names.len() ==> names[m] != k
}

proof fn lemma_bindings_get(names: Seq<Seq<char>>, values: Seq<Sexp>, k: Seq<char>, j: int)
    requires
        names.len() == values.len(),
        last_index_of(names, k, j),
    ensures
        j >= 0 ==> bindings_map(names, values).contains_key(k) && bindings_map(names, values)[k]
            == values[j],
        j < 0 ==> !bindings_map(names, values).contains_key(k),
    decreases names.len(),
{
    if names.len() > 0 && j < names.len() - 1 {
        lemma_bindings_get(names.drop_last(), values.drop_last(), k, j);
    }
}

proof fn lemma_bindings_update(
    names: Seq<Seq<char>>,
    values: Seq<Sexp>,
    k: Seq<char>,
    j: int,
    v: Sexp,
)
    requires
        names.len() == values.len(),
        last_index_of(names, k, j),
        j >= 0,
    ensures
        bindings_map(names, values.update(j, v)) == bindings_map(names, values).insert(k, v),
    decreases names.len(),
{
    let u = values.update(j, v);
    if j == names.len() - 1 {
        assert(u.drop_last() =~= values.drop_last());
        assert(bindings_map(names, u) =~= bindings_map(names, values).insert(k, v));
    } else {
        assert(u.drop_last() =~= values.drop_last().update(j, v));
        lemma_bindings_update(names.drop_last(), values.drop_last(), k, j, v);
        assert(bindings_map(names, u) =~= bindings_map(names, values).insert(k, v));
    }
}

/// The bindings of one scope, held as two lists of equal length; no name
/// is bound twice.
struct Scope {
    names: Vec<String>,
    values: Vec<Object>,
}

impl Scope {
    spec fn names_seq(&self) -> Seq<Seq<char>> {
        self.names@.map_values(|s: String| s@)
    }

    spec fn values_seq(&self) -> Seq<Sexp> {
        self.values@.map_values(|o: Object| o@)
    }

    spec fn wf(&self) -> bool {
        &&& self.names@.len() == self.values@.len()
        &&& forall|a: int, b: int|
            0 <= a < b < self.names@.len() ==> #[trigger] self.names_seq()[a]
                != #[trigger] self.names_seq()[b]
    }

    spec fn map(&self) -> Map<Seq<char>, Sexp> {
        bindings_map(self.names_seq(), self.values_seq())
    }

    fn empty() -> (r: Scope)
        ensures
            r.wf(),
            r.map() == Map::<Seq<char>, Sexp>::empty(),
    {
        let r = Scope { names: Vec::new(), values: Vec::new() };
        assert(r.names_seq().len() == 0);
        r
    }

    /// The last position that binds `name`, if any.
    fn find(&self, name: &str) -> (r: Option<usize>)
        requires
            self.wf(),
        ensures
            match r {
                Some(j) => last_index_of(self.names_seq(), name@, j as int),
                None => last_index_of(self.names_seq(), name@, -1),
            },
    {
        let mut i = self.names.len();
        while i > 0
            invariant
                i <= self.names@.len(),
                forall|m: int| i <= m < self.names@.len() ==> self.names_seq()[m] != name@,
            decreases i,
        {
            let s: &str = self.names[i - 1].as_str();
            if string_eq(s, name) {
                return Some(i - 1);
            }
            i = i - 1;
        }
        None
    }
}

/// Compares two strings character by character.
pub fn string_eq(a: &str, b: &str) -> (r: bool)
    ensures
        r == (a@ == b@),
{
    let n = a.unicode_len();
    if n != b.unicode_len() {
        return false;
    }
    let mut i: usize = 0;
    while i < n
        invariant
            n == a@.len(),
            n == b@.len(),
            i <= n,
            forall|m: int| 0 <= m < i ==> a@[m] == b@[m],
        decreases n - i,
    {
        if a.get_char(i) != b.get_char(i) {
            return false;
        }
        i = i + 1;
    }
    assert(a@ =~= b@);
    true
}

/// A chain of scopes: the innermost is where definitions go, and a name
/// that it does not bind is looked up in the scopes around it, in turn.
pub struct Env {
    frames: Vec<Scope>,
}

impl View for Env {
    type V = Scopes;

    closed spec fn view(&self) -> Scopes {
        self.frames@.map_values(|s: Scope| s.map())
    }
}

impl Env {
    /// Holds of every environment that the public operations build: there
    /// is at least one scope.
    pub closed spec fn wf(&self) -> bool {
        &&& self.frames@.len() >= 1
        &&& forall|i: int| 0 <= i < self.frames@.len() ==> (#[trigger] self.frames@[i]).wf()
    }

    pub proof fn lemma_wf_len(&self)
        requires
            self.wf(),
        ensures
            self@.len() >= 1,
    {
    }

    /// A root environment: one empty scope.
    pub fn new() -> (r: Env)
        ensures
            r.wf(),
            r@ == seq![Map::<Seq<char>, Sexp>::empty()],
    {
        let mut frames: Vec<Scope> = Vec::new();
        frames.push(Scope::empty());
        let r = Env { frames };
        assert(r@ =~= seq![Map::<Seq<char>, Sexp>::empty()]);
        r
    }

    /// A new empty scope inside `parent`.
    pub fn extend(parent: Env) -> (r: Env)
        requires
            parent.wf(),
        ensures
            r.wf(),
            r@ == parent@.push(Map::<Seq<char>, Sexp>::empty()),
    {
        let mut r = parent;
        r.push_scope();
        r
    }

    /// Opens a new empty innermost scope.
    pub fn push_scope(&mut self)
        requires
            old(self).wf(),
        ensures
            final(self).wf(),
            final(self)@ == old(self)@.push(Map::<Seq<char>, Sexp>::empty()),
    {
        let s = Scope::empty();
        self.frames.push(s);
        assert(self@ =~= old(self)@.push(Map::<Seq<char>, Sexp>::empty()));
    }

    /// Closes the innermost scope.
    pub fn pop_scope(&mut self)
        requires
            old(self).wf(),
            old(self)@.len() >= 2,
        ensures
            final(self).wf(),
            final(self)@ == old(self)@.drop_last(),
    {
        let _ = self.frames.pop();
        assert(self@ =~= old(self)@.drop_last());
    }

    /// The value of `name` in the innermost scope that binds it.
    pub fn get(&self, name: &str) -> (r: Option<Object>)
        requires
            self.wf(),
        ensures
            match lookup(self@, name@) {
                Some(v) => r matches Some(o) && o@ == v,
                None => r is None,
            },
    {
        let mut i = self.frames.len();
        assert(self@.subrange(0, i as int) =~= self@);
        while i > 0
            invariant
                self.wf(),
                i <= self.frames@.len(),
                lookup(self@, name@) == lookup(self@.subrange(0, i as int), name@),
            decreases i,
        {
            let ghost pre = self@.subrange(0, i as int);
            assert(pre.drop_last() =~= self@.subrange(0, i - 1));
            let scope = &self.frames[i - 1];
            assert(pre.last() == scope.map());
            match scope.find(name) {
                Some(j) => {
                    proof {
                        lemma_bindings_get(scope.names_seq(), scope.values_seq(), name@, j as int);
                    }
                    return Some(scope.values[j].duplicate());
                },
                None => {
                    proof {
                        lemma_bindings_get(scope.names_seq(), scope.values_seq(), name@, -1);
                    }
                },
            }
            i = i - 1;
        }
        None
    }

    /// Binds `name` to `val` in the innermost scope, replacing a binding of
    /// the same name there; outer scopes are not touched.
    pub fn set(&mut self, name: &str, val: Object)
        requires
            old(self).wf(),
        ensures
            final(self).wf(),
            final(self)@ == bind(old(self)@, name@, val@),
    {
        let mut scope = self.frames.pop().unwrap();
        match scope.find(name) {
            Some(j) => {
                let ghost vs = scope.values_seq();
                scope.values.set(j, val);
                proof {
                    assert(scope.values_seq() =~= vs.update(j as int, val@));
                    lemma_bindings_update(scope.names_seq(), vs, name@, j as int, val@);
                }
            },
            None => {
                let ghost ns = scope.names_seq();
                let ghost vs = scope.values_seq();
                scope.names.push(name.to_owned());
                scope.values.push(val);
                proof {
                    assert(scope.names_seq().drop_last() =~= ns);
                    assert(scope.values_seq().drop_last() =~= vs);
                    assert(scope.names_seq() =~= ns.push(name@));
                }
            },
        }
        self.frames.push(scope);
        assert(self@ =~= bind(old(self)@, name@, val@));
    }
}

} // verus!
