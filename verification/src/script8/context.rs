//! Nested variable scopes of a running script.
use crate::text::chars_of;
use vstd::prelude::*;
use vstd::string::*;

verus! {

/// The first scope, innermost first, that declares `name`, and the value it holds there.
pub open spec fn lookup<V>(scopes: Seq<Map<Seq<char>, V>>, name: Seq<char>) -> Option<V>
    decreases scopes.len(),
{
    if scopes.len() == 0 {
        None
    } else if scopes[0].dom().contains(name) {
        Some(scopes[0][name])
    } else {
        lookup(scopes.drop_first(), name)
    }
}

/// Whether some scope declares `name`.
pub open spec fn declared<V>(scopes: Seq<Map<Seq<char>, V>>, name: Seq<char>) -> bool {
    lookup(scopes, name) is Some
}

/// The scopes after declaring `name` with `value` in the innermost one
/// (replacing what it held there, if anything).
pub open spec fn define<V>(scopes: Seq<Map<Seq<char>, V>>, name: Seq<char>, value: V) -> Seq<
    Map<Seq<char>, V>,
>
    recommends
        scopes.len() > 0,
{
    scopes.update(0, scopes[0].insert(name, value))
}

/// The scopes after giving `name` the value `value` in the innermost scope that declares it.
pub open spec fn assign<V>(scopes: Seq<Map<Seq<char>, V>>, name: Seq<char>, value: V) -> Seq<
    Map<Seq<char>, V>,
>
    decreases scopes.len(),
{
    if scopes.len() == 0 {
        scopes
    } else if scopes[0].dom().contains(name) {
        define(scopes, name, value)
    } else {
        seq![scopes[0]] + assign(scopes.drop_first(), name, value)
    }
}

/// The map that a list of (name, value) entries stands for.
pub open spec fn entries_map<V>(entries: Seq<(String, V)>) -> Map<Seq<char>, V>
    decreases entries.len(),
{
    if entries.len() == 0 {
        Map::empty()
    } else {
        entries_map(entries.drop_last()).insert(entries.last().0@, entries.last().1)
    }
}

/// No name occurs twice among the entries.
pub open spec fn distinct_names<V>(entries: Seq<(String, V)>) -> bool {
    forall|i: int, j: int|
        0 <= i < entries.len() && 0 <= j < entries.len() && i != j ==> #[trigger] entries[i].0@
            != #[trigger] entries[j].0@
}

/// A scope of variables, with the scope that encloses it.
pub struct Context<V> {
    locals: Vec<(String, V)>,
    parent: Option<Box<Context<V>>>,
}

impl<V> Context<V> {
    /// The scopes of this context, innermost first.
    pub closed spec fn scopes(&self) -> Seq<Map<Seq<char>, V>>
        decreases self,
    {
        let own = seq![entries_map(self.locals@)];
        match &self.parent {
            Some(p) => own + p.scopes(),
            None => own,
        }
    }

    /// No scope of the chain declares a name twice.
    pub closed spec fn wf(&self) -> bool
        decreases self,
    {
        &&& distinct_names(self.locals@)
        &&& match &self.parent {
            Some(p) => p.wf(),
            None => true,
        }
    }

    /// The number of enclosing scopes.
    pub closed spec fn depth(&self) -> nat
        decreases self,
    {
        match &self.parent {
            Some(p) => 1 + p.depth(),
            None => 0,
        }
    }

    proof fn lemma_scopes_nonempty(&self)
        ensures
            self.scopes().len() >= 1,
            self.scopes()[0] == entries_map(self.locals@),
            self.parent is None ==> self.scopes().len() == 1,
            self.parent matches Some(p) ==> self.scopes().drop_first() == p.scopes(),
    {
        match &self.parent {
            Some(p) => {
                assert((seq![entries_map(self.locals@)] + p.scopes()).drop_first() =~= p.scopes());
            },
            None => {},
        }
    }

    /// Every context has at least one scope: its own, innermost one.
    pub proof fn lemma_has_innermost_scope(&self)
        ensures
            self.scopes().len() >= 1,
    {
        self.lemma_scopes_nonempty();
    }

    /// A global context: one empty scope and no enclosing one.
    pub fn new_global() -> (c: Context<V>)
        ensures
            c.wf(),
            c.scopes() == seq![Map::<Seq<char>, V>::empty()],
    {
        let c = Context { locals: Vec::new(), parent: None };
        assert(entries_map(c.locals@) =~= Map::<Seq<char>, V>::empty());
        c
    }

    /// A new empty scope inside `parent`.
    pub fn new(parent: Box<Context<V>>) -> (c: Context<V>)
        requires
            parent.wf(),
        ensures
            c.wf(),
            c.scopes() == seq![Map::<Seq<char>, V>::empty()] + parent.scopes(),
            c.scopes().len() == parent.scopes().len() + 1,
            c.scopes().len() >= 2,
            c.scopes().drop_first() == parent.scopes(),
    {
        proof {
            parent.lemma_scopes_nonempty();
        }
        let c = Context { locals: Vec::new(), parent: Some(parent) };
        assert(entries_map(c.locals@) =~= Map::<Seq<char>, V>::empty());
        c
    }

    /// The index of the local entry named `name`, if there is one.
    fn find_local(&self, name: &str) -> (r: Option<usize>)
        requires
            distinct_names(self.locals@),
        ensures
            r matches Some(i) ==> i < self.locals@.len() && self.locals@[i as int].0@ == name@,
            r is None <==> !entries_map(self.locals@).dom().contains(name@),
            r matches Some(i) ==> entries_map(self.locals@)[name@] == self.locals@[i as int].1,
    {
        let target = chars_of(name);
        let n = self.locals.len();
        let mut i: usize = 0;
        while i < n
            invariant
                n == self.locals@.len(),
                i <= n,
                target@ == name@,
                distinct_names(self.locals@),
                forall|j: int| 0 <= j < i ==> self.locals@[j].0@ != name@,
            decreases n - i,
        {
            let key = chars_of(self.locals[i].0.as_str());
            if same_chars(&key, &target) {
                proof {
                    lemma_entries_map_at(self.locals@, i as int);
                }
                return Some(i);
            }
            i = i + 1;
        }
        proof {
            lemma_entries_map_absent(self.locals@, name@);
        }
        None
    }

    /// Adds a variable to the innermost scope, replacing the value it held
    /// there if it was already declared in that scope.
    pub fn add(&mut self, name: &str, value: V)
        requires
            old(self).wf(),
        ensures
            final(self).wf(),
            final(self).scopes() == define(old(self).scopes(), name@, value),
            old(self).scopes().len() >= 1,
            final(self).scopes().len() == old(self).scopes().len(),
            final(self).scopes()[0] == old(self).scopes()[0].insert(name@, value),
            final(self).scopes().drop_first() == old(self).scopes().drop_first(),
            lookup(final(self).scopes(), name@) == Some(value),
            final(self).depth() == old(self).depth(),
    {
        proof {
            old(self).lemma_scopes_nonempty();
            read_after_define(old(self).scopes(), name@, value, name@);
            self.lemma_scopes_nonempty();
        }
        let ghost old_locals = self.locals@;
        let key = String::from_str(name);
        match self.find_local(name) {
            Some(i) => {
                self.locals.set(i, (key, value));
                proof {
                    lemma_entries_map_replace(old_locals, i as int, self.locals@[i as int]);
                }
            },
            None => {
                self.locals.push((key, value));
                proof {
                    assert(self.locals@.drop_last() =~= old_locals);
                    assert forall|a: int, b: int|
                        0 <= a < self.locals@.len() && 0 <= b < self.locals@.len() && a != b
                            implies #[trigger] self.locals@[a].0@ != #[trigger] self.locals@[b].0@ by {
                        if a < old_locals.len() && b < old_locals.len() {
                            assert(self.locals@[a] == old_locals[a]);
                            assert(self.locals@[b] == old_locals[b]);
                        } else if a < old_locals.len() {
                            assert(self.locals@[a] == old_locals[a]);
                            lemma_entries_map_at(old_locals, a);
                        } else {
                            assert(self.locals@[b] == old_locals[b]);
                            lemma_entries_map_at(old_locals, b);
                        }
                    }
                }
            },
        }
        proof {
            self.lemma_scopes_nonempty();
            let s = self.scopes();
            let o = old(self).scopes();
            assert(s.len() == o.len());
            assert forall|k: int| 0 < k < s.len() implies s[k] == o[k] by {
                match &self.parent {
                    Some(p) => {
                        assert(s[k] == p.scopes()[k - 1]);
                        assert(o[k] == p.scopes()[k - 1]);
                    },
                    None => {},
                }
            }
            assert(s =~= define(o, name@, value));
        }
    }

    /// Gives `name` the value `value` in the innermost scope that declares it.
    pub fn set(&mut self, name: &str, value: V)
        requires
            old(self).wf(),
            declared(old(self).scopes(), name@),
        ensures
            final(self).wf(),
            final(self).scopes() == assign(old(self).scopes(), name@, value),
            final(self).scopes().len() == old(self).scopes().len(),
            lookup(final(self).scopes(), name@) == Some(value),
            forall|j: int|
                0 <= j < old(self).scopes().len() ==> (#[trigger] final(self).scopes()[j]) == if (
                old(self).scopes()[j].dom().contains(name@) && forall|i: int|
                    0 <= i < j ==> !(#[trigger] old(self).scopes()[i]).dom().contains(name@)) {
                    old(self).scopes()[j].insert(name@, value)
                } else {
                    old(self).scopes()[j]
                },
            final(self).depth() == old(self).depth(),
        decreases old(self).depth(),
    {
        proof {
            self.lemma_scopes_nonempty();
            read_after_assign(old(self).scopes(), name@, value, name@);
            let o = old(self).scopes();
            let k = lemma_first_declaring(o, name@);
            assign_changes_only_innermost_declaration(o, name@, value, k);
            assert forall|j: int| 0 <= j < o.len() implies (#[trigger] assign(o, name@, value)[j]) == if (
            o[j].dom().contains(name@) && forall|i: int| 0 <= i < j ==> !(#[trigger] o[i]).dom().contains(name@)) {
                o[j].insert(name@, value)
            } else {
                o[j]
            } by {
                if j > k {
                    assert(o[k].dom().contains(name@));
                }
                if j < k && o[j].dom().contains(name@) {
                    assert(!o[j].dom().contains(name@));
                }
            }
        }
        if self.find_local(name).is_some() {
            self.add(name, value);
        } else {
            proof {
                if self.parent is None {
                    assert(lookup(self.scopes().drop_first(), name@) is None);
                }
            }
            let mut p = self.parent.take().unwrap();
            p.set(name, value);
            self.parent = Some(p);
            proof {
                self.lemma_scopes_nonempty();
                assert(self.scopes() =~= seq![entries_map(self.locals@)] + p.scopes());
            }
        }
    }

    /// The value of `name` in the innermost scope that declares it.
    pub fn get(&self, name: &str) -> (r: Option<&V>)
        requires
            self.wf(),
        ensures
            r is Some <==> declared(self.scopes(), name@),
            r matches Some(v) ==> *v == lookup(self.scopes(), name@)->0,
        decreases self.depth(),
    {
        proof {
            self.lemma_scopes_nonempty();
        }
        match self.find_local(name) {
            Some(i) => Some(&self.locals[i].1),
            None => match &self.parent {
                Some(p) => p.get(name),
                None => {
                    assert(lookup(self.scopes().drop_first(), name@) is None);
                    None
                },
            },
        }
    }

    /// Leaves this scope: the enclosing context, if there is one.
    pub fn restore_parent(self) -> (r: Option<Context<V>>)
        requires
            self.wf(),
        ensures
            r is Some <==> self.scopes().len() > 1,
            r matches Some(p) ==> p.wf() && p.scopes() == self.scopes().drop_first(),
    {
        proof {
            self.lemma_scopes_nonempty();
        }
        if let Some(parent) = self.parent {
            Some(*parent)
        } else {
            None
        }
    }
}

/// A variable read right after it is declared in the innermost scope gives the
/// declared value; every other name reads as before.
pub proof fn read_after_define<V>(scopes: Seq<Map<Seq<char>, V>>, name: Seq<char>, value: V, other: Seq<char>)
    requires
        scopes.len() > 0,
    ensures
        lookup(define(scopes, name, value), name) == Some(value),
        other != name ==> lookup(define(scopes, name, value), other) == lookup(scopes, other),
{
    let d = define(scopes, name, value);
    if other != name && !scopes[0].dom().contains(other) {
        assert(d.drop_first() =~= scopes.drop_first());
    }
}

/// A declared variable read right after it is set gives the value set; every
/// other name reads as before, and the same names stay declared in the same
/// number of scopes.
pub proof fn read_after_assign<V>(scopes: Seq<Map<Seq<char>, V>>, name: Seq<char>, value: V, other: Seq<char>)
    requires
        declared(scopes, name),
    ensures
        lookup(assign(scopes, name, value), name) == Some(value),
        other != name ==> lookup(assign(scopes, name, value), other) == lookup(scopes, other),
        declared(assign(scopes, name, value), other) == declared(scopes, other),
        assign(scopes, name, value).len() == scopes.len(),
    decreases scopes.len(),
{
    let a = assign(scopes, name, value);
    if scopes[0].dom().contains(name) {
        read_after_define(scopes, name, value, other);
    } else {
        read_after_assign(scopes.drop_first(), name, value, other);
        assert(a.drop_first() =~= assign(scopes.drop_first(), name, value));
    }
}

/// Setting a variable changes one scope only: the innermost one that declares
/// it (scope `k`, where no scope before it declares the name) now maps the name
/// to the new value, and every other scope, including outer ones that declare
/// the same name, keeps its map.
pub proof fn assign_changes_only_innermost_declaration<V>(
    scopes: Seq<Map<Seq<char>, V>>,
    name: Seq<char>,
    value: V,
    k: int,
)
    requires
        0 <= k < scopes.len(),
        scopes[k].dom().contains(name),
        forall|i: int| 0 <= i < k ==> !(#[trigger] scopes[i]).dom().contains(name),
    ensures
        assign(scopes, name, value).len() == scopes.len(),
        assign(scopes, name, value)[k] == scopes[k].insert(name, value),
        forall|j: int|
            0 <= j < scopes.len() && j != k ==> #[trigger] assign(scopes, name, value)[j]
                == scopes[j],
    decreases k,
{
    let a = assign(scopes, name, value);
    if k == 0 {
        assert(a == scopes.update(0, scopes[0].insert(name, value)));
    } else {
        assert(!scopes[0].dom().contains(name));
        let r = scopes.drop_first();
        assert forall|i: int| 0 <= i < k - 1 implies !(#[trigger] r[i]).dom().contains(name) by {
            assert(r[i] == scopes[i + 1]);
        }
        assign_changes_only_innermost_declaration(r, name, value, k - 1);
        assert(a == seq![scopes[0]] + assign(r, name, value));
        assert forall|j: int| 0 <= j < scopes.len() && j != k implies #[trigger] a[j] == scopes[j] by {
            if j > 0 {
                assert(a[j] == assign(r, name, value)[j - 1]);
                assert(r[j - 1] == scopes[j]);
            }
        }
    }
}

/// A declared name has an innermost scope that declares it.
proof fn lemma_first_declaring<V>(scopes: Seq<Map<Seq<char>, V>>, name: Seq<char>) -> (k: int)
    requires
        declared(scopes, name),
    ensures
        0 <= k < scopes.len(),
        scopes[k].dom().contains(name),
        forall|i: int| 0 <= i < k ==> !(#[trigger] scopes[i]).dom().contains(name),
    decreases scopes.len(),
{
    if scopes[0].dom().contains(name) {
        0
    } else {
        let r = scopes.drop_first();
        let k = lemma_first_declaring(r, name);
        assert forall|i: int| 0 <= i < k + 1 implies !(#[trigger] scopes[i]).dom().contains(name) by {
            if i > 0 {
                assert(scopes[i] == r[i - 1]);
            }
        }
        k + 1
    }
}

/// Entering a fresh scope, declaring a variable there and leaving the scope
/// gives back the scopes as they were: the declaration vanishes with its scope.
pub proof fn leaving_scope_drops_its_declarations<V>(scopes: Seq<Map<Seq<char>, V>>, name: Seq<char>, value: V)
    ensures
        define(seq![Map::<Seq<char>, V>::empty()] + scopes, name, value).drop_first() == scopes,
{
    assert(define(seq![Map::<Seq<char>, V>::empty()] + scopes, name, value).drop_first() =~= scopes);
}

/// Whether two character sequences are equal.
fn same_chars(a: &Vec<char>, b: &Vec<char>) -> (r: bool)
    ensures
        r == (a@ == b@),
{
    if a.len() != b.len() {
        return false;
    }
    let n = a.len();
    let mut i: usize = 0;
    while i < n
        invariant
            n == a.len(),
            n == b.len(),
            i <= n,
            forall|j: int| 0 <= j < i ==> a@[j] == b@[j],
        decreases n - i,
    {
        if a[i] != b[i] {
            return false;
        }
        i = i + 1;
    }
    assert(a@ =~= b@);
    true
}

proof fn lemma_entries_map_at<V>(entries: Seq<(String, V)>, i: int)
    requires
        distinct_names(entries),
        0 <= i < entries.len(),
    ensures
        entries_map(entries).dom().contains(entries[i].0@),
        entries_map(entries)[entries[i].0@] == entries[i].1,
    decreases entries.len(),
{
    let d = entries.drop_last();
    if i < entries.len() - 1 {
        assert(d[i] == entries[i]);
        assert forall|a: int, b: int| 0 <= a < d.len() && 0 <= b < d.len() && a != b implies #[trigger] d[a].0@
            != #[trigger] d[b].0@ by {
            assert(d[a] == entries[a]);
            assert(d[b] == entries[b]);
        }
        lemma_entries_map_at(d, i);
        assert(entries[i].0@ != entries.last().0@);
    }
}

proof fn lemma_entries_map_absent<V>(entries: Seq<(String, V)>, name: Seq<char>)
    requires
        forall|j: int| 0 <= j < entries.len() ==> entries[j].0@ != name,
    ensures
        !entries_map(entries).dom().contains(name),
    decreases entries.len(),
{
    if entries.len() > 0 {
        let d = entries.drop_last();
        assert forall|j: int| 0 <= j < d.len() implies d[j].0@ != name by {
            assert(d[j] == entries[j]);
        }
        lemma_entries_map_absent(d, name);
    }
}

proof fn lemma_entries_map_replace<V>(entries: Seq<(String, V)>, i: int, e: (String, V))
    requires
        distinct_names(entries),
        0 <= i < entries.len(),
        e.0@ == entries[i].0@,
    ensures
        distinct_names(entries.update(i, e)),
        entries_map(entries.update(i, e)) == entries_map(entries).insert(e.0@, e.1),
    decreases entries.len(),
{
    let u = entries.update(i, e);
    assert forall|a: int, b: int| 0 <= a < u.len() && 0 <= b < u.len() && a != b implies #[trigger] u[a].0@
        != #[trigger] u[b].0@ by {
        assert(u[a].0@ == entries[a].0@);
        assert(u[b].0@ == entries[b].0@);
    }
    let d = entries.drop_last();
    assert forall|a: int, b: int| 0 <= a < d.len() && 0 <= b < d.len() && a != b implies #[trigger] d[a].0@
        != #[trigger] d[b].0@ by {
        assert(d[a] == entries[a]);
        assert(d[b] == entries[b]);
    }
    if i == entries.len() - 1 {
        assert(u.drop_last() =~= d);
        assert(entries_map(u) =~= entries_map(entries).insert(e.0@, e.1));
    } else {
        assert(u.drop_last() =~= d.update(i, e));
        lemma_entries_map_replace(d, i, e);
        assert(entries[i].0@ != entries.last().0@);
        assert(entries_map(u) =~= entries_map(entries).insert(e.0@, e.1));
    }
}

} // verus!
