//! A lexical scope for a future evaluator: `resolve` looks a name up in the
//! current scope, else defers to the parent scope, else reports nothing.

use vstd::prelude::*;

use crate::gg;

verus! {

/// An evaluation failure.
#[derive(Debug)]
pub enum Error {
    FunctionFromGraph(String),
}

/// A host function a name can resolve to. `Always` ignores its argument and
/// returns the captured value.
pub enum HostFn {
    Always(gg::Value),
}

/// What a name resolves to: a plain value or a host function.
pub enum ResolvedValue {
    Value(gg::Value),
    Function(HostFn),
}

/// A scope: an optional parent and the bindings made in this scope, most
/// recent last.
pub struct Scope {
    parent: Option<Box<Scope>>,
    values: Vec<(String, ResolvedValue)>,
}

/// The most recent local binding of `name`, if any.
pub closed spec fn find_local(vs: Seq<(String, ResolvedValue)>, name: Seq<char>) -> Option<
    ResolvedValue,
>
    decreases vs.len(),
{
    if vs.len() == 0 {
        None
    } else if vs.last().0@ == name {
        Some(vs.last().1)
    } else {
        find_local(vs.drop_last(), name)
    }
}

/// What `name` resolves to: the local binding if any, else the parent's
/// resolution, else nothing.
pub closed spec fn scope_resolve(s: Scope, name: Seq<char>) -> Option<ResolvedValue>
    decreases s,
{
    match find_local(s.values@, name) {
        Some(v) => Some(v),
        None => match s.parent {
            Some(p) => scope_resolve(*p, name),
            None => None,
        },
    }
}

/// Relies on std's `PartialEq` for `str`: character-for-character equality.
#[verifier::external_body]
fn str_eq(a: &str, b: &str) -> (r: bool)
    ensures
        r == (a@ == b@),
{
    a == b
}

impl Scope {
    /// A fresh scope with no bindings of its own.
    pub fn new(parent: Option<Box<Scope>>) -> (r: Scope)
        ensures
            forall|n: Seq<char>|
                #[trigger] scope_resolve(r, n) == (match old_parent_spec(parent) {
                    Some(p) => scope_resolve(p, n),
                    None => None,
                }),
    {
        let ghost psnap = parent;
        let r = Scope { parent, values: Vec::new() };
        proof {
            assert forall|n: Seq<char>|
                #[trigger] scope_resolve(r, n) == (match old_parent_spec(psnap) {
                    Some(p) => scope_resolve(p, n),
                    None => None,
                }) by {
                assert(r.values@.len() == 0);
                assert(find_local(r.values@, n) is None);
            }
        }
        r
    }

    /// Resolve a name: this scope's most recent binding, else the parent's.
    pub fn resolve(&self, name: &str) -> (r: Option<&ResolvedValue>)
        ensures
            (match r {
                Some(v) => scope_resolve(*self, name@) == Some(*v),
                None => scope_resolve(*self, name@) is None,
            }),
        decreases *self,
    {
        let n = self.values.len();
        proof {
            assert(self.values@.take(n as int) =~= self.values@);
        }
        let mut i: usize = n;
        while i > 0
            invariant
                i <= n,
                n == self.values@.len(),
                find_local(self.values@.take(i as int), name@) == find_local(
                    self.values@,
                    name@,
                ),
            decreases i,
        {
            i = i - 1;
            proof {
                assert(self.values@.take(i + 1).drop_last() =~= self.values@.take(i as int));
                assert(self.values@.take(i + 1).last() == self.values@[i as int]);
            }
            if str_eq(self.values[i].0.as_str(), name) {
                return Some(&self.values[i].1);
            }
        }
        proof {
            assert(self.values@.take(0) =~= Seq::<(String, ResolvedValue)>::empty());
            assert(find_local(self.values@, name@) is None);
        }
        match &self.parent {
            Some(p) => p.resolve(name),
            None => None,
        }
    }

    /// Bind a name in this scope, shadowing any earlier binding of it.
    pub fn insert(&mut self, name: String, rval: ResolvedValue)
        ensures
            forall|n: Seq<char>|
                #[trigger] scope_resolve(*final(self), n) == (if n == name@ {
                    Some(rval)
                } else {
                    scope_resolve(*old(self), n)
                }),
    {
        let ghost namev = name@;
        let ghost rsnap = rval;
        let ghost pre = self.values@;
        self.values.push((name, rval));
        proof {
            assert(self.values@.drop_last() =~= pre);
            assert forall|n: Seq<char>|
                #[trigger] scope_resolve(*self, n) == (if n == namev {
                    Some(rsnap)
                } else {
                    scope_resolve(*old(self), n)
                }) by {
                assert(self.values@.last() == (self.values@.last().0, rsnap));
            }
        }
    }
}

/// The parent as a spec value.
pub open spec fn old_parent_spec(p: Option<Box<Scope>>) -> Option<Scope> {
    match p {
        Some(b) => Some(*b),
        None => None,
    }
}

/// The host function that returns `value` for every argument.
pub fn always(value: gg::Value) -> (f: HostFn)
    ensures
        f == HostFn::Always(value),
{
    HostFn::Always(value)
}

/// Apply a host function to an argument.
pub fn apply(f: HostFn, arg: gg::Value) -> (r: gg::Value)
    ensures
        f == HostFn::Always(r),
{
    let unused = arg;
    match f {
        HostFn::Always(v) => v,
    }
}

} // verus!
