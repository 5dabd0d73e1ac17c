//! Recipes: in-memory derivations, the expressions they bind, the shared
//! handle they are referred to by, and the builder that puts them together.
use crate::store_path::DEFAULT_OUT;
use std::rc::Rc;
use vstd::prelude::*;

verus! {

/// A target system.
#[allow(non_camel_case_types)]
#[derive(Clone, Copy, Debug, PartialEq, Eq, Hash, Structural)]
pub enum System {
    x86_64_linux,
    i686_linux,
}

pub open spec fn system_name(s: System) -> Seq<char> {
    match s {
        System::x86_64_linux => seq!['x', '8', '6', '-', '6', '4', '_', 'l', 'i', 'n', 'u', 'x'],
        System::i686_linux => seq!['i', '6', '8', '6', '_', 'l', 'i', 'n', 'u', 'x'],
    }
}

impl System {
    /// The system's tag: `x86-64_linux` or `i686_linux`.
    pub fn name(&self) -> (r: String)
        ensures
            r@ == system_name(*self),
    {
        proof {
            reveal_strlit("x86-64_linux");
            reveal_strlit("i686_linux");
        }
        match self {
            System::x86_64_linux => String::from_str("x86-64_linux"),
            System::i686_linux => String::from_str("i686_linux"),
        }
    }
}

/// The system this store builds for.
pub fn current_system() -> (r: System)
    ensures
        r == System::x86_64_linux,
{
    System::x86_64_linux
}

/// What a recipe binds an input, its builder or an argument to.
#[derive(Debug)]
pub enum Expr {
    Str(String),
    Path(String),
    Drv(DrvPath),
    Array(Vec<Expr>),
}

/// An output of another recipe, with an optional suffix appended to its path.
#[derive(Debug)]
pub struct DrvPath {
    pub drv: LazyDrv,
    pub out: String,
    pub suff: Option<String>,
}

/// A shared handle to a recipe; the recipe is made once, when the handle is.
#[derive(Clone, Debug)]
pub struct LazyDrv {
    pub drv: Rc<Drv>,
}

/// Anything that can be made into a recipe.
pub trait IntoDrv {
    fn into_drv(self) -> Drv;
}

/// A recipe.
#[derive(Debug)]
pub struct Drv {
    pub name: String,
    pub outputs: Vec<String>,
    pub fixed_hash: Option<crate::hash::Hash>,
    pub system: System,
    pub inputs: Vec<(String, Expr)>,
    pub builder: Expr,
    pub args: Vec<Expr>,
}

impl IntoDrv for Drv {
    fn into_drv(self) -> Drv {
        self
    }
}

impl LazyDrv {
    pub fn new<T: IntoDrv>(component: T) -> (r: LazyDrv) {
        LazyDrv { drv: Rc::new(component.into_drv()) }
    }

    /// The recipe behind the handle.
    pub fn derive(&self) -> (r: Rc<Drv>)
        ensures
            *r == *self.drv,
    {
        Rc::clone(&self.drv)
    }

    /// The output `out` of this recipe.
    pub fn out(&self, out: &str) -> (r: DrvPath)
        ensures
            r.out@ == out@,
            r.suff is None,
            *r.drv.drv == *self.drv,
    {
        DrvPath::new(self).out(out)
    }

    /// The default output of this recipe, with `suff` appended to its path.
    pub fn suff(&self, suff: &str) -> (r: DrvPath)
        ensures
            r.out@ == DEFAULT_OUT@,
            r.suff is Some && r.suff->0@ == suff@,
            *r.drv.drv == *self.drv,
    {
        DrvPath::new(self).suff(suff)
    }
}

impl DrvPath {
    /// The default output of `drv`.
    pub fn new(drv: &LazyDrv) -> (r: DrvPath)
        ensures
            r.out@ == DEFAULT_OUT@,
            r.suff is None,
            *r.drv.drv == *drv.drv,
    {
        DrvPath { drv: LazyDrv { drv: Rc::clone(&drv.drv) }, out: DEFAULT_OUT.to_owned(), suff: None }
    }

    pub fn out(self, out: &str) -> (r: DrvPath)
        ensures
            r.out@ == out@,
            r.suff == self.suff,
            r.drv == self.drv,
    {
        DrvPath { out: out.to_owned(), ..self }
    }

    pub fn suff(self, suff: &str) -> (r: DrvPath)
        ensures
            r.suff is Some && r.suff->0@ == suff@,
            r.out == self.out,
            r.drv == self.drv,
    {
        DrvPath { suff: Some(suff.to_owned()), ..self }
    }
}

/// `s` without the entries whose key is `k`.
pub open spec fn without_key<V>(s: Seq<(String, V)>, k: Seq<char>) -> Seq<(String, V)>
    decreases s.len(),
{
    if s.len() == 0 {
        s
    } else {
        let prev = without_key(s.drop_last(), k);
        if s.last().0@ == k {
            prev
        } else {
            prev.push(s.last())
        }
    }
}

/// `s` with `k` bound to `v`, replacing an earlier binding of `k`.
pub open spec fn put<V>(s: Seq<(String, V)>, k: String, v: V) -> Seq<(String, V)> {
    without_key(s, k@).push((k, v))
}

/// Binds `key` to `value` in an association list, replacing an earlier binding.
pub fn put_entry<V>(entries: &mut Vec<(String, V)>, key: String, value: V)
    ensures
        final(entries)@ == put(old(entries)@, key, value),
{
    let ghost orig = entries@;
    let mut kept: Vec<(String, V)> = Vec::new();
    while entries.len() > 0
        invariant
            entries@.len() <= orig.len(),
            entries@ == orig.subrange(orig.len() - entries@.len(), orig.len() as int),
            kept@ == without_key(orig.subrange(0, orig.len() - entries@.len()), key@),
        decreases entries@.len(),
    {
        let ghost i = orig.len() - entries@.len();
        let e = entries.remove(0);
        assert(e == orig[i]);
        assert(orig.subrange(0, i + 1).drop_last() =~= orig.subrange(0, i));
        assert(orig.subrange(0, i + 1).last() == e);
        if e.0 != key {
            kept.push(e);
        }
        assert(entries@ =~= orig.subrange(orig.len() - entries@.len(), orig.len() as int));
    }
    assert(orig.subrange(0, orig.len() as int) =~= orig);
    kept.push((key, value));
    *entries = kept;
}

/// Builds a recipe field by field.
pub struct DrvBuilder {
    pub name: Option<String>,
    pub outputs: Vec<String>,
    pub fixed_hash: Option<crate::hash::Hash>,
    pub system: Option<System>,
    pub inputs: Vec<(String, Expr)>,
    pub builder: Option<Expr>,
    pub args: Vec<Expr>,
}

impl DrvBuilder {
    /// A builder with nothing set.
    pub fn new() -> (r: DrvBuilder)
        ensures
            r.name is None,
            r.outputs@.len() == 0,
            r.fixed_hash is None,
            r.system is None,
            r.inputs@.len() == 0,
            r.builder is None,
            r.args@.len() == 0,
    {
        DrvBuilder {
            name: None,
            outputs: Vec::new(),
            fixed_hash: None,
            system: None,
            inputs: Vec::new(),
            builder: None,
            args: Vec::new(),
        }
    }

    pub fn name(self, name: &str) -> (r: DrvBuilder)
        ensures
            r.name is Some && r.name->0@ == name@,
            r.outputs == self.outputs,
            r.fixed_hash == self.fixed_hash,
            r.system == self.system,
            r.inputs == self.inputs,
            r.builder == self.builder,
            r.args == self.args,
    {
        DrvBuilder { name: Some(name.to_owned()), ..self }
    }

    /// Adds an output; without any, the recipe has the single output `out`.
    pub fn out(self, out: &str) -> (r: DrvBuilder)
        ensures
            r.outputs@.len() == self.outputs@.len() + 1,
            r.outputs@.drop_last() == self.outputs@,
            r.outputs@.last()@ == out@,
            r.name == self.name,
            r.fixed_hash == self.fixed_hash,
            r.system == self.system,
            r.inputs == self.inputs,
            r.builder == self.builder,
            r.args == self.args,
    {
        let mut s = self;
        let ghost before = s.outputs@;
        s.outputs.push(out.to_owned());
        assert(s.outputs@.drop_last() =~= before);
        s
    }

    pub fn fixed_hash(self, hash: crate::hash::Hash) -> (r: DrvBuilder)
        ensures
            r.fixed_hash == Some(hash),
            r.name == self.name,
            r.outputs == self.outputs,
            r.system == self.system,
            r.inputs == self.inputs,
            r.builder == self.builder,
            r.args == self.args,
    {
        DrvBuilder { fixed_hash: Some(hash), ..self }
    }

    pub fn system(self, system: System) -> (r: DrvBuilder)
        ensures
            r.system == Some(system),
            r.name == self.name,
            r.outputs == self.outputs,
            r.fixed_hash == self.fixed_hash,
            r.inputs == self.inputs,
            r.builder == self.builder,
            r.args == self.args,
    {
        DrvBuilder { system: Some(system), ..self }
    }

    /// Binds input `key`, replacing an earlier binding of it.
    pub fn input(self, key: &str, expr: Expr) -> (r: DrvBuilder)
        ensures
            r.inputs@ == put(self.inputs@, r.inputs@.last().0, expr),
            r.inputs@.last().0@ == key@,
            r.name == self.name,
            r.outputs == self.outputs,
            r.fixed_hash == self.fixed_hash,
            r.system == self.system,
            r.builder == self.builder,
            r.args == self.args,
    {
        let mut s = self;
        let k = key.to_owned();
        let ghost kk = k;
        put_entry(&mut s.inputs, k, expr);
        s
    }

    /// Binds input `key` if `expr` is given.
    pub fn input_if(self, key: &str, expr: Option<Expr>) -> (r: DrvBuilder)
        ensures
            expr is None ==> r.inputs == self.inputs,
            expr is Some ==> r.inputs@ == put(self.inputs@, r.inputs@.last().0, expr->0)
                && r.inputs@.last().0@ == key@,
            r.name == self.name,
            r.outputs == self.outputs,
            r.fixed_hash == self.fixed_hash,
            r.system == self.system,
            r.builder == self.builder,
            r.args == self.args,
    {
        match expr {
            Some(e) => self.input(key, e),
            None => self,
        }
    }

    /// Binds input `key` to `"1"` if `v` holds.
    pub fn input_bool(self, key: &str, v: bool) -> (r: DrvBuilder)
        ensures
            !v ==> r.inputs == self.inputs,
            v ==> r.inputs@ == put(self.inputs@, r.inputs@.last().0, r.inputs@.last().1),
            v ==> r.inputs@.last().0@ == key@ && (r.inputs@.last().1 matches Expr::Str(s) && s@
                == seq!['1']),
            r.name == self.name,
            r.outputs == self.outputs,
            r.fixed_hash == self.fixed_hash,
            r.system == self.system,
            r.builder == self.builder,
            r.args == self.args,
    {
        proof {
            reveal_strlit("1");
        }
        if v {
            self.input(key, Expr::Str(String::from_str("1")))
        } else {
            self
        }
    }

    pub fn builder(self, builder: Expr) -> (r: DrvBuilder)
        ensures
            r.builder == Some(builder),
            r.name == self.name,
            r.outputs == self.outputs,
            r.fixed_hash == self.fixed_hash,
            r.system == self.system,
            r.inputs == self.inputs,
            r.args == self.args,
    {
        DrvBuilder { builder: Some(builder), ..self }
    }

    pub fn arg(self, arg: Expr) -> (r: DrvBuilder)
        ensures
            r.args@ == self.args@.push(arg),
            r.name == self.name,
            r.outputs == self.outputs,
            r.fixed_hash == self.fixed_hash,
            r.system == self.system,
            r.inputs == self.inputs,
            r.builder == self.builder,
    {
        let mut s = self;
        s.args.push(arg);
        s
    }

    /// The recipe; a name and a builder must have been given. Without
    /// outputs it has the single output `out`; without a system, the
    /// current one.
    pub fn build(self) -> (r: Drv)
        requires
            self.name is Some,
            self.builder is Some,
        ensures
            r.name == self.name->0,
            self.outputs@.len() > 0 ==> r.outputs == self.outputs,
            self.outputs@.len() == 0 ==> r.outputs@.len() == 1 && r.outputs@[0]@ == DEFAULT_OUT@,
            r.fixed_hash == self.fixed_hash,
            r.system == match self.system {
                Some(s) => s,
                None => System::x86_64_linux,
            },
            r.inputs == self.inputs,
            r.builder == self.builder->0,
            r.args == self.args,
    {
        let outputs = if self.outputs.len() == 0 {
            let mut v: Vec<String> = Vec::new();
            v.push(DEFAULT_OUT.to_owned());
            v
        } else {
            self.outputs
        };
        let system = match self.system {
            Some(s) => s,
            None => current_system(),
        };
        Drv {
            name: self.name.unwrap(),
            outputs,
            fixed_hash: self.fixed_hash,
            system,
            inputs: self.inputs,
            builder: self.builder.unwrap(),
            args: self.args,
        }
    }
}

impl Default for DrvBuilder {
    fn default() -> (r: DrvBuilder)
        ensures
            r.name is None && r.outputs@.len() == 0 && r.inputs@.len() == 0 && r.args@.len() == 0,
    {
        DrvBuilder::new()
    }
}

} // verus!
