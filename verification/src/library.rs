//! The known contexts, and the check of their instances.

use crate::ast::{
    ctx_param_models, decl_models, ContextName, ContextNameV, Decl, DeclV, ExprKind, ExprKindV, SalContext,
    SalContextV, TypeDef, TypeDefV,
};
use crate::env::{
    binding_views, binds, context_views, find_instance, find_source, inst_views, instance_at, no_entries, source_at,
    symbol_views, text3, Bind, Binding, BindingV, Entry, InstV, Instance, SymbolsV,
};
use crate::error::SalError;
use crate::judgement::{c_context, c_decl, c_param, judge, World, CEV, CR};
use crate::lexer::{characters, sized};
use crate::num::dec;
use crate::parser::{context_of, expr_of, parse_context, parse_expr};
use crate::prelude::{build, prelude_inst};
use crate::span::Span;
use crate::text::{own, put};
use crate::wfc::{CheckError, Checker};
use vstd::prelude::*;

verus! {

/// Whether the first `j` steps are all that the declaration of an item of a context takes. Its
/// parameters come first, then its declarations. A datatype takes one step, and one more for each
/// constructor; a constant with a value takes two.
pub open spec fn done(c: SalContextV, i: nat, j: nat) -> bool {
    if i < c.params.len() {
        j >= 1
    } else if i - c.params.len() < c.decls.len() {
        match c.decls[i - c.params.len()] {
            DeclV::Type { name, def } => match def {
                Some(TypeDefV::Datatype(cs)) => j > cs.len(),
                _ => j >= 1,
            },
            DeclV::Constant { name, args, ty, value } => if value is Some {
                j >= 2
            } else {
                j >= 1
            },
            _ => j >= 1,
        }
    } else {
        true
    }
}

fn is_done(c: &SalContext, i: usize, j: usize) -> (r: bool)
    ensures
        r == done(c.model(), i as nat, j as nat),
{
    let ghost m = c.model();
    if i < c.params.len() {
        j >= 1
    } else if i - c.params.len() < c.decls.len() {
        let at: usize = i - c.params.len();
        proof {
            assert(decl_models(c.decls@)[at as int] == c.decls@[at as int].model());
        }
        match &c.decls[at] {
            Decl::Type { name, def } => match def {
                Some(x) => {
                    let ghost xm = x.model();
                    match x {
                        TypeDef::Datatype(cs) => j > cs.len(),
                        _ => j >= 1,
                    }
                },
                None => j >= 1,
            },
            Decl::Constant { name, args, ty, value } => if value.is_some() {
                j >= 2
            } else {
                j >= 1
            },
            _ => j >= 1,
        }
    } else {
        true
    }
}

/// The entries that a step adds.
#[verifier::opaque]
pub open spec fn item(
    w: World,
    c: SalContextV,
    i: nat,
    j: nat,
) -> CR<SymbolsV> {
    let g = judge(w, usize::MAX as nat);
    let key = w.insts[w.here as int].key;
    let types = w.insts[w.here as int].bindings;
    if i < c.params.len() {
        c_param(w, c.params[i as int], key, types, Seq::empty(), g)
    } else {
        c_decl(w, c.decls[i - c.params.len()], key, j, Seq::empty(), g)
    }
}

/// The instances with entries added to one.
pub open spec fn entered(v: Seq<InstV>, here: nat, es: SymbolsV) -> Seq<InstV> {
    v.update(here as int, InstV { symbols: v[here as int].symbols + es, ..v[here as int] })
}

/// The instances with a new one, without entries, that is being checked.
pub open spec fn opened(
    v: Seq<InstV>,
    name: Seq<char>,
    key: Seq<char>,
    bindings: Seq<(Seq<char>, BindingV)>,
    from: nat,
) -> Seq<InstV> {
    v.push(InstV { name, key, bindings, from, symbols: Seq::empty(), open: true })
}

/// The instances with one that is being checked again.
pub open spec fn reopened(v: Seq<InstV>, here: nat) -> Seq<InstV> {
    v.update(here as int, InstV { open: true, ..v[here as int] })
}

/// The instances with one that is no longer being checked.
pub open spec fn finished(v: Seq<InstV>, here: nat) -> Seq<InstV> {
    v.update(here as int, InstV { open: false, ..v[here as int] })
}

/// Checks an instance of the context `d` step by step, from step `j` of item `i` on. A step that
/// needs another instance is taken again once that instance is checked. The instances at the end,
/// and whether the check succeeds; it is given up after `fuel` steps.
#[verifier::opaque]
pub open spec fn run(
    lib: Seq<SalContextV>,
    insts: Seq<InstV>,
    here: nat,
    d: nat,
    i: nat,
    j: nat,
    fuel: nat,
) -> (Seq<InstV>, CR<()>)
    decreases fuel,
{
    if fuel == 0 {
        (insts, Err(CEV::Deep))
    } else if i >= lib[d as int].params.len() + lib[d as int].decls.len() {
        (insts, Ok(()))
    } else if done(lib[d as int], i, j) {
        run(lib, insts, here, d, i + 1, 0, (fuel - 1) as nat)
    } else {
        match item(World { insts, lib, here }, lib[d as int], i, j) {
            Ok(es) => run(lib, entered(insts, here, es), here, d, i, j + 1, (fuel - 1) as nat),
            Err(CEV::Need(n, key, given)) => if n >= lib.len() {
                (insts, Err(CEV::Missing(key)))
            } else {
                match instantiated(lib, insts, n, key, given, here, (fuel - 1) as nat) {
                    (after, Ok(_id)) => run(lib, after, here, d, i, j, (fuel - 1) as nat),
                    (after, Err(e)) => (after, Err(e)),
                }
            },
            Err(e) => (insts, Err(e)),
        }
    }
}

/// Finds the instance of the context `d` with a key, or makes it, and checks it unless that has been
/// done: an instance with entries, or of a context without declarations, is not checked again.
#[verifier::opaque]
pub open spec fn instantiated(
    lib: Seq<SalContextV>,
    insts: Seq<InstV>,
    d: nat,
    key: Seq<char>,
    given: Seq<(Seq<char>, BindingV)>,
    from: nat,
    fuel: nat,
) -> (Seq<InstV>, CR<nat>)
    decreases fuel,
{
    if fuel == 0 {
        (insts, Err(CEV::Deep))
    } else {
        let (id, all) = match instance_at(insts, key, 1) {
            Some(id) => (id, reopened(insts, id)),
            None => (insts.len(), opened(insts, lib[d as int].name.name, key, given, from)),
        };
        if id < insts.len() && insts[id as int].symbols.len() > 0 {
            (insts, Ok(id))
        } else if lib[d as int].decls.len() == 0 {
            (finished(all, id), Ok(id))
        } else {
            match run(lib, all, id, d, 0, 0, (fuel - 1) as nat) {
                (after, Ok(())) => (finished(after, id), Ok(id)),
                (after, Err(e)) => (finished(after, id), Err(e)),
            }
        }
    }
}

/// The instances stay, under their keys, and more may follow.
pub open spec fn kept(v: Seq<InstV>, w: Seq<InstV>) -> bool {
    v.len() <= w.len() && forall|k: int| 0 <= k < v.len() ==> (#[trigger] w[k]).key == v[k].key
}

proof fn run_keeps(lib: Seq<SalContextV>, insts: Seq<InstV>, here: nat, d: nat, i: nat, j: nat, fuel: nat)
    requires
        here < insts.len(),
    ensures
        kept(insts, run(lib, insts, here, d, i, j, fuel).0),
    decreases fuel, 0nat,
{
    reveal_with_fuel(run, 2);
    reveal_with_fuel(instantiated, 2);
    if fuel > 0 && i < lib[d as int].params.len() + lib[d as int].decls.len() {
        let less = (fuel - 1) as nat;
        if done(lib[d as int], i, j) {
            run_keeps(lib, insts, here, d, i + 1, 0, less);
        } else {
            match item(World { insts, lib, here }, lib[d as int], i, j) {
                Ok(es) => {
                    run_keeps(lib, entered(insts, here, es), here, d, i, j + 1, less);
                },
                Err(CEV::Need(n, key, given)) => {
                    if n < lib.len() {
                        instantiated_keeps(lib, insts, n, key, given, here, less);
                        let after = instantiated(lib, insts, n, key, given, here, less).0;
                        run_keeps(lib, after, here, d, i, j, less);
                    }
                },
                Err(_) => {},
            }
        }
    }
}

proof fn instantiated_keeps(
    lib: Seq<SalContextV>,
    insts: Seq<InstV>,
    d: nat,
    key: Seq<char>,
    given: Seq<(Seq<char>, BindingV)>,
    from: nat,
    fuel: nat,
)
    ensures
        kept(insts, instantiated(lib, insts, d, key, given, from, fuel).0),
    decreases fuel, 1nat,
{
    reveal_with_fuel(instantiated, 2);
    reveal_with_fuel(run, 2);
    instance_found(insts, key, 1);
    if fuel > 0 {
        let (id, all) = match instance_at(insts, key, 1) {
            Some(id) => (id, reopened(insts, id)),
            None => (insts.len(), opened(insts, lib[d as int].name.name, key, given, from)),
        };
        run_keeps(lib, all, id, d, 0, 0, (fuel - 1) as nat);
    }
}

proof fn instance_found(v: Seq<InstV>, key: Seq<char>, i: int)
    requires
        0 <= i,
    ensures
        match instance_at(v, key, i) {
            Some(id) => i <= id < v.len() && v[id as int].key == key && forall|k: int|
                i <= k < id ==> (#[trigger] v[k]).key != key,
            None => forall|k: int| i <= k < v.len() ==> (#[trigger] v[k]).key != key,
        },
    decreases v.len() - i,
{
    if i < v.len() && v[i].key != key {
        instance_found(v, key, i + 1);
    }
}

/// A context that has been checked is not checked again: asking for its instance once more changes nothing and gives
/// the same instance. It is one that declares nothing, or whose declarations have left entries.
pub proof fn checked_once(
    lib: Seq<SalContextV>,
    insts: Seq<InstV>,
    d: nat,
    key: Seq<char>,
    given: Seq<(Seq<char>, BindingV)>,
    from: nat,
    fuel: nat,
    given2: Seq<(Seq<char>, BindingV)>,
    from2: nat,
    fuel2: nat,
)
    requires
        insts.len() > 0,
        fuel2 > 0,
        ({
            let m = instantiated(lib, insts, d, key, given, from, fuel);
            m.1 matches Ok(id) && (lib[d as int].decls.len() == 0 || m.0[id as int].symbols.len() > 0)
        }),
    ensures
        ({
            let m = instantiated(lib, insts, d, key, given, from, fuel);
            instantiated(lib, m.0, d, key, given2, from2, fuel2) == m
        }),
{
    let m = instantiated(lib, insts, d, key, given, from, fuel);
    let after = m.0;
    let id = m.1->Ok_0;
    reveal_with_fuel(instantiated, 2);
    reveal_with_fuel(run, 2);
    instance_found(insts, key, 1);
    instance_found(after, key, 1);
    let (at, all) = match instance_at(insts, key, 1) {
        Some(id) => (id, reopened(insts, id)),
        None => (insts.len(), opened(insts, lib[d as int].name.name, key, given, from)),
    };
    if id < insts.len() && insts[id as int].symbols.len() > 0 {
    } else {
        run_keeps(lib, all, at, d, 0, 0, (fuel - 1) as nat);
        assert(after[id as int].key == all[id as int].key);
        assert(forall|k: int| 0 <= k < all.len() ==> (#[trigger] after[k]).key == all[k].key);
        assert(instance_at(after, key, 1) == Some(id));
        assert(!after[id as int].open);
        assert(finished(reopened(after, id), id) =~= after);
    }
}

/// A context that has been added is the one that its name stands for, and the others are found as before.
pub proof fn added_found(lib: Seq<SalContextV>, c: SalContextV, name: Seq<char>)
    ensures
        source_at(lib.push(c), name) == if c.name.name == name {
            Some(lib.len())
        } else {
            source_at(lib, name)
        },
{
    assert(lib.push(c).drop_last() =~= lib);
}

/// The instances once a context is checked with its parameters left open, and the number of its instance.
#[verifier::opaque]
pub open spec fn checked(lib: Seq<SalContextV>, insts: Seq<InstV>, d: nat) -> (Seq<InstV>, CR<nat>) {
    instantiated(lib, insts, d, lib[d as int].name.name, Seq::empty(), 0, usize::MAX as nat)
}

/// Checking a context once more changes nothing and gives the same instance, where it declares nothing or its
/// declarations have left entries.
pub proof fn check_settles(lib: Seq<SalContextV>, insts: Seq<InstV>, d: nat)
    requires
        insts.len() > 0,
        checked(lib, insts, d).1 matches Ok(id) && (lib[d as int].decls.len() == 0 || checked(
            lib,
            insts,
            d,
        ).0[id as int].symbols.len() > 0),
    ensures
        checked(lib, checked(lib, insts, d).0, d) == checked(lib, insts, d),
{
    reveal(checked);
    let none = Seq::<(Seq<char>, BindingV)>::empty();
    let most = usize::MAX as nat;
    checked_once(lib, insts, d, lib[d as int].name.name, none, 0, most, none, 0, most);
}

/// The known contexts and their instances.
pub struct SalEnv {
    /// The contexts.
    pub lib: Vec<SalContext>,
    /// The instances; the first is the prelude.
    pub instances: Vec<Instance>,
}

impl SalEnv {
    fn enter(&mut self, here: usize, es: Vec<(String, Entry)>)
        requires
            here < old(self).instances@.len(),
        ensures
            final(self).lib == old(self).lib,
            inst_views(final(self).instances@) == entered(
                inst_views(old(self).instances@),
                here as nat,
                symbol_views(es@),
            ),
            final(self).instances@.len() == old(self).instances@.len(),
    {
        let ghost v = inst_views(self.instances@);
        let mut inst = self.instances.remove(here);
        let ghost s = inst.symbols@;
        let ghost e = es@;
        assert(v[here as int].symbols == symbol_views(s));
        let mut es = es;
        inst.symbols.append(&mut es);
        assert(symbol_views(inst.symbols@) =~= symbol_views(s) + symbol_views(e));
        self.instances.insert(here, inst);
        assert(inst_views(self.instances@) =~= entered(v, here as nat, symbol_views(e)));
    }

    fn open(&mut self, name: String, key: String, given: Vec<(String, Binding)>, from: usize)
        ensures
            final(self).lib == old(self).lib,
            inst_views(final(self).instances@) == opened(
                inst_views(old(self).instances@),
                name@,
                key@,
                binding_views(given@),
                from as nat,
            ),
            final(self).instances@.len() == old(self).instances@.len() + 1,
    {
        let ghost v = inst_views(self.instances@);
        let inst = Instance { name, key, bindings: given, from, symbols: no_entries(), open: true };
        let ghost m = inst.model();
        self.instances.push(inst);
        assert(inst_views(self.instances@) =~= v.push(m));
    }

    fn reopen(&mut self, here: usize)
        requires
            here < old(self).instances@.len(),
        ensures
            final(self).lib == old(self).lib,
            inst_views(final(self).instances@) == reopened(inst_views(old(self).instances@), here as nat),
            final(self).instances@.len() == old(self).instances@.len(),
    {
        let ghost v = inst_views(self.instances@);
        let mut inst = self.instances.remove(here);
        assert(v[here as int] == inst.model());
        inst.open = true;
        self.instances.insert(here, inst);
        assert(inst_views(self.instances@) =~= reopened(v, here as nat));
    }

    fn finish(&mut self, here: usize)
        requires
            here < old(self).instances@.len(),
        ensures
            final(self).lib == old(self).lib,
            inst_views(final(self).instances@) == finished(inst_views(old(self).instances@), here as nat),
            final(self).instances@.len() == old(self).instances@.len(),
    {
        let ghost v = inst_views(self.instances@);
        let mut inst = self.instances.remove(here);
        assert(v[here as int] == inst.model());
        inst.open = false;
        self.instances.insert(here, inst);
        assert(inst_views(self.instances@) =~= finished(v, here as nat));
    }

    /// One step of the check of an instance.
    fn step(&self, here: usize, d: usize, i: usize, j: usize) -> (r: Result<
        Vec<(String, Entry)>,
        CheckError,
    >)
        requires
            here < self.instances@.len(),
            d < self.lib@.len(),
            i < self.lib@[d as int].params@.len() + self.lib@[d as int].decls@.len(),
        ensures
            match (
                r,
                item(
                    (World {
                        insts: inst_views(self.instances@),
                        lib: context_views(self.lib@),
                        here: here as nat,
                    }),
                    context_views(self.lib@)[d as int],
                    i as nat,
                    j as nat,
                ),
            ) {
                (Ok(v), Ok(m)) => symbol_views(v@) == m,
                (Err(e), Err(f)) => e.model() == f,
                _ => false,
            },
    {
        let c = Checker { insts: &self.instances, lib: &self.lib, here };
        let mut scope: Vec<Bind> = Vec::new();
        let ghost cm = self.lib@[d as int].model();
        proof {
            reveal(item);
            assert(binds(scope@) =~= Seq::empty());
            assert(context_views(self.lib@)[d as int] == cm);
            assert(inst_views(self.instances@)[here as int] == self.instances@[here as int].model());
        }
        if i < self.lib[d].params.len() {
            assert(ctx_param_models(self.lib@[d as int].params@)[i as int]
                == self.lib@[d as int].params@[i as int].model());
            c.param(&self.lib[d].params[i], &self.instances[here].key, &self.instances[here].bindings, &mut scope, usize::MAX)
        } else {
            let at: usize = i - self.lib[d].params.len();
            assert(decl_models(self.lib@[d as int].decls@)[at as int]
                == self.lib@[d as int].decls@[at as int].model());
            c.decl(&self.lib[d].decls[at], &self.instances[here].key, j, &mut scope, usize::MAX)
        }
    }

    fn check_steps(&mut self, here: usize, d: usize, fuel: usize) -> (r: Result<
        (),
        CheckError,
    >)
        requires
            here < old(self).instances@.len(),
            d < old(self).lib@.len(),
        ensures
            final(self).lib == old(self).lib,
            final(self).instances@.len() >= old(self).instances@.len(),
            inst_views(final(self).instances@) == run(
                context_views(old(self).lib@),
                inst_views(old(self).instances@),
                here as nat,
                d as nat,
                0,
                0,
                fuel as nat,
            ).0,
            match (
                r,
                run(
                    context_views(old(self).lib@),
                    inst_views(old(self).instances@),
                    here as nat,
                    d as nat,
                    0,
                    0,
                    fuel as nat,
                ).1,
            ) {
                (Ok(_), Ok(_)) => true,
                (Err(e), Err(f)) => e.model() == f,
                _ => false,
            },
        decreases fuel, 0nat,
    {
        let ghost lib = context_views(self.lib@);
        let ghost whole = run(
            lib,
            inst_views(self.instances@),
            here as nat,
            d as nat,
            0,
            0,
            fuel as nat,
        );
        let mut left: usize = fuel;
        let mut i: usize = 0;
        let mut j: usize = 0;
        loop
            invariant
                self.lib == old(self).lib,
                lib == context_views(self.lib@),
                here < self.instances@.len(),
                d < self.lib@.len(),
                self.instances@.len() >= old(self).instances@.len(),
                left <= fuel,
                i + left <= usize::MAX,
                j + left <= usize::MAX,
                run(
                    lib,
                    inst_views(self.instances@),
                    here as nat,
                    d as nat,
                    i as nat,
                    j as nat,
                    left as nat,
                ) == whole,
                whole == run(
                    context_views(old(self).lib@),
                    inst_views(old(self).instances@),
                    here as nat,
                    d as nat,
                    0,
                    0,
                    fuel as nat,
                ),
            decreases left,
        {
            let ghost cm = self.lib@[d as int].model();
            proof {
                reveal_with_fuel(run, 1);
                reveal_with_fuel(instantiated, 1);
                assert(lib[d as int] == cm);
            }
            if left == 0 {
                return Err(CheckError::Deep);
            }
            left -= 1;
            let params: usize = self.lib[d].params.len();
            if i >= params && i - params >= self.lib[d].decls.len() {
                return Ok(());
            }
            if is_done(&self.lib[d], i, j) {
                i += 1;
                j = 0;
                continue;
            }
            match self.step(here, d, i, j) {
                Ok(es) => {
                    self.enter(here, es);
                    j += 1;
                },
                Err(CheckError::Need(n, key, given)) => {
                    if n >= self.lib.len() {
                        return Err(CheckError::Missing(key));
                    }
                    match self.instantiate(n, key, given, here, left) {
                        Ok(_) => {},
                        Err(e) => {
                            return Err(e);
                        },
                    }
                },
                Err(e) => {
                    return Err(e);
                },
            }
        }
    }

    fn instantiate(
        &mut self,
        d: usize,
        key: String,
        given: Vec<(String, Binding)>,
        from: usize,
        fuel: usize,
    ) -> (r: Result<usize, CheckError>)
        requires
            d < old(self).lib@.len(),
        ensures
            final(self).lib == old(self).lib,
            final(self).instances@.len() >= old(self).instances@.len(),
            r matches Ok(id) ==> id < final(self).instances@.len(),
            inst_views(final(self).instances@) == instantiated(
                context_views(old(self).lib@),
                inst_views(old(self).instances@),
                d as nat,
                key@,
                binding_views(given@),
                from as nat,
                fuel as nat,
            ).0,
            match (
                r,
                instantiated(
                    context_views(old(self).lib@),
                    inst_views(old(self).instances@),
                    d as nat,
                    key@,
                    binding_views(given@),
                    from as nat,
                    fuel as nat,
                ).1,
            ) {
                (Ok(i), Ok(m)) => i == m,
                (Err(e), Err(f)) => e.model() == f,
                _ => false,
            },
        decreases fuel, 1nat,
    {
        let ghost cm = self.lib@[d as int].model();
        let ghost nm = self.lib@[d as int].name.model();
        let ghost insts = inst_views(self.instances@);
        proof {
            reveal_with_fuel(instantiated, 1);
            reveal_with_fuel(run, 1);
            assert(context_views(self.lib@)[d as int] == cm);
        }
        if fuel == 0 {
            return Err(CheckError::Deep);
        }
        let id = match find_instance(&self.instances, &key) {
            Some(id) => {
                assert(insts[id as int] == self.instances@[id as int].model());
                if self.instances[id].symbols.len() > 0 {
                    return Ok(id);
                }
                self.reopen(id);
                id
            },
            None => {
                let id: usize = self.instances.len();
                let name = self.lib[d].name.name.clone();
                self.open(name, key, given, from);
                id
            },
        };
        if self.lib[d].decls.len() == 0 {
            self.finish(id);
            return Ok(id);
        }
        let r = self.check_steps(id, d, fuel - 1);
        self.finish(id);
        match r {
            Ok(_) => Ok(id),
            Err(e) => Err(e),
        }
    }

    /// Checks a context, with its parameters left open: the number of its instance. A context that
    /// has been checked before is not checked again.
    pub fn check_instance(&mut self, d: usize) -> (r: Result<usize, CheckError>)
        requires
            d < old(self).lib@.len(),
        ensures
            final(self).lib == old(self).lib,
            final(self).instances@.len() >= old(self).instances@.len(),
            ({
                let m = checked(context_views(old(self).lib@), inst_views(old(self).instances@), d as nat);
                &&& inst_views(final(self).instances@) == m.0
                &&& match (r, m.1) {
                    (Ok(id), Ok(n)) => id == n && id < final(self).instances@.len(),
                    (Err(e), Err(f)) => e.model() == f,
                    _ => false,
                }
            }),
    {
        let ghost cm = self.lib@[d as int].model();
        let ghost nm = self.lib@[d as int].name.model();
        assert(context_views(self.lib@)[d as int] == cm);
        let key = self.lib[d].name.name.clone();
        let none: Vec<(String, Binding)> = Vec::new();
        assert(binding_views(none@) =~= Seq::empty());
        proof {
            reveal(checked);
        }
        self.instantiate(d, key, none, 0, usize::MAX)
    }

    /// No contexts, and the prelude.
    pub fn new() -> (r: SalEnv)
        ensures
            context_views(r.lib@) == Seq::<SalContextV>::empty(),
            inst_views(r.instances@) == seq![prelude_inst()],
    {
        let mut instances: Vec<Instance> = Vec::new();
        instances.push(build());
        assert(inst_views(instances@) =~= seq![prelude_inst()]);
        let lib: Vec<SalContext> = Vec::new();
        assert(context_views(lib@) =~= Seq::<SalContextV>::empty());
        SalEnv { lib, instances }
    }

    /// Adds the context of a file, given the name of the file with and without its extension: the
    /// number of the context. The context has to bear the name of its file.
    pub fn parse_file(&mut self, file: &str, stem: &str, src: &str) -> (r: Result<usize, SalError>)
        requires
            sized(src@),
        ensures
            final(self).instances == old(self).instances,
            match context_of(src@) {
                Err(f) => final(self).lib == old(self).lib && (r matches Err(
                    SalError::Parse { file: l, span, msg },
                ) && l@ == file@ && span == (Span { start: f.pos, end: f.pos }) && msg@ == f.msg),
                Ok(c) => if c.name.name == stem@ {
                    r == Ok::<usize, SalError>(old(self).lib.len()) && context_views(final(self).lib@)
                        == context_views(old(self).lib@).push(c)
                } else {
                    final(self).lib == old(self).lib && (r matches Err(
                        SalError::Semantic { context, span, msg },
                    ) && context@ == c.name.name && span == c.span && msg@ == misnamed(stem@))
                },
            },
    {
        match parse_context(src) {
            Err(e) => Err(SalError::Parse { file: own(file), span: Span::new(e.pos, e.pos), msg: e.msg }),
            Ok(c) => {
                let ghost cm = c.model();
                let ghost nm = c.name.model();
                if c.name.name == own(stem) {
                    let ghost v = self.lib@;
                    let n: usize = self.lib.len();
                    self.lib.push(c);
                    assert(context_views(self.lib@) =~= context_views(v).push(cm));
                    Ok(n)
                } else {
                    let msg = text3(
                        "Invalid context name \"",
                        stem,
                        "\". The context declared name and the file name must be the same.",
                    );
                    Err(SalError::semantic(c.name.name.as_str(), c.span, msg.as_str()))
                }
            },
        }
    }

    /// The number of the instance with a key: one that there is, or a new one of the context `d`, unchecked, in which the
    /// parameters stand for what is given.
    pub fn instance(&mut self, d: usize, given: Vec<(String, Binding)>, key: String) -> (r: usize)
        requires
            d < old(self).lib@.len(),
        ensures
            final(self).lib == old(self).lib,
            r < final(self).instances@.len(),
            match instance_at(inst_views(old(self).instances@), key@, 1) {
                Some(id) => r == id && final(self).instances == old(self).instances,
                None => r == old(self).instances@.len() && inst_views(final(self).instances@) == finished(
                    opened(
                        inst_views(old(self).instances@),
                        context_views(old(self).lib@)[d as int].name.name,
                        key@,
                        binding_views(given@),
                        0,
                    ),
                    r as nat,
                ),
            },
    {
        let ghost cm = self.lib@[d as int].model();
        let ghost nm = self.lib@[d as int].name.model();
        assert(context_views(self.lib@)[d as int] == cm);
        match find_instance(&self.instances, &key) {
            Some(id) => id,
            None => {
                let id: usize = self.instances.len();
                let name = self.lib[d].name.name.clone();
                self.open(name, key, given, 0);
                self.finish(id);
                id
            },
        }
    }

    /// The number of the instance of a context whose parameters are left open.
    pub fn plain_instance(&mut self, d: usize) -> (r: usize)
        requires
            d < old(self).lib@.len(),
        ensures
            final(self).lib == old(self).lib,
            r < final(self).instances@.len(),
            ({
                let name = context_views(old(self).lib@)[d as int].name.name;
                match instance_at(inst_views(old(self).instances@), name, 1) {
                    Some(id) => r == id && final(self).instances == old(self).instances,
                    None => r == old(self).instances@.len() && inst_views(final(self).instances@) == finished(
                        opened(inst_views(old(self).instances@), name, name, Seq::empty(), 0),
                        r as nat,
                    ),
                }
            }),
    {
        let ghost cm = self.lib@[d as int].model();
        let ghost nm = self.lib@[d as int].name.model();
        assert(context_views(self.lib@)[d as int] == cm);
        let key = self.lib[d].name.name.clone();
        let none: Vec<(String, Binding)> = Vec::new();
        assert(binding_views(none@) =~= Seq::empty());
        self.instance(d, none, key)
    }

    /// The number of the context of a name.
    pub fn load_context(&self, name: &String) -> (r: Result<usize, SalError>)
        ensures
            match source_at(context_views(self.lib@), name@) {
                Some(d) => (r matches Ok(i) && i == d) && d < self.lib@.len(),
                None => r matches Err(SalError::Global(m)) && m@ == not_found(name@),
            },
    {
        match find_source(&self.lib, name) {
            Some(d) => Ok(d),
            None => Err(SalError::Global(missing(name))),
        }
    }

    /// The instance that the name of a context stands for outside all contexts. Instances are made
    /// and checked as they are needed.
    pub fn resolve_context_name_pub(&mut self, cn: &ContextName) -> (r: Result<usize, CheckError>)
        requires
            old(self).instances@.len() > 0,
        ensures
            final(self).lib == old(self).lib,
            inst_views(final(self).instances@) == resolved(
                context_views(old(self).lib@),
                inst_views(old(self).instances@),
                cn.model(),
                usize::MAX as nat,
            ).0,
            match (
                r,
                resolved(
                    context_views(old(self).lib@),
                    inst_views(old(self).instances@),
                    cn.model(),
                    usize::MAX as nat,
                ).1,
            ) {
                (Ok(id), Ok(m)) => id == m,
                (Err(e), Err(f)) => e.model() == f,
                _ => false,
            },
    {
        let ghost lib = context_views(self.lib@);
        let ghost whole = resolved(lib, inst_views(self.instances@), cn.model(), usize::MAX as nat);
        let mut left: usize = usize::MAX;
        loop
            invariant
                self.lib == old(self).lib,
                lib == context_views(self.lib@),
                resolved(lib, inst_views(self.instances@), cn.model(), left as nat) == whole,
                whole == resolved(
                    context_views(old(self).lib@),
                    inst_views(old(self).instances@),
                    cn.model(),
                    usize::MAX as nat,
                ),
            decreases left,
        {
            proof {
                reveal_with_fuel(resolved, 1);
            }
            if left == 0 {
                return Err(CheckError::Deep);
            }
            left -= 1;
            match self.resolve_once(cn) {
                Ok(id) => {
                    return Ok(id);
                },
                Err(CheckError::Need(n, key, given)) => {
                    if n >= self.lib.len() {
                        return Err(CheckError::Missing(key));
                    }
                    match self.instantiate(n, key, given, 0, left) {
                        Ok(_) => {},
                        Err(e) => {
                            return Err(e);
                        },
                    }
                },
                Err(e) => {
                    return Err(e);
                },
            }
        }
    }

    fn resolve_once(&self, cn: &ContextName) -> (r: Result<usize, CheckError>)
        ensures
            match (r, at_prelude(context_views(self.lib@), inst_views(self.instances@), cn.model())) {
                (Ok(id), Ok(m)) => id == m,
                (Err(e), Err(f)) => e.model() == f,
                _ => false,
            },
    {
        proof {
            reveal(at_prelude);
        }
        let c = Checker { insts: &self.instances, lib: &self.lib, here: 0 };
        let mut scope: Vec<Bind> = Vec::new();
        assert(binds(scope@) =~= Seq::empty());
        c.context(cn, &mut scope, usize::MAX)
    }

    /// The instance and the name that a qualified reference such as `bakery{5, 15}!mutex` speaks of.
    pub fn resolve_qualified(&mut self, reference: &str) -> (r: Result<(usize, String), SalError>)
        requires
            sized(reference@),
            old(self).instances@.len() > 0,
        ensures
            final(self).lib == old(self).lib,
            match expr_of(reference@) {
                Err(f) => r matches Err(SalError::Global(m)) && m@ == "Invalid reference \""@ + reference@
                    + "\": "@ + ("line("@ + dec(f.pos.line as int) + "), column("@ + dec(f.pos.col as int) + "): "@
                    + f.msg),
                Ok(e) => match e.kind {
                    ExprKindV::Name(n) => match n.ctx {
                        None => r matches Err(SalError::Global(m)) && m@ == "Reference \""@ + reference@
                            + "\" must be qualified with a context."@,
                        Some(cn) => {
                            let m = resolved(
                                context_views(old(self).lib@),
                                inst_views(old(self).instances@),
                                cn,
                                usize::MAX as nat,
                            );
                            &&& inst_views(final(self).instances@) == m.0
                            &&& match (r, m.1) {
                                (Ok(x), Ok(id)) => x.0 == id && x.1@ == n.id.name,
                                (Err(x), Err(f)) => reports(f, x),
                                _ => false,
                            }
                        },
                    },
                    _ => r matches Err(SalError::Global(m)) && m@ == "Invalid reference \""@ + reference@
                        + "\"."@,
                },
            },
    {
        match parse_expr(reference) {
            Err(e) => {
                let why = e.text();
                let mut m = text3("Invalid reference \"", reference, "\": ");
                put(&mut m, why.as_str());
                Err(SalError::Global(m))
            },
            Ok(e) => {
                let ghost em = e.model();
                let ghost km = e.kind.model();
                match &e.kind {
                    ExprKind::Name(n) => {
                        let ghost nm = n.model();
                        let ghost im = n.id.model();
                        match &n.ctx {
                            None => Err(
                                SalError::Global(
                                    text3("Reference \"", reference, "\" must be qualified with a context."),
                                ),
                            ),
                            Some(cn) => match self.resolve_context_name_pub(cn) {
                                Ok(id) => Ok((id, n.id.name.clone())),
                                Err(x) => Err(report(x)),
                            },
                        }
                    },
                    _ => Err(SalError::Global(text3("Invalid reference \"", reference, "\"."))),
                }
            },
        }
    }
}

impl<'e> Checker<'e> {
    /// A checker of what stands outside all contexts.
    pub fn new(env: &'e SalEnv) -> (r: Checker<'e>)
        ensures
            *r.insts == env.instances,
            *r.lib == env.lib,
            r.here == 0,
    {
        Checker { insts: &env.instances, lib: &env.lib, here: 0 }
    }
}

fn is_applied(name: &str) -> (r: bool)
    ensures
        r == name@.contains('{'),
{
    let s = characters(name);
    let mut i: usize = 0;
    while i < s.len()
        invariant
            i <= s@.len(),
            s@ == name@,
            forall|k: int| 0 <= k < i ==> #[trigger] s@[k] != '{',
        decreases s.len() - i,
    {
        if s[i] == '{' {
            assert(name@[i as int] == '{');
            return true;
        }
        i += 1;
    }
    false
}

/// The context that a reference such as `bakery{5, 15}` names, that of a name qualified by it, or why it names none.
pub open spec fn referred(name: Seq<char>) -> Result<ContextNameV, Seq<char>> {
    match expr_of(name + "!__x"@) {
        Err(f) => Err(
            "Invalid context reference \""@ + name + "\": "@ + ("line("@ + dec(f.pos.line as int) + "), column("@ + dec(
                f.pos.col as int,
            ) + "): "@ + f.msg),
        ),
        Ok(e) => match e.kind {
            ExprKindV::Name(n) => match n.ctx {
                Some(cn) => Ok(cn),
                None => Err("Invalid context reference \""@ + name + "\"."@),
            },
            _ => Err("Invalid context reference \""@ + name + "\"."@),
        },
    }
}

fn reference(name: &str) -> (r: Result<ContextName, String>)
    requires
        sized(name@ + "!__x"@),
    ensures
        match (r, referred(name@)) {
            (Ok(cn), Ok(m)) => cn.model() == m,
            (Err(e), Err(f)) => e@ == f,
            _ => false,
        },
{
    let mut whole = own(name);
    put(&mut whole, "!__x");
    match parse_expr(whole.as_str()) {
        Err(e) => {
            let why = e.text();
            let mut m = text3("Invalid context reference \"", name, "\": ");
            put(&mut m, why.as_str());
            Err(m)
        },
        Ok(e) => {
            let ghost em = e.model();
            let ghost km = e.kind.model();
            match e.kind {
                ExprKind::Name(n) => {
                    let ghost nm = n.model();
                    match n.ctx {
                        Some(cn) => Ok(cn),
                        None => Err(text3("Invalid context reference \"", name, "\".")),
                    }
                },
                _ => Err(text3("Invalid context reference \"", name, "\".")),
            }
        },
    }
}

/// The instances once the name of a context, alone or with what its parameters stand for, can be told, and what it
/// stands for; or why it stands for nothing.
#[verifier::opaque]
pub open spec fn looked_up(lib: Seq<SalContextV>, insts: Seq<InstV>, name: Seq<char>) -> Result<
    (Seq<InstV>, CR<nat>),
    Seq<char>,
> {
    if name.contains('{') {
        match referred(name) {
            Ok(cn) => Ok(resolved(lib, insts, cn, usize::MAX as nat)),
            Err(m) => Err(m),
        }
    } else {
        match source_at(lib, name) {
            Some(d) => Ok(checked(lib, insts, d)),
            None => Err(not_found(name)),
        }
    }
}

/// A result is what a check says.
pub open spec fn tells(r: Result<usize, SalError>, m: CR<nat>) -> bool {
    match (r, m) {
        (Ok(id), Ok(n)) => id == n,
        (Err(x), Err(f)) => reports(f, x),
        _ => false,
    }
}

fn told(r: Result<usize, CheckError>, Ghost(m): Ghost<CR<nat>>) -> (s: Result<usize, SalError>)
    requires
        match (r, m) {
            (Ok(id), Ok(n)) => id == n,
            (Err(e), Err(f)) => e.model() == f,
            _ => false,
        },
    ensures
        tells(s, m),
{
    match r {
        Ok(id) => Ok(id),
        Err(e) => Err(report(e)),
    }
}

fn resolve_applied(env: &mut SalEnv, name: &str) -> (r: Result<usize, SalError>)
    requires
        sized(name@ + "!__x"@),
        old(env).instances@.len() > 0,
    ensures
        final(env).lib == old(env).lib,
        match referred(name@) {
            Ok(cn) => {
                let m = resolved(context_views(old(env).lib@), inst_views(old(env).instances@), cn, usize::MAX as nat);
                inst_views(final(env).instances@) == m.0 && tells(r, m.1)
            },
            Err(m) => final(env).instances == old(env).instances && (r matches Err(SalError::Global(t)) && t@ == m),
        },
{
    match reference(name) {
        Ok(cn) => {
            let ghost m = resolved(context_views(env.lib@), inst_views(env.instances@), cn.model(), usize::MAX as nat);
            let r = env.resolve_context_name_pub(&cn);
            told(r, Ghost(m.1))
        },
        Err(m) => Err(SalError::Global(m)),
    }
}

fn resolve_plain(env: &mut SalEnv, name: &str) -> (r: Result<usize, SalError>)
    ensures
        final(env).lib == old(env).lib,
        match source_at(context_views(old(env).lib@), name@) {
            Some(d) => {
                let m = checked(context_views(old(env).lib@), inst_views(old(env).instances@), d);
                inst_views(final(env).instances@) == m.0 && tells(r, m.1)
            },
            None => final(env).instances == old(env).instances && (r matches Err(SalError::Global(t)) && t@
                == not_found(name@)),
        },
{
    let ghost lib = context_views(env.lib@);
    match env.load_context(&own(name)) {
        Ok(d) => {
            let ghost m = checked(lib, inst_views(env.instances@), d as nat);
            let r = env.check_instance(d);
            told(r, Ghost(m.1))
        },
        Err(x) => Err(x),
    }
}

/// The checked instance of a known context, given by its name, alone or with what its parameters stand for.
pub fn resolve_context(env: &mut SalEnv, name: &str) -> (r: Result<usize, SalError>)
    requires
        sized(name@ + "!__x"@),
        old(env).instances@.len() > 0,
    ensures
        final(env).lib == old(env).lib,
        match looked_up(context_views(old(env).lib@), inst_views(old(env).instances@), name@) {
            Ok(m) => inst_views(final(env).instances@) == m.0 && tells(r, m.1),
            Err(m) => final(env).instances == old(env).instances && (r matches Err(SalError::Global(t)) && t@ == m),
        },
{
    proof {
        reveal(looked_up);
    }
    if is_applied(name) {
        resolve_applied(env, name)
    } else {
        resolve_plain(env, name)
    }
}

/// The message that a context does not bear the name of its file.
pub open spec fn misnamed(stem: Seq<char>) -> Seq<char> {
    "Invalid context name \""@ + stem + "\". The context declared name and the file name must be the same."@
}

/// The message that a context is not known.
pub open spec fn not_found(name: Seq<char>) -> Seq<char> {
    "Source file for the context \""@ + name + "\" was not found."@
}

fn missing(name: &String) -> (r: String)
    ensures
        r@ == not_found(name@),
{
    text3("Source file for the context \"", name.as_str(), "\" was not found.")
}

/// The error that is reported for a failure.
pub open spec fn reports(f: CEV, e: SalError) -> bool {
    match f {
        CEV::Semantic(c, s, m) => e matches SalError::Semantic { context, span, msg } && context@ == c && span
            == s && msg@ == m,
        CEV::Missing(n) => e matches SalError::Global(m) && m@ == not_found(n),
        CEV::Need(_d, key, _t) => e matches SalError::Global(m) && m@ == "The context \""@ + key
            + "\" is not checked."@,
        CEV::Deep => e matches SalError::Global(m) && m@ == "The syntax is nested too deeply."@,
    }
}

/// Reports a failure.
pub fn report(e: CheckError) -> (r: SalError)
    ensures
        reports(e.model(), r),
{
    match e {
        CheckError::Semantic(context, span, msg) => SalError::Semantic { context, span, msg },
        CheckError::Missing(n) => SalError::Global(missing(&n)),
        CheckError::Need(_d, key, _t) => SalError::Global(
            text3("The context \"", key.as_str(), "\" is not checked."),
        ),
        CheckError::Deep => SalError::Global(own("The syntax is nested too deeply.")),
    }
}

/// The instance that the name of a context stands for outside all contexts.
#[verifier::opaque]
pub open spec fn at_prelude(lib: Seq<SalContextV>, insts: Seq<InstV>, cn: ContextNameV) -> CR<nat> {
    let w = World { insts, lib, here: 0 };
    c_context(w, cn, Seq::empty(), judge(w, usize::MAX as nat))
}

/// The instances once the name of a context can be told, and what it stands for.
#[verifier::opaque]
pub open spec fn resolved(lib: Seq<SalContextV>, insts: Seq<InstV>, cn: ContextNameV, fuel: nat) -> (
    Seq<InstV>,
    CR<nat>,
)
    decreases fuel,
{
    if fuel == 0 {
        (insts, Err(CEV::Deep))
    } else {
        match at_prelude(lib, insts, cn) {
            Ok(id) => (insts, Ok(id)),
            Err(CEV::Need(n, key, given)) => if n >= lib.len() {
                (insts, Err(CEV::Missing(key)))
            } else {
                match instantiated(lib, insts, n, key, given, 0, (fuel - 1) as nat) {
                    (after, Ok(_id)) => resolved(lib, after, cn, (fuel - 1) as nat),
                    (after, Err(e)) => (after, Err(e)),
                }
            },
            Err(e) => (insts, Err(e)),
        }
    }
}

} // verus!
