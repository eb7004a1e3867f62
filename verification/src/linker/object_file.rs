//! Symbol tables of one translation unit, and the linker that merges two
//! such tables while rewriting every cross-reference.

use vstd::prelude::*;

verus! {

use crate::linker::symbol::{FCall, Function, Object, PtsTo};
use crate::linker::text::str_eq;

broadcast use vstd::seq_lib::group_seq_properties;

/// A tagged reference to a slot in one of an `ObjectFile`'s four tables.
#[derive(Debug, Eq, PartialEq, Structural, Hash, Clone, Copy)]
pub enum SymPtr {
    /// Index in the functions table.
    F(usize),
    /// Index in the objects table.
    O(usize),
    /// Index in the points-to table.
    P(usize),
    /// Index in the calls table.
    C(usize),
}

/// Index of the first occurrence of `target` in `names`, or `-1`.
pub open spec fn find_fun(names: Seq<Seq<char>>, target: Seq<char>) -> int
    decreases names.len(),
{
    if names.len() == 0 {
        -1
    } else if names[0] == target {
        0
    } else {
        let r = find_fun(names.drop_first(), target);
        if r < 0 {
            -1
        } else {
            r + 1
        }
    }
}

pub proof fn lemma_find_fun(names: Seq<Seq<char>>, target: Seq<char>)
    ensures
        find_fun(names, target) >= 0 <==> names.contains(target),
        find_fun(names, target) >= 0 ==> 0 <= find_fun(names, target) < names.len() && names[
            find_fun(names, target)] == target,
        forall|j: int| 0 <= j < find_fun(names, target) ==> names[j] != target,
        find_fun(names, target) < 0 ==> forall|j: int|
            0 <= j < names.len() ==> names[j] != target,
    decreases names.len(),
{
    if names.len() > 0 {
        lemma_find_fun(names.drop_first(), target);
        if names[0] != target {
            assert(forall|j: int|
                1 <= j < names.len() ==> names[j] == #[trigger] names.drop_first()[j - 1]);
            if names.contains(target) {
                let j = choose|j: int| 0 <= j < names.len() && names[j] == target;
                assert(names.drop_first()[j - 1] == target);
                assert(names.drop_first().contains(target));
            }
            assert forall|j: int| 0 <= j < find_fun(names, target) implies names[j] != target by {
                if j >= 1 {
                    assert(names.drop_first()[j - 1] != target);
                }
            }
        }
    }
}

/// Owns the four symbol tables of one translation unit.  Functions are
/// uniqued by name; the other tables are append-only and never deduplicated.
#[derive(Debug)]
pub struct ObjectFile {
    pub functions: Vec<Function>,
    pub objects: Vec<Object<SymPtr>>,
    pub points_to: Vec<PtsTo<SymPtr>>,
    pub calls: Vec<FCall<SymPtr>>,
}

impl Default for ObjectFile {
    fn default() -> (r: Self)
        ensures
            r.functions@.len() == 0,
            r.objects@.len() == 0,
            r.points_to@.len() == 0,
            r.calls@.len() == 0,
            r.wf(),
    {
        Self::new()
    }
}

impl ObjectFile {
    /// The function names, by table index.
    pub open spec fn fnames(&self) -> Seq<Seq<char>> {
        self.functions@.map_values(|f: Function| f.spec_name())
    }

    /// The external flags, by table index.
    pub open spec fn fexts(&self) -> Seq<bool> {
        self.functions@.map_values(|f: Function| f.spec_external())
    }

    pub open spec fn names_unique(&self) -> bool {
        forall|a: int, b: int|
            0 <= a < b < self.fnames().len() ==> self.fnames()[a] != self.fnames()[b]
    }

    /// `p` denotes a live slot of the right table.
    pub open spec fn ptr_valid(&self, p: SymPtr) -> bool {
        match p {
            SymPtr::F(i) => i < self.functions@.len(),
            SymPtr::O(i) => i < self.objects@.len(),
            SymPtr::P(i) => i < self.points_to@.len(),
            SymPtr::C(i) => i < self.calls@.len(),
        }
    }

    pub open spec fn object_valid(&self, o: Object<SymPtr>) -> bool {
        forall|k: int|
            0 <= k < o.fields@.len() ==> match #[trigger] o.fields@[k] {
                Some(p) => self.ptr_valid(p),
                None => true,
            }
    }

    pub open spec fn points_to_valid(&self, p: PtsTo<SymPtr>) -> bool {
        forall|k: int| 0 <= k < p.points_to@.len() ==> self.ptr_valid(#[trigger] p.points_to@[k])
    }

    pub open spec fn call_valid(&self, c: FCall<SymPtr>) -> bool {
        &&& self.ptr_valid(c.callee)
        &&& forall|k: int|
            0 <= k < c.arguments@.len() ==> match #[trigger] c.arguments@[k] {
                Some(p) => self.ptr_valid(p),
                None => true,
            }
        &&& match c.callsite {
            Some(p) => self.ptr_valid(p),
            None => true,
        }
    }

    /// Function names are unique and every stored reference denotes a live,
    /// correctly-typed slot.
    pub open spec fn wf(&self) -> bool {
        &&& self.names_unique()
        &&& forall|i: int|
            0 <= i < self.objects@.len() ==> self.object_valid(#[trigger] self.objects@[i])
        &&& forall|i: int|
            0 <= i < self.points_to@.len() ==> self.points_to_valid(
                #[trigger] self.points_to@[i],
            )
        &&& forall|i: int| 0 <= i < self.calls@.len() ==> self.call_valid(#[trigger] self.calls@[i])
    }

    pub fn new() -> (r: Self)
        ensures
            r.functions@.len() == 0,
            r.objects@.len() == 0,
            r.points_to@.len() == 0,
            r.calls@.len() == 0,
            r.wf(),
    {
        Self { functions: Vec::new(), objects: Vec::new(), points_to: Vec::new(), calls: Vec::new() }
    }

    /// Index of the function named `name`, scanning in table order.
    fn find_fun_index(&self, name: &str) -> (r: Option<usize>)
        ensures
            match r {
                Some(i) => find_fun(self.fnames(), name@) == i,
                None => find_fun(self.fnames(), name@) < 0,
            },
    {
        proof {
            lemma_find_fun(self.fnames(), name@);
        }
        let len = self.functions.len();
        let mut i: usize = 0;
        while i < len
            invariant
                len == self.functions@.len(),
                i <= len,
                forall|j: int| 0 <= j < i ==> self.fnames()[j] != name@,
            decreases len - i,
        {
            if str_eq(self.functions[i].get_name().as_str(), name) {
                proof {
                    lemma_find_fun(self.fnames(), name@);
                    assert(self.fnames()[i as int] == name@);
                }
                return Some(i);
            }
            i += 1;
        }
        proof {
            lemma_find_fun(self.fnames(), name@);
            if find_fun(self.fnames(), name@) >= 0 {
                assert(self.fnames()[find_fun(self.fnames(), name@)] == name@);
            }
        }
        None
    }

    /// Creates a new function symbol, or returns the existing one of the
    /// same name together with `true`; an existing symbol is not modified.
    pub fn add_function(&mut self, f: Function) -> (r: (SymPtr, bool))
        ensures
            ({
                let idx = find_fun(old(self).fnames(), f.spec_name());
                if idx >= 0 {
                    r == (SymPtr::F(idx as usize), true) && *final(self) == *old(self)
                } else {
                    &&& r == (SymPtr::F(old(self).functions@.len() as usize), false)
                    &&& final(self).functions@ == old(self).functions@.push(f)
                    &&& final(self).objects == old(self).objects
                    &&& final(self).points_to == old(self).points_to
                    &&& final(self).calls == old(self).calls
                }
            }),
            old(self).wf() ==> final(self).wf(),
    {
        let existing = self.find_fun_index(f.get_name().as_str());
        match existing {
            Some(idx) => (SymPtr::F(idx), true),
            None => {
                let idx = self.functions.len();
                self.functions.push(f);
                proof {
                    assert(self.fnames() =~= old(self).fnames().push(f.spec_name()));
                    assert(self.fexts() =~= old(self).fexts().push(f.spec_external()));
                    if old(self).wf() {
                        lemma_find_fun(old(self).fnames(), f.spec_name());
                        assert forall|a: int, b: int|
                            0 <= a < b < self.fnames().len() implies self.fnames()[a]
                            != self.fnames()[b] by {
                            if b == self.fnames().len() - 1 {
                                assert(self.fnames()[b] == f.spec_name());
                            }
                        }
                        assert forall|i: int|
                            0 <= i < self.objects@.len() implies self.object_valid(
                            #[trigger] self.objects@[i],
                        ) by {
                            assert(old(self).object_valid(old(self).objects@[i]));
                        }
                        assert forall|i: int|
                            0 <= i < self.points_to@.len() implies self.points_to_valid(
                            #[trigger] self.points_to@[i],
                        ) by {
                            assert(old(self).points_to_valid(old(self).points_to@[i]));
                        }
                        assert forall|i: int|
                            0 <= i < self.calls@.len() implies self.call_valid(
                            #[trigger] self.calls@[i],
                        ) by {
                            assert(old(self).call_valid(old(self).calls@[i]));
                        }
                    }
                }
                (SymPtr::F(idx), false)
            },
        }
    }

    /// Appends `obj`; returns its reference.
    pub fn add_object(&mut self, obj: Object<SymPtr>) -> (r: SymPtr)
        ensures
            r == SymPtr::O(old(self).objects@.len() as usize),
            final(self).objects@ == old(self).objects@.push(obj),
            final(self).functions == old(self).functions,
            final(self).points_to == old(self).points_to,
            final(self).calls == old(self).calls,
            old(self).wf() && old(self).object_valid(obj) ==> final(self).wf(),
    {
        let idx = self.objects.len();
        self.objects.push(obj);
        proof {
            assert(self.fnames() =~= old(self).fnames());
            if old(self).wf() && old(self).object_valid(obj) {
                assert forall|i: int|
                    0 <= i < self.objects@.len() implies self.object_valid(
                    #[trigger] self.objects@[i],
                ) by {
                    if i < self.objects@.len() - 1 {
                        assert(old(self).object_valid(old(self).objects@[i]));
                    } else {
                        assert(old(self).object_valid(obj));
                    }
                }
                assert forall|i: int|
                    0 <= i < self.points_to@.len() implies self.points_to_valid(
                    #[trigger] self.points_to@[i],
                ) by {
                    assert(old(self).points_to_valid(old(self).points_to@[i]));
                }
                assert forall|i: int|
                    0 <= i < self.calls@.len() implies self.call_valid(
                    #[trigger] self.calls@[i],
                ) by {
                    assert(old(self).call_valid(old(self).calls@[i]));
                }
            }
        }
        SymPtr::O(idx)
    }

    /// Appends `pts`; returns its reference.
    pub fn add_points_to(&mut self, pts: PtsTo<SymPtr>) -> (r: SymPtr)
        ensures
            r == SymPtr::P(old(self).points_to@.len() as usize),
            final(self).points_to@ == old(self).points_to@.push(pts),
            final(self).functions == old(self).functions,
            final(self).objects == old(self).objects,
            final(self).calls == old(self).calls,
            old(self).wf() && old(self).points_to_valid(pts) ==> final(self).wf(),
    {
        let idx = self.points_to.len();
        self.points_to.push(pts);
        proof {
            assert(self.fnames() =~= old(self).fnames());
            if old(self).wf() && old(self).points_to_valid(pts) {
                assert forall|i: int|
                    0 <= i < self.objects@.len() implies self.object_valid(
                    #[trigger] self.objects@[i],
                ) by {
                    assert(old(self).object_valid(old(self).objects@[i]));
                }
                assert forall|i: int|
                    0 <= i < self.points_to@.len() implies self.points_to_valid(
                    #[trigger] self.points_to@[i],
                ) by {
                    if i < self.points_to@.len() - 1 {
                        assert(old(self).points_to_valid(old(self).points_to@[i]));
                    } else {
                        assert(old(self).points_to_valid(pts));
                    }
                }
                assert forall|i: int|
                    0 <= i < self.calls@.len() implies self.call_valid(
                    #[trigger] self.calls@[i],
                ) by {
                    assert(old(self).call_valid(old(self).calls@[i]));
                }
            }
        }
        SymPtr::P(idx)
    }

    /// Appends `fcall`; returns its reference.
    pub fn add_fcall(&mut self, fcall: FCall<SymPtr>) -> (r: SymPtr)
        ensures
            r == SymPtr::C(old(self).calls@.len() as usize),
            final(self).calls@ == old(self).calls@.push(fcall),
            final(self).functions == old(self).functions,
            final(self).objects == old(self).objects,
            final(self).points_to == old(self).points_to,
            old(self).wf() && old(self).call_valid(fcall) ==> final(self).wf(),
    {
        let idx = self.calls.len();
        self.calls.push(fcall);
        proof {
            assert(self.fnames() =~= old(self).fnames());
            if old(self).wf() && old(self).call_valid(fcall) {
                assert forall|i: int|
                    0 <= i < self.objects@.len() implies self.object_valid(
                    #[trigger] self.objects@[i],
                ) by {
                    assert(old(self).object_valid(old(self).objects@[i]));
                }
                assert forall|i: int|
                    0 <= i < self.points_to@.len() implies self.points_to_valid(
                    #[trigger] self.points_to@[i],
                ) by {
                    assert(old(self).points_to_valid(old(self).points_to@[i]));
                }
                assert forall|i: int|
                    0 <= i < self.calls@.len() implies self.call_valid(
                    #[trigger] self.calls@[i],
                ) by {
                    if i < self.calls@.len() - 1 {
                        assert(old(self).call_valid(old(self).calls@[i]));
                    } else {
                        assert(old(self).call_valid(fcall));
                    }
                }
            }
        }
        SymPtr::C(idx)
    }

    /// Index of the function named `name`, if any.
    pub fn get_fun_id(&self, name: &str) -> (r: Option<usize>)
        ensures
            match r {
                Some(i) => find_fun(self.fnames(), name@) == i,
                None => find_fun(self.fnames(), name@) < 0,
            },
    {
        self.find_fun_index(name)
    }

    /// The function named `name`, if any.
    pub fn get_fun_by_name(&self, name: &str) -> (r: Option<&Function>)
        ensures
            match r {
                Some(f) => find_fun(self.fnames(), name@) >= 0 && *f == self.functions@[find_fun(
                    self.fnames(),
                    name@,
                )],
                None => find_fun(self.fnames(), name@) < 0,
            },
    {
        proof {
            lemma_find_fun(self.fnames(), name@);
        }
        match self.find_fun_index(name) {
            Some(i) => Some(&self.functions[i]),
            None => None,
        }
    }

    /// The function `id` refers to; `id` must be a valid function reference.
    pub fn get_fun_by_id(&self, id: &SymPtr) -> (r: &Function)
        requires
            *id matches SymPtr::F(i) && i < self.functions@.len(),
        ensures
            *id matches SymPtr::F(i) && *r == self.functions@[i as int],
    {
        match id {
            SymPtr::F(i) => &self.functions[*i],
            _ => unreached(),
        }
    }

    /// Mutable access to the function named `name`; the caller must know
    /// the name resolves.
    pub fn get_mut_fun_by_name(&mut self, name: &str) -> (r: Option<&mut Function>)
        ensures
            match r {
                Some(f) => {
                    let idx = find_fun(old(self).fnames(), name@);
                    &&& idx >= 0
                    &&& *f == old(self).functions@[idx]
                    &&& final(self).functions@ == old(self).functions@.update(idx, *final(f))
                    &&& final(self).objects == old(self).objects
                    &&& final(self).points_to == old(self).points_to
                    &&& final(self).calls == old(self).calls
                },
                None => find_fun(old(self).fnames(), name@) < 0 && *final(self) == *old(self),
            },
    {
        proof {
            lemma_find_fun(self.fnames(), name@);
        }
        match self.find_fun_index(name) {
            Some(i) => Some(&mut self.functions[i]),
            None => None,
        }
    }

    /// Mutable access to the function `id` refers to.
    fn get_mut_fun_by_id(&mut self, id: &SymPtr) -> (r: &mut Function)
        requires
            *id matches SymPtr::F(i) && i < old(self).functions@.len(),
        ensures
            *id matches SymPtr::F(i) && {
                &&& *r == old(self).functions@[i as int]
                &&& final(self).functions@ == old(self).functions@.update(i as int, *final(r))
                &&& final(self).objects == old(self).objects
                &&& final(self).points_to == old(self).points_to
                &&& final(self).calls == old(self).calls
            },
    {
        match id {
            SymPtr::F(i) => &mut self.functions[*i],
            _ => unreached(),
        }
    }

    /// Whether the call `fid` refers to goes through a points-to set.
    /// `fid` must reference a call whose callee is a function or a
    /// points-to set.
    fn is_indirect_call(&self, fid: SymPtr) -> (r: bool)
        requires
            fid matches SymPtr::C(i) && i < self.calls@.len() && (self.calls@[i as int].callee
                matches SymPtr::F(_) || self.calls@[i as int].callee matches SymPtr::P(_)),
        ensures
            fid matches SymPtr::C(i) && r == (self.calls@[i as int].callee matches SymPtr::P(_)),
    {
        match fid {
            SymPtr::C(call) => match self.calls[call].callee {
                SymPtr::F(_) => false,
                SymPtr::P(_) => true,
                _ => unreached(),
            },
            _ => unreached(),
        }
    }
}

/// One step of the symbol merge: unify one incoming function (name and
/// external flag) into the accumulated name and flag tables.  An existing
/// name keeps its slot and its flag drops to internal as soon as either side
/// is internal; a new name is appended.
pub open spec fn sym_step(an: Seq<Seq<char>>, ae: Seq<bool>, n0: Seq<char>, e0: bool) -> (
    Seq<Seq<char>>,
    Seq<bool>,
) {
    let i = find_fun(an, n0);
    if i >= 0 {
        (an, ae.update(i, ae[i] && e0))
    } else {
        (an.push(n0), ae.push(e0))
    }
}

/// Names and flags after merging `(bn, be)` into `(an, ae)` left to right.
pub open spec fn link_syms(
    an: Seq<Seq<char>>,
    ae: Seq<bool>,
    bn: Seq<Seq<char>>,
    be: Seq<bool>,
) -> (Seq<Seq<char>>, Seq<bool>)
    decreases bn.len(),
{
    if bn.len() == 0 {
        (an, ae)
    } else {
        let s = sym_step(an, ae, bn[0], be[0]);
        link_syms(s.0, s.1, bn.drop_first(), be.drop_first())
    }
}

proof fn lemma_link_syms_snoc(
    an: Seq<Seq<char>>,
    ae: Seq<bool>,
    bn: Seq<Seq<char>>,
    be: Seq<bool>,
    n0: Seq<char>,
    e0: bool,
)
    requires
        bn.len() == be.len(),
    ensures
        link_syms(an, ae, bn.push(n0), be.push(e0)) == sym_step(
            link_syms(an, ae, bn, be).0,
            link_syms(an, ae, bn, be).1,
            n0,
            e0,
        ),
    decreases bn.len(),
{
    if bn.len() == 0 {
        let s = sym_step(an, ae, n0, e0);
        assert(bn.push(n0)[0] == n0);
        assert(be.push(e0)[0] == e0);
        assert(bn.push(n0).drop_first() =~= Seq::<Seq<char>>::empty());
        assert(be.push(e0).drop_first() =~= Seq::<bool>::empty());
        assert(link_syms(an, ae, bn.push(n0), be.push(e0)) == link_syms(
            s.0,
            s.1,
            bn.push(n0).drop_first(),
            be.push(e0).drop_first(),
        ));
        assert(link_syms(s.0, s.1, bn.push(n0).drop_first(), be.push(e0).drop_first()) == s);
        assert(link_syms(an, ae, bn, be) == (an, ae));
    } else {
        assert(bn.push(n0)[0] == bn[0]);
        assert(be.push(e0)[0] == be[0]);
        assert(bn.push(n0).drop_first() =~= bn.drop_first().push(n0));
        assert(be.push(e0).drop_first() =~= be.drop_first().push(e0));
        let s = sym_step(an, ae, bn[0], be[0]);
        assert(link_syms(an, ae, bn.push(n0), be.push(e0)) == link_syms(
            s.0,
            s.1,
            bn.push(n0).drop_first(),
            be.push(e0).drop_first(),
        ));
        lemma_link_syms_snoc(s.0, s.1, bn.drop_first(), be.drop_first(), n0, e0);
        assert(link_syms(an, ae, bn, be) == link_syms(s.0, s.1, bn.drop_first(), be.drop_first()));
    }
}

proof fn lemma_link_syms_props(an: Seq<Seq<char>>, ae: Seq<bool>, bn: Seq<Seq<char>>, be: Seq<bool>)
    requires
        an.len() == ae.len(),
        bn.len() == be.len(),
        forall|a: int, b: int| 0 <= a < b < an.len() ==> an[a] != an[b],
    ensures
        ({
            let r = link_syms(an, ae, bn, be);
            &&& r.0.len() == r.1.len()
            &&& an.len() <= r.0.len()
            &&& forall|j: int| 0 <= j < an.len() ==> r.0[j] == an[j]
            &&& forall|a: int, b: int| 0 <= a < b < r.0.len() ==> r.0[a] != r.0[b]
            &&& forall|j: int| 0 <= j < bn.len() ==> r.0.contains(#[trigger] bn[j])
        }),
    decreases bn.len(),
{
    if bn.len() > 0 {
        let s = sym_step(an, ae, bn[0], be[0]);
        lemma_find_fun(an, bn[0]);
        let i = find_fun(an, bn[0]);
        if i >= 0 {
            assert(s.0 == an);
        } else {
            assert forall|a: int, b: int| 0 <= a < b < s.0.len() implies s.0[a] != s.0[b] by {
                if b == s.0.len() - 1 {
                    assert(s.0[b] == bn[0]);
                    assert(an[a] != bn[0]);
                }
            }
        }
        lemma_link_syms_props(s.0, s.1, bn.drop_first(), be.drop_first());
        let r = link_syms(an, ae, bn, be);
        assert(r == link_syms(s.0, s.1, bn.drop_first(), be.drop_first()));
        assert forall|j: int| 0 <= j < an.len() implies r.0[j] == an[j] by {
            assert(s.0[j] == an[j]);
            assert(r.0[j] == s.0[j]);
        }
        assert forall|j: int| 0 <= j < bn.len() implies r.0.contains(#[trigger] bn[j]) by {
            if j == 0 {
                if i >= 0 {
                    assert(an[i] == bn[0]);
                    assert(r.0[i] == an[i]);
                } else {
                    assert(s.0[an.len() as int] == bn[0]);
                    assert(r.0[an.len() as int] == s.0[an.len() as int]);
                }
            } else {
                assert(bn.drop_first()[j - 1] == bn[j]);
                assert(r.0.contains(bn.drop_first()[j - 1]));
            }
        }
    }
}

/// A cross-reference of the incoming file, rewritten to denote the same
/// symbol inside the merged file: a function reference is re-resolved by
/// name, any other index is shifted past the merged file's own entries.
pub open spec fn rewrite_ptr(
    p: SymPtr,
    bnames: Seq<Seq<char>>,
    nnames: Seq<Seq<char>>,
    o_off: int,
    p_off: int,
    c_off: int,
) -> SymPtr {
    match p {
        SymPtr::F(i) => SymPtr::F(find_fun(nnames, bnames[i as int]) as usize),
        SymPtr::O(i) => SymPtr::O((i + o_off) as usize),
        SymPtr::P(i) => SymPtr::P((i + p_off) as usize),
        SymPtr::C(i) => SymPtr::C((i + c_off) as usize),
    }
}

pub open spec fn rewrite_opt(
    p: Option<SymPtr>,
    bnames: Seq<Seq<char>>,
    nnames: Seq<Seq<char>>,
    o_off: int,
    p_off: int,
    c_off: int,
) -> Option<SymPtr> {
    match p {
        Some(q) => Some(rewrite_ptr(q, bnames, nnames, o_off, p_off, c_off)),
        None => None,
    }
}

impl ObjectFile {
    /// `p`, a reference of `src`, can be rewritten against `self`'s current
    /// tables without resolution failure or overflow.
    pub open spec fn rewrite_pre(&self, src: &ObjectFile, p: SymPtr) -> bool {
        match p {
            SymPtr::F(i) => i < src.functions@.len() && find_fun(
                self.fnames(),
                src.fnames()[i as int],
            ) >= 0,
            SymPtr::O(i) => i + self.objects@.len() <= usize::MAX,
            SymPtr::P(i) => i + self.points_to@.len() <= usize::MAX,
            SymPtr::C(i) => i + self.calls@.len() <= usize::MAX,
        }
    }

    pub open spec fn rewrite_pre_opt(&self, src: &ObjectFile, p: Option<SymPtr>) -> bool {
        match p {
            Some(q) => self.rewrite_pre(src, q),
            None => true,
        }
    }

    /// Rewrites one reference of `src` against `self`'s current tables.
    /// Do not modify `self`'s tables between computing and consuming the
    /// result.
    fn update_external_ptr(&self, ptr: &SymPtr, src: &ObjectFile) -> (r: SymPtr)
        requires
            self.rewrite_pre(src, *ptr),
        ensures
            r == rewrite_ptr(
                *ptr,
                src.fnames(),
                self.fnames(),
                self.objects@.len() as int,
                self.points_to@.len() as int,
                self.calls@.len() as int,
            ),
    {
        match ptr {
            SymPtr::F(_) => {
                let name = src.get_fun_by_id(ptr).get_name();
                proof {
                    lemma_find_fun(self.fnames(), name@);
                }
                match self.find_fun_index(name.as_str()) {
                    Some(i) => SymPtr::F(i),
                    None => unreached(),
                }
            },
            SymPtr::O(i) => SymPtr::O(*i + self.objects.len()),
            SymPtr::P(i) => SymPtr::P(*i + self.points_to.len()),
            SymPtr::C(i) => SymPtr::C(*i + self.calls.len()),
        }
    }

    /// Rewrites every pointer field of an incoming object.
    fn update_object(&self, obj: &Object<SymPtr>, src: &ObjectFile) -> (r: Object<SymPtr>)
        requires
            forall|k: int|
                0 <= k < obj.fields@.len() ==> self.rewrite_pre_opt(src, #[trigger] obj.fields@[k]),
        ensures
            r.fields@ == obj.fields@.map_values(
                |q: Option<SymPtr>|
                    rewrite_opt(
                        q,
                        src.fnames(),
                        self.fnames(),
                        self.objects@.len() as int,
                        self.points_to@.len() as int,
                        self.calls@.len() as int,
                    ),
            ),
    {
        let len = obj.fields.len();
        let mut fields: Vec<Option<SymPtr>> = Vec::new();
        let mut k: usize = 0;
        while k < len
            invariant
                len == obj.fields@.len(),
                k <= len,
                forall|kk: int|
                    0 <= kk < len ==> self.rewrite_pre_opt(src, #[trigger] obj.fields@[kk]),
                fields@.len() == k,
                forall|kk: int|
                    0 <= kk < k ==> #[trigger] fields@[kk] == rewrite_opt(
                        obj.fields@[kk],
                        src.fnames(),
                        self.fnames(),
                        self.objects@.len() as int,
                        self.points_to@.len() as int,
                        self.calls@.len() as int,
                    ),
            decreases len - k,
        {
            match &obj.fields[k] {
                Some(p) => {
                    let q = self.update_external_ptr(p, src);
                    fields.push(Some(q));
                },
                None => {
                    fields.push(None);
                },
            }
            k += 1;
        }
        let r = Object::new(fields);
        proof {
            assert(r.fields@ =~= obj.fields@.map_values(
                |q: Option<SymPtr>|
                    rewrite_opt(
                        q,
                        src.fnames(),
                        self.fnames(),
                        self.objects@.len() as int,
                        self.points_to@.len() as int,
                        self.calls@.len() as int,
                    ),
            ));
        }
        r
    }

    /// Rewrites every member of an incoming points-to set.
    fn update_points_to(&self, pts: &PtsTo<SymPtr>, src: &ObjectFile) -> (r: PtsTo<SymPtr>)
        requires
            forall|k: int|
                0 <= k < pts.points_to@.len() ==> self.rewrite_pre(
                    src,
                    #[trigger] pts.points_to@[k],
                ),
        ensures
            r.points_to@ == pts.points_to@.map_values(
                |q: SymPtr|
                    rewrite_ptr(
                        q,
                        src.fnames(),
                        self.fnames(),
                        self.objects@.len() as int,
                        self.points_to@.len() as int,
                        self.calls@.len() as int,
                    ),
            ),
    {
        let len = pts.points_to.len();
        let mut targets: Vec<SymPtr> = Vec::new();
        let mut k: usize = 0;
        while k < len
            invariant
                len == pts.points_to@.len(),
                k <= len,
                forall|kk: int|
                    0 <= kk < len ==> self.rewrite_pre(src, #[trigger] pts.points_to@[kk]),
                targets@.len() == k,
                forall|kk: int|
                    0 <= kk < k ==> #[trigger] targets@[kk] == rewrite_ptr(
                        pts.points_to@[kk],
                        src.fnames(),
                        self.fnames(),
                        self.objects@.len() as int,
                        self.points_to@.len() as int,
                        self.calls@.len() as int,
                    ),
            decreases len - k,
        {
            let q = self.update_external_ptr(&pts.points_to[k], src);
            targets.push(q);
            k += 1;
        }
        let r = PtsTo::new(targets);
        proof {
            assert(r.points_to@ =~= pts.points_to@.map_values(
                |q: SymPtr|
                    rewrite_ptr(
                        q,
                        src.fnames(),
                        self.fnames(),
                        self.objects@.len() as int,
                        self.points_to@.len() as int,
                        self.calls@.len() as int,
                    ),
            ));
        }
        r
    }

    /// Rewrites the callee, the arguments and the callsite of an incoming
    /// call.
    fn update_fcall(&self, fcall: &FCall<SymPtr>, src: &ObjectFile) -> (r: FCall<SymPtr>)
        requires
            self.rewrite_pre(src, fcall.callee),
            forall|k: int|
                0 <= k < fcall.arguments@.len() ==> self.rewrite_pre_opt(
                    src,
                    #[trigger] fcall.arguments@[k],
                ),
            self.rewrite_pre_opt(src, fcall.callsite),
        ensures
            r.callee == rewrite_ptr(
                fcall.callee,
                src.fnames(),
                self.fnames(),
                self.objects@.len() as int,
                self.points_to@.len() as int,
                self.calls@.len() as int,
            ),
            r.arguments@ == fcall.arguments@.map_values(
                |q: Option<SymPtr>|
                    rewrite_opt(
                        q,
                        src.fnames(),
                        self.fnames(),
                        self.objects@.len() as int,
                        self.points_to@.len() as int,
                        self.calls@.len() as int,
                    ),
            ),
            r.callsite == rewrite_opt(
                fcall.callsite,
                src.fnames(),
                self.fnames(),
                self.objects@.len() as int,
                self.points_to@.len() as int,
                self.calls@.len() as int,
            ),
    {
        let callee = self.update_external_ptr(&fcall.callee, src);
        let len = fcall.arguments.len();
        let mut arguments: Vec<Option<SymPtr>> = Vec::new();
        let mut k: usize = 0;
        while k < len
            invariant
                len == fcall.arguments@.len(),
                k <= len,
                forall|kk: int|
                    0 <= kk < len ==> self.rewrite_pre_opt(src, #[trigger] fcall.arguments@[kk]),
                arguments@.len() == k,
                forall|kk: int|
                    0 <= kk < k ==> #[trigger] arguments@[kk] == rewrite_opt(
                        fcall.arguments@[kk],
                        src.fnames(),
                        self.fnames(),
                        self.objects@.len() as int,
                        self.points_to@.len() as int,
                        self.calls@.len() as int,
                    ),
            decreases len - k,
        {
            match &fcall.arguments[k] {
                Some(p) => {
                    let q = self.update_external_ptr(p, src);
                    arguments.push(Some(q));
                },
                None => {
                    arguments.push(None);
                },
            }
            k += 1;
        }
        let callsite = match &fcall.callsite {
            Some(p) => Some(self.update_external_ptr(p, src)),
            None => None,
        };
        let r = FCall { callee, arguments, callsite };
        proof {
            assert(r.arguments@ =~= fcall.arguments@.map_values(
                |q: Option<SymPtr>|
                    rewrite_opt(
                        q,
                        src.fnames(),
                        self.fnames(),
                        self.objects@.len() as int,
                        self.points_to@.len() as int,
                        self.calls@.len() as int,
                    ),
            ));
        }
        r
    }
}

/// The two files' non-function tables together stay within address range.
pub open spec fn link_sizes_ok(a: &ObjectFile, b: &ObjectFile) -> bool {
    &&& a.objects@.len() + b.objects@.len() <= usize::MAX
    &&& a.points_to@.len() + b.points_to@.len() <= usize::MAX
    &&& a.calls@.len() + b.calls@.len() <= usize::MAX
}

/// What `link` leaves behind: `r` merges `b` into `a`.  Functions are
/// unified by name with external flags resolved towards internal; the other
/// three tables of `b` are appended after `a`'s with every reference
/// rewritten.
pub open spec fn linked(a: &ObjectFile, b: &ObjectFile, r: &ObjectFile) -> bool {
    let merged = link_syms(a.fnames(), a.fexts(), b.fnames(), b.fexts());
    let o_off = a.objects@.len() as int;
    let p_off = a.points_to@.len() as int;
    let c_off = a.calls@.len() as int;
    &&& r.fnames() == merged.0
    &&& r.fexts() == merged.1
    &&& r.objects@.len() == a.objects@.len() + b.objects@.len()
    &&& r.points_to@.len() == a.points_to@.len() + b.points_to@.len()
    &&& r.calls@.len() == a.calls@.len() + b.calls@.len()
    &&& forall|j: int| 0 <= j < o_off ==> r.objects@[j] == a.objects@[j]
    &&& forall|j: int| 0 <= j < p_off ==> r.points_to@[j] == a.points_to@[j]
    &&& forall|j: int| 0 <= j < c_off ==> r.calls@[j] == a.calls@[j]
    &&& forall|j: int|
        0 <= j < b.objects@.len() ==> (#[trigger] r.objects@[o_off + j]).fields@
            == b.objects@[j].fields@.map_values(
            |q: Option<SymPtr>| rewrite_opt(q, b.fnames(), merged.0, o_off, p_off, c_off),
        )
    &&& forall|j: int|
        0 <= j < b.points_to@.len() ==> (#[trigger] r.points_to@[p_off + j]).points_to@
            == b.points_to@[j].points_to@.map_values(
            |q: SymPtr| rewrite_ptr(q, b.fnames(), merged.0, o_off, p_off, c_off),
        )
    &&& forall|j: int|
        0 <= j < b.calls@.len() ==> {
            let c = #[trigger] r.calls@[c_off + j];
            &&& c.callee == rewrite_ptr(
                b.calls@[j].callee,
                b.fnames(),
                merged.0,
                o_off,
                p_off,
                c_off,
            )
            &&& c.arguments@ == b.calls@[j].arguments@.map_values(
                |q: Option<SymPtr>| rewrite_opt(q, b.fnames(), merged.0, o_off, p_off, c_off),
            )
            &&& c.callsite == rewrite_opt(
                b.calls@[j].callsite,
                b.fnames(),
                merged.0,
                o_off,
                p_off,
                c_off,
            )
        }
}

/// Table validity carries over to a file that differs only in its function
/// table, as long as that table did not shrink and its names stay unique.
proof fn lemma_wf_funs_changed(a: &ObjectFile, b: &ObjectFile)
    requires
        a.wf(),
        forall|x: int, y: int| 0 <= x < y < b.fnames().len() ==> b.fnames()[x] != b.fnames()[y],
        b.objects == a.objects,
        b.points_to == a.points_to,
        b.calls == a.calls,
        a.functions@.len() <= b.functions@.len(),
    ensures
        b.wf(),
{
    assert forall|i: int|
        0 <= i < b.objects@.len() implies b.object_valid(#[trigger] b.objects@[i]) by {
        assert(a.object_valid(a.objects@[i]));
    }
    assert forall|i: int|
        0 <= i < b.points_to@.len() implies b.points_to_valid(#[trigger] b.points_to@[i]) by {
        assert(a.points_to_valid(a.points_to@[i]));
    }
    assert forall|i: int| 0 <= i < b.calls@.len() implies b.call_valid(#[trigger] b.calls@[i]) by {
        assert(a.call_valid(a.calls@[i]));
    }
}

impl ObjectFile {
    /// Links `other` into `self`: function symbols are merged by name (an
    /// external flag survives only if both sides are external), and the
    /// object, points-to and call tables of `other` are appended with every
    /// cross-reference rewritten to stay valid in the merged file.
    pub fn link(&mut self, other: ObjectFile)
        requires
            old(self).wf(),
            other.wf(),
            link_sizes_ok(old(self), &other),
        ensures
            final(self).wf(),
            linked(old(self), &other, final(self)),
    {
        let ghost a0 = *self;
        let on = other.functions.len();
        proof {
            assert(other.fnames().take(0) =~= Seq::<Seq<char>>::empty());
            assert(other.fexts().take(0) =~= Seq::<bool>::empty());
        }
        let mut i: usize = 0;
        while i < on
            invariant
                self.wf(),
                a0.wf(),
                other.wf(),
                link_sizes_ok(&a0, &other),
                on == other.functions@.len(),
                i <= on,
                self.objects == a0.objects,
                self.points_to == a0.points_to,
                self.calls == a0.calls,
                a0.functions@.len() <= self.functions@.len(),
                self.fnames() == link_syms(
                    a0.fnames(),
                    a0.fexts(),
                    other.fnames().take(i as int),
                    other.fexts().take(i as int),
                ).0,
                self.fexts() == link_syms(
                    a0.fnames(),
                    a0.fexts(),
                    other.fnames().take(i as int),
                    other.fexts().take(i as int),
                ).1,
            decreases on - i,
        {
            let ghost pre = *self;
            let _pre_fn_len: usize = self.functions.len();
            let f = other.functions[i].clone();
            let ghost bn_i = other.fnames()[i as int];
            let ghost be_i = other.fexts()[i as int];
            proof {
                assert(other.fnames()[i as int] == other.functions@[i as int].spec_name());
                assert(other.fexts()[i as int] == other.functions@[i as int].spec_external());
                assert(f.spec_name() == bn_i);
                assert(f.spec_external() == be_i);
            }
            let (id, existed) = self.add_function(f);
            proof {
                lemma_find_fun(pre.fnames(), bn_i);
            }
            if existed {
                let cur = self.get_fun_by_id(&id).is_external();
                proof {
                    let idx = find_fun(pre.fnames(), bn_i);
                    assert(pre.fexts()[idx] == pre.functions@[idx].spec_external());
                    assert(cur == pre.fexts()[idx]);
                }
                let other_ext = other.functions[i].is_external();
                if other_ext != cur {
                    self.get_mut_fun_by_id(&id).set_external(false);
                    proof {
                        let idx = find_fun(pre.fnames(), bn_i);
                        assert(self.fnames() =~= pre.fnames());
                        assert(self.fexts() =~= pre.fexts().update(idx, false));
                        assert((pre.fexts()[idx] && be_i) == false);
                        lemma_wf_funs_changed(&pre, self);
                    }
                } else {
                    proof {
                        let idx = find_fun(pre.fnames(), bn_i);
                        assert(*self == pre);
                        assert(pre.fexts().update(idx, pre.fexts()[idx] && be_i) =~= pre.fexts());
                    }
                }
            } else {
                proof {
                    assert(self.fnames() =~= pre.fnames().push(bn_i));
                    assert(self.fexts() =~= pre.fexts().push(be_i));
                }
            }
            proof {
                assert(other.fnames().take(i + 1) =~= other.fnames().take(i as int).push(bn_i));
                assert(other.fexts().take(i + 1) =~= other.fexts().take(i as int).push(be_i));
                lemma_link_syms_snoc(
                    a0.fnames(),
                    a0.fexts(),
                    other.fnames().take(i as int),
                    other.fexts().take(i as int),
                    bn_i,
                    be_i,
                );
            }
            i += 1;
        }
        proof {
            assert(other.fnames().take(on as int) =~= other.fnames());
            assert(other.fexts().take(on as int) =~= other.fexts());
            lemma_link_syms_props(a0.fnames(), a0.fexts(), other.fnames(), other.fexts());
            assert forall|p: SymPtr| other.ptr_valid(p) implies #[trigger] self.rewrite_pre(
                &other,
                p,
            ) by {
                match p {
                    SymPtr::F(fi) => {
                        assert(self.fnames().contains(other.fnames()[fi as int]));
                        lemma_find_fun(self.fnames(), other.fnames()[fi as int]);
                    },
                    SymPtr::O(_) => {},
                    SymPtr::P(_) => {},
                    SymPtr::C(_) => {},
                }
            }
        }
        let ghost merged_names = self.fnames();
        let ghost merged_exts = self.fexts();
        let ghost o_off = self.objects@.len() as int;
        let ghost p_off = self.points_to@.len() as int;
        let ghost c_off = self.calls@.len() as int;

        let o_len = other.objects.len();
        let mut new_objs: Vec<Object<SymPtr>> = Vec::new();
        let mut j: usize = 0;
        while j < o_len
            invariant
                self.wf(),
                other.wf(),
                o_len == other.objects@.len(),
                j <= o_len,
                merged_names == self.fnames(),
                o_off == self.objects@.len() as int,
                p_off == self.points_to@.len() as int,
                c_off == self.calls@.len() as int,
                forall|p: SymPtr| other.ptr_valid(p) ==> #[trigger] self.rewrite_pre(&other, p),
                new_objs@.len() == j,
                forall|jj: int|
                    0 <= jj < j ==> (#[trigger] new_objs@[jj]).fields@
                        == other.objects@[jj].fields@.map_values(
                        |q: Option<SymPtr>|
                            rewrite_opt(q, other.fnames(), merged_names, o_off, p_off, c_off),
                    ),
            decreases o_len - j,
        {
            proof {
                assert(other.object_valid(other.objects@[j as int]));
            }
            let o = self.update_object(&other.objects[j], &other);
            new_objs.push(o);
            j += 1;
        }

        let p_len = other.points_to.len();
        let mut new_pts: Vec<PtsTo<SymPtr>> = Vec::new();
        let mut j2: usize = 0;
        while j2 < p_len
            invariant
                self.wf(),
                other.wf(),
                p_len == other.points_to@.len(),
                j2 <= p_len,
                merged_names == self.fnames(),
                o_off == self.objects@.len() as int,
                p_off == self.points_to@.len() as int,
                c_off == self.calls@.len() as int,
                forall|p: SymPtr| other.ptr_valid(p) ==> #[trigger] self.rewrite_pre(&other, p),
                new_pts@.len() == j2,
                forall|jj: int|
                    0 <= jj < j2 ==> (#[trigger] new_pts@[jj]).points_to@
                        == other.points_to@[jj].points_to@.map_values(
                        |q: SymPtr|
                            rewrite_ptr(q, other.fnames(), merged_names, o_off, p_off, c_off),
                    ),
            decreases p_len - j2,
        {
            proof {
                assert(other.points_to_valid(other.points_to@[j2 as int]));
            }
            let o = self.update_points_to(&other.points_to[j2], &other);
            new_pts.push(o);
            j2 += 1;
        }

        let c_len = other.calls.len();
        let mut new_calls: Vec<FCall<SymPtr>> = Vec::new();
        let mut j3: usize = 0;
        while j3 < c_len
            invariant
                self.wf(),
                other.wf(),
                c_len == other.calls@.len(),
                j3 <= c_len,
                merged_names == self.fnames(),
                o_off == self.objects@.len() as int,
                p_off == self.points_to@.len() as int,
                c_off == self.calls@.len() as int,
                forall|p: SymPtr| other.ptr_valid(p) ==> #[trigger] self.rewrite_pre(&other, p),
                new_calls@.len() == j3,
                forall|jj: int|
                    0 <= jj < j3 ==> {
                        let c = #[trigger] new_calls@[jj];
                        &&& c.callee == rewrite_ptr(
                            other.calls@[jj].callee,
                            other.fnames(),
                            merged_names,
                            o_off,
                            p_off,
                            c_off,
                        )
                        &&& c.arguments@ == other.calls@[jj].arguments@.map_values(
                            |q: Option<SymPtr>|
                                rewrite_opt(q, other.fnames(), merged_names, o_off, p_off, c_off),
                        )
                        &&& c.callsite == rewrite_opt(
                            other.calls@[jj].callsite,
                            other.fnames(),
                            merged_names,
                            o_off,
                            p_off,
                            c_off,
                        )
                    },
            decreases c_len - j3,
        {
            proof {
                assert(other.call_valid(other.calls@[j3 as int]));
            }
            let o = self.update_fcall(&other.calls[j3], &other);
            new_calls.push(o);
            j3 += 1;
        }

        let ghost before_append = *self;
        let ghost objs_fin = new_objs@;
        let ghost pts_fin = new_pts@;
        let ghost calls_fin = new_calls@;
        self.objects.append(&mut new_objs);
        self.points_to.append(&mut new_pts);
        self.calls.append(&mut new_calls);

        proof {
            assert(self.fnames() =~= merged_names);
            assert(self.fexts() =~= merged_exts);
            assert(self.functions@.len() == merged_names.len());

            // Validity of the merged file.
            assert forall|ii: int|
                0 <= ii < self.objects@.len() implies self.object_valid(
                #[trigger] self.objects@[ii],
            ) by {
                if ii < o_off {
                    assert(a0.object_valid(a0.objects@[ii]));
                    assert forall|k: int|
                        #![trigger self.objects@[ii].fields@[k]]
                        0 <= k < self.objects@[ii].fields@.len() implies match self.objects@[ii].fields@[k] {
                        Some(p) => self.ptr_valid(p),
                        None => true,
                    } by {
                        match a0.objects@[ii].fields@[k] {
                            Some(p) => {
                                assert(a0.ptr_valid(p));
                            },
                            None => {},
                        }
                    }
                } else {
                    let jj = ii - o_off;
                    assert(self.objects@[ii] == objs_fin[jj]);
                    assert(other.object_valid(other.objects@[jj]));
                    assert forall|k: int|
                        #![trigger self.objects@[ii].fields@[k]]
                        0 <= k < self.objects@[ii].fields@.len() implies match self.objects@[ii].fields@[k] {
                        Some(p) => self.ptr_valid(p),
                        None => true,
                    } by {
                        assert(self.objects@[ii].fields@[k] == rewrite_opt(
                            other.objects@[jj].fields@[k],
                            other.fnames(),
                            merged_names,
                            o_off,
                            p_off,
                            c_off,
                        ));
                        match other.objects@[jj].fields@[k] {
                            Some(q) => {
                                assert(other.ptr_valid(q));
                                assert(before_append.rewrite_pre(&other, q));
                                match q {
                                    SymPtr::F(fi) => {
                                        lemma_find_fun(
                                            merged_names,
                                            other.fnames()[fi as int],
                                        );
                                    },
                                    SymPtr::O(_) => {},
                                    SymPtr::P(_) => {},
                                    SymPtr::C(_) => {},
                                }
                            },
                            None => {},
                        }
                    }
                }
            }
            assert forall|ii: int|
                0 <= ii < self.points_to@.len() implies self.points_to_valid(
                #[trigger] self.points_to@[ii],
            ) by {
                if ii < p_off {
                    assert(a0.points_to_valid(a0.points_to@[ii]));
                    assert forall|k: int|
                        #![trigger self.points_to@[ii].points_to@[k]]
                        0 <= k < self.points_to@[ii].points_to@.len() implies self.ptr_valid(
                        self.points_to@[ii].points_to@[k],
                    ) by {
                        assert(a0.ptr_valid(a0.points_to@[ii].points_to@[k]));
                    }
                } else {
                    let jj = ii - p_off;
                    assert(self.points_to@[ii] == pts_fin[jj]);
                    assert(other.points_to_valid(other.points_to@[jj]));
                    assert forall|k: int|
                        #![trigger self.points_to@[ii].points_to@[k]]
                        0 <= k < self.points_to@[ii].points_to@.len() implies self.ptr_valid(
                        self.points_to@[ii].points_to@[k],
                    ) by {
                        let q = other.points_to@[jj].points_to@[k];
                        assert(self.points_to@[ii].points_to@[k] == rewrite_ptr(
                            q,
                            other.fnames(),
                            merged_names,
                            o_off,
                            p_off,
                            c_off,
                        ));
                        assert(other.ptr_valid(q));
                        assert(before_append.rewrite_pre(&other, q));
                        match q {
                            SymPtr::F(fi) => {
                                lemma_find_fun(merged_names, other.fnames()[fi as int]);
                            },
                            SymPtr::O(_) => {},
                            SymPtr::P(_) => {},
                            SymPtr::C(_) => {},
                        }
                    }
                }
            }
            assert forall|ii: int|
                0 <= ii < self.calls@.len() implies self.call_valid(#[trigger] self.calls@[ii]) by {
                if ii < c_off {
                    assert(a0.call_valid(a0.calls@[ii]));
                    assert(a0.ptr_valid(a0.calls@[ii].callee));
                    assert forall|k: int|
                        #![trigger self.calls@[ii].arguments@[k]]
                        0 <= k < self.calls@[ii].arguments@.len() implies match self.calls@[ii].arguments@[k] {
                        Some(p) => self.ptr_valid(p),
                        None => true,
                    } by {
                        match a0.calls@[ii].arguments@[k] {
                            Some(p) => {
                                assert(a0.ptr_valid(p));
                            },
                            None => {},
                        }
                    }
                    match a0.calls@[ii].callsite {
                        Some(p) => {
                            assert(a0.ptr_valid(p));
                        },
                        None => {},
                    }
                } else {
                    let jj = ii - c_off;
                    assert(self.calls@[ii] == calls_fin[jj]);
                    assert(other.call_valid(other.calls@[jj]));
                    let rewritten_ok = |q: SymPtr|
                        other.ptr_valid(q) ==> self.ptr_valid(
                            rewrite_ptr(q, other.fnames(), merged_names, o_off, p_off, c_off),
                        );
                    assert forall|q: SymPtr| other.ptr_valid(q) implies self.ptr_valid(
                        rewrite_ptr(q, other.fnames(), merged_names, o_off, p_off, c_off),
                    ) by {
                        assert(before_append.rewrite_pre(&other, q));
                        match q {
                            SymPtr::F(fi) => {
                                lemma_find_fun(merged_names, other.fnames()[fi as int]);
                            },
                            SymPtr::O(_) => {},
                            SymPtr::P(_) => {},
                            SymPtr::C(_) => {},
                        }
                    }
                    assert forall|k: int|
                        #![trigger self.calls@[ii].arguments@[k]]
                        0 <= k < self.calls@[ii].arguments@.len() implies match self.calls@[ii].arguments@[k] {
                        Some(p) => self.ptr_valid(p),
                        None => true,
                    } by {
                        assert(self.calls@[ii].arguments@[k] == rewrite_opt(
                            other.calls@[jj].arguments@[k],
                            other.fnames(),
                            merged_names,
                            o_off,
                            p_off,
                            c_off,
                        ));
                        match other.calls@[jj].arguments@[k] {
                            Some(q) => {
                                assert(other.ptr_valid(q));
                            },
                            None => {},
                        }
                    }
                    match other.calls@[jj].callsite {
                        Some(q) => {
                            assert(other.ptr_valid(q));
                        },
                        None => {},
                    }
                }
            }
        }
    }

    /// Links `o2` into `o1` and returns the merged file.
    pub fn link_consuming(o1: Self, o2: Self) -> (r: Self)
        requires
            o1.wf(),
            o2.wf(),
            link_sizes_ok(&o1, &o2),
        ensures
            r.wf(),
            linked(&o1, &o2, &r),
    {
        let mut o1 = o1;
        o1.link(o2);
        o1
    }
}

/// The function indices among `s`, in order; non-function members are
/// discarded.
pub open spec fn fun_targets(s: Seq<SymPtr>) -> Seq<usize>
    decreases s.len(),
{
    if s.len() == 0 {
        Seq::empty()
    } else {
        let rest = fun_targets(s.drop_last());
        match s.last() {
            SymPtr::F(i) => rest.push(i),
            _ => rest,
        }
    }
}

impl ObjectFile {
    /// The function indices a reference can denote: a function reference
    /// denotes itself; a points-to reference denotes the function members of
    /// its set.  Other tags are a contract violation and excluded.
    pub fn get_referenced_functions(&self, id: SymPtr) -> (r: Vec<usize>)
        requires
            match id {
                SymPtr::F(i) => i < self.functions@.len(),
                SymPtr::P(i) => i < self.points_to@.len(),
                _ => false,
            },
        ensures
            match id {
                SymPtr::F(i) => r@ == seq![i],
                SymPtr::P(i) => r@ == fun_targets(self.points_to@[i as int].points_to@),
                _ => false,
            },
    {
        match id {
            SymPtr::F(idx) => {
                let mut r: Vec<usize> = Vec::new();
                r.push(idx);
                proof {
                    assert(r@ =~= seq![idx]);
                }
                r
            },
            SymPtr::P(idx) => {
                let ghost targets = self.points_to@[idx as int].points_to@;
                let len = self.points_to[idx].points_to.len();
                let mut r: Vec<usize> = Vec::new();
                let mut k: usize = 0;
                while k < len
                    invariant
                        idx < self.points_to@.len(),
                        targets == self.points_to@[idx as int].points_to@,
                        len == targets.len(),
                        k <= len,
                        r@ == fun_targets(targets.take(k as int)),
                    decreases len - k,
                {
                    proof {
                        assert(targets.take(k + 1).drop_last() =~= targets.take(k as int));
                        assert(targets.take(k + 1).last() == targets[k as int]);
                    }
                    match self.points_to[idx].points_to[k] {
                        SymPtr::F(fid) => {
                            r.push(fid);
                        },
                        _ => {},
                    }
                    k += 1;
                }
                proof {
                    assert(targets.take(len as int) =~= targets);
                }
                r
            },
            _ => unreached(),
        }
    }
}

} // verus!
