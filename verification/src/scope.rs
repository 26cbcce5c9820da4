//! Nested variable scopes.
//!
//! A scope holds the variables and functions declared in it and, when it
//! was opened inside another one, that enclosing scope. Lookups walk
//! outwards from the innermost scope.

use std::collections::HashMap;
use crate::instruction::{Instruction, StackValue, Op, op_of, opt_op, copy_instruction};
use vstd::prelude::*;

verus! {

/// The value bound to `id` in the innermost frame that binds it.
pub open spec fn lookup_var(frames: Seq<Map<u64, StackValue>>, id: u64) -> Option<StackValue>
    decreases frames.len(),
{
    if frames.len() == 0 {
        None
    } else if frames[0].contains_key(id) {
        Some(frames[0][id])
    } else {
        lookup_var(frames.drop_first(), id)
    }
}

/// The frames after rebinding `id` to `val` in the innermost frame that
/// binds it; unchanged when no frame binds it.
pub open spec fn update_var(frames: Seq<Map<u64, StackValue>>, id: u64, val: StackValue) -> Seq<
    Map<u64, StackValue>,
>
    decreases frames.len(),
{
    if frames.len() == 0 {
        frames
    } else if frames[0].contains_key(id) {
        frames.update(0, frames[0].insert(id, val))
    } else {
        seq![frames[0]] + update_var(frames.drop_first(), id, val)
    }
}

/// The frames after binding `id` to `val` in the innermost frame.
pub open spec fn declare_var(frames: Seq<Map<u64, StackValue>>, id: u64, val: StackValue) -> Seq<
    Map<u64, StackValue>,
> {
    frames.update(0, frames[0].insert(id, val))
}

/// The function visible under `id`: walking outwards, the first frame
/// that either stores a function under `id`, or stores the function that
/// the variable `id` refers to.
pub open spec fn lookup_func(
    vars: Seq<Map<u64, StackValue>>,
    funs: Seq<Map<u64, Op>>,
    id: u64,
) -> Option<Op>
    decreases funs.len(),
{
    if funs.len() == 0 {
        None
    } else {
        match local_func(funs[0], vars, id) {
            Some(f) => Some(f),
            None => lookup_func(vars.drop_first(), funs.drop_first(), id),
        }
    }
}

/// The function that one frame's store `own` holds for `id`: stored under
/// `id` itself, or under the function id that the variable `id` (looked up
/// through all of `vars`) refers to.
pub open spec fn local_func(own: Map<u64, Op>, vars: Seq<Map<u64, StackValue>>, id: u64) -> Option<
    Op,
> {
    if own.contains_key(id) {
        Some(own[id])
    } else {
        match lookup_var(vars, id) {
            Some(StackValue::Function(g)) => if own.contains_key(g) {
                Some(own[g])
            } else {
                None
            },
            _ => None,
        }
    }
}

/// Declaring `id` with `val` in the innermost scope makes `val` the value
/// of `id`.
pub proof fn law_get_after_declare(frames: Seq<Map<u64, StackValue>>, id: u64, val: StackValue)
    requires
        frames.len() >= 1,
    ensures
        lookup_var(declare_var(frames, id, val), id) == Some(val),
{
}

/// Declaring `id` changes no other variable and no enclosing scope.
pub proof fn law_declare_keeps_others(
    frames: Seq<Map<u64, StackValue>>,
    id: u64,
    val: StackValue,
    other: u64,
)
    requires
        frames.len() >= 1,
        other != id,
    ensures
        lookup_var(declare_var(frames, id, val), other) == lookup_var(frames, other),
        declare_var(frames, id, val).drop_first() == frames.drop_first(),
{
    assert(declare_var(frames, id, val).drop_first() =~= frames.drop_first());
}

/// Declaring `id` in the innermost scope adds one variable to it when `id`
/// was not declared there yet, and none when it was.
pub proof fn law_declare_count(frames: Seq<Map<u64, StackValue>>, id: u64, val: StackValue)
    requires
        frames.len() >= 1,
        frames[0].dom().finite(),
    ensures
        declare_var(frames, id, val)[0].dom().finite(),
        declare_var(frames, id, val)[0].len() == (if frames[0].contains_key(id) {
            frames[0].len()
        } else {
            frames[0].len() + 1
        }),
{
    if frames[0].contains_key(id) {
        assert(frames[0].insert(id, val).dom() =~= frames[0].dom());
    }
}

/// Rebinding `id` succeeds exactly when some scope declares it, and then
/// `id` has the new value; no other variable changes, nor the number of
/// scopes.
pub proof fn law_update_var(
    frames: Seq<Map<u64, StackValue>>,
    id: u64,
    val: StackValue,
    other: u64,
)
    ensures
        lookup_var(update_var(frames, id, val), id) == (if lookup_var(frames, id) is Some {
            Some(val)
        } else {
            None
        }),
        other != id ==> lookup_var(update_var(frames, id, val), other) == lookup_var(
            frames,
            other,
        ),
        update_var(frames, id, val).len() == frames.len(),
    decreases frames.len(),
{
    if frames.len() > 0 && !frames[0].contains_key(id) {
        let rest = frames.drop_first();
        law_update_var(rest, id, val, other);
        let u = update_var(frames, id, val);
        assert(u.drop_first() =~= update_var(rest, id, val));
    } else if frames.len() > 0 {
        let u = update_var(frames, id, val);
        assert(u.drop_first() =~= frames.drop_first());
    }
}

/// A scope opened inside another sees exactly the variables and functions
/// that the other sees, and closing it gives the other back.
pub proof fn law_open_scope(vars: Seq<Map<u64, StackValue>>, funs: Seq<Map<u64, Op>>, id: u64)
    ensures
        lookup_var(seq![Map::empty()] + vars, id) == lookup_var(vars, id),
        lookup_func(seq![Map::empty()] + vars, seq![Map::empty()] + funs, id) == lookup_func(
            vars,
            funs,
            id,
        ),
        (seq![Map::<u64, StackValue>::empty()] + vars).drop_first() == vars,
        (seq![Map::<u64, Op>::empty()] + funs).drop_first() == funs,
{
    assert((seq![Map::<u64, StackValue>::empty()] + vars).drop_first() =~= vars);
    assert((seq![Map::<u64, Op>::empty()] + funs).drop_first() =~= funs);
}

/// Storing `f` under `id` in the innermost scope makes `f` the function
/// that `id` names.
pub proof fn law_get_func_after_set(
    vars: Seq<Map<u64, StackValue>>,
    funs: Seq<Map<u64, Op>>,
    id: u64,
    f: Op,
)
    requires
        funs.len() >= 1,
    ensures
        lookup_func(vars, funs.update(0, funs[0].insert(id, f)), id) == Some(f),
{
}

/// A scope: its own variables and functions, and the scope it was opened in.
#[derive(Debug)]
pub struct Scope {
    var_store: HashMap<u64, StackValue>,
    fun_store: HashMap<u64, Instruction>,
    outter_scope: Option<Box<Scope>>,
}

impl Scope {
    /// The variables of each frame, innermost first.
    pub closed spec fn var_frames(self) -> Seq<Map<u64, StackValue>>
        decreases self,
    {
        match self.outter_scope {
            Some(o) => seq![self.var_store@] + o.var_frames(),
            None => seq![self.var_store@],
        }
    }

    /// The functions of each frame, innermost first.
    pub closed spec fn fun_frames(self) -> Seq<Map<u64, Op>>
        decreases self,
    {
        let own = self.fun_store@.map_values(|f: Instruction| op_of(f));
        match self.outter_scope {
            Some(o) => seq![own] + o.fun_frames(),
            None => seq![own],
        }
    }

    /// Every scope has its own frame, and as many function frames as
    /// variable frames; every frame holds finitely many variables.
    pub proof fn lemma_frames_len(self)
        ensures
            self.var_frames().len() >= 1,
            self.fun_frames().len() == self.var_frames().len(),
            forall|i: int| 0 <= i < self.var_frames().len() ==> #[trigger] self.var_frames()[i].dom().finite(),
        decreases self,
    {
        assert(self.var_store@.dom().finite());
        if let Some(o) = self.outter_scope {
            o.lemma_frames_len();
            assert forall|i: int| 0 <= i < self.var_frames().len() implies #[trigger] self.var_frames()[i].dom().finite() by {
                if i > 0 {
                    assert(self.var_frames()[i] == o.var_frames()[i - 1]);
                }
            }
        }
    }

    proof fn lemma_frames(self)
        ensures
            self.var_frames().len() >= 1,
            self.fun_frames().len() == self.var_frames().len(),
            self.var_frames()[0] == self.var_store@,
            self.var_frames()[0].dom().finite(),
            self.fun_frames()[0] == self.fun_store@.map_values(|f: Instruction| op_of(f)),
    {
        self.lemma_frames_len();
    }

    /// An empty scope with no enclosing scope.
    pub fn new() -> (r: Self)
        ensures
            r.var_frames() == seq![Map::<u64, StackValue>::empty()],
            r.fun_frames() == seq![Map::<u64, Op>::empty()],
    {
        let r = Scope { var_store: HashMap::new(), outter_scope: None, fun_store: HashMap::new() };
        proof {
            assert(r.fun_store@.map_values(|f: Instruction| op_of(f)) =~= Map::<u64, Op>::empty());
        }
        r
    }

    /// The number of variables declared in this scope itself.
    pub fn get_var_store_len(&self) -> (r: usize)
        ensures
            r == self.var_frames()[0].len(),
            self.var_frames()[0].dom().finite(),
    {
        proof {
            self.lemma_frames();
        }
        self.var_store.len()
    }

    /// A new, empty scope opened inside `outer_scope`.
    pub fn from_scope(outer_scope: Scope) -> (r: Self)
        ensures
            r.var_frames() == seq![Map::<u64, StackValue>::empty()] + outer_scope.var_frames(),
            r.fun_frames() == seq![Map::<u64, Op>::empty()] + outer_scope.fun_frames(),
    {
        let scope = Scope {
            var_store: HashMap::new(),
            outter_scope: Some(Box::new(outer_scope)),
            fun_store: HashMap::new(),
        };
        proof {
            assert(scope.fun_store@.map_values(|f: Instruction| op_of(f)) =~= Map::<
                u64,
                Op,
            >::empty());
        }
        scope
    }

    /// Closes this scope, giving back the scope it was opened in, if any.
    pub fn into_outer(self) -> (r: Option<Scope>)
        ensures
            r is Some <==> self.var_frames().len() > 1,
            r matches Some(o) ==> o.var_frames() == self.var_frames().drop_first()
                && o.fun_frames() == self.fun_frames().drop_first(),
    {
        proof {
            self.lemma_frames();
            if self.outter_scope is Some {
                let o = *self.outter_scope.unwrap();
                o.lemma_frames();
                assert(self.var_frames().drop_first() =~= o.var_frames());
                assert(self.fun_frames().drop_first() =~= o.fun_frames());
            }
        }
        match self.outter_scope {
            Some(o) => Some(*o),
            None => None,
        }
    }

    fn __get_func(&self, func_id: u64) -> (r: Option<&Instruction>)
        ensures
            ({
                let l = local_func(
                    self.fun_store@.map_values(|f: Instruction| op_of(f)),
                    self.var_frames(),
                    func_id,
                );
                match r {
                    Some(f) => l == Some(op_of(*f)),
                    None => l is None,
                }
            }),
    {
        match (self.fun_store.get(&func_id), self.get_var(func_id)) {
            (Some(f), _) => Some(f),
            (_, Some(StackValue::Function(f_id))) => self.fun_store.get(&f_id),
            _ => None,
        }
    }

    /// The function visible under `id` (see `lookup_func`), copied.
    pub fn get_func(&self, id: u64) -> (r: Option<Instruction>)
        ensures
            opt_op(r) == lookup_func(self.var_frames(), self.fun_frames(), id),
        decreases self.var_frames().len(),
    {
        proof {
            self.lemma_frames();
        }
        let var = self.__get_func(id);
        match var {
            Some(x) => {
                proof {
                    assert(self.fun_frames()[0] == self.fun_store@.map_values(
                        |f: Instruction| op_of(f),
                    ));
                    assert(local_func(self.fun_frames()[0], self.var_frames(), id) == Some(
                        op_of(*x),
                    ));
                }
                return Some(copy_instruction(x));
            },
            None => {
                if let Some(out) = &self.outter_scope {
                    proof {
                        out.lemma_frames();
                        assert(self.var_frames().drop_first() =~= out.var_frames());
                        assert(self.fun_frames().drop_first() =~= out.fun_frames());
                    }
                    out.get_func(id)
                } else {
                    None
                }
            },
        }
    }

    /// Stores `func` under `id` in this scope itself; returns the function
    /// that was stored there before.
    pub fn set_func(&mut self, id: u64, func: Instruction) -> (r: Option<Instruction>)
        ensures
            final(self).var_frames() == old(self).var_frames(),
            final(self).fun_frames() == old(self).fun_frames().update(
                0,
                old(self).fun_frames()[0].insert(id, op_of(func)),
            ),
            opt_op(r) == (if old(self).fun_frames()[0].contains_key(id) {
                Some(old(self).fun_frames()[0][id])
            } else {
                None
            }),
    {
        proof {
            self.lemma_frames();
        }
        let r = self.fun_store.insert(id, func);
        proof {
            let own = old(self).fun_store@.map_values(|f: Instruction| op_of(f));
            assert(self.fun_store@.map_values(|f: Instruction| op_of(f)) =~= own.insert(id, op_of(func)));
            assert(self.fun_frames() =~= old(self).fun_frames().update(0, own.insert(id, op_of(func))));
            assert(self.var_frames() =~= old(self).var_frames());
        }
        r
    }

    /// Declares `id` with value `val` in this scope itself; returns the
    /// value it had there before.
    pub fn dec_var(&mut self, id: u64, val: StackValue) -> (r: Option<StackValue>)
        ensures
            final(self).var_frames() == declare_var(old(self).var_frames(), id, val),
            final(self).fun_frames() == old(self).fun_frames(),
            final(self).var_frames()[0].len() == (if old(self).var_frames()[0].contains_key(id) {
                old(self).var_frames()[0].len()
            } else {
                old(self).var_frames()[0].len() + 1
            }),
            r == (if old(self).var_frames()[0].contains_key(id) {
                Some(old(self).var_frames()[0][id])
            } else {
                None
            }),
    {
        proof {
            self.lemma_frames();
        }
        let r = self.var_store.insert(id, val);
        proof {
            law_declare_count(old(self).var_frames(), id, val);
            assert(self.var_frames() =~= declare_var(old(self).var_frames(), id, val));
            assert(self.fun_frames() =~= old(self).fun_frames());
        }
        r
    }

    /// Rebinds `id` to `val` in the innermost scope that declares it.
    /// Returns `Some(val)` when such a scope exists, and `None` (changing
    /// nothing) when none does.
    pub fn set_var(&mut self, id: u64, val: StackValue) -> (r: Option<StackValue>)
        ensures
            final(self).var_frames() == update_var(old(self).var_frames(), id, val),
            final(self).fun_frames() == old(self).fun_frames(),
            r == (if lookup_var(old(self).var_frames(), id) is Some {
                Some(val)
            } else {
                None
            }),
        decreases old(self).var_frames().len(),
    {
        proof {
            self.lemma_frames();
        }
        if self.var_store.contains_key(&id) {
            self.var_store.insert(id, val);
            proof {
                assert(old(self).var_frames()[0].contains_key(id));
                assert(lookup_var(old(self).var_frames(), id) is Some);
                assert(self.var_frames() =~= update_var(old(self).var_frames(), id, val));
                assert(self.fun_frames() =~= old(self).fun_frames());
            }
            Some(val)
        } else {
            let outer = self.outter_scope.take();
            match outer {
                Some(o) => {
                    let mut inner: Scope = *o;
                    proof {
                        inner.lemma_frames();
                        assert(old(self).var_frames().drop_first() =~= inner.var_frames());
                    }
                    let ghost inner0 = inner;
                    let r = inner.set_var(id, val);
                    self.outter_scope = Some(Box::new(inner));
                    proof {
                        assert(!old(self).var_frames()[0].contains_key(id));
                        assert(lookup_var(old(self).var_frames(), id) == lookup_var(inner0.var_frames(), id));
                        assert(self.var_frames() =~= update_var(old(self).var_frames(), id, val));
                        assert(self.fun_frames() =~= old(self).fun_frames());
                    }
                    r
                },
                None => {
                    proof {
                        assert(!old(self).var_frames()[0].contains_key(id));
                        assert(old(self).var_frames().drop_first() =~= Seq::<
                            Map<u64, StackValue>,
                        >::empty());
                        assert(lookup_var(old(self).var_frames().drop_first(), id) is None);
                        assert(update_var(old(self).var_frames().drop_first(), id, val) =~= Seq::<
                            Map<u64, StackValue>,
                        >::empty());
                        assert(lookup_var(old(self).var_frames(), id) is None);
                        assert(update_var(old(self).var_frames(), id, val) =~= old(self).var_frames());
                        assert(self.var_frames() =~= old(self).var_frames());
                        assert(self.fun_frames() =~= old(self).fun_frames());
                    }
                    None
                },
            }
        }
    }

    /// The value of `id` in the innermost scope that declares it.
    pub fn get_var(&self, id: u64) -> (r: Option<StackValue>)
        ensures
            r == lookup_var(self.var_frames(), id),
        decreases self.var_frames().len(),
    {
        proof {
            self.lemma_frames();
        }
        let var = self.var_store.get(&id);
        match var {
            Some(x) => {
                return Some(*x);
            },
            None => {
                if let Some(out) = &self.outter_scope {
                    proof {
                        out.lemma_frames();
                        assert(self.var_frames().drop_first() =~= out.var_frames());
                    }
                    out.get_var(id)
                } else {
                    None
                }
            },
        }
    }
}

} // verus!
