//! Evaluation: identifier lookup, self-evaluation of literals, and function
//! application against a chain of scopes.
//!
//! The mathematical meaning of evaluation is the spec function `eval_spec`,
//! a recursive interpreter over expression shapes; `eval` is proved to
//! agree with it exactly. Because user-defined functions may recurse
//! without bound, every evaluation carries a fuel that one function
//! application consumes; running out of fuel is an explicit failure.

mod error;
mod scope;

pub use self::error::{EvalError, EvalErrV};
pub use self::scope::{Scope, ScopeError, ScopeV, lookup_spec, scope_view};

use vstd::prelude::*;
use crate::reader::{expr_view, exprs_view, Expression, ExprV, Function, FunV, NativeFunction};

verus! {

broadcast use vstd::seq::axiom_seq_index_decreases, vstd::seq::axiom_seq_subrange_decreases, vstd::std_specs::vec::axiom_vec_index_decreases, vstd::std_specs::vec::axiom_vec_decreases_to_view;

/// How many nested applications of user-defined functions one `eval` call
/// may perform before failing with `RecursionLimit`.
pub const RECURSION_LIMIT: u64 = 64;

/// The size of an expression shape: one for the node itself plus, for a
/// list, the sizes of its items. The measure under which evaluation of
/// subexpressions terminates.
pub open spec fn expr_size(e: ExprV) -> int
    decreases e,
{
    match e {
        ExprV::List(items) => 1 + exprs_size(items),
        _ => 1,
    }
}

/// The summed size of a sequence of expression shapes.
pub open spec fn exprs_size(s: Seq<ExprV>) -> int
    decreases s,
{
    if s.len() == 0 {
        0
    } else {
        expr_size(s.first()) + exprs_size(s.drop_first())
    }
}

/// Sizes are positive, and an element never outweighs its sequence.
proof fn lemma_exprs_size_elem(s: Seq<ExprV>, i: int)
    requires
        0 <= i < s.len(),
    ensures
        0 < expr_size(s[i]) <= exprs_size(s),
    decreases s,
{
    lemma_expr_size_pos(s[i]);
    if i == 0 {
        lemma_exprs_size_nonneg(s.drop_first());
    } else {
        lemma_expr_size_pos(s.first());
        lemma_exprs_size_elem(s.drop_first(), i - 1);
    }
}

/// A single expression's size is at least one.
proof fn lemma_expr_size_pos(e: ExprV)
    ensures
        expr_size(e) >= 1,
    decreases e,
{
    match e {
        ExprV::List(items) => {
            lemma_exprs_size_nonneg(items);
        },
        _ => {},
    }
}

/// A sequence's summed size is never negative.
proof fn lemma_exprs_size_nonneg(s: Seq<ExprV>)
    ensures
        exprs_size(s) >= 0,
    decreases s,
{
    if s.len() > 0 {
        lemma_expr_size_pos(s.first());
        lemma_exprs_size_nonneg(s.drop_first());
    }
}

/// What a native function returns on a list of evaluated arguments.
pub open spec fn native_apply_spec(nf: NativeFunction, args: Seq<ExprV>) -> Result<
    ExprV,
    EvalErrV,
> {
    match nf {
        NativeFunction::IntegerAdd => {
            if args.len() == 2 && args[0] is Integer && args[1] is Integer {
                Ok(
                    ExprV::Integer(
                        vstd::wrapping::i32_specs::wrapping_add(
                            args[0]->Integer_0,
                            args[1]->Integer_0,
                        ),
                    ),
                )
            } else {
                Err(EvalErrV::TypeMismatch)
            }
        },
        NativeFunction::Identity => {
            if args.len() >= 1 {
                Ok(args[0])
            } else {
                Err(EvalErrV::ArityMismatch { expected: 1, actual: 0 })
            }
        },
    }
}

/// The bindings of a fresh call scope: each parameter name bound to the
/// corresponding argument, positionally, a later duplicate name winning.
pub open spec fn params_map(params: Seq<Seq<char>>, args: Seq<ExprV>) -> Map<Seq<char>, ExprV>
    recommends
        params.len() == args.len(),
    decreases params,
{
    if params.len() == 0 {
        Map::empty()
    } else {
        params_map(params.drop_last(), args.drop_last()).insert(params.last(), args.last())
    }
}

/// The scope a user-defined function's body runs in: a child of the
/// captured defining environment, holding the parameter bindings.
pub open spec fn bind_params_spec(env: ScopeV, params: Seq<Seq<char>>, args: Seq<ExprV>) -> ScopeV {
    ScopeV { bindings: params_map(params, args), parent: Some(Box::new(env)) }
}

/// What evaluating `e` in `env` yields: literals and function values are
/// themselves; an identifier is what the scope chain binds it to; a list
/// is a call, its head evaluated first, then its arguments left to right,
/// then the application.
pub open spec fn eval_spec(env: ScopeV, e: ExprV, fuel: nat) -> Result<ExprV, EvalErrV>
    decreases fuel, expr_size(e), 1int, 0int,
        via eval_spec_decreases
{
    match e {
        ExprV::Identifier(name) => match lookup_spec(env, name) {
            Some(v) => Ok(v),
            None => Err(EvalErrV::ScopeError(name)),
        },
        ExprV::List(items) => {
            if items.len() == 0 {
                Err(EvalErrV::EmptyList)
            } else {
                match eval_spec(env, items[0], fuel) {
                    Err(e) => Err(e),
                    Ok(head) => match head {
                        ExprV::Fn(f) => match eval_args_spec(env, items, 1, Seq::empty(), fuel) {
                            Err(e) => Err(e),
                            Ok(args) => apply_spec(f, args, fuel),
                        },
                        other => Err(EvalErrV::NotAFunction(other)),
                    },
                }
            }
        },
        _ => Ok(e),
    }
}

#[via_fn]
proof fn eval_spec_decreases(env: ScopeV, e: ExprV, fuel: nat) {
    match e {
        ExprV::List(items) => {
            if items.len() > 0 {
                lemma_exprs_size_elem(items, 0);
            }
        },
        _ => {},
    }
}

/// Evaluating the arguments `items[i..]` left to right, eagerly, stopping
/// at the first failure, the values so far in `acc`.
pub open spec fn eval_args_spec(
    env: ScopeV,
    items: Seq<ExprV>,
    i: int,
    acc: Seq<ExprV>,
    fuel: nat,
) -> Result<Seq<ExprV>, EvalErrV>
    recommends
        1 <= i <= items.len(),
    decreases fuel, expr_size(ExprV::List(items)), 0int, items.len() - i,
        via eval_args_spec_decreases
{
    if i < 0 || i >= items.len() {
        Ok(acc)
    } else {
        match eval_spec(env, items[i], fuel) {
            Err(e) => Err(e),
            Ok(v) => eval_args_spec(env, items, i + 1, acc.push(v), fuel),
        }
    }
}

#[via_fn]
proof fn eval_args_spec_decreases(
    env: ScopeV,
    items: Seq<ExprV>,
    i: int,
    acc: Seq<ExprV>,
    fuel: nat,
) {
    if 0 <= i < items.len() {
        lemma_exprs_size_elem(items, i);
    }
}

/// What applying a function value to evaluated arguments yields: a native
/// applies its own rule; a user-defined function, given the right number
/// of arguments and remaining fuel, evaluates its body in a fresh child of
/// its captured environment.
pub open spec fn apply_spec(f: FunV, args: Seq<ExprV>, fuel: nat) -> Result<ExprV, EvalErrV>
    decreases fuel, 0int, 0int, 0int,
{
    match f {
        FunV::Native(nf) => native_apply_spec(nf, args),
        FunV::Regular { params, body, env } => {
            if params.len() != args.len() {
                Err(
                    EvalErrV::ArityMismatch {
                        expected: params.len() as int,
                        actual: args.len() as int,
                    },
                )
            } else if fuel == 0 {
                Err(EvalErrV::RecursionLimit)
            } else {
                eval_spec(bind_params_spec(env, params, args), *body, (fuel - 1) as nat)
            }
        },
    }
}

/// Evaluates `expr` against `scope` with the default recursion limit. The
/// scope itself is left unchanged; agrees exactly with [`eval_spec`].
pub fn eval(scope: &mut Scope, expr: &Expression) -> (r: Result<Expression, EvalError>)
    ensures
        final(scope)@ == old(scope)@,
        match r {
            Ok(e) => eval_spec(old(scope)@, expr@, RECURSION_LIMIT as nat) matches Ok(v) && e@
                == v,
            Err(er) => eval_spec(old(scope)@, expr@, RECURSION_LIMIT as nat) matches Err(ev) && er@
                == ev,
        },
{
    eval_with_fuel(&*scope, expr, RECURSION_LIMIT)
}

/// Evaluates `expr` against `scope`, allowing at most `fuel` nested
/// applications of user-defined functions; agrees exactly with
/// [`eval_spec`].
pub fn eval_with_fuel(scope: &Scope, expr: &Expression, fuel: u64) -> (r: Result<
    Expression,
    EvalError,
>)
    ensures
        match r {
            Ok(e) => eval_spec(scope@, expr@, fuel as nat) matches Ok(v) && e@ == v,
            Err(er) => eval_spec(scope@, expr@, fuel as nat) matches Err(ev) && er@ == ev,
        },
    decreases fuel, expr_size(expr@), 1int,
{
    match expr {
        Expression::Identifier(ident) => match scope.get(ident.as_str()) {
            Ok(v) => Ok(v),
            Err(e) => Err(EvalError::ScopeError(e)),
        },
        Expression::List(items) => {
            proof {
                assert(decreases_to!(*expr => expr->List_0));
                assert(expr->List_0 == *items);
            }
            eval_list(scope, items, fuel)
        },
        other => Ok(other.duplicate()),
    }
}

/// Evaluates a list form: the head, then each argument left to right, then
/// the application.
fn eval_list(scope: &Scope, list: &Vec<Expression>, fuel: u64) -> (r: Result<
    Expression,
    EvalError,
>)
    ensures
        match r {
            Ok(e) => eval_spec(scope@, ExprV::List(exprs_view(list@)), fuel as nat) matches Ok(v)
                && e@ == v,
            Err(er) => eval_spec(scope@, ExprV::List(exprs_view(list@)), fuel as nat) matches Err(
                ev,
            ) && er@ == ev,
        },
    decreases fuel, expr_size(ExprV::List(exprs_view(list@))), 0int,
{
    let ghost sv = scope@;
    let ghost itemsv = exprs_view(list@);
    if list.len() == 0 {
        proof {
            assert(itemsv =~= Seq::<ExprV>::empty());
        }
        return Err(EvalError::EmptyList);
    }
    proof {
        lemma_exprs_size_elem(itemsv, 0);
        assert(itemsv[0] == expr_view(list@[0]));
    }
    let head = match eval_with_fuel(scope, &list[0], fuel) {
        Ok(h) => h,
        Err(e) => {
            return Err(e);
        },
    };
    let func = match head {
        Expression::Fn(f) => f,
        other => {
            return Err(EvalError::NotAFunction(other));
        },
    };
    let mut args: Vec<Expression> = Vec::new();
    let mut i: usize = 1;
    proof {
        assert(exprs_view(args@) =~= Seq::<ExprV>::empty());
    }
    while i < list.len()
        invariant
            1 <= i <= list@.len(),
            sv == scope@,
            itemsv == exprs_view(list@),
            itemsv.len() == list@.len(),
            eval_spec(sv, itemsv[0], fuel as nat) == Ok::<ExprV, EvalErrV>(ExprV::Fn(func@)),
            eval_args_spec(sv, itemsv, 1, Seq::empty(), fuel as nat) == eval_args_spec(
                sv,
                itemsv,
                i as int,
                exprs_view(args@),
                fuel as nat,
            ),
        decreases list@.len() - i,
    {
        let ghost args0 = exprs_view(args@);
        proof {
            lemma_exprs_size_elem(itemsv, i as int);
            assert(itemsv[i as int] == expr_view(list@[i as int]));
        }
        match eval_with_fuel(scope, &list[i], fuel) {
            Err(e) => {
                proof {
                    assert(eval_args_spec(sv, itemsv, i as int, args0, fuel as nat)
                        == Err::<Seq<ExprV>, EvalErrV>(e@));
                    assert(eval_spec(sv, ExprV::List(itemsv), fuel as nat) == Err::<
                        ExprV,
                        EvalErrV,
                    >(e@));
                }
                return Err(e);
            },
            Ok(v) => {
                proof {
                    assert(eval_args_spec(sv, itemsv, i as int, args0, fuel as nat)
                        == eval_args_spec(sv, itemsv, i + 1, args0.push(v@), fuel as nat));
                }
                args.push(v);
                proof {
                    assert(exprs_view(args@) =~= args0.push(expr_view(args@[args@.len() - 1])));
                }
            },
        }
        i += 1;
    }
    proof {
        assert(eval_args_spec(sv, itemsv, i as int, exprs_view(args@), fuel as nat)
            == Ok::<Seq<ExprV>, EvalErrV>(exprs_view(args@)));
    }
    apply(&func, &args, fuel)
}

/// Applies a function value to evaluated arguments; agrees exactly with
/// [`apply_spec`].
pub(crate) fn apply(func: &Function, args: &Vec<Expression>, fuel: u64) -> (r: Result<
    Expression,
    EvalError,
>)
    ensures
        match r {
            Ok(e) => apply_spec(func@, exprs_view(args@), fuel as nat) matches Ok(v) && e@ == v,
            Err(er) => apply_spec(func@, exprs_view(args@), fuel as nat) matches Err(ev) && er@
                == ev,
        },
    decreases fuel, 0int, 0int,
{
    let ghost fv = func@;
    let ghost argsv = exprs_view(args@);
    match func {
        Function::Native(nf) => match nf {
            NativeFunction::IntegerAdd => {
                if args.len() == 2 {
                    proof {
                        assert(argsv[0] == expr_view(args@[0]));
                        assert(argsv[1] == expr_view(args@[1]));
                    }
                    match (&args[0], &args[1]) {
                        (Expression::Integer(a), Expression::Integer(b)) => Ok(
                            Expression::Integer(a.wrapping_add(*b)),
                        ),
                        _ => Err(EvalError::TypeMismatch),
                    }
                } else {
                    Err(EvalError::TypeMismatch)
                }
            },
            NativeFunction::Identity => {
                if args.len() > 0 {
                    proof {
                        assert(argsv[0] == expr_view(args@[0]));
                    }
                    Ok(args[0].duplicate())
                } else {
                    Err(EvalError::ArityMismatch { expected: 1, actual: 0 })
                }
            },
        },
        Function::Regular { params, body, env } => {
            let ghost paramsv = fv->Regular_params;
            if params.len() != args.len() {
                return Err(
                    EvalError::ArityMismatch { expected: params.len(), actual: args.len() },
                );
            }
            if fuel == 0 {
                return Err(EvalError::RecursionLimit);
            }
            let mut child = Scope::new_child(env.duplicate());
            let mut i: usize = 0;
            proof {
                assert(paramsv.subrange(0, 0) =~= Seq::<Seq<char>>::empty());
                assert(argsv.subrange(0, 0) =~= Seq::<ExprV>::empty());
                assert(child@.bindings =~= params_map(
                    paramsv.subrange(0, 0),
                    argsv.subrange(0, 0),
                ));
            }
            while i < params.len()
                invariant
                    i <= params@.len(),
                    params@.len() == args@.len(),
                    *func == (Function::Regular { params: *params, body: *body, env: *env }),
                    paramsv == fv->Regular_params,
                    fv == func@,
                    argsv == exprs_view(args@),
                    paramsv.len() == params@.len(),
                    argsv.len() == args@.len(),
                    child@.parent == Some(Box::new(env@)),
                    child@.bindings == params_map(
                        paramsv.subrange(0, i as int),
                        argsv.subrange(0, i as int),
                    ),
                decreases params@.len() - i,
            {
                let ghost b0 = child@.bindings;
                proof {
                    assert(paramsv[i as int] == params@[i as int]@);
                    assert(argsv[i as int] == expr_view(args@[i as int]));
                }
                child.put(params[i].as_str(), args[i].duplicate());
                proof {
                    assert(paramsv.subrange(0, i + 1).drop_last() =~= paramsv.subrange(
                        0,
                        i as int,
                    ));
                    assert(argsv.subrange(0, i + 1).drop_last() =~= argsv.subrange(0, i as int));
                    assert(child@.bindings == params_map(
                        paramsv.subrange(0, i + 1),
                        argsv.subrange(0, i + 1),
                    ));
                }
                i += 1;
            }
            proof {
                assert(paramsv.subrange(0, paramsv.len() as int) =~= paramsv);
                assert(argsv.subrange(0, argsv.len() as int) =~= argsv);
                assert(child@ == bind_params_spec(env@, paramsv, argsv));
                assert(*fv->Regular_body == expr_view(**body));
            }
            eval_with_fuel(&child, &**body, fuel - 1)
        },
    }
}

/// A self-evaluating expression shape: a literal or a function value.
pub open spec fn is_self_evaluating(e: ExprV) -> bool {
    e is Integer || e is Float || e is String || e is Fn
}

/// Law: evaluating a self-evaluating expression returns it unchanged, in
/// any scope and with any fuel.
pub proof fn lemma_eval_self_evaluating(env: ScopeV, e: ExprV, fuel: nat)
    requires
        is_self_evaluating(e),
    ensures
        eval_spec(env, e, fuel) == Ok::<ExprV, EvalErrV>(e),
{
}

/// Law: evaluating an identifier that no scope in the chain binds always
/// fails with a scope error carrying exactly the queried name.
pub proof fn lemma_eval_unbound_identifier(env: ScopeV, name: Seq<char>, fuel: nat)
    requires
        lookup_spec(env, name) is None,
    ensures
        eval_spec(env, ExprV::Identifier(name), fuel) == Err::<ExprV, EvalErrV>(
            EvalErrV::ScopeError(name),
        ),
{
}

/// Law: evaluating the empty list always fails with `EmptyList`.
pub proof fn lemma_eval_empty_list(env: ScopeV, fuel: nat)
    ensures
        eval_spec(env, ExprV::List(Seq::empty()), fuel) == Err::<ExprV, EvalErrV>(
            EvalErrV::EmptyList,
        ),
{
}

/// Law: a list whose head evaluates to something other than a function
/// fails with `NotAFunction` carrying exactly that evaluated head value.
pub proof fn lemma_eval_not_a_function(env: ScopeV, items: Seq<ExprV>, head: ExprV, fuel: nat)
    requires
        items.len() > 0,
        eval_spec(env, items[0], fuel) == Ok::<ExprV, EvalErrV>(head),
        !(head is Fn),
    ensures
        eval_spec(env, ExprV::List(items), fuel) == Err::<ExprV, EvalErrV>(
            EvalErrV::NotAFunction(head),
        ),
{
}

} // verus!
