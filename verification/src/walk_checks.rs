//! Deciding whether a walk up the parent links comes to an end: the walk up
//! from the active leaf, and the walk of a rollback.
use vstd::prelude::*;

use crate::text::{copy_opt_string, opt_str};
use crate::thread_tree::{turn_index_by_id, turns_model, ThreadTreeTurn};
use crate::tree_laws::lemma_pigeonhole;
use crate::tree_lemmas::lemma_resolve_in_range;
use crate::tree_spec::{
    active_walk, active_walk_ends, resolve, rollback_ends, rollback_walk, TurnModel,
};

verus! {

/// Among `m` values in `0..n`, with `n < m`, two are equal.
proof fn lemma_repeat(f: spec_fn(int) -> int, m: int, n: int) -> (ab: (int, int))
    requires
        0 <= n < m,
        forall|a: int| 0 <= a < m ==> 0 <= #[trigger] f(a) < n,
    ensures
        0 <= ab.0 < ab.1 < m,
        f(ab.0) == f(ab.1),
{
    if forall|a: int, b: int| 0 <= a < b < m ==> #[trigger] f(a) != #[trigger] f(b) {
        lemma_pigeonhole(f, m, n);
    }
    choose|a: int, b: int| 0 <= a < b < m && #[trigger] f(a) == #[trigger] f(b)
}

proof fn lemma_active_walk_in_range(tm: Seq<TurnModel>, leaf: Option<Seq<char>>, k: nat)
    ensures
        active_walk(tm, leaf, k) matches Some(i) ==> 0 <= i < tm.len(),
{
    if k == 0 {
        lemma_resolve_in_range(tm, leaf);
    } else {
        match active_walk(tm, leaf, (k - 1) as nat) {
            Some(i) => lemma_resolve_in_range(tm, tm[i].parent_turn_id),
            None => {},
        }
    }
}

proof fn lemma_active_walk_shift(tm: Seq<TurnModel>, leaf: Option<Seq<char>>, a: nat, b: nat, m: nat)
    requires
        active_walk(tm, leaf, a) == active_walk(tm, leaf, b),
    ensures
        active_walk(tm, leaf, a + m) == active_walk(tm, leaf, b + m),
    decreases m,
{
    if m > 0 {
        lemma_active_walk_shift(tm, leaf, a, b, (m - 1) as nat);
        assert(((a + m) - 1) as nat == a + (m - 1) as nat);
        assert(((b + m) - 1) as nat == b + (m - 1) as nat);
    }
}

proof fn lemma_active_walk_never_ends(
    tm: Seq<TurnModel>,
    leaf: Option<Seq<char>>,
    a: nat,
    b: nat,
    n: nat,
    k: nat,
)
    requires
        a < b <= n,
        active_walk(tm, leaf, a) == active_walk(tm, leaf, b),
        forall|m: nat| m <= n ==> #[trigger] active_walk(tm, leaf, m) is Some,
    ensures
        active_walk(tm, leaf, k) is Some,
    decreases k,
{
    if k > n {
        lemma_active_walk_shift(tm, leaf, a, b, (k - b) as nat);
        assert(b + (k - b) as nat == k);
        lemma_active_walk_never_ends(tm, leaf, a, b, n, (a + (k - b)) as nat);
    }
}

/// Whether the walk up the parent links from `leaf` ends (see
/// `active_walk_ends`).
pub fn active_walk_would_end(turns: &Vec<ThreadTreeTurn>, leaf: &Option<String>) -> (b: bool)
    ensures
        b == active_walk_ends(turns_model(turns@), opt_str(*leaf)),
{
    let ghost tm = turns_model(turns@);
    let ghost leaf0 = opt_str(*leaf);
    let n = turns.len();
    let mut cur = copy_opt_string(leaf);
    let mut steps_left: usize = n;
    let ghost mut k: nat = 0;
    loop
        invariant
            tm == turns_model(turns@),
            leaf0 == opt_str(*leaf),
            n == tm.len(),
            k + steps_left == n,
            resolve(tm, opt_str(cur)) == active_walk(tm, leaf0, k),
            forall|m: nat| m < k ==> #[trigger] active_walk(tm, leaf0, m) is Some,
        decreases steps_left,
    {
        let found = match &cur {
            Some(id) => turn_index_by_id(turns, id),
            None => None,
        };
        match found {
            None => {
                assert(active_walk(tm, leaf0, k) is None);
                return true;
            },
            Some(i) => {
                if steps_left == 0 {
                    proof {
                        assert forall|m: nat| m <= n implies #[trigger] active_walk(tm, leaf0, m)
                            is Some by {
                            if m < k {
                            }
                        }
                        let f = |x: int| active_walk(tm, leaf0, x as nat)->0;
                        assert forall|x: int| 0 <= x < n + 1 implies 0 <= #[trigger] f(x) < n by {
                            lemma_active_walk_in_range(tm, leaf0, x as nat);
                            assert(active_walk(tm, leaf0, x as nat) is Some);
                        }
                        let (a, b) = lemma_repeat(f, n + 1, n as int);
                        assert(active_walk(tm, leaf0, a as nat) is Some);
                        assert(active_walk(tm, leaf0, b as nat) is Some);
                        assert forall|j: nat| !(#[trigger] active_walk(tm, leaf0, j) is None) by {
                            lemma_active_walk_never_ends(tm, leaf0, a as nat, b as nat, n as nat, j);
                        }
                    }
                    return false;
                }
                proof {
                    assert(active_walk(tm, leaf0, k + 1) == resolve(
                        tm,
                        tm[i as int].parent_turn_id,
                    ));
                    assert(tm[i as int] == crate::thread_tree::turn_model(turns@[i as int]));
                }
                cur = copy_opt_string(&turns[i].parent_turn_id);
                steps_left = steps_left - 1;
                proof {
                    k = k + 1;
                }
            },
        }
    }
}

/// Each link of the chain is a turn without a user message whose parent id
/// is the next link: a rollback walks it without counting a turn.
pub open spec fn uncounted_chain(tm: Seq<TurnModel>, ls: Seq<Option<Seq<char>>>) -> bool {
    forall|j: int|
        0 <= j < ls.len() - 1 ==> {
            &&& #[trigger] resolve(tm, ls[j]) is Some
            &&& tm[resolve(tm, ls[j])->0].user_message is None
            &&& ls[j + 1] == tm[resolve(tm, ls[j])->0].parent_turn_id
        }
}

/// The remaining count after a rollback passes turn `i`.
pub open spec fn after_turn(tm: Seq<TurnModel>, i: int, remaining: nat) -> nat {
    if tm[i].user_message is Some {
        (remaining - 1) as nat
    } else {
        remaining
    }
}

/// Passing one turn keeps whether the rollback ends.
proof fn lemma_rollback_step_ends(tm: Seq<TurnModel>, l: Option<Seq<char>>, r: nat, i: int)
    requires
        r > 0,
        resolve(tm, l) == Some(i),
    ensures
        rollback_ends(tm, l, r) == rollback_ends(tm, tm[i].parent_turn_id, after_turn(tm, i, r)),
{
    let p = tm[i].parent_turn_id;
    let r2 = after_turn(tm, i, r);
    if rollback_ends(tm, l, r) {
        let f = choose|f: nat| #[trigger] rollback_walk(tm, l, r, f) is Some;
        assert(f > 0);
        assert(rollback_walk(tm, p, r2, (f - 1) as nat) is Some);
    }
    if rollback_ends(tm, p, r2) {
        let f = choose|f: nat| #[trigger] rollback_walk(tm, p, r2, f) is Some;
        assert(rollback_walk(tm, l, r, f + 1) == rollback_walk(tm, p, r2, f));
    }
}

proof fn lemma_chain_walk(
    tm: Seq<TurnModel>,
    ls: Seq<Option<Seq<char>>>,
    r: nat,
    j: int,
    m: nat,
    fuel: nat,
)
    requires
        uncounted_chain(tm, ls),
        r > 0,
        0 <= j,
        j + m < ls.len(),
    ensures
        rollback_walk(tm, ls[j], r, fuel) == if fuel < m {
            None
        } else {
            rollback_walk(tm, ls[j + m], r, (fuel - m) as nat)
        },
    decreases m,
{
    if m > 0 {
        assert(resolve(tm, ls[j]) is Some);
        if fuel > 0 {
            lemma_chain_walk(tm, ls, r, j + 1, (m - 1) as nat, (fuel - 1) as nat);
            assert(j + 1 + (m - 1) == j + m);
        }
    }
}

proof fn lemma_cycle_never_ends(
    tm: Seq<TurnModel>,
    ls: Seq<Option<Seq<char>>>,
    r: nat,
    c: int,
    d: int,
    fuel: nat,
)
    requires
        uncounted_chain(tm, ls),
        r > 0,
        0 <= c < d < ls.len(),
        ls[c] == ls[d],
    ensures
        rollback_walk(tm, ls[c], r, fuel) is None,
    decreases fuel,
{
    let p = (d - c) as nat;
    lemma_chain_walk(tm, ls, r, c, p, fuel);
    if fuel >= p {
        lemma_cycle_never_ends(tm, ls, r, c, d, (fuel - p) as nat);
    }
}

/// A rollback that has passed more turns without a user message than there
/// are turns runs round a cycle of them and never ends.
proof fn lemma_long_chain_never_ends(tm: Seq<TurnModel>, ls: Seq<Option<Seq<char>>>, r: nat)
    requires
        uncounted_chain(tm, ls),
        r > 0,
        ls.len() == tm.len() + 2,
    ensures
        !rollback_ends(tm, ls.last(), r),
{
    let n = tm.len() as int;
    let f = |x: int| resolve(tm, ls[x])->0;
    assert forall|x: int| 0 <= x < n + 1 implies 0 <= #[trigger] f(x) < n by {
        assert(resolve(tm, ls[x]) is Some);
        lemma_resolve_in_range(tm, ls[x]);
    }
    let (a, b) = lemma_repeat(f, n + 1, n);
    assert(resolve(tm, ls[a]) is Some);
    assert(resolve(tm, ls[b]) is Some);
    assert(ls[a + 1] == ls[b + 1]);
    let last = n + 1;
    assert(ls.last() == ls[last]);
    assert forall|g: nat| !(#[trigger] rollback_walk(tm, ls.last(), r, g) is Some) by {
        let m = (last - (a + 1)) as nat;
        lemma_chain_walk(tm, ls, r, a + 1, m, g + m);
        lemma_cycle_never_ends(tm, ls, r, a + 1, b + 1, g + m);
        assert((a + 1) + m == last);
    }
}

/// Whether a rollback of `num_turns` user turns from `leaf` ends (see
/// `rollback_ends`).
pub fn rollback_would_end(turns: &Vec<ThreadTreeTurn>, leaf: &Option<String>, num_turns: u32) -> (b:
    bool)
    ensures
        b == rollback_ends(turns_model(turns@), opt_str(*leaf), num_turns as nat),
{
    let ghost tm = turns_model(turns@);
    let n = turns.len();
    let mut cur = copy_opt_string(leaf);
    let mut remaining: u32 = num_turns;
    let mut since: usize = 0;
    let ghost mut ls: Seq<Option<Seq<char>>> = seq![opt_str(cur)];
    loop
        invariant
            tm == turns_model(turns@),
            n == tm.len(),
            rollback_ends(tm, opt_str(*leaf), num_turns as nat) == rollback_ends(
                tm,
                opt_str(cur),
                remaining as nat,
            ),
            since <= n,
            ls.len() == since + 1,
            ls.last() == opt_str(cur),
            uncounted_chain(tm, ls),
        decreases remaining, n - since,
    {
        if remaining == 0 {
            assert(rollback_walk(tm, opt_str(cur), 0, 0) is Some);
            return true;
        }
        let found = match &cur {
            Some(id) => turn_index_by_id(turns, id),
            None => None,
        };
        match found {
            None => {
                assert(rollback_walk(tm, opt_str(cur), remaining as nat, 0) is Some);
                return true;
            },
            Some(i) => {
                let ghost l = opt_str(cur);
                assert(tm[i as int] == crate::thread_tree::turn_model(turns@[i as int]));
                proof {
                    lemma_rollback_step_ends(tm, l, remaining as nat, i as int);
                }
                let next = copy_opt_string(&turns[i].parent_turn_id);
                if turns[i].user_message.is_some() {
                    remaining = remaining - 1;
                    since = 0;
                    cur = next;
                    proof {
                        ls = seq![opt_str(cur)];
                    }
                } else {
                    let ghost ls2 = ls.push(opt_str(next));
                    proof {
                        assert forall|j: int| 0 <= j < ls2.len() - 1 implies {
                            &&& #[trigger] resolve(tm, ls2[j]) is Some
                            &&& tm[resolve(tm, ls2[j])->0].user_message is None
                            &&& ls2[j + 1] == tm[resolve(tm, ls2[j])->0].parent_turn_id
                        } by {
                            if j < ls.len() - 1 {
                                assert(ls2[j] == ls[j] && ls2[j + 1] == ls[j + 1]);
                            } else {
                                assert(ls2[j] == l);
                            }
                        }
                    }
                    if since == n {
                        proof {
                            lemma_long_chain_never_ends(tm, ls2, remaining as nat);
                        }
                        return false;
                    }
                    since = since + 1;
                    cur = next;
                    proof {
                        ls = ls2;
                    }
                }
            },
        }
    }
}

} // verus!
