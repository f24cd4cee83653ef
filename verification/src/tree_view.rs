//! The conversation tree as a list of rows: labels for the turns.
use vstd::prelude::*;
use vstd::string::*;

use crate::text::{
    chars_of, copy_string, decimal, lines, lines_of, opt_str, push_decimal, string_of, trim_chars,
    trimmed,
};
use crate::rollout::RolloutItem;
use crate::thread_tree::{is_tree_of, turns_model, ThreadTree, ThreadTreeTurn};
use crate::tree_laws::{
    law_child_is_one_deeper, lemma_depth_below_turn_count, lemma_indices_with_parent_members,
};
use crate::tree_spec::{children_of, depth_walk, parent_index, tree_turns, TurnModel};

verus! {

/// The longest label, in characters.
pub const MAX_LABEL_CHARS: usize = 80;

/// The first line of `s` (empty when `s` has none).
pub open spec fn first_line(s: Seq<char>) -> Seq<char> {
    if lines_of(s).len() > 0 {
        lines_of(s)[0]
    } else {
        Seq::empty()
    }
}

/// A turn's label: the first line of its message, trimmed; when that is
/// longer than 80 characters, its first 77 characters and `...`.
pub open spec fn shortened(s: Seq<char>) -> Seq<char> {
    let t = trimmed(first_line(s));
    if t.len() <= 80 {
        t
    } else {
        t.take(77) + seq!['.', '.', '.']
    }
}

/// The label of a message (see `shortened`).
pub fn shorten_message(message: &str) -> (r: String)
    ensures
        r@ == shortened(message@),
{
    let ls = lines(message);
    let first: Vec<char> = if ls.len() > 0 {
        let mut copy: Vec<char> = Vec::new();
        let l = &ls[0];
        let mut k: usize = 0;
        while k < l.len()
            invariant
                k <= l@.len(),
                copy@ == l@.take(k as int),
            decreases l@.len() - k,
        {
            copy.push(l[k]);
            assert(l@.take(k + 1) == l@.take(k as int).push(l@[k as int]));
            k = k + 1;
        }
        assert(l@.take(l@.len() as int) =~= l@);
        copy
    } else {
        Vec::new()
    };
    assert(first@ =~= first_line(message@));
    let t = trim_chars(&first);
    if t.len() <= MAX_LABEL_CHARS {
        return string_of(&t);
    }
    let mut cut: Vec<char> = Vec::new();
    let mut k: usize = 0;
    while k < MAX_LABEL_CHARS - 3
        invariant
            k <= 77,
            t@.len() > 80,
            cut@ == t@.take(k as int),
        decreases 77 - k,
    {
        cut.push(t[k]);
        assert(t@.take(k + 1) == t@.take(k as int).push(t@[k as int]));
        k = k + 1;
    }
    cut.push('.');
    cut.push('.');
    cut.push('.');
    assert(cut@ =~= t@.take(77) + seq!['.', '.', '.']);
    string_of(&cut)
}

/// The length of `c` in UTF-8, in bytes.
pub open spec fn utf8_width(c: char) -> nat {
    let n = c as int;
    if n < 0x80 {
        1
    } else if n < 0x800 {
        2
    } else if n < 0x10000 {
        3
    } else {
        4
    }
}

/// The length in UTF-8 of the first `k` characters of `s`.
pub open spec fn utf8_prefix_len(s: Seq<char>, k: int) -> nat
    decreases k,
{
    if k <= 0 {
        0
    } else {
        utf8_prefix_len(s, k - 1) + utf8_width(s[k - 1])
    }
}

/// Byte offset 8 of `s` falls between two characters (or at the end).
pub open spec fn has_boundary_at_8(s: Seq<char>) -> bool {
    exists|k: int| 0 <= k <= s.len() && #[trigger] utf8_prefix_len(s, k) == 8
}

/// A short form of a turn id: its first 8 bytes when they end on a
/// character boundary, else the whole id.
pub open spec fn short_id(s: Seq<char>) -> Seq<char> {
    if has_boundary_at_8(s) {
        s.take(choose|k: int| 0 <= k <= s.len() && #[trigger] utf8_prefix_len(s, k) == 8)
    } else {
        s
    }
}

proof fn lemma_prefix_len_grows(s: Seq<char>, i: int, j: int)
    requires
        0 <= i < j <= s.len(),
    ensures
        utf8_prefix_len(s, i) < utf8_prefix_len(s, j),
    decreases j - i,
{
    if i + 1 < j {
        lemma_prefix_len_grows(s, i, j - 1);
    }
}

fn width(c: char) -> (w: usize)
    ensures
        w == utf8_width(c),
{
    let n = c as u32;
    if n < 0x80 {
        1
    } else if n < 0x800 {
        2
    } else if n < 0x10000 {
        3
    } else {
        4
    }
}

/// The short form of a turn id (see `short_id`).
pub fn short_turn_id(turn_id: &str) -> (r: &str)
    ensures
        r@ == short_id(turn_id@),
{
    let cs = chars_of(turn_id);
    let mut k: usize = 0;
    let mut bytes: usize = 0;
    while k < cs.len() && bytes < 8
        invariant
            k <= cs@.len(),
            cs@ == turn_id@,
            bytes == utf8_prefix_len(cs@, k as int),
            bytes < 8 + 4,
            forall|i: int| 0 <= i < k ==> utf8_prefix_len(cs@, i) < 8,
        decreases cs@.len() - k,
    {
        bytes = bytes + width(cs[k]);
        k = k + 1;
    }
    if bytes == 8 {
        proof {
            assert(utf8_prefix_len(turn_id@, k as int) == 8);
            let j = choose|j: int| 0 <= j <= turn_id@.len() && #[trigger] utf8_prefix_len(turn_id@, j) == 8;
            if j < k {
                lemma_prefix_len_grows(turn_id@, j, k as int);
            } else if j > k {
                lemma_prefix_len_grows(turn_id@, k as int, j);
            }
        }
        turn_id.substring_char(0, k)
    } else {
        proof {
            assert forall|j: int| 0 <= j <= turn_id@.len() implies #[trigger] utf8_prefix_len(turn_id@, j) != 8 by {
                if j > k {
                    lemma_prefix_len_grows(turn_id@, k as int, j);
                }
            }
        }
        turn_id
    }
}

/// A label never holds more than 80 characters.
pub proof fn law_label_fits(s: Seq<char>)
    ensures
        shortened(s).len() <= 80,
{
}

/// The short form of an id is a prefix of it, and when it is shorter than
/// the id it is exactly 8 bytes long in UTF-8.
pub proof fn law_short_id_is_prefix(s: Seq<char>)
    ensures
        short_id(s).len() <= s.len(),
        short_id(s) == s.take(short_id(s).len() as int),
        short_id(s).len() < s.len() ==> utf8_prefix_len(s, short_id(s).len() as int) == 8,
{
    if has_boundary_at_8(s) {
        let k = choose|k: int| 0 <= k <= s.len() && #[trigger] utf8_prefix_len(s, k) == 8;
        assert(short_id(s) == s.take(k));
        assert(s.take(k).len() == k);
        assert(s.take(k).take(k) =~= s.take(k));
    } else {
        assert(s.take(s.len() as int) =~= s);
    }
}

/// `started_at` ordering: `None` first, then by time.
pub open spec fn started_lt(a: Option<i64>, b: Option<i64>) -> bool {
    match (a, b) {
        (None, Some(_)) => true,
        (Some(x), Some(y)) => x < y,
        _ => false,
    }
}

/// Turn `a` sorts before turn `b`: turns on the active path first, then by
/// start time (unknown first), then by index.
pub open spec fn key_lt(tree: ThreadTree, a: usize, b: usize) -> bool {
    let ta = tree.turns@[a as int];
    let tb = tree.turns@[b as int];
    ||| ta.is_active_path && !tb.is_active_path
    ||| ta.is_active_path == tb.is_active_path && started_lt(ta.started_at, tb.started_at)
    ||| ta.is_active_path == tb.is_active_path && ta.started_at == tb.started_at && a < b
}

/// `x` placed after every element that does not sort after it.
pub open spec fn insert_by_key(tree: ThreadTree, t: Seq<usize>, x: usize) -> Seq<usize>
    decreases t.len(),
{
    if t.len() == 0 {
        seq![x]
    } else if !key_lt(tree, x, t.last()) {
        t.push(x)
    } else {
        insert_by_key(tree, t.drop_last(), x).push(t.last())
    }
}

/// A stable sort by the turn key.
pub open spec fn sorted_by_key(tree: ThreadTree, s: Seq<usize>) -> Seq<usize>
    decreases s.len(),
{
    if s.len() == 0 {
        Seq::empty()
    } else {
        insert_by_key(tree, sorted_by_key(tree, s.drop_last()), s.last())
    }
}

/// The roots are turns of the tree.
pub open spec fn roots_valid(tree: ThreadTree) -> bool {
    forall|k: int| 0 <= k < tree.roots@.len() ==> #[trigger] tree.roots@[k] < tree.turns@.len()
}

/// `i` is a turn of the tree, and so are its children.
pub open spec fn children_valid(tree: ThreadTree, i: usize) -> bool {
    &&& i < tree.turns@.len()
    &&& forall|k: int|
        0 <= k < tree.turns@[i as int].children@.len() ==> #[trigger] tree.turns@[i as int].children@[k]
            < tree.turns@.len()
}

proof fn lemma_insert_by_key_at(tree: ThreadTree, t: Seq<usize>, x: usize, p: int)
    requires
        0 <= p <= t.len(),
        forall|q: int| p <= q < t.len() ==> key_lt(tree, x, #[trigger] t[q]),
        p == 0 || !key_lt(tree, x, t[p - 1]),
    ensures
        insert_by_key(tree, t, x) == t.insert(p, x),
    decreases t.len(),
{
    if t.len() == 0 {
        assert(t.insert(p, x) =~= seq![x]);
    } else if p == t.len() {
        assert(t.insert(p, x) =~= t.push(x));
    } else {
        assert(key_lt(tree, x, t[t.len() - 1]));
        lemma_insert_by_key_at(tree, t.drop_last(), x, p);
        assert(t.drop_last().insert(p, x).push(t.last()) =~= t.insert(p, x));
    }
}

/// The indices sorted by the turn key (see `key_lt`), stably.
fn sort_by_turn_key(tree: &ThreadTree, s: &Vec<usize>) -> (r: Vec<usize>)
    requires
        forall|k: int| 0 <= k < s@.len() ==> #[trigger] s@[k] < tree.turns@.len(),
    ensures
        r@ == sorted_by_key(*tree, s@),
{
    let mut r: Vec<usize> = Vec::new();
    let mut k: usize = 0;
    while k < s.len()
        invariant
            k <= s@.len(),
            forall|x: int| 0 <= x < s@.len() ==> #[trigger] s@[x] < tree.turns@.len(),
            r@ == sorted_by_key(*tree, s@.take(k as int)),
            forall|x: int| 0 <= x < r@.len() ==> #[trigger] r@[x] < tree.turns@.len(),
        decreases s@.len() - k,
    {
        let x = s[k];
        let mut p = r.len();
        while p > 0 && turn_key_lt(tree, x, r[p - 1])
            invariant
                p <= r@.len(),
                x < tree.turns@.len(),
                forall|y: int| 0 <= y < r@.len() ==> #[trigger] r@[y] < tree.turns@.len(),
                forall|q: int| p <= q < r@.len() ==> key_lt(*tree, x, #[trigger] r@[q]),
            decreases p,
        {
            p = p - 1;
        }
        proof {
            lemma_insert_by_key_at(*tree, r@, x, p as int);
            assert(s@.take(k + 1).drop_last() =~= s@.take(k as int));
        }
        r.insert(p, x);
        proof {
            r@.insert_ensures(p as int, x);
        }
        assert forall|y: int| 0 <= y < r@.len() implies #[trigger] r@[y] < tree.turns@.len() by {
        }
        k = k + 1;
    }
    assert(s@.take(s@.len() as int) =~= s@);
    r
}

fn turn_key_lt(tree: &ThreadTree, a: usize, b: usize) -> (r: bool)
    requires
        a < tree.turns@.len(),
        b < tree.turns@.len(),
    ensures
        r == key_lt(*tree, a, b),
{
    let ta = &tree.turns[a];
    let tb = &tree.turns[b];
    if ta.is_active_path != tb.is_active_path {
        return ta.is_active_path;
    }
    let started = match (ta.started_at, tb.started_at) {
        (None, Some(_)) => 1u8,
        (Some(_), None) => 2u8,
        (Some(x), Some(y)) => if x < y {
            1u8
        } else if y < x {
            2u8
        } else {
            0u8
        },
        (None, None) => 0u8,
    };
    if started == 1 {
        true
    } else if started == 2 {
        false
    } else {
        a < b
    }
}

/// The roots, active path first, then by start time, then by index.
pub fn ordered_roots(tree: &ThreadTree) -> (r: Vec<usize>)
    requires
        roots_valid(*tree),
    ensures
        r@ == sorted_by_key(*tree, tree.roots@),
{
    sort_by_turn_key(tree, &tree.roots)
}

/// The children of turn `index`, ordered as the roots are.
pub fn ordered_children(tree: &ThreadTree, index: usize) -> (r: Vec<usize>)
    requires
        children_valid(*tree, index),
    ensures
        r@ == sorted_by_key(*tree, tree.turns@[index as int].children@),
{
    sort_by_turn_key(tree, &tree.turns[index].children)
}

/// A turn listed in the tree view, with the tree drawing before its label.
pub struct FlattenedTurn {
    pub index: usize,
    pub prefix: String,
}

/// A listed turn, abstractly.
pub struct FlatRow {
    pub index: usize,
    pub prefix: Seq<char>,
}

pub open spec fn flat_rows(v: Seq<FlattenedTurn>) -> Seq<FlatRow> {
    v.map_values(|r: FlattenedTurn| FlatRow { index: r.index, prefix: r.prefix@ })
}

/// The drawing before a child: a corner for the last child, a tee otherwise.
pub open spec fn branch_mark(is_last: bool) -> Seq<char> {
    if is_last {
        "`- "@
    } else {
        "|- "@
    }
}

/// The drawing continued below a child, for its own children.
pub open spec fn continuation_mark(is_last: bool) -> Seq<char> {
    if is_last {
        "   "@
    } else {
        "|  "@
    }
}

/// The rows of the subtree of turn `i`: its own row, then the rows of its
/// children in order, each child drawn below it; `None` when the subtree is
/// deeper than `fuel`, or names an index that is no turn.
pub open spec fn subtree_rows(
    tree: ThreadTree,
    i: usize,
    row_prefix: Seq<char>,
    child_prefix: Seq<char>,
    fuel: nat,
) -> Option<Seq<FlatRow>>
    decreases fuel, 0nat, 0nat,
{
    let kids = sorted_by_key(tree, tree.turns@[i as int].children@);
    let row = FlatRow { index: i, prefix: row_prefix };
    if !children_valid(tree, i) {
        None
    } else if kids.len() == 0 {
        Some(seq![row])
    } else if fuel == 0 {
        None
    } else {
        match children_rows(tree, kids, kids.len(), child_prefix, (fuel - 1) as nat) {
            Some(rest) => Some(seq![row] + rest),
            None => None,
        }
    }
}

/// The rows of the subtrees of the first children, out of `total`.
pub open spec fn children_rows(
    tree: ThreadTree,
    kids: Seq<usize>,
    total: nat,
    child_prefix: Seq<char>,
    fuel: nat,
) -> Option<Seq<FlatRow>>
    decreases fuel, 1nat, kids.len(),
{
    if kids.len() == 0 {
        Some(Seq::empty())
    } else {
        let is_last = kids.len() == total;
        match (
            children_rows(tree, kids.drop_last(), total, child_prefix, fuel),
            subtree_rows(
                tree,
                kids.last(),
                child_prefix + branch_mark(is_last),
                child_prefix + continuation_mark(is_last),
                fuel,
            ),
        ) {
            (Some(a), Some(b)) => Some(a + b),
            _ => None,
        }
    }
}

/// The rows of the subtrees of the given roots, one after the other.
pub open spec fn roots_rows(tree: ThreadTree, roots: Seq<usize>, fuel: nat) -> Option<Seq<FlatRow>>
    decreases roots.len(),
{
    if roots.len() == 0 {
        Some(Seq::empty())
    } else {
        match (
            roots_rows(tree, roots.drop_last(), fuel),
            subtree_rows(tree, roots.last(), Seq::empty(), Seq::empty(), fuel),
        ) {
            (Some(a), Some(b)) => Some(a + b),
            _ => None,
        }
    }
}

/// The tree can be listed: its roots are turns and, from the roots,
/// following children reaches only turns and ends (it does not run round a
/// cycle).
pub open spec fn listable(tree: ThreadTree) -> bool {
    &&& roots_valid(tree)
    &&& exists|fuel: nat| #[trigger] roots_rows(tree, sorted_by_key(tree, tree.roots@), fuel) is Some
}

/// The listing of a tree: the subtrees of the roots in order, depth first.
pub open spec fn listing(tree: ThreadTree) -> Seq<FlatRow> {
    roots_rows(
        tree,
        sorted_by_key(tree, tree.roots@),
        choose|fuel: nat| #[trigger] roots_rows(tree, sorted_by_key(tree, tree.roots@), fuel) is Some,
    )->0
}

proof fn lemma_children_rows_prefix(
    tree: ThreadTree,
    kids: Seq<usize>,
    total: nat,
    child_prefix: Seq<char>,
    fuel: nat,
    k: int,
)
    requires
        children_rows(tree, kids, total, child_prefix, fuel) is Some,
        0 <= k <= kids.len(),
    ensures
        children_rows(tree, kids.take(k), total, child_prefix, fuel) is Some,
    decreases kids.len() - k,
{
    if k < kids.len() {
        lemma_children_rows_prefix(tree, kids, total, child_prefix, fuel, k + 1);
        assert(kids.take(k + 1).drop_last() =~= kids.take(k));
    } else {
        assert(kids.take(k) =~= kids);
    }
}

proof fn lemma_roots_rows_prefix(tree: ThreadTree, roots: Seq<usize>, fuel: nat, k: int)
    requires
        roots_rows(tree, roots, fuel) is Some,
        0 <= k <= roots.len(),
    ensures
        roots_rows(tree, roots.take(k), fuel) is Some,
    decreases roots.len() - k,
{
    if k < roots.len() {
        lemma_roots_rows_prefix(tree, roots, fuel, k + 1);
        assert(roots.take(k + 1).drop_last() =~= roots.take(k));
    } else {
        assert(roots.take(k) =~= roots);
    }
}

pub proof fn lemma_sorted_by_key_valid(tree: ThreadTree, s: Seq<usize>)
    requires
        forall|k: int| 0 <= k < s.len() ==> #[trigger] s[k] < tree.turns@.len(),
    ensures
        forall|k: int|
            0 <= k < sorted_by_key(tree, s).len() ==> #[trigger] sorted_by_key(tree, s)[k]
                < tree.turns@.len(),
        sorted_by_key(tree, s).len() == s.len(),
    decreases s.len(),
{
    if s.len() > 0 {
        lemma_sorted_by_key_valid(tree, s.drop_last());
        lemma_insert_by_key_valid(tree, sorted_by_key(tree, s.drop_last()), s.last());
    }
}

proof fn lemma_insert_by_key_valid(tree: ThreadTree, t: Seq<usize>, x: usize)
    requires
        forall|k: int| 0 <= k < t.len() ==> #[trigger] t[k] < tree.turns@.len(),
        x < tree.turns@.len(),
    ensures
        forall|k: int|
            0 <= k < insert_by_key(tree, t, x).len() ==> #[trigger] insert_by_key(tree, t, x)[k]
                < tree.turns@.len(),
        insert_by_key(tree, t, x).len() == t.len() + 1,
    decreases t.len(),
{
    if t.len() > 0 && key_lt(tree, x, t.last()) {
        lemma_insert_by_key_valid(tree, t.drop_last(), x);
        let r = insert_by_key(tree, t.drop_last(), x);
        assert forall|k: int| 0 <= k < r.push(t.last()).len() implies #[trigger] r.push(t.last())[k]
            < tree.turns@.len() by {
            if k < r.len() {
                assert(r.push(t.last())[k] == r[k]);
            }
        }
    }
}

fn append_str(s: &String, tail: &str) -> (r: String)
    ensures
        r@ == s@ + tail@,
{
    let mut r = copy_string(s);
    r.append(tail);
    r
}

/// Appends the rows of the subtree of turn `i` (see `subtree_rows`).
fn push_subtree_rows(
    tree: &ThreadTree,
    i: usize,
    row_prefix: String,
    child_prefix: String,
    Ghost(fuel): Ghost<nat>,
    out: &mut Vec<FlattenedTurn>,
)
    requires
        subtree_rows(*tree, i, row_prefix@, child_prefix@, fuel) is Some,
        forall|x: int| 0 <= x < old(out)@.len() ==> #[trigger] old(out)@[x].index < tree.turns@.len(),
    ensures
        forall|x: int|
            0 <= x < final(out)@.len() ==> #[trigger] final(out)@[x].index < tree.turns@.len(),
        flat_rows(final(out)@) == flat_rows(old(out)@) + subtree_rows(
            *tree,
            i,
            row_prefix@,
            child_prefix@,
            fuel,
        )->0,
    decreases fuel,
{
    let ghost rp = row_prefix@;
    let ghost start = flat_rows(out@);
    out.push(FlattenedTurn { index: i, prefix: row_prefix });
    let ghost row = FlatRow { index: i, prefix: rp };
    assert(flat_rows(out@) =~= start + seq![row]);
    let kids = ordered_children(tree, i);
    if kids.len() == 0 {
        return;
    }
    let count = kids.len();
    assert(fuel > 0);
    let ghost f = (fuel - 1) as nat;
    proof {
        lemma_sorted_by_key_valid(*tree, tree.turns@[i as int].children@);
    }
    let mut k: usize = 0;
    while k < count
        invariant
            i < tree.turns@.len(),
            f + 1 == fuel,
            forall|x: int| 0 <= x < out@.len() ==> #[trigger] out@[x].index < tree.turns@.len(),
            count == kids@.len(),
            k <= count,
            kids@ == sorted_by_key(*tree, tree.turns@[i as int].children@),
            forall|x: int| 0 <= x < kids@.len() ==> #[trigger] kids@[x] < tree.turns@.len(),
            children_rows(*tree, kids@, count as nat, child_prefix@, f) is Some,
            flat_rows(out@) == start + seq![row] + children_rows(
                *tree,
                kids@.take(k as int),
                count as nat,
                child_prefix@,
                f,
            )->0,
        decreases count - k,
    {
        proof {
            lemma_children_rows_prefix(*tree, kids@, count as nat, child_prefix@, f, k + 1);
            assert(kids@.take(k + 1).drop_last() =~= kids@.take(k as int));
            assert(kids@.take(k + 1).last() == kids@[k as int]);
        }
        let is_last = k + 1 == count;
        let next_row = if is_last {
            append_str(&child_prefix, "`- ")
        } else {
            append_str(&child_prefix, "|- ")
        };
        let next_child = if is_last {
            append_str(&child_prefix, "   ")
        } else {
            append_str(&child_prefix, "|  ")
        };
        let ghost before = flat_rows(out@);
        push_subtree_rows(tree, kids[k], next_row, next_child, Ghost(f), out);
        assert(flat_rows(out@) =~= start + seq![row] + children_rows(
            *tree,
            kids@.take(k + 1),
            count as nat,
            child_prefix@,
            f,
        )->0);
        k = k + 1;
    }
    assert(kids@.take(count as int) =~= kids@);
}

/// The turns of the tree in listing order (see `listing`).
pub fn flattened_turns(tree: &ThreadTree) -> (r: Vec<FlattenedTurn>)
    requires
        listable(*tree),
    ensures
        flat_rows(r@) == listing(*tree),
        forall|x: int| 0 <= x < r@.len() ==> #[trigger] r@[x].index < tree.turns@.len(),
{
    let ghost fuel = choose|fuel: nat| #[trigger] roots_rows(*tree, sorted_by_key(*tree, tree.roots@), fuel) is Some;
    let roots = ordered_roots(tree);
    proof {
        lemma_sorted_by_key_valid(*tree, tree.roots@);
    }
    let mut out: Vec<FlattenedTurn> = Vec::new();
    let mut k: usize = 0;
    while k < roots.len()
        invariant
            k <= roots@.len(),
            roots@ == sorted_by_key(*tree, tree.roots@),
            forall|x: int| 0 <= x < roots@.len() ==> #[trigger] roots@[x] < tree.turns@.len(),
            roots_rows(*tree, roots@, fuel) is Some,
            forall|x: int| 0 <= x < out@.len() ==> #[trigger] out@[x].index < tree.turns@.len(),
            flat_rows(out@) == roots_rows(*tree, roots@.take(k as int), fuel)->0,
        decreases roots@.len() - k,
    {
        proof {
            lemma_roots_rows_prefix(*tree, roots@, fuel, k + 1);
            assert(roots@.take(k + 1).drop_last() =~= roots@.take(k as int));
            assert(roots@.take(k + 1).last() == roots@[k as int]);
        }
        push_subtree_rows(tree, roots[k], String::new(), String::new(), Ghost(fuel), &mut out);
        k = k + 1;
    }
    assert(roots@.take(roots@.len() as int) =~= roots@);
    proof {
        if k == 0 {
            assert(flat_rows(out@) =~= Seq::<FlatRow>::empty());
        }
    }
    out
}

/// One entry of the tree view: the root entry, or the entry of a turn.
/// Selecting it makes `target_turn_id` the active leaf.
pub struct ThreadTreeItem {
    pub target_turn_id: Option<String>,
    pub name: String,
    pub name_prefix: String,
    pub description: String,
    pub is_current: bool,
    pub search_value: String,
}

/// The tree view: its entries, and the entry selected when it opens.
pub struct ThreadTreeParams {
    pub title: String,
    pub subtitle: String,
    pub search_placeholder: String,
    pub items: Vec<ThreadTreeItem>,
    pub initial_selected_idx: Option<usize>,
}

/// An entry, abstractly.
pub struct ItemModel {
    pub target_turn_id: Option<Seq<char>>,
    pub name: Seq<char>,
    pub name_prefix: Seq<char>,
    pub description: Seq<char>,
    pub is_current: bool,
    pub search_value: Seq<char>,
}

pub open spec fn item_model(i: ThreadTreeItem) -> ItemModel {
    ItemModel {
        target_turn_id: opt_str(i.target_turn_id),
        name: i.name@,
        name_prefix: i.name_prefix@,
        description: i.description@,
        is_current: i.is_current,
        search_value: i.search_value@,
    }
}

pub open spec fn items_model(v: Seq<ThreadTreeItem>) -> Seq<ItemModel> {
    v.map_values(|i: ThreadTreeItem| item_model(i))
}

/// The first entry: before the first turn; current when no turn is active.
pub open spec fn root_item(tree: ThreadTree) -> ItemModel {
    ItemModel {
        target_turn_id: None,
        name: "root"@,
        name_prefix: Seq::empty(),
        description: "Before the first user turn"@,
        is_current: tree.active_leaf_turn_id is None,
        search_value: "root start beginning"@,
    }
}

/// A turn's name in the view: the label of its message.
pub open spec fn turn_name(t: ThreadTreeTurn) -> Seq<char> {
    match t.user_message {
        Some(m) => shortened(m@),
        None => "(no user message)"@,
    }
}

/// `turn <short id>`, then ` - <n> branches` when it has more than one
/// child, then ` - active path` when it is on the active path.
pub open spec fn turn_description(t: ThreadTreeTurn) -> Seq<char> {
    let n = t.children@.len();
    "turn "@ + short_id(t.turn_id@) + (if n > 1 {
        " - "@ + decimal(n) + " branches"@
    } else {
        Seq::empty()
    }) + (if t.is_active_path {
        " - active path"@
    } else {
        Seq::empty()
    })
}

/// The text a search matches: the id, a space, the message.
pub open spec fn turn_search_value(t: ThreadTreeTurn) -> Seq<char> {
    t.turn_id@ + " "@ + match t.user_message {
        Some(m) => m@,
        None => Seq::empty(),
    }
}

/// The entry of a listed turn.
pub open spec fn turn_item(tree: ThreadTree, row: FlatRow) -> ItemModel {
    let t = tree.turns@[row.index as int];
    ItemModel {
        target_turn_id: Some(t.turn_id@),
        name: turn_name(t),
        name_prefix: row.prefix,
        description: turn_description(t),
        is_current: opt_str(tree.active_leaf_turn_id) == Some(t.turn_id@),
        search_value: turn_search_value(t),
    }
}

/// The entries of the view: the root entry, then one per listed turn.
pub open spec fn tree_items(tree: ThreadTree) -> Seq<ItemModel> {
    seq![root_item(tree)] + listing(tree).map_values(|row: FlatRow| turn_item(tree, row))
}

/// The listed turn at position `p` is the active leaf.
pub open spec fn lists_leaf_at(tree: ThreadTree, p: int) -> bool {
    &&& 0 <= p < listing(tree).len()
    &&& opt_str(tree.active_leaf_turn_id) == Some(
        tree.turns@[listing(tree)[p].index as int].turn_id@,
    )
}

/// The entry selected when the view opens is a current entry: the entry of
/// a turn that carries the active leaf's id.
pub proof fn law_selected_entry_is_current(tree: ThreadTree, p: int)
    requires
        lists_leaf_at(tree, p),
    ensures
        tree_items(tree)[p + 1].is_current,
        tree_items(tree)[p + 1].target_turn_id == opt_str(tree.active_leaf_turn_id),
{
    let rows = listing(tree);
    assert(tree_items(tree)[p + 1] == turn_item(tree, rows[p]));
}

/// The root entry is current exactly when no turn is active.
pub proof fn law_root_entry_current_without_leaf(tree: ThreadTree)
    ensures
        tree_items(tree)[0].is_current <==> tree.active_leaf_turn_id is None,
        tree_items(tree)[0].target_turn_id is None,
{
}

fn turn_name_of(t: &ThreadTreeTurn) -> (r: String)
    ensures
        r@ == turn_name(*t),
{
    match &t.user_message {
        Some(m) => shorten_message(m.as_str()),
        None => String::from_str("(no user message)"),
    }
}

fn turn_description_of(t: &ThreadTreeTurn) -> (r: String)
    ensures
        r@ == turn_description(*t),
{
    let mut d = String::from_str("turn ");
    d.append(short_turn_id(t.turn_id.as_str()));
    let n = t.children.len();
    if n > 1 {
        d.append(" - ");
        push_decimal(&mut d, n);
        d.append(" branches");
    }
    if t.is_active_path {
        d.append(" - active path");
    }
    d
}

fn turn_search_value_of(t: &ThreadTreeTurn) -> (r: String)
    ensures
        r@ == turn_search_value(*t),
{
    let mut v = copy_string(&t.turn_id);
    v.append(" ");
    match &t.user_message {
        Some(m) => v.append(m.as_str()),
        None => {},
    }
    v
}

/// The tree view of `tree`: the root entry, then the entry of each turn in
/// listing order, drawn with its branch lines; the entry of the active leaf
/// is current and selected when the view opens.
pub fn build_thread_tree_params(tree: &ThreadTree) -> (r: ThreadTreeParams)
    requires
        listable(*tree),
    ensures
        items_model(r.items@) == tree_items(*tree),
        r.title@ == "Conversation Tree"@,
        r.subtitle@ == "Select a turn to make that branch active"@,
        r.search_placeholder@ == "Search branches"@,
        match r.initial_selected_idx {
            Some(k) => lists_leaf_at(*tree, k - 1) && forall|p: int|
                0 <= p < k - 1 ==> !lists_leaf_at(*tree, p),
            None => forall|p: int| !lists_leaf_at(*tree, p),
        },
{
    let flat = flattened_turns(tree);
    let ghost rows = listing(*tree);
    assert forall|x: int| 0 <= x < rows.len() implies #[trigger] rows[x].index < tree.turns@.len() by {
        assert(rows[x] == flat_rows(flat@)[x]);
        assert(flat@[x].index < tree.turns@.len());
    }
    let mut items: Vec<ThreadTreeItem> = Vec::new();
    items.push(
        ThreadTreeItem {
            target_turn_id: None,
            name: String::from_str("root"),
            name_prefix: String::new(),
            description: String::from_str("Before the first user turn"),
            is_current: tree.active_leaf_turn_id.is_none(),
            search_value: String::from_str("root start beginning"),
        },
    );
    let mut selected: Option<usize> = None;
    let mut k: usize = 0;
    while k < flat.len()
        invariant
            flat_rows(flat@) == rows,
            rows == listing(*tree),
            forall|x: int| 0 <= x < rows.len() ==> #[trigger] rows[x].index < tree.turns@.len(),
            k <= flat@.len(),
            items_model(items@) == seq![root_item(*tree)] + rows.take(k as int).map_values(
                |row: FlatRow| turn_item(*tree, row),
            ),
            match selected {
                Some(s) => s < k && lists_leaf_at(*tree, s as int) && forall|p: int|
                    0 <= p < s ==> !lists_leaf_at(*tree, p),
                None => forall|p: int| 0 <= p < k ==> !lists_leaf_at(*tree, p),
            },
        decreases flat@.len() - k,
    {
        let f = &flat[k];
        assert(rows[k as int] == FlatRow { index: f.index, prefix: f.prefix@ });
        let t = &tree.turns[f.index];
        let is_current = match &tree.active_leaf_turn_id {
            Some(a) => *a == t.turn_id,
            None => false,
        };
        if is_current && selected.is_none() {
            selected = Some(k);
        }
        let ghost before = items_model(items@);
        items.push(
            ThreadTreeItem {
                target_turn_id: Some(copy_string(&t.turn_id)),
                name: turn_name_of(t),
                name_prefix: copy_string(&f.prefix),
                description: turn_description_of(t),
                is_current,
                search_value: turn_search_value_of(t),
            },
        );
        assert(items_model(items@) =~= before.push(turn_item(*tree, rows[k as int])));
        assert(rows.take(k + 1).map_values(|row: FlatRow| turn_item(*tree, row)) =~= rows.take(
            k as int,
        ).map_values(|row: FlatRow| turn_item(*tree, row)).push(turn_item(*tree, rows[k as int])));
        k = k + 1;
    }
    assert(rows.take(k as int) =~= rows);
    let initial_selected_idx = match selected {
        Some(s) => Some(s + 1),
        None => None,
    };
    ThreadTreeParams {
        title: String::from_str("Conversation Tree"),
        subtitle: String::from_str("Select a turn to make that branch active"),
        search_placeholder: String::from_str("Search branches"),
        items,
        initial_selected_idx,
    }
}

proof fn lemma_insert_by_key_members(tree: ThreadTree, t: Seq<usize>, x: usize)
    ensures
        forall|k: int|
            0 <= k < insert_by_key(tree, t, x).len() ==> #[trigger] insert_by_key(tree, t, x)[k]
                == x || t.contains(insert_by_key(tree, t, x)[k]),
    decreases t.len(),
{
    let r = insert_by_key(tree, t, x);
    if t.len() == 0 {
    } else if !key_lt(tree, x, t.last()) {
        assert forall|k: int| 0 <= k < r.len() implies #[trigger] r[k] == x || t.contains(r[k]) by {
            if k < t.len() {
                assert(r[k] == t[k]);
            }
        }
    } else {
        let t0 = t.drop_last();
        lemma_insert_by_key_members(tree, t0, x);
        let r0 = insert_by_key(tree, t0, x);
        assert forall|k: int| 0 <= k < r.len() implies #[trigger] r[k] == x || t.contains(r[k]) by {
            if k < r0.len() {
                assert(r[k] == r0[k]);
                if r0[k] != x {
                    assert(t0.contains(r0[k]));
                    let w = choose|w: int| 0 <= w < t0.len() && t0[w] == r0[k];
                    assert(t[w] == r0[k]);
                }
            } else {
                assert(r[k] == t[t.len() - 1]);
            }
        }
    }
}

/// Sorting keeps to the given elements.
pub proof fn lemma_sorted_by_key_members(tree: ThreadTree, s: Seq<usize>)
    ensures
        forall|k: int|
            0 <= k < sorted_by_key(tree, s).len() ==> s.contains(#[trigger] sorted_by_key(tree, s)[k]),
    decreases s.len(),
{
    if s.len() > 0 {
        let s0 = s.drop_last();
        lemma_sorted_by_key_members(tree, s0);
        let t = sorted_by_key(tree, s0);
        lemma_insert_by_key_members(tree, t, s.last());
        assert forall|k: int|
            0 <= k < sorted_by_key(tree, s).len() implies s.contains(
            #[trigger] sorted_by_key(tree, s)[k],
        ) by {
            let y = sorted_by_key(tree, s)[k];
            if y == s.last() {
                assert(s[s.len() - 1] == y);
            } else {
                assert(t.contains(y));
                let w = choose|w: int| 0 <= w < t.len() && t[w] == y;
                assert(s0.contains(t[w]));
                let v = choose|v: int| 0 <= v < s0.len() && s0[v] == y;
                assert(s[v] == y);
            }
        }
    }
}

/// The children of each turn of `tree` are the turns whose parent link
/// names it, in the model `tm`.
pub open spec fn children_follow(tree: ThreadTree, tm: Seq<TurnModel>) -> bool {
    &&& tm.len() <= usize::MAX
    &&& tree.turns@.len() == tm.len()
    &&& forall|j: int| 0 <= j < tm.len() ==> #[trigger] tree.turns@[j].children@ == children_of(tm, j)
}

/// A turn whose parent links reach a root in `d` links is reached, going
/// down, in `d + 1` from its parent.
pub proof fn lemma_child_depth(tm: Seq<TurnModel>, i: int, c: int)
    requires
        0 <= c < tm.len(),
        parent_index(tm, c) == Some(i),
        depth_walk(tm, i, tm.len()) is Some,
    ensures
        depth_walk(tm, c, tm.len()) == Some((depth_walk(tm, i, tm.len())->0 + 1) as nat),
        depth_walk(tm, i, tm.len())->0 + 1 < tm.len(),
{
    law_child_is_one_deeper(tm, c);
    lemma_depth_below_turn_count(tm, c, tm.len());
}

proof fn lemma_subtree_rows_some(
    tree: ThreadTree,
    tm: Seq<TurnModel>,
    i: usize,
    row_prefix: Seq<char>,
    child_prefix: Seq<char>,
    fuel: nat,
)
    requires
        children_follow(tree, tm),
        i < tm.len(),
        depth_walk(tm, i as int, tm.len()) is Some,
        depth_walk(tm, i as int, tm.len())->0 + fuel + 1 >= tm.len(),
    ensures
        subtree_rows(tree, i, row_prefix, child_prefix, fuel) is Some,
    decreases fuel, 0nat, 0nat,
{
    let kids = sorted_by_key(tree, tree.turns@[i as int].children@);
    let n = tm.len() as int;
    lemma_indices_with_parent_members(tm, Some(i as int), n);
    assert(children_valid(tree, i));
    if kids.len() > 0 {
        lemma_sorted_by_key_members(tree, tree.turns@[i as int].children@);
        assert forall|k: int| 0 <= k < kids.len() implies #[trigger] kids[k] < tm.len()
            && parent_index(tm, kids[k] as int) == Some(i as int) by {
            assert(children_of(tm, i as int).contains(kids[k]));
            let w = choose|w: int|
                0 <= w < children_of(tm, i as int).len() && children_of(tm, i as int)[w] == kids[k];
            assert(children_of(tm, i as int)[w] == kids[k]);
        }
        assert(kids[0] < tm.len());
        lemma_child_depth(tm, i as int, kids[0] as int);
        lemma_children_rows_some(tree, tm, i, kids, kids.len(), child_prefix, (fuel - 1) as nat);
    }
}

proof fn lemma_children_rows_some(
    tree: ThreadTree,
    tm: Seq<TurnModel>,
    i: usize,
    kids: Seq<usize>,
    total: nat,
    child_prefix: Seq<char>,
    fuel: nat,
)
    requires
        children_follow(tree, tm),
        i < tm.len(),
        depth_walk(tm, i as int, tm.len()) is Some,
        depth_walk(tm, i as int, tm.len())->0 + fuel + 2 >= tm.len(),
        forall|k: int|
            0 <= k < kids.len() ==> #[trigger] kids[k] < tm.len() && parent_index(tm, kids[k] as int)
                == Some(i as int),
    ensures
        children_rows(tree, kids, total, child_prefix, fuel) is Some,
    decreases fuel, 1nat, kids.len(),
{
    if kids.len() > 0 {
        let is_last = kids.len() == total;
        lemma_children_rows_some(tree, tm, i, kids.drop_last(), total, child_prefix, fuel);
        let c = kids.last();
        assert(kids[kids.len() - 1] == c);
        lemma_child_depth(tm, i as int, c as int);
        lemma_subtree_rows_some(
            tree,
            tm,
            c,
            child_prefix + branch_mark(is_last),
            child_prefix + continuation_mark(is_last),
            fuel,
        );
    }
}

proof fn lemma_roots_rows_some(tree: ThreadTree, tm: Seq<TurnModel>, roots: Seq<usize>, fuel: nat)
    requires
        children_follow(tree, tm),
        fuel + 1 >= tm.len(),
        forall|k: int|
            0 <= k < roots.len() ==> #[trigger] roots[k] < tm.len() && parent_index(tm, roots[k] as int)
                is None,
    ensures
        roots_rows(tree, roots, fuel) is Some,
    decreases roots.len(),
{
    if roots.len() > 0 {
        lemma_roots_rows_some(tree, tm, roots.drop_last(), fuel);
        let r = roots.last();
        assert(roots[roots.len() - 1] == r);
        lemma_subtree_rows_some(tree, tm, r, Seq::empty(), Seq::empty(), fuel);
    }
}

/// A tree read from a rollout can always be listed: going down from its
/// roots, every branch ends, since turns whose parent links run round a
/// cycle are never below a root.
pub proof fn law_built_tree_is_listable(tree: ThreadTree, items: Seq<RolloutItem>)
    requires
        is_tree_of(tree, items),
        tree.turns@.len() <= usize::MAX,
    ensures
        listable(tree),
{
    let tm = tree_turns(items);
    let n = tm.len() as int;
    assert(turns_model(tree.turns@).len() == tree.turns@.len());
    assert(children_follow(tree, tm));
    lemma_indices_with_parent_members(tm, None, n);
    assert(roots_valid(tree));
    let roots = sorted_by_key(tree, tree.roots@);
    lemma_sorted_by_key_members(tree, tree.roots@);
    assert forall|k: int| 0 <= k < roots.len() implies #[trigger] roots[k] < tm.len() && parent_index(
        tm,
        roots[k] as int,
    ) is None by {
        assert(tree.roots@.contains(roots[k]));
        let w = choose|w: int| 0 <= w < tree.roots@.len() && tree.roots@[w] == roots[k];
        assert(tree.roots@[w] == roots[k]);
    }
    lemma_roots_rows_some(tree, tm, roots, n as nat);
    assert(roots_rows(tree, roots, n as nat) is Some);
}

} // verus!
