//! Processes: which targets are roots of their trees, the order in which a
//! tree is walked, and the reading of what `pgrep`, `ps` and `vmmap` print.
use vstd::prelude::*;
use std::collections::HashSet;
use crate::decimal::{format_i32, i32_text, i32_value, parse_i32};
use crate::duration::{amount_digits, amount_end, amount_value, find_amount_end};
use crate::text::{
    chars_of, char_is_whitespace, is_whitespace, join_with, lines, push_char, split_lines, split_words,
    string_from_chars, trim, trim_chars, trim_start, trim_start_chars, views, words,
};

verus! {

broadcast use vstd::std_specs::hash::group_hash_axioms;

/// The listed processes that are a child of some listed process:
/// `children[j]` holds the children of `pids[j]`.
pub open spec fn listed_children(pids: Seq<i32>, children: Seq<Seq<i32>>) -> Set<i32> {
    Set::new(
        |c: i32|
            pids.contains(c) && exists|j: int| 0 <= j < children.len() && #[trigger] children[j].contains(c),
    )
}

/// The processes of `pids` that are not a child of another listed process,
/// in their order.
pub open spec fn root_processes(pids: Seq<i32>, children: Seq<Seq<i32>>) -> Seq<i32> {
    pids.filter(|p: i32| !listed_children(pids, children).contains(p))
}

/// Keeps the processes of `pids` that are not a child of another listed
/// process, in their order; `children[j]` holds the children of `pids[j]`.
pub fn filter_root_processes(pids: &[i32], children: &[Vec<i32>]) -> (roots: Vec<i32>)
    requires
        children.len() == pids.len(),
    ensures
        roots@ == root_processes(pids@, children@.map_values(|c: Vec<i32>| c@)),
{
    let ghost kids = children@.map_values(|c: Vec<i32>| c@);
    let ghost child_spec = listed_children(pids@, kids);
    let mut pid_set: HashSet<i32> = HashSet::new();
    let mut i: usize = 0;
    while i < pids.len()
        invariant
            i <= pids.len(),
            pid_set@ == pids@.take(i as int).to_set(),
        decreases pids.len() - i,
    {
        pid_set.insert(pids[i]);
        assert(pids@.take(i + 1) =~= pids@.take(i as int).push(pids@[i as int]));
        proof {
            pids@.take(i as int).lemma_push_to_set_commute(pids@[i as int]);
        }
        i += 1;
    }
    assert(pids@.take(pids.len() as int) =~= pids@);
    let mut child_set: HashSet<i32> = HashSet::new();
    let mut j: usize = 0;
    while j < pids.len()
        invariant
            j <= pids.len() == children.len(),
            kids == children@.map_values(|c: Vec<i32>| c@),
            pid_set@ == pids@.to_set(),
            forall|c: i32| #[trigger] child_set@.contains(c) <==> (pids@.contains(c) && exists|jj: int|
                0 <= jj < j && #[trigger] kids[jj].contains(c)),
        decreases pids.len() - j,
    {
        let kids_j = &children[j];
        assert(kids[j as int] == kids_j@);
        let mut k: usize = 0;
        while k < kids_j.len()
            invariant
                j < pids.len() == children.len(),
                kids == children@.map_values(|c: Vec<i32>| c@),
                kids[j as int] == kids_j@,
                k <= kids_j.len(),
                pid_set@ == pids@.to_set(),
                forall|c: i32| #[trigger] child_set@.contains(c) <==> (pids@.contains(c) && ((
                exists|jj: int| 0 <= jj < j && #[trigger] kids[jj].contains(c))
                    || kids_j@.take(k as int).contains(c))),
            decreases kids_j.len() - k,
        {
            let child = kids_j[k];
            let ghost before = child_set@;
            assert(kids_j@.take(k + 1) =~= kids_j@.take(k as int).push(child));
            assert(pid_set@.contains(child) == pids@.contains(child));
            let listed = pid_set.contains(&child);
            if listed {
                child_set.insert(child);
            }
            assert(listed == pids@.contains(child));
            assert(listed ==> child_set@ == before.insert(child));
            assert(!listed ==> child_set@ == before);
            assert(kids_j@.take(k + 1).contains(child)) by {
                assert(kids_j@.take(k + 1)[k as int] == child);
            }
            assert forall|c: i32| #[trigger] child_set@.contains(c) <==> (pids@.contains(c) && ((
            exists|jj: int| 0 <= jj < j && #[trigger] kids[jj].contains(c))
                || kids_j@.take(k + 1).contains(c))) by {
                if kids_j@.take(k + 1).contains(c) && !kids_j@.take(k as int).contains(c) {
                    let q = choose|q: int| 0 <= q < k + 1 && #[trigger] kids_j@.take(k + 1)[q] == c;
                    if q < k {
                        assert(kids_j@.take(k as int)[q] == c);
                    }
                }
                if kids_j@.take(k as int).contains(c) {
                    let q = choose|q: int| 0 <= q < k && #[trigger] kids_j@.take(k as int)[q] == c;
                    assert(kids_j@.take(k + 1)[q] == c);
                }
            }
            k += 1;
        }
        assert(kids_j@.take(kids_j.len() as int) =~= kids_j@);
        assert forall|c: i32| #[trigger] child_set@.contains(c) <==> (pids@.contains(c) && exists|jj: int|
            0 <= jj < j + 1 && #[trigger] kids[jj].contains(c)) by {
            if pids@.contains(c) && kids_j@.contains(c) {
                assert(kids[j as int].contains(c));
            }
        }
        j += 1;
    }
    assert(child_set@ =~= child_spec);
    let ghost keep = |p: i32| !child_spec.contains(p);
    let mut roots: Vec<i32> = Vec::new();
    let mut i: usize = 0;
    while i < pids.len()
        invariant
            i <= pids.len(),
            child_set@ == child_spec,
            keep == (|p: i32| !child_spec.contains(p)),
            roots@ == pids@.take(i as int).filter(keep),
        decreases pids.len() - i,
    {
        let pid = pids[i];
        proof {
            reveal_with_fuel(Seq::<_>::filter, 1);
            assert(pids@.take(i + 1).drop_last() =~= pids@.take(i as int));
        }
        if !child_set.contains(&pid) {
            roots.push(pid);
        }
        i += 1;
    }
    assert(pids@.take(pids.len() as int) =~= pids@);
    roots
}

/// Law of the root filter: every process it keeps is listed and is no child
/// of a listed process, and every listed process that is no such child is kept.
pub proof fn lemma_root_processes(pids: Seq<i32>, children: Seq<Seq<i32>>)
    ensures
        forall|r: i32| #[trigger] root_processes(pids, children).contains(r)
            ==> pids.contains(r) && !listed_children(pids, children).contains(r),
        forall|p: i32| pids.contains(p) && !listed_children(pids, children).contains(p)
            ==> #[trigger] root_processes(pids, children).contains(p),
{
    let keep = |p: i32| !listed_children(pids, children).contains(p);
    let kept = pids.filter(keep);
    assert forall|r: i32| #[trigger] kept.contains(r) implies pids.contains(r) && keep(r) by {
        pids.lemma_filter_contains_rev(keep, r);
        let i = choose|i: int| 0 <= i < kept.len() && kept[i] == r;
        pids.lemma_filter_pred(keep, i);
    }
    assert forall|p: i32| pids.contains(p) && keep(p) implies #[trigger] kept.contains(p) by {
        let i = choose|i: int| 0 <= i < pids.len() && pids[i] == p;
        pids.lemma_filter_contains(keep, i);
    }
}

/// A sequence is its own filter when every item passes.
proof fn lemma_filter_keeps_all(s: Seq<i32>, keep: spec_fn(i32) -> bool)
    requires
        forall|i: int| 0 <= i < s.len() ==> keep(#[trigger] s[i]),
    ensures
        s.filter(keep) == s,
    decreases s.len(),
{
    reveal_with_fuel(Seq::<_>::filter, 1);
    if s.len() > 0 {
        let t = s.drop_last();
        assert forall|i: int| 0 <= i < t.len() implies keep(#[trigger] t[i]) by {
            assert(t[i] == s[i]);
        }
        lemma_filter_keeps_all(t, keep);
        assert(keep(s[s.len() - 1]));
        assert(t.push(s.last()) =~= s);
    }
}

/// Law of the root filter: filtering the roots again, with each process's
/// children as before, keeps them all.
pub proof fn lemma_root_filter_idempotent(pids: Seq<i32>, children_of: spec_fn(i32) -> Seq<i32>)
    ensures
        ({
            let roots = root_processes(pids, pids.map_values(|p: i32| children_of(p)));
            root_processes(roots, roots.map_values(|p: i32| children_of(p))) == roots
        }),
{
    let kids = pids.map_values(|p: i32| children_of(p));
    let roots = root_processes(pids, kids);
    let root_kids = roots.map_values(|p: i32| children_of(p));
    lemma_root_processes(pids, kids);
    let keep = |p: i32| !listed_children(roots, root_kids).contains(p);
    assert forall|i: int| 0 <= i < roots.len() implies keep(#[trigger] roots[i]) by {
        let p = roots[i];
        assert(roots.contains(p));
        assert(pids.contains(p) && !listed_children(pids, kids).contains(p));
        if listed_children(roots, root_kids).contains(p) {
            let j = choose|j: int| 0 <= j < root_kids.len() && #[trigger] root_kids[j].contains(p);
            let parent = roots[j];
            assert(roots.contains(parent));
            assert(pids.contains(parent));
            let k = choose|k: int| 0 <= k < pids.len() && pids[k] == parent;
            assert(kids[k] == children_of(parent));
            assert(kids[k].contains(p));
            assert(listed_children(pids, kids).contains(p));
        }
    }
    lemma_filter_keeps_all(roots, keep);
}

/// The processes of a tree still to be visited, with the indent that each
/// is shown at: a depth-first walk from one process, where the children of
/// a process come right after it, in the order they were listed, each two
/// columns further in.
pub struct ProcessWalk {
    /// The pending processes, the next one last.
    stack: Vec<(i32, usize)>,
}

impl View for ProcessWalk {
    type V = Seq<(i32, usize)>;

    /// The pending processes in the order they will be visited.
    closed spec fn view(&self) -> Seq<(i32, usize)> {
        self.stack@.reverse()
    }
}

/// The children `kids` as pending entries at indent `space`.
pub open spec fn pending_children(kids: Seq<i32>, space: usize) -> Seq<(i32, usize)> {
    kids.map_values(|c: i32| (c, space))
}

impl ProcessWalk {
    /// A walk that starts at `main_pid`, shown without indent.
    pub fn new(main_pid: i32) -> (w: ProcessWalk)
        ensures
            w@ == seq![(main_pid, 0usize)],
    {
        let mut stack = Vec::new();
        stack.push((main_pid, 0usize));
        let w = ProcessWalk { stack };
        assert(w@ =~= seq![(main_pid, 0usize)]);
        w
    }

    /// Takes the next process to visit and its indent.
    pub fn next(&mut self) -> (r: Option<(i32, usize)>)
        ensures
            old(self)@.len() == 0 ==> r is None && final(self)@ == old(self)@,
            old(self)@.len() > 0 ==> r == Some(old(self)@[0]) && final(self)@ == old(self)@.drop_first(),
    {
        let ghost before = self.stack@;
        let r = self.stack.pop();
        proof {
            if before.len() > 0 {
                assert(self.stack@ =~= before.drop_last());
                assert(self@ =~= old(self)@.drop_first());
            }
        }
        r
    }

    /// Puts the children of the process just visited, which was shown at
    /// indent `space`, first in line, in their order, two columns further in.
    pub fn descend(&mut self, children: &Vec<i32>, space: usize)
        requires
            space <= usize::MAX - 2,
        ensures
            final(self)@ == pending_children(children@, (space + 2) as usize) + old(self)@,
    {
        let ghost before = self.stack@;
        let indent = space + 2;
        let mut k = children.len();
        while k > 0
            invariant
                k <= children.len(),
                indent == space + 2,
                self.stack@ == before + pending_children(children@.skip(k as int), indent).reverse(),
            decreases k,
        {
            k -= 1;
            self.stack.push((children[k], indent));
            assert(pending_children(children@.skip(k as int), indent) =~= seq![(children@[k as int], indent)]
                + pending_children(children@.skip(k + 1), indent));
            assert(self.stack@ =~= before + pending_children(children@.skip(k as int), indent).reverse());
        }
        assert(children@.skip(0) =~= children@);
        assert(self@ =~= pending_children(children@, indent) + old(self)@);
    }

    /// Whether every process of the tree has been visited.
    pub fn is_done(&self) -> (r: bool)
        ensures
            r == (self@.len() == 0),
    {
        self.stack.len() == 0
    }
}

/// The pending processes after one visit of a walk: the first pending
/// process is visited and its children, `kids` of it, are put first in
/// line, two columns further in. This is what `next` followed by
/// `descend` with the visited process's children does.
pub open spec fn walk_step(pending: Seq<(i32, usize)>, kids: spec_fn(i32) -> Seq<i32>) -> Seq<(i32, usize)> {
    pending_children(kids(pending[0].0), (pending[0].1 + 2) as usize) + pending.drop_first()
}

/// The first `n` visits of a walk from `pending`.
pub open spec fn walk_visits(pending: Seq<(i32, usize)>, kids: spec_fn(i32) -> Seq<i32>, n: nat) -> Seq<(i32, usize)>
    decreases n,
{
    if n == 0 || pending.len() == 0 {
        Seq::empty()
    } else {
        seq![pending[0]] + walk_visits(walk_step(pending, kids), kids, (n - 1) as nat)
    }
}

/// What is pending after `n` visits of a walk from `pending`.
pub open spec fn walk_after(pending: Seq<(i32, usize)>, kids: spec_fn(i32) -> Seq<i32>, n: nat) -> Seq<(i32, usize)>
    decreases n,
{
    if n == 0 || pending.len() == 0 {
        pending
    } else {
        walk_after(walk_step(pending, kids), kids, (n - 1) as nat)
    }
}

/// The depth-first order of the trees at `roots`: each process, then the
/// trees of its children in their order, two columns further in; levels
/// more than `depth` below the roots are not expanded.
pub open spec fn preorder(roots: Seq<(i32, usize)>, kids: spec_fn(i32) -> Seq<i32>, depth: nat) -> Seq<(i32, usize)>
    decreases depth, roots.len(),
{
    if roots.len() == 0 {
        Seq::empty()
    } else {
        let below = if depth == 0 {
            Seq::empty()
        } else {
            preorder(
                pending_children(kids(roots[0].0), (roots[0].1 + 2) as usize),
                kids,
                (depth - 1) as nat,
            )
        };
        seq![roots[0]] + below + preorder(roots.drop_first(), kids, depth)
    }
}

/// The trees at `roots` end within `depth` levels: the processes that many
/// levels down have no children.
pub open spec fn within_depth(roots: Seq<(i32, usize)>, kids: spec_fn(i32) -> Seq<i32>, depth: nat) -> bool
    decreases depth, roots.len(),
{
    if roots.len() == 0 {
        true
    } else {
        (if depth == 0 {
            kids(roots[0].0).len() == 0
        } else {
            within_depth(
                pending_children(kids(roots[0].0), (roots[0].1 + 2) as usize),
                kids,
                (depth - 1) as nat,
            )
        }) && within_depth(roots.drop_first(), kids, depth)
    }
}

/// `a + b` visits are the first `a`, then `b` from where those left off.
proof fn lemma_walk_split(pending: Seq<(i32, usize)>, kids: spec_fn(i32) -> Seq<i32>, a: nat, b: nat)
    ensures
        walk_visits(pending, kids, a + b) == walk_visits(pending, kids, a) + walk_visits(
            walk_after(pending, kids, a),
            kids,
            b,
        ),
        walk_after(pending, kids, a + b) == walk_after(walk_after(pending, kids, a), kids, b),
    decreases a,
{
    if a == 0 || pending.len() == 0 {
        assert(walk_visits(pending, kids, a) =~= Seq::<(i32, usize)>::empty());
        if pending.len() == 0 {
            assert(walk_visits(pending, kids, a + b) =~= Seq::<(i32, usize)>::empty());
            assert(walk_visits(pending, kids, b) =~= Seq::<(i32, usize)>::empty());
        }
        assert(walk_visits(pending, kids, a) + walk_visits(walk_after(pending, kids, a), kids, b)
            =~= walk_visits(walk_after(pending, kids, a), kids, b));
    } else {
        lemma_walk_split(walk_step(pending, kids), kids, (a - 1) as nat, b);
        assert((a + b - 1) as nat == (a - 1) as nat + b);
        assert(walk_visits(pending, kids, a + b) =~= walk_visits(pending, kids, a) + walk_visits(
            walk_after(pending, kids, a),
            kids,
            b,
        ));
    }
}

/// A walk from the trees at `roots`, followed by `rest`, visits those trees
/// in depth-first order and then has `rest` left.
proof fn lemma_walk_preorder(roots: Seq<(i32, usize)>, rest: Seq<(i32, usize)>, kids: spec_fn(i32) -> Seq<i32>, depth: nat)
    requires
        within_depth(roots, kids, depth),
    ensures
        walk_visits(roots + rest, kids, preorder(roots, kids, depth).len()) == preorder(roots, kids, depth),
        walk_after(roots + rest, kids, preorder(roots, kids, depth).len()) == rest,
    decreases depth, roots.len(),
{
    if roots.len() == 0 {
        assert(roots + rest =~= rest);
        assert(walk_visits(rest, kids, 0) =~= Seq::<(i32, usize)>::empty());
    } else {
        let p = roots + rest;
        let first = roots[0];
        let others = roots.drop_first();
        let ch = pending_children(kids(first.0), (first.1 + 2) as usize);
        assert(p[0] == first);
        assert(p.drop_first() =~= others + rest);
        let step = walk_step(p, kids);
        assert(step == ch + (others + rest));
        let below = if depth == 0 {
            Seq::<(i32, usize)>::empty()
        } else {
            preorder(ch, kids, (depth - 1) as nat)
        };
        let after_below = others + rest;
        if depth == 0 {
            assert(kids(first.0).len() == 0);
            assert(ch =~= Seq::<(i32, usize)>::empty());
            assert(step =~= after_below);
            assert(walk_visits(step, kids, 0) =~= below);
        } else {
            lemma_walk_preorder(ch, after_below, kids, (depth - 1) as nat);
        }
        lemma_walk_preorder(others, rest, kids, depth);
        let nb = below.len();
        let nr = preorder(others, kids, depth).len();
        lemma_walk_split(step, kids, nb, nr);
        let total = preorder(roots, kids, depth);
        assert(total == seq![first] + below + preorder(others, kids, depth));
        assert(total.len() == 1 + nb + nr);
        assert((total.len() - 1) as nat == nb + nr);
        assert(walk_visits(p, kids, total.len()) == seq![first] + walk_visits(step, kids, nb + nr));
        assert(walk_visits(p, kids, total.len()) =~= total);
    }
}

/// Law of the walk: a walk that starts at `main_pid` and puts each visited
/// process's children (`kids` of it) in line visits the whole tree in
/// depth-first order, each process right before its descendants, children
/// in their listed order and two columns further in, and then is done.
pub proof fn lemma_walk_is_preorder(main_pid: i32, kids: spec_fn(i32) -> Seq<i32>, depth: nat)
    requires
        within_depth(seq![(main_pid, 0usize)], kids, depth),
    ensures
        ({
            let tree = preorder(seq![(main_pid, 0usize)], kids, depth);
            &&& walk_visits(seq![(main_pid, 0usize)], kids, tree.len()) == tree
            &&& walk_after(seq![(main_pid, 0usize)], kids, tree.len()).len() == 0
        }),
{
    let start = seq![(main_pid, 0usize)];
    lemma_walk_preorder(start, Seq::empty(), kids, depth);
    assert(start + Seq::<(i32, usize)>::empty() =~= start);
}

/// The children that a walk puts in line when it skips the processes that
/// could not be sampled: `kids` of a sampled process, none of another.
pub open spec fn sampled_kids(kids: spec_fn(i32) -> Seq<i32>, sampled: spec_fn(i32) -> bool) -> spec_fn(i32) -> Seq<i32> {
    |p: i32|
        if sampled(p) {
            kids(p)
        } else {
            Seq::empty()
        }
}

/// Law of the walk with skipped processes: a walk from `main_pid` that, for
/// each process it visits, puts that process's children (`kids` of it) in
/// line when the process could be sampled and, when it could not, takes
/// only the visit (`next` without `descend`), visits in depth-first order
/// the tree in which the processes that could not be sampled have no
/// children, and then is done. No process below one that could not be
/// sampled is visited.
pub proof fn lemma_walk_with_skips(
    main_pid: i32,
    kids: spec_fn(i32) -> Seq<i32>,
    sampled: spec_fn(i32) -> bool,
    depth: nat,
)
    requires
        within_depth(seq![(main_pid, 0usize)], sampled_kids(kids, sampled), depth),
    ensures
        forall|pending: Seq<(i32, usize)>|
            pending.len() > 0 ==> #[trigger] walk_step(pending, sampled_kids(kids, sampled)) == if sampled(
                pending[0].0,
            ) {
                walk_step(pending, kids)
            } else {
                pending.drop_first()
            },
        forall|p: i32, space: usize, d: nat|
            !sampled(p) ==> #[trigger] preorder(seq![(p, space)], sampled_kids(kids, sampled), d) == seq![
                (p, space),
            ],
        ({
            let tree = preorder(seq![(main_pid, 0usize)], sampled_kids(kids, sampled), depth);
            &&& walk_visits(seq![(main_pid, 0usize)], sampled_kids(kids, sampled), tree.len()) == tree
            &&& walk_after(seq![(main_pid, 0usize)], sampled_kids(kids, sampled), tree.len()).len() == 0
        }),
{
    let sk = sampled_kids(kids, sampled);
    assert forall|pending: Seq<(i32, usize)>| pending.len() > 0 implies #[trigger] walk_step(pending, sk) == if sampled(
        pending[0].0,
    ) {
        walk_step(pending, kids)
    } else {
        pending.drop_first()
    } by {
        if !sampled(pending[0].0) {
            assert(sk(pending[0].0) =~= Seq::<i32>::empty());
            assert(walk_step(pending, sk) =~= pending.drop_first());
        }
    }
    assert forall|p: i32, space: usize, d: nat| !sampled(p) implies #[trigger] preorder(seq![(p, space)], sk, d) == seq![
        (p, space),
    ] by {
        let r = seq![(p, space)];
        assert(sk(p) =~= Seq::<i32>::empty());
        assert(pending_children(sk(p), (space + 2) as usize) =~= Seq::<(i32, usize)>::empty());
        assert(r.drop_first() =~= Seq::<(i32, usize)>::empty());
        assert(r[0] == (p, space));
        assert(preorder(r.drop_first(), sk, d) =~= Seq::<(i32, usize)>::empty());
        if d > 0 {
            let ch = pending_children(sk(r[0].0), (r[0].1 + 2) as usize);
            assert(ch =~= Seq::<(i32, usize)>::empty());
            assert(preorder(ch, sk, (d - 1) as nat) =~= Seq::<(i32, usize)>::empty());
        }
        assert(preorder(r, sk, d) =~= r);
    }
    lemma_walk_is_preorder(main_pid, sk, depth);
}

/// Law of the walk: once a process's children are put in line, the next
/// visits are exactly those children, in their order and two columns
/// further in, and then the walk goes on with what was pending before.
pub proof fn lemma_children_visited_next(pending: Seq<(i32, usize)>, kids: Seq<i32>, space: usize)
    requires
        space <= usize::MAX - 2,
    ensures
        (pending_children(kids, (space + 2) as usize) + pending).take(kids.len() as int)
            == pending_children(kids, (space + 2) as usize),
        (pending_children(kids, (space + 2) as usize) + pending).skip(kids.len() as int) == pending,
        forall|i: int| 0 <= i < kids.len() ==>
            (#[trigger] (pending_children(kids, (space + 2) as usize) + pending)[i]) == (kids[i], (space + 2) as usize),
{
    let front = pending_children(kids, (space + 2) as usize);
    assert((front + pending).take(kids.len() as int) =~= front);
    assert((front + pending).skip(kids.len() as int) =~= pending);
}

/// The integer that `target` writes, as `i32::from_str` reads it.
pub fn parse_pid(target: &str) -> (r: Option<i32>)
    ensures
        r == i32_value(target@),
{
    parse_i32(&chars_of(target))
}

/// The process ids in the output of `pgrep`: each line, trimmed, that
/// reads as an `i32`, in order; other lines are skipped.
pub open spec fn pid_list(output: Seq<char>) -> Seq<i32> {
    lines(output).filter_map(|l: Seq<char>| i32_value(trim(l)))
}

/// Reads the process ids that `pgrep` printed.
pub fn parse_pid_list(output: &str) -> (pids: Vec<i32>)
    ensures
        pids@ == pid_list(output@),
{
    let all = split_lines(&chars_of(output));
    let ghost ls = lines(output@);
    let ghost f = |l: Seq<char>| i32_value(trim(l));
    let mut pids: Vec<i32> = Vec::new();
    let mut i: usize = 0;
    while i < all.len()
        invariant
            i <= all.len(),
            views(all@) == ls,
            f == (|l: Seq<char>| i32_value(trim(l))),
            pids@ == ls.take(i as int).filter_map(f),
        decreases all.len() - i,
    {
        assert(ls[i as int] == all@[i as int]@);
        assert(ls.take(i + 1).drop_last() =~= ls.take(i as int));
        let line = trim_chars(&all[i]);
        match parse_i32(&line) {
            Some(pid) => {
                pids.push(pid);
                assert(pids@ =~= ls.take(i as int).filter_map(f) + seq![pid]);
            },
            None => {},
        }
        i += 1;
    }
    assert(ls.take(all.len() as int) =~= ls);
    pids
}

/// The first line of `ls` that holds more than white space.
pub open spec fn first_filled_line(ls: Seq<Seq<char>>) -> Option<Seq<char>>
    decreases ls.len(),
{
    if ls.len() == 0 {
        None
    } else if trim(ls[0]).len() > 0 {
        Some(ls[0])
    } else {
        first_filled_line(ls.drop_first())
    }
}

/// The fields of one line of `ps -o pid= -o rss= -o %cpu= -o comm=`.
pub struct PsFields {
    pub pid: i32,
    /// The resident size in kilobytes, as printed.
    pub rss: String,
    /// The CPU share in percent, as printed.
    pub cpu: String,
    /// The command name; the process id when `ps` printed none.
    pub name: String,
}

/// What the output of `ps` tells of one process: the first line that holds
/// more than white space, split into words; the first word must read as a
/// process id and a second and third (size and CPU share) must follow; the
/// rest, joined by single spaces, is the name, and when there is no rest
/// the name is the process id written in decimal.
pub open spec fn ps_fields(output: Seq<char>) -> Option<(i32, Seq<char>, Seq<char>, Seq<char>)> {
    match first_filled_line(lines(output)) {
        None => None,
        Some(line) => {
            let w = words(line);
            if w.len() == 0 {
                None
            } else {
                match i32_value(w[0]) {
                    None => None,
                    Some(pid) => if w.len() < 3 {
                        None
                    } else {
                        let name = join_with(w.skip(3), ' ');
                        Some((pid, w[1], w[2], if name.len() == 0 { i32_text(pid) } else { name }))
                    },
                }
            }
        },
    }
}

/// The words of `ws` from `start` on, joined by single spaces.
fn join_from(ws: &Vec<Vec<char>>, start: usize) -> (s: String)
    requires
        start <= ws.len(),
    ensures
        s@ == join_with(views(ws@).skip(start as int), ' '),
{
    let ghost all = views(ws@);
    let mut s = String::new();
    let mut i = start;
    assert(all.skip(start as int).take(0) =~= Seq::<Seq<char>>::empty());
    while i < ws.len()
        invariant
            start <= i <= ws.len(),
            all == views(ws@),
            s@ == join_with(all.skip(start as int).take(i - start), ' '),
        decreases ws.len() - i,
    {
        let ghost before = all.skip(start as int).take(i - start);
        let ghost after = all.skip(start as int).take(i - start + 1);
        assert(after.drop_last() =~= before);
        assert(after.last() == ws@[i as int]@);
        if i > start {
            push_char(&mut s, ' ');
        }
        let word = &ws[i];
        let mut k: usize = 0;
        let ghost base = s@;
        while k < word.len()
            invariant
                k <= word.len(),
                s@ == base + word@.take(k as int),
            decreases word.len() - k,
        {
            push_char(&mut s, word[k]);
            assert(word@.take(k + 1) =~= word@.take(k as int).push(word@[k as int]));
            k += 1;
        }
        assert(word@.take(word.len() as int) =~= word@);
        proof {
            if i > start {
                assert(s@ =~= join_with(before, ' ') + seq![' '] + word@);
            } else {
                assert(before.len() == 0);
                assert(after.len() == 1);
                assert(s@ =~= word@);
            }
        }
        i += 1;
    }
    assert(all.skip(start as int).take(ws.len() - start) =~= all.skip(start as int));
    s
}

/// Reads the line that `ps -o pid= -o rss= -o %cpu= -o comm=` printed for a process.
pub fn parse_ps_output(output: &str) -> (r: Option<PsFields>)
    ensures
        match ps_fields(output@) {
            None => r is None,
            Some((pid, rss, cpu, name)) => r matches Some(f) && f.pid == pid && f.rss@ == rss
                && f.cpu@ == cpu && f.name@ == name,
        },
{
    let all = split_lines(&chars_of(output));
    let ghost ls = lines(output@);
    let mut i: usize = 0;
    assert(ls.skip(0) =~= ls);
    while i < all.len() && trim_chars(&all[i]).len() == 0
        invariant
            i <= all.len(),
            views(all@) == ls,
            first_filled_line(ls) == first_filled_line(ls.skip(i as int)),
        decreases all.len() - i,
    {
        assert(ls[i as int] == all@[i as int]@);
        assert(ls.skip(i as int).drop_first() =~= ls.skip(i + 1));
        i += 1;
    }
    if i == all.len() {
        assert(ls.skip(i as int).len() == 0);
        return None;
    }
    assert(ls[i as int] == all@[i as int]@);
    assert(ls.skip(i as int)[0] == ls[i as int]);
    let w = split_words(&all[i]);
    if w.len() == 0 {
        return None;
    }
    assert(views(w@)[0] == w@[0]@);
    let pid = match parse_i32(&w[0]) {
        None => {
            return None;
        },
        Some(pid) => pid,
    };
    if w.len() < 3 {
        return None;
    }
    assert(views(w@)[1] == w@[1]@);
    assert(views(w@)[2] == w@[2]@);
    let rss = string_from_chars(&w[1], 0);
    let cpu = string_from_chars(&w[2], 0);
    assert(w@[1]@.skip(0) =~= w@[1]@);
    assert(w@[2]@.skip(0) =~= w@[2]@);
    let joined = join_from(&w, 3);
    let name = if joined.as_str().is_empty() {
        format_i32(pid)
    } else {
        joined
    };
    Some(PsFields { pid, rss, cpu, name })
}

/// The summary line of `vmmap -summary`: after its leading white space it
/// begins with `TOTAL`, then white space.
pub open spec fn is_total_line(l: Seq<char>) -> bool {
    let t = trim_start(l);
    t.len() > 5 && t.take(5) == seq!['T', 'O', 'T', 'A', 'L'] && is_whitespace(t[5])
}

/// The first summary line among `ls`.
pub open spec fn first_total_line(ls: Seq<Seq<char>>) -> Option<Seq<char>>
    decreases ls.len(),
{
    if ls.len() == 0 {
        None
    } else if is_total_line(ls[0]) {
        Some(ls[0])
    } else {
        first_total_line(ls.drop_first())
    }
}

/// The swapped size that `vmmap -summary` printed: the fifth word of its
/// first summary line.
pub open spec fn vmmap_swapped(output: Seq<char>) -> Option<Seq<char>> {
    match first_total_line(lines(output)) {
        None => None,
        Some(line) => {
            let w = words(line);
            if w.len() > 4 {
                Some(w[4])
            } else {
                None
            }
        },
    }
}

/// Law of the summary line: when line `k` is a summary line and no line
/// before it is, it is the one that counts, whatever lines follow; and when
/// no line is one, there is none.
pub proof fn lemma_first_total_line(ls: Seq<Seq<char>>, k: int)
    ensures
        0 <= k < ls.len() && is_total_line(ls[k]) && (forall|j: int| 0 <= j < k ==> !is_total_line(#[trigger] ls[j]))
            ==> first_total_line(ls) == Some(ls[k]),
        (forall|j: int| 0 <= j < ls.len() ==> !is_total_line(#[trigger] ls[j])) ==> first_total_line(ls) is None,
    decreases ls.len(),
{
    if ls.len() > 0 {
        let t = ls.drop_first();
        lemma_first_total_line(t, k - 1);
        if (forall|j: int| 0 <= j < ls.len() ==> !is_total_line(#[trigger] ls[j])) {
            assert(!is_total_line(ls[0]));
            assert forall|j: int| 0 <= j < t.len() implies !is_total_line(#[trigger] t[j]) by {
                assert(t[j] == ls[j + 1]);
            }
        }
        if 0 <= k < ls.len() && is_total_line(ls[k]) && (forall|j: int| 0 <= j < k ==> !is_total_line(#[trigger] ls[j])) {
            if k > 0 {
                assert(!is_total_line(ls[0]));
                assert(t[k - 1] == ls[k]);
                assert forall|j: int| 0 <= j < k - 1 implies !is_total_line(#[trigger] t[j]) by {
                    assert(t[j] == ls[j + 1]);
                }
            }
        }
    }
}

/// Law of `vmmap`: the swapped size is the fifth word of the first summary
/// line (line `k`, when no line before it is one), whatever lines follow;
/// none when that line has fewer than five words.
pub proof fn lemma_vmmap_swapped_first_total(output: Seq<char>, k: int)
    requires
        0 <= k < lines(output).len(),
        is_total_line(lines(output)[k]),
        forall|j: int| 0 <= j < k ==> !is_total_line(#[trigger] lines(output)[j]),
    ensures
        vmmap_swapped(output) == (if words(lines(output)[k]).len() > 4 {
            Some(words(lines(output)[k])[4])
        } else {
            None
        }),
{
    lemma_first_total_line(lines(output), k);
}

/// Whether `line` is a summary line.
fn total_line(line: &Vec<char>) -> (r: bool)
    ensures
        r == is_total_line(line@),
{
    let t = trim_start_chars(line);
    if t.len() <= 5 {
        return false;
    }
    let head = t[0] == 'T' && t[1] == 'O' && t[2] == 'T' && t[3] == 'A' && t[4] == 'L';
    if head {
        assert(t@.take(5) =~= seq!['T', 'O', 'T', 'A', 'L']);
    } else {
        assert(t@.take(5)[0] == t@[0] && t@.take(5)[1] == t@[1] && t@.take(5)[2] == t@[2]
            && t@.take(5)[3] == t@[3] && t@.take(5)[4] == t@[4]);
    }
    head && char_is_whitespace(t[5])
}

/// Finds the swapped size in the output of `vmmap -summary`.
pub fn vmmap_swapped_field(output: &str) -> (r: Option<String>)
    ensures
        match vmmap_swapped(output@) {
            None => r is None,
            Some(field) => r matches Some(s) && s@ == field,
        },
{
    let all = split_lines(&chars_of(output));
    let ghost ls = lines(output@);
    let mut i: usize = 0;
    assert(ls.skip(0) =~= ls);
    while i < all.len() && !total_line(&all[i])
        invariant
            i <= all.len(),
            views(all@) == ls,
            first_total_line(ls) == first_total_line(ls.skip(i as int)),
        decreases all.len() - i,
    {
        assert(ls[i as int] == all@[i as int]@);
        assert(ls.skip(i as int).drop_first() =~= ls.skip(i + 1));
        i += 1;
    }
    if i == all.len() {
        assert(ls.skip(i as int).len() == 0);
        return None;
    }
    assert(ls[i as int] == all@[i as int]@);
    assert(ls.skip(i as int)[0] == ls[i as int]);
    let w = split_words(&all[i]);
    if w.len() <= 4 {
        return None;
    }
    assert(views(w@)[4] == w@[4]@);
    assert(w@[4]@.skip(0) =~= w@[4]@);
    Some(string_from_chars(&w[4], 0))
}

/// The unit of a size that `vmmap` prints.
#[derive(Clone, Copy, Debug, PartialEq, Eq, Structural)]
pub enum SizeUnit {
    Bytes,
    Kilobytes,
    Megabytes,
    Gigabytes,
}

/// The unit that `u` names: `B`, `K`, `M` or `G`.
pub open spec fn size_unit(u: Seq<char>) -> Option<SizeUnit> {
    if u == seq!['B'] {
        Some(SizeUnit::Bytes)
    } else if u == seq!['K'] {
        Some(SizeUnit::Kilobytes)
    } else if u == seq!['M'] {
        Some(SizeUnit::Megabytes)
    } else if u == seq!['G'] {
        Some(SizeUnit::Gigabytes)
    } else {
        None
    }
}

/// A size as `vmmap` prints it: a decimal number (digits with at most one
/// point), then its unit. Gives the number's text and the unit.
pub open spec fn vmmap_size(value: Seq<char>) -> Option<(Seq<char>, SizeUnit)> {
    let n = amount_end(value);
    match (amount_value(value.take(n)), size_unit(value.skip(n))) {
        (Some(_), Some(unit)) => Some((value.take(n), unit)),
        _ => None,
    }
}

/// Splits a size that `vmmap` printed into its number and its unit.
pub fn parse_vmmap_size(value: &str) -> (r: Option<(String, SizeUnit)>)
    ensures
        match vmmap_size(value@) {
            None => r is None,
            Some((amount, unit)) => r matches Some((a, u)) && a@ == amount && u == unit,
        },
{
    let v = chars_of(value);
    let n = find_amount_end(&v);
    if amount_digits(&v, n).is_none() {
        return None;
    }
    let ghost rest = v@.skip(n as int);
    assert(seq!['B'].len() == 1 && seq!['K'].len() == 1 && seq!['M'].len() == 1 && seq!['G'].len() == 1);
    assert(seq!['B'][0] == 'B' && seq!['K'][0] == 'K' && seq!['M'][0] == 'M' && seq!['G'][0] == 'G');
    let unit = if v.len() - n != 1 {
        assert(rest.len() != 1);
        None
    } else {
        let c = v[n];
        assert(rest =~= seq![c]);
        if c == 'B' {
            Some(SizeUnit::Bytes)
        } else if c == 'K' {
            Some(SizeUnit::Kilobytes)
        } else if c == 'M' {
            Some(SizeUnit::Megabytes)
        } else if c == 'G' {
            Some(SizeUnit::Gigabytes)
        } else {
            None
        }
    };
    assert(unit == size_unit(rest));
    match unit {
        None => None,
        Some(u) => {
            let mut text = String::new();
            let mut i: usize = 0;
            while i < n
                invariant
                    i <= n <= v.len(),
                    text@ == v@.take(i as int),
                decreases n - i,
            {
                push_char(&mut text, v[i]);
                assert(v@.take(i + 1) =~= v@.take(i as int).push(v@[i as int]));
                i += 1;
            }
            Some((text, u))
        },
    }
}

} // verus!
