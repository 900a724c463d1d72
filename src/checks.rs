//! Passes that check a recipe and turn it into a backward tree.

use vstd::prelude::*;
use std::collections::BTreeSet;
use crate::types::{
    ingredients_text, input_text, name_text, step_text, Action, ActionStep, ActionV,
    IngredientRef, Input, InputV, Recipe, RuleV, State, StepV, Symbol,
};

verus! {

broadcast use vstd::laws_cmp::group_laws_cmp;

/// One contiguous segment of a rule's chain: from the rule's start or a
/// join point, through some steps, to a join point or the sink.
#[derive(Debug)]
pub struct Path {
    pub actions: Vec<ActionStep>,
    pub start: Input,
}

/// The model of a `Path`.
pub struct PathV {
    pub actions: Seq<StepV>,
    pub start: InputV,
}

impl View for Path {
    type V = PathV;

    open spec fn view(&self) -> PathV {
        PathV { actions: self.actions@.map_values(|a: ActionStep| a@), start: self.start@ }
    }
}

/// The paths that end at one join point; the key `None` is the sink.
#[derive(Debug)]
pub struct Entry {
    pub key: Option<Symbol>,
    pub paths: Vec<Path>,
}

/// The model of an `Entry`: its key and its paths in the order they were met.
pub type EntryV = (Option<Symbol>, Seq<PathV>);

impl View for Entry {
    type V = EntryV;

    open spec fn view(&self) -> EntryV {
        (self.key, self.paths@.map_values(|p: Path| p@))
    }
}

/// An invariant failure that keeps a recipe from being drawn.
#[derive(Debug)]
pub enum Problem {
    /// No chain reaches the `<>` sink.
    NoDone,
    /// A chain ends in steps that reach neither a join point nor the sink;
    /// it holds those steps and the start of the segment.
    DanglingSteps(Vec<ActionStep>, Input),
    /// The join point was met twice while walking back from the sink.
    HasCycle(Symbol),
}

/// The model of a `Problem`.
pub enum ProblemV {
    NoDone,
    DanglingSteps(Seq<StepV>, InputV),
    HasCycle(Symbol),
}

impl View for Problem {
    type V = ProblemV;

    open spec fn view(&self) -> ProblemV {
        match self {
            Problem::NoDone => ProblemV::NoDone,
            Problem::DanglingSteps(a, s) => ProblemV::DanglingSteps(
                a@.map_values(|x: ActionStep| x@),
                s@,
            ),
            Problem::HasCycle(p) => ProblemV::HasCycle(*p),
        }
    }
}

pub open spec fn entries_view(v: Seq<Entry>) -> Seq<EntryV> {
    v.map_values(|e: Entry| e@)
}

pub open spec fn problems_view(v: Seq<Problem>) -> Seq<ProblemV> {
    v.map_values(|p: Problem| p@)
}

/// The position of the entry with key `k`, or the length when there is none.
pub open spec fn key_index(m: Seq<EntryV>, k: Option<Symbol>) -> int
    decreases m.len(),
{
    if m.len() == 0 {
        0
    } else if m[0].0 == k {
        0
    } else {
        1 + key_index(m.drop_first(), k)
    }
}

/// The paths that end at `k`, empty when none does.
pub open spec fn lookup(m: Seq<EntryV>, k: Option<Symbol>) -> Seq<PathV> {
    let i = key_index(m, k);
    if i < m.len() {
        m[i].1
    } else {
        Seq::empty()
    }
}

/// `m` with `p` appended to the paths of `k`, which is added at the end
/// if it was not there.
pub open spec fn add_path(m: Seq<EntryV>, k: Option<Symbol>, p: PathV) -> Seq<EntryV> {
    let i = key_index(m, k);
    if i < m.len() {
        m.update(i, (k, m[i].1.push(p)))
    } else {
        m.push((k, seq![p]))
    }
}

/// Walks the rest of one rule's actions: `start` and `pending` are the
/// segment read so far. Gives the new map and the problem of a chain that
/// ends in steps.
pub open spec fn walk(m: Seq<EntryV>, start: InputV, pending: Seq<StepV>, acts: Seq<ActionV>) -> (
    Seq<EntryV>,
    Option<ProblemV>,
)
    decreases acts.len(),
{
    if acts.len() == 0 {
        if pending.len() > 0 {
            (m, Some(ProblemV::DanglingSteps(pending, start)))
        } else {
            (m, None)
        }
    } else {
        match acts[0] {
            ActionV::Step(s) => walk(m, start, pending.push(s), acts.drop_first()),
            ActionV::Join(pt) => walk(
                add_path(m, Some(pt.value), PathV { actions: pending, start }),
                InputV::Join(pt),
                Seq::empty(),
                acts.drop_first(),
            ),
            ActionV::Done => (add_path(m, None, PathV { actions: pending, start }), None),
        }
    }
}

/// The map and the chain problems of a list of rules, read in order.
pub open spec fn scan(rules: Seq<RuleV>) -> (Seq<EntryV>, Seq<ProblemV>)
    decreases rules.len(),
{
    if rules.len() == 0 {
        (Seq::empty(), Seq::empty())
    } else {
        let (m, ps) = scan(rules.drop_last());
        let (m2, p) = walk(m, rules.last().input, Seq::empty(), rules.last().actions);
        match p {
            Some(x) => (m2, ps.push(x)),
            None => (m2, ps),
        }
    }
}

/// The join points that the paths start from, in order.
pub open spec fn refs(ps: Seq<PathV>) -> Seq<Symbol>
    decreases ps.len(),
{
    if ps.len() == 0 {
        Seq::empty()
    } else {
        let r = refs(ps.drop_last());
        match ps.last().start {
            InputV::Join(pt) => r.push(pt.value),
            InputV::Ingredients(_) => r,
        }
    }
}

/// Join point `a` feeds a path that ends at join point `b`.
pub open spec fn feeds(m: Seq<EntryV>, a: Symbol, b: Symbol) -> bool {
    refs(lookup(m, Some(b))).contains(a)
}

/// `c` is a walk back from the sink: its first join point feeds the sink,
/// and each next one feeds the one before.
pub open spec fn sink_walk(m: Seq<EntryV>, c: Seq<Symbol>) -> bool {
    &&& c.len() > 0
    &&& refs(lookup(m, None)).contains(c[0])
    &&& forall|i: int| 0 <= i < c.len() - 1 ==> feeds(m, #[trigger] c[i + 1], c[i])
}

/// Some walk back from the sink meets a join point twice.
pub open spec fn has_cycle(m: Seq<EntryV>) -> bool {
    exists|c: Seq<Symbol>, i: int, j: int|
        sink_walk(m, c) && 0 <= i < j < c.len() && #[trigger] c[i] == #[trigger] c[j]
}

/// Every join point that some path starts from, over the whole map.
pub open spec fn all_refs(m: Seq<EntryV>) -> Seq<Symbol>
    decreases m.len(),
{
    if m.len() == 0 {
        Seq::empty()
    } else {
        all_refs(m.drop_last()) + refs(m.last().1)
    }
}

/// No two entries have the same key.
pub open spec fn keys_unique(m: Seq<EntryV>) -> bool {
    forall|i: int, j: int| 0 <= i < j < m.len() ==> m[i].0 != m[j].0
}

/// The sink has at least one path.
pub open spec fn has_sink(m: Seq<EntryV>) -> bool {
    key_index(m, None) < m.len()
}

/// A recipe re-expressed as a tree rooted at the sink. Join points are
/// gone: each one is replaced by the paths that lead into it.
#[derive(Debug)]
pub struct BackwardTree {
    pub actions: Vec<ActionStep>,
    pub paths: Vec<BackwardTree>,
    pub ingredients: Vec<IngredientRef>,
    pub size: usize,
    pub max_depth: usize,
}

/// The model of a `BackwardTree`.
pub struct TreeV {
    pub actions: Seq<StepV>,
    pub children: Seq<TreeV>,
    pub ingredients: Seq<IngredientRef>,
    pub size: nat,
    pub max_depth: nat,
}

pub open spec fn tree_view(t: BackwardTree) -> TreeV
    decreases t,
{
    TreeV {
        actions: t.actions@.map_values(|a: ActionStep| a@),
        children: Seq::new(
            t.paths@.len(),
            |i: int|
                if 0 <= i < t.paths@.len() {
                    tree_view(t.paths@[i])
                } else {
                    arbitrary()
                },
        ),
        ingredients: t.ingredients@,
        size: t.size as nat,
        max_depth: t.max_depth as nat,
    }
}

/// A map from join points to the paths that lead to them, with the problems
/// found in it.
#[derive(Debug)]
pub struct Analysis {
    map: Vec<Entry>,
    problems: Vec<Problem>,
}

proof fn lemma_key_index_bound(m: Seq<EntryV>, k: Option<Symbol>)
    ensures
        0 <= key_index(m, k) <= m.len(),
        key_index(m, k) < m.len() ==> m[key_index(m, k)].0 == k,
        forall|j: int| 0 <= j < key_index(m, k) ==> m[j].0 != k,
    decreases m.len(),
{
    if m.len() > 0 && m[0].0 != k {
        lemma_key_index_bound(m.drop_first(), k);
        assert forall|j: int| 0 <= j < key_index(m, k) implies m[j].0 != k by {
            if j > 0 {
                assert(m[j] == m.drop_first()[j - 1]);
            }
        }
    }
}

proof fn lemma_key_index_at(m: Seq<EntryV>, k: Option<Symbol>, i: int)
    requires
        0 <= i <= m.len(),
        i < m.len() ==> m[i].0 == k,
        forall|j: int| 0 <= j < i ==> m[j].0 != k,
    ensures
        key_index(m, k) == i,
    decreases m.len(),
{
    if m.len() > 0 && i > 0 {
        assert forall|j: int| 0 <= j < i - 1 implies m.drop_first()[j].0 != k by {
            assert(m[j + 1].0 != k);
        }
        lemma_key_index_at(m.drop_first(), k, i - 1);
    }
}

fn same_key(a: Option<Symbol>, b: Option<Symbol>) -> (r: bool)
    ensures
        r == (a == b),
{
    match (a, b) {
        (None, None) => true,
        (Some(x), Some(y)) => x == y,
        _ => false,
    }
}

/// The position of the entry of `key`, or the length of `map` if it has none.
fn key_position(map: &Vec<Entry>, key: Option<Symbol>) -> (r: usize)
    ensures
        r == key_index(entries_view(map@), key),
{
    let mut i: usize = 0;
    while i < map.len()
        invariant
            0 <= i <= map.len(),
            forall|j: int| 0 <= j < i ==> entries_view(map@)[j].0 != key,
        decreases map.len() - i,
    {
        if same_key(map[i].key, key) {
            proof {
                lemma_key_index_at(entries_view(map@), key, i as int);
            }
            return i;
        }
        i += 1;
    }
    proof {
        lemma_key_index_at(entries_view(map@), key, i as int);
    }
    i
}

impl Analysis {
    /// The entries of the map, in the order their keys were first met.
    pub closed spec fn entries(&self) -> Seq<EntryV> {
        entries_view(self.map@)
    }

    /// The problems found, in the order they were found.
    pub closed spec fn problem_list(&self) -> Seq<ProblemV> {
        problems_view(self.problems@)
    }

    /// Add a path that leads to a join point, or to the sink for `None`.
    fn add(&mut self, key: Option<Symbol>, value: Path)
        ensures
            final(self).entries() == add_path(old(self).entries(), key, value@),
            final(self).problem_list() == old(self).problem_list(),
            keys_unique(old(self).entries()) ==> keys_unique(final(self).entries()),
    {
        let ghost pv = value@;
        let i = key_position(&self.map, key);
        proof {
            lemma_key_index_bound(self.entries(), key);
        }
        if i < self.map.len() {
            let mut e = self.map.remove(i);
            e.paths.push(value);
            self.map.insert(i, e);
            proof {
                assert(e@ == (key, old(self).entries()[i as int].1.push(pv))) by {
                    assert(e@.1 =~= old(self).entries()[i as int].1.push(pv));
                }
                assert(self.entries() =~= old(self).entries().update(i as int, e@));
            }
        } else {
            let mut paths = Vec::new();
            paths.push(value);
            let e = Entry { key, paths };
            self.map.push(e);
            proof {
                assert(e@.1 =~= seq![pv]);
                assert(self.entries() =~= old(self).entries().push(e@));
                let m0 = old(self).entries();
                if keys_unique(m0) {
                    assert forall|a: int, b: int|
                        0 <= a < b < self.entries().len() implies self.entries()[a].0
                        != self.entries()[b].0 by {
                        if b == m0.len() {
                            assert(self.entries()[a] == m0[a]);
                        } else {
                            assert(self.entries()[a] == m0[a] && self.entries()[b] == m0[b]);
                        }
                    }
                }
            }
        }
    }
}

proof fn lemma_refs_index(m: Seq<EntryV>, i: int)
    requires
        0 <= i < m.len(),
    ensures
        forall|x: Symbol| refs(m[i].1).contains(x) ==> all_refs(m).contains(x),
    decreases m.len(),
{
    if i == m.len() - 1 {
        assert forall|x: Symbol| refs(m[i].1).contains(x) implies all_refs(m).contains(x) by {
            let k = choose|k: int| 0 <= k < refs(m[i].1).len() && refs(m[i].1)[k] == x;
            let pre = all_refs(m.drop_last());
            assert((pre + refs(m[i].1))[pre.len() + k] == x);
        }
    } else {
        lemma_refs_index(m.drop_last(), i);
        assert(m.drop_last()[i] == m[i]);
        assert forall|x: Symbol| refs(m[i].1).contains(x) implies all_refs(m).contains(x) by {
            let pre = all_refs(m.drop_last());
            assert(refs(m.drop_last()[i].1).contains(x));
            assert(pre.contains(x));
            let k = choose|k: int| 0 <= k < pre.len() && pre[k] == x;
            assert((pre + refs(m.last().1))[k] == x);
        }
    }
}

proof fn lemma_lookup_in_all(m: Seq<EntryV>, k: Option<Symbol>)
    ensures
        forall|x: Symbol| refs(lookup(m, k)).contains(x) ==> all_refs(m).contains(x),
{
    lemma_key_index_bound(m, k);
    if key_index(m, k) < m.len() {
        lemma_refs_index(m, key_index(m, k));
    } else {
        assert(refs(Seq::<PathV>::empty()) =~= Seq::<Symbol>::empty());
    }
}

/// Appends the join points that the paths start from.
fn push_refs(paths: &Vec<Path>, frontier: &mut Vec<Symbol>)
    ensures
        final(frontier)@ == old(frontier)@ + refs(paths@.map_values(|p: Path| p@)),
{
    let ghost pv = paths@.map_values(|p: Path| p@);
    let mut i: usize = 0;
    while i < paths.len()
        invariant
            0 <= i <= paths.len(),
            pv == paths@.map_values(|p: Path| p@),
            frontier@ == old(frontier)@ + refs(pv.take(i as int)),
        decreases paths.len() - i,
    {
        proof {
            assert(pv.take(i + 1).drop_last() =~= pv.take(i as int));
            assert(pv.take(i + 1).last() == paths@[i as int]@);
        }
        match &paths[i].start {
            Input::Join { point } => {
                frontier.push(point.value);
            },
            Input::Ingredients { .. } => {},
        }
        proof {
            assert(frontier@ =~= old(frontier)@ + refs(pv.take(i + 1)));
        }
        i += 1;
    }
    proof {
        assert(pv.take(i as int) =~= pv);
    }
}

/// The join point that the `i`-th path into `k` starts from, if it starts
/// from one.
pub open spec fn next(m: Seq<EntryV>, k: Option<Symbol>, i: int) -> Option<Symbol> {
    let ps = lookup(m, k);
    if 0 <= i < ps.len() {
        match ps[i].start {
            InputV::Join(pt) => Some(pt.value),
            InputV::Ingredients(_) => None,
        }
    } else {
        None
    }
}

/// Where following the path choices `w` back from `k` leads.
pub open spec fn walk_end(m: Seq<EntryV>, k: Option<Symbol>, w: Seq<int>) -> Option<Symbol>
    decreases w.len(),
{
    if w.len() == 0 {
        k
    } else {
        match next(m, k, w[0]) {
            Some(x) => walk_end(m, Some(x), w.drop_first()),
            None => None,
        }
    }
}

/// `w` picks a path at each step back from the sink, and ends at join point
/// `x`.
pub open spec fn reaches(m: Seq<EntryV>, w: Seq<int>, x: Symbol) -> bool {
    w.len() > 0 && walk_end(m, None, w) == Some(x)
}

/// Two different walks back from the sink reach join point `x`.
pub open spec fn shared(m: Seq<EntryV>, x: Symbol) -> bool {
    exists|w1: Seq<int>, w2: Seq<int>| w1 != w2 && #[trigger] reaches(m, w1, x) && #[trigger] reaches(m, w2, x)
}

/// The join points reached back from the sink do not form a tree: some
/// join point is reached by two different walks, through a cycle or
/// because it feeds two paths.
pub open spec fn not_tree(m: Seq<EntryV>) -> bool {
    exists|x: Symbol| shared(m, x)
}

/// The positions of the paths that start from a join point, in order.
pub open spec fn ref_idx(ps: Seq<PathV>) -> Seq<int>
    decreases ps.len(),
{
    if ps.len() == 0 {
        Seq::empty()
    } else {
        let r = ref_idx(ps.drop_last());
        match ps.last().start {
            InputV::Join(_) => r.push(ps.len() - 1),
            InputV::Ingredients(_) => r,
        }
    }
}

/// The walks one step longer than `w`, through the paths at `ri`.
pub open spec fn kids(w: Seq<int>, ri: Seq<int>) -> Seq<Seq<int>> {
    ri.map_values(|i: int| w.push(i))
}

proof fn lemma_ref_idx(ps: Seq<PathV>)
    ensures
        ref_idx(ps).len() == refs(ps).len(),
        forall|j: int|
            0 <= j < ref_idx(ps).len() ==> 0 <= #[trigger] ref_idx(ps)[j] < ps.len() && ps[ref_idx(
                ps,
            )[j]].start is Join && ps[ref_idx(ps)[j]].start->Join_0.value == refs(ps)[j],
        forall|a: int, b: int| 0 <= a < b < ref_idx(ps).len() ==> ref_idx(ps)[a] < ref_idx(ps)[b],
        forall|i: int|
            0 <= i < ps.len() && (#[trigger] ps[i]).start is Join ==> ref_idx(ps).contains(i),
    decreases ps.len(),
{
    if ps.len() > 0 {
        let q = ps.drop_last();
        lemma_ref_idx(q);
        assert forall|i: int| 0 <= i < ps.len() && (#[trigger] ps[i]).start is Join implies ref_idx(
            ps,
        ).contains(i) by {
            if i < ps.len() - 1 {
                assert(q[i] == ps[i]);
                let j = choose|j: int| 0 <= j < ref_idx(q).len() && ref_idx(q)[j] == i;
                assert(ref_idx(ps)[j] == i);
            } else {
                assert(ref_idx(ps)[ref_idx(ps).len() - 1] == i);
            }
        }
        assert forall|j: int| 0 <= j < ref_idx(q).len() implies ps[ref_idx(q)[j]] == q[ref_idx(
            q,
        )[j]] by {}
    }
}

proof fn lemma_walk_push(m: Seq<EntryV>, k: Option<Symbol>, w: Seq<int>, i: int)
    requires
        w.len() > 0,
    ensures
        walk_end(m, k, w.push(i)) == match walk_end(m, k, w) {
            Some(x) => next(m, Some(x), i),
            None => None,
        },
    decreases w.len(),
{
    let v = w.push(i);
    assert(v[0] == w[0]);
    assert(v.drop_first() =~= w.drop_first().push(i));
    match next(m, k, w[0]) {
        Some(x) => {
            assert(walk_end(m, k, v) == walk_end(m, Some(x), v.drop_first()));
            assert(walk_end(m, k, w) == walk_end(m, Some(x), w.drop_first()));
            if w.len() == 1 {
                let v1 = seq![i];
                assert(w.drop_first() =~= Seq::<int>::empty());
                assert(walk_end(m, Some(x), w.drop_first()) == Some(x));
                assert(v.drop_first() =~= v1);
                assert(v1.drop_first() =~= Seq::<int>::empty());
                assert(v1[0] == i);
                match next(m, Some(x), i) {
                    Some(y) => {
                        assert(walk_end(m, Some(y), v1.drop_first()) == Some(y));
                    },
                    None => {},
                }
            } else {
                lemma_walk_push(m, Some(x), w.drop_first(), i);
            }
        },
        None => {},
    }
}

proof fn lemma_kid_reaches(m: Seq<EntryV>, w: Seq<int>, k: Option<Symbol>, i: int)
    requires
        w.len() == 0 ==> k is None,
        w.len() > 0 ==> k is Some && reaches(m, w, k->0),
        next(m, k, i) is Some,
    ensures
        reaches(m, w.push(i), next(m, k, i)->0),
{
    let v = w.push(i);
    if w.len() == 0 {
        assert(v =~= seq![i]);
        assert(v[0] == i);
        assert(v.drop_first() =~= Seq::<int>::empty());
        let y = next(m, k, i)->0;
        assert(walk_end(m, Some(y), v.drop_first()) == Some(y));
        assert(walk_end(m, None, v) == Some(y));
    } else {
        lemma_walk_push(m, None, w, i);
    }
}

/// The state of the depth-first search: the frontier with the walk that
/// reached each of its entries, and the join points already expanded, in
/// order, with their walks. Walks are never repeated, each walk longer than
/// one step comes from an expanded walk, and every step from an expanded
/// join point (or from the sink) is a walk already met.
pub open spec fn dfs_inv(
    m: Seq<EntryV>,
    fr: Seq<Symbol>,
    fw: Seq<Seq<int>>,
    ew: Seq<Seq<int>>,
    eo: Seq<Symbol>,
    seen: Set<Symbol>,
) -> bool {
    &&& fw.len() == fr.len()
    &&& forall|a: int| 0 <= a < fw.len() ==> reaches(m, #[trigger] fw[a], fr[a])
    &&& ew.len() == eo.len()
    &&& forall|b: int| 0 <= b < ew.len() ==> reaches(m, #[trigger] ew[b], eo[b])
    &&& eo.no_duplicates()
    &&& forall|x: Symbol| seen.contains(x) <==> eo.contains(x)
    &&& fw.no_duplicates()
    &&& ew.no_duplicates()
    &&& forall|a: int, b: int| 0 <= a < fw.len() && 0 <= b < ew.len() ==> fw[a] != ew[b]
    &&& forall|a: int| 0 <= a < fw.len() && (#[trigger] fw[a]).len() >= 2 ==> ew.contains(fw[a].drop_last())
    &&& forall|b: int| 0 <= b < ew.len() && (#[trigger] ew[b]).len() >= 2 ==> ew.contains(ew[b].drop_last())
    &&& forall|b: int, i: int|
        0 <= b < ew.len() && #[trigger] next(m, Some(eo[b]), i) is Some ==> fw.contains(
            #[trigger] ew[b].push(i),
        ) || ew.contains(ew[b].push(i))
    &&& forall|i: int|
        #[trigger] next(m, None, i) is Some ==> fw.contains(seq![i]) || ew.contains(seq![i])
}

proof fn lemma_kids(m: Seq<EntryV>, w: Seq<int>, k: Option<Symbol>)
    requires
        w.len() == 0 ==> k is None,
        w.len() > 0 ==> k is Some && reaches(m, w, k->0),
    ensures
        kids(w, ref_idx(lookup(m, k))).len() == refs(lookup(m, k)).len(),
        forall|j: int|
            0 <= j < kids(w, ref_idx(lookup(m, k))).len() ==> reaches(
                m,
                #[trigger] kids(w, ref_idx(lookup(m, k)))[j],
                refs(lookup(m, k))[j],
            ),
        forall|j: int|
            0 <= j < kids(w, ref_idx(lookup(m, k))).len() ==> (#[trigger] kids(
                w,
                ref_idx(lookup(m, k)),
            )[j]).drop_last() == w,
        kids(w, ref_idx(lookup(m, k))).no_duplicates(),
        forall|i: int| #[trigger] next(m, k, i) is Some ==> kids(w, ref_idx(lookup(m, k))).contains(w.push(i)),
{
    let ps = lookup(m, k);
    let ri = ref_idx(ps);
    let ks = kids(w, ri);
    lemma_ref_idx(ps);
    assert forall|j: int| 0 <= j < ks.len() implies reaches(m, #[trigger] ks[j], refs(ps)[j]) by {
        assert(next(m, k, ri[j]) == Some(refs(ps)[j]));
        lemma_kid_reaches(m, w, k, ri[j]);
    }
    assert forall|j: int| 0 <= j < ks.len() implies (#[trigger] ks[j]).drop_last() == w by {
        assert(ks[j].drop_last() =~= w);
    }
    assert forall|a: int, b: int| 0 <= a < ks.len() && 0 <= b < ks.len() && a != b implies ks[a]
        != ks[b] by {
        if a < b {
            assert(ks[a][w.len() as int] != ks[b][w.len() as int]);
        } else {
            assert(ks[a][w.len() as int] != ks[b][w.len() as int]);
        }
    }
    assert forall|i: int| #[trigger] next(m, k, i) is Some implies ks.contains(w.push(i)) by {
        assert(ps[i].start is Join);
        let j = choose|j: int| 0 <= j < ri.len() && ri[j] == i;
        assert(ks[j] == w.push(i));
    }
}

proof fn lemma_dfs_start(m: Seq<EntryV>)
    ensures
        dfs_inv(
            m,
            refs(lookup(m, None)),
            kids(Seq::empty(), ref_idx(lookup(m, None))),
            Seq::empty(),
            Seq::empty(),
            Set::empty(),
        ),
{
    let fw = kids(Seq::<int>::empty(), ref_idx(lookup(m, None)));
    lemma_kids(m, Seq::empty(), None);
    assert forall|a: int| 0 <= a < fw.len() && (#[trigger] fw[a]).len() >= 2 implies false by {
        assert(fw[a].len() == 1);
    }
    assert forall|i: int| #[trigger] next(m, None, i) is Some implies fw.contains(seq![i]) by {
        assert(Seq::<int>::empty().push(i) =~= seq![i]);
    }
}

/// A join point popped a second time is reached by two different walks.
proof fn lemma_dfs_repeat(
    m: Seq<EntryV>,
    fr: Seq<Symbol>,
    fw: Seq<Seq<int>>,
    ew: Seq<Seq<int>>,
    eo: Seq<Symbol>,
    seen: Set<Symbol>,
)
    requires
        dfs_inv(m, fr, fw, ew, eo, seen),
        fr.len() > 0,
        seen.contains(fr.last()),
    ensures
        shared(m, fr.last()),
{
    let x = fr.last();
    let a = fw.len() - 1;
    assert(eo.contains(x));
    let b = choose|b: int| 0 <= b < eo.len() && eo[b] == x;
    assert(reaches(m, fw[a], x));
    assert(reaches(m, ew[b], x));
    assert(fw[a] != ew[b]);
}

/// Expanding the last join point of the frontier keeps the search's state.
proof fn lemma_dfs_expand(
    m: Seq<EntryV>,
    fr: Seq<Symbol>,
    fw: Seq<Seq<int>>,
    ew: Seq<Seq<int>>,
    eo: Seq<Symbol>,
    seen: Set<Symbol>,
)
    requires
        dfs_inv(m, fr, fw, ew, eo, seen),
        fr.len() > 0,
        !seen.contains(fr.last()),
    ensures
        dfs_inv(
            m,
            fr.drop_last() + refs(lookup(m, Some(fr.last()))),
            fw.drop_last() + kids(fw.last(), ref_idx(lookup(m, Some(fr.last())))),
            ew.push(fw.last()),
            eo.push(fr.last()),
            seen.insert(fr.last()),
        ),
{
    let x = fr.last();
    let w = fw.last();
    let a0 = fw.len() - 1;
    assert(reaches(m, fw[a0], fr[a0]));
    let ks = kids(w, ref_idx(lookup(m, Some(x))));
    lemma_kids(m, w, Some(x));
    let f1 = fw.drop_last();
    let fw2 = f1 + ks;
    let fr2 = fr.drop_last() + refs(lookup(m, Some(x)));
    let ew2 = ew.push(w);
    let eo2 = eo.push(x);
    let seen2 = seen.insert(x);
    // no child of `w` was met before: `w` was never expanded
    assert forall|c: int| 0 <= c < ks.len() implies !fw.contains(#[trigger] ks[c]) && !ew.contains(ks[c]) by {
        if fw.contains(ks[c]) {
            let a = choose|a: int| 0 <= a < fw.len() && fw[a] == ks[c];
            assert(fw[a].len() >= 2);
            assert(ew.contains(w));
            let b = choose|b: int| 0 <= b < ew.len() && ew[b] == w;
            assert(fw[a0] != ew[b]);
        }
        if ew.contains(ks[c]) {
            let b1 = choose|b: int| 0 <= b < ew.len() && ew[b] == ks[c];
            assert(ew[b1].len() >= 2);
            assert(ew.contains(w));
            let b = choose|b: int| 0 <= b < ew.len() && ew[b] == w;
            assert(fw[a0] != ew[b]);
        }
    }
    assert forall|a: int| 0 <= a < fw2.len() implies reaches(m, #[trigger] fw2[a], fr2[a]) by {
        if a < f1.len() {
            assert(fw2[a] == fw[a]);
            assert(fr2[a] == fr[a]);
        } else {
            assert(fw2[a] == ks[a - f1.len()]);
            assert(fr2[a] == refs(lookup(m, Some(x)))[a - f1.len()]);
        }
    }
    assert forall|b: int| 0 <= b < ew2.len() implies reaches(m, #[trigger] ew2[b], eo2[b]) by {
        if b < ew.len() {
            assert(ew2[b] == ew[b]);
        }
    }
    assert(eo2.no_duplicates()) by {
        assert(!eo.contains(x));
        assert forall|i: int, j: int| 0 <= i < j < eo2.len() implies eo2[i] != eo2[j] by {
            if j == eo.len() {
                assert(eo2[i] == eo[i]);
            }
        }
    }
    assert forall|y: Symbol| seen2.contains(y) <==> eo2.contains(y) by {
        if eo2.contains(y) {
            let j = choose|j: int| 0 <= j < eo2.len() && eo2[j] == y;
            if j < eo.len() {
                assert(eo[j] == y);
            }
        }
        if seen.contains(y) {
            let j = choose|j: int| 0 <= j < eo.len() && eo[j] == y;
            assert(eo2[j] == y);
        }
        if y == x {
            assert(eo2[eo.len() as int] == x);
        }
    }
    assert(fw2.no_duplicates()) by {
        assert forall|i: int, j: int| 0 <= i < j < fw2.len() implies fw2[i] != fw2[j] by {
            if j < f1.len() {
                assert(fw2[i] == fw[i] && fw2[j] == fw[j]);
            } else if i < f1.len() {
                assert(fw2[i] == fw[i]);
                assert(fw2[j] == ks[j - f1.len()]);
                assert(fw.contains(fw[i]));
            } else {
                assert(fw2[i] == ks[i - f1.len()] && fw2[j] == ks[j - f1.len()]);
            }
        }
    }
    assert(ew2.no_duplicates()) by {
        assert forall|i: int, j: int| 0 <= i < j < ew2.len() implies ew2[i] != ew2[j] by {
            if j == ew.len() {
                assert(ew2[i] == ew[i]);
                assert(fw[a0] != ew[i]);
            } else {
                assert(ew2[i] == ew[i] && ew2[j] == ew[j]);
            }
        }
    }
    assert forall|a: int, b: int| 0 <= a < fw2.len() && 0 <= b < ew2.len() implies fw2[a] != ew2[b] by {
        if a < f1.len() {
            assert(fw2[a] == fw[a]);
            if b < ew.len() {
                assert(ew2[b] == ew[b]);
            } else {
                assert(ew2[b] == fw[a0]);
            }
        } else {
            assert(fw2[a] == ks[a - f1.len()]);
            if b < ew.len() {
                assert(ew2[b] == ew[b]);
                assert(ew.contains(ew[b]));
            } else {
                assert(ew2[b] == w);
                assert(ks[a - f1.len()].len() == w.len() + 1);
            }
        }
    }
    assert forall|a: int| 0 <= a < fw2.len() && (#[trigger] fw2[a]).len() >= 2 implies ew2.contains(
        fw2[a].drop_last(),
    ) by {
        if a < f1.len() {
            assert(fw2[a] == fw[a]);
            let b = choose|b: int| 0 <= b < ew.len() && ew[b] == fw[a].drop_last();
            assert(ew2[b] == ew[b]);
        } else {
            assert(fw2[a] == ks[a - f1.len()]);
            assert(ew2[ew.len() as int] == w);
        }
    }
    assert forall|b: int| 0 <= b < ew2.len() && (#[trigger] ew2[b]).len() >= 2 implies ew2.contains(
        ew2[b].drop_last(),
    ) by {
        if b < ew.len() {
            assert(ew2[b] == ew[b]);
            let c = choose|c: int| 0 <= c < ew.len() && ew[c] == ew[b].drop_last();
            assert(ew2[c] == ew[c]);
        } else {
            assert(ew2[b] == fw[a0]);
            let c = choose|c: int| 0 <= c < ew.len() && ew[c] == fw[a0].drop_last();
            assert(ew2[c] == ew[c]);
        }
    }
    assert forall|b: int, i: int|
        0 <= b < ew2.len() && #[trigger] next(m, Some(eo2[b]), i) is Some implies fw2.contains(
        #[trigger] ew2[b].push(i),
    ) || ew2.contains(ew2[b].push(i)) by {
        if b < ew.len() {
            assert(ew2[b] == ew[b] && eo2[b] == eo[b]);
            let v = ew[b].push(i);
            if fw.contains(v) {
                let a = choose|a: int| 0 <= a < fw.len() && fw[a] == v;
                if a == a0 {
                    assert(ew2[ew.len() as int] == v);
                } else {
                    assert(fw2[a] == fw[a]);
                }
            } else {
                let c = choose|c: int| 0 <= c < ew.len() && ew[c] == v;
                assert(ew2[c] == ew[c]);
            }
        } else {
            assert(ew2[b] == w && eo2[b] == x);
            let c = choose|c: int| 0 <= c < ks.len() && ks[c] == w.push(i);
            assert(fw2[f1.len() + c] == ks[c]);
        }
    }
    assert forall|i: int| #[trigger] next(m, None, i) is Some implies fw2.contains(seq![i])
        || ew2.contains(seq![i]) by {
        let v = seq![i];
        if fw.contains(v) {
            let a = choose|a: int| 0 <= a < fw.len() && fw[a] == v;
            if a == a0 {
                assert(ew2[ew.len() as int] == v);
            } else {
                assert(fw2[a] == fw[a]);
            }
        } else {
            let c = choose|c: int| 0 <= c < ew.len() && ew[c] == v;
            assert(ew2[c] == ew[c]);
        }
    }
}

proof fn lemma_walk_prefix(m: Seq<EntryV>, w: Seq<int>, x: Symbol)
    requires
        reaches(m, w, x),
        w.len() >= 2,
    ensures
        exists|y: Symbol| reaches(m, w.drop_last(), y) && next(m, Some(y), w.last()) == Some(x),
{
    let u = w.drop_last();
    assert(u.push(w.last()) =~= w);
    lemma_walk_push(m, None, u, w.last());
    let y = walk_end(m, None, u)->0;
    assert(reaches(m, u, y));
}

proof fn lemma_walk_met(m: Seq<EntryV>, ew: Seq<Seq<int>>, eo: Seq<Symbol>, w: Seq<int>, x: Symbol)
    requires
        dfs_inv(m, Seq::empty(), Seq::empty(), ew, eo, eo.to_set()),
        reaches(m, w, x),
    ensures
        ew.contains(w),
    decreases w.len(),
{
    if w.len() == 1 {
        assert(w =~= seq![w[0]]);
        assert(w.drop_first() =~= Seq::<int>::empty());
        match next(m, None, w[0]) {
            Some(y) => {
                assert(walk_end(m, Some(y), w.drop_first()) == Some(y));
            },
            None => {},
        }
        assert(next(m, None, w[0]) == Some(x));
    } else {
        lemma_walk_prefix(m, w, x);
        let y = choose|y: Symbol| reaches(m, w.drop_last(), y) && next(m, Some(y), w.last()) == Some(x);
        lemma_walk_met(m, ew, eo, w.drop_last(), y);
        let b = choose|b: int| 0 <= b < ew.len() && ew[b] == w.drop_last();
        assert(reaches(m, ew[b], eo[b]));
        assert(eo[b] == y);
        assert(ew[b].push(w.last()) =~= w);
        assert(next(m, Some(eo[b]), w.last()) is Some);
    }
}

/// When the frontier runs out, every walk back from the sink was expanded
/// once, and the expanded join points are all different: no join point is
/// reached twice.
proof fn lemma_dfs_done(m: Seq<EntryV>, ew: Seq<Seq<int>>, eo: Seq<Symbol>, seen: Set<Symbol>)
    requires
        dfs_inv(m, Seq::empty(), Seq::empty(), ew, eo, seen),
    ensures
        !not_tree(m),
{
    assert(seen =~= eo.to_set());
    if not_tree(m) {
        let x = choose|x: Symbol| shared(m, x);
        let (w1, w2) = choose|w1: Seq<int>, w2: Seq<int>| w1 != w2 && #[trigger] reaches(m, w1, x) && #[trigger] reaches(m, w2, x);
        lemma_walk_met(m, ew, eo, w1, x);
        lemma_walk_met(m, ew, eo, w2, x);
        let b1 = choose|b: int| 0 <= b < ew.len() && ew[b] == w1;
        let b2 = choose|b: int| 0 <= b < ew.len() && ew[b] == w2;
        assert(reaches(m, ew[b1], eo[b1]));
        assert(reaches(m, ew[b2], eo[b2]));
        assert(eo[b1] == eo[b2]);
    }
}

/// A walk back from the sink that repeats a join point gives two different
/// walks to it.
proof fn lemma_cycle_not_tree(m: Seq<EntryV>)
    requires
        has_cycle(m),
    ensures
        not_tree(m),
{
    let (c, i, j) = choose|c: Seq<Symbol>, i: int, j: int|
        sink_walk(m, c) && 0 <= i < j < c.len() && #[trigger] c[i] == #[trigger] c[j];
    let w = lemma_chain_walk(m, c, j);
    assert(reaches(m, w.take(i + 1), c[i]));
    assert(w.take(i + 1) != w) by {
        assert(w.take(i + 1).len() != w.len());
    }
    assert(w.take(j + 1) =~= w);
    assert(reaches(m, w.take(j + 1), c[j]));
    assert(reaches(m, w, c[i]));
    assert(shared(m, c[i]));
}

proof fn lemma_chain_walk(m: Seq<EntryV>, c: Seq<Symbol>, j: int) -> (w: Seq<int>)
    requires
        sink_walk(m, c),
        0 <= j < c.len(),
    ensures
        w.len() == j + 1,
        forall|k: int| 0 <= k <= j ==> reaches(m, #[trigger] w.take(k + 1), c[k]),
    decreases j,
{
    if j == 0 {
        let ps = lookup(m, None);
        lemma_ref_idx(ps);
        let t = choose|t: int| 0 <= t < refs(ps).len() && refs(ps)[t] == c[0];
        let w = Seq::<int>::empty().push(ref_idx(ps)[t]);
        assert(next(m, None, ref_idx(ps)[t]) == Some(c[0]));
        lemma_kid_reaches(m, Seq::empty(), None, ref_idx(ps)[t]);
        assert(w.take(1) =~= w);
        w
    } else {
        let u = lemma_chain_walk(m, c, j - 1);
        assert(feeds(m, c[j - 1 + 1], c[j - 1]));
        let ps = lookup(m, Some(c[j - 1]));
        lemma_ref_idx(ps);
        let t = choose|t: int| 0 <= t < refs(ps).len() && refs(ps)[t] == c[j];
        let i = ref_idx(ps)[t];
        let w = u.push(i);
        assert forall|k: int| 0 <= k <= j implies reaches(m, #[trigger] w.take(k + 1), c[k]) by {
            if k < j {
                assert(w.take(k + 1) =~= u.take(k + 1));
            } else {
                assert(w.take(k + 1) =~= w);
                assert(u.take(j) =~= u);
                lemma_walk_push(m, None, u, i);
            }
        }
        w
    }
}

/// What the cycle search adds to the problems of map `m`: one `HasCycle`
/// exactly when two different walks back from the sink reach the same join
/// point, naming such a join point; nothing otherwise.
pub open spec fn cycle_report(m: Seq<EntryV>, extra: Seq<ProblemV>) -> bool {
    &&& extra.len() <= 1
    &&& extra.len() == 1 <==> not_tree(m)
    &&& extra.len() == 1 ==> extra[0] is HasCycle && shared(m, extra[0]->HasCycle_0)
}

impl Analysis {
    /// Walks back from the sink through the join points, depth first, and
    /// reports the first join point that it meets twice.
    fn find_cycles(&mut self)
        requires
            has_sink(old(self).entries()),
        ensures
            final(self).entries() == old(self).entries(),
            final(self).problem_list().len() >= old(self).problem_list().len(),
            final(self).problem_list().take(old(self).problem_list().len() as int)
                == old(self).problem_list(),
            cycle_report(
                old(self).entries(),
                final(self).problem_list().skip(old(self).problem_list().len() as int),
            ),
    {
        let ghost m = self.entries();
        let ghost u = all_refs(m).to_set();
        proof {
            vstd::seq_lib::seq_to_set_is_finite(all_refs(m));
            lemma_lookup_in_all(m, None);
            lemma_dfs_start(m);
        }
        let mut frontier: Vec<Symbol> = Vec::new();
        let mut seen: BTreeSet<Symbol> = BTreeSet::new();
        let si = key_position(&self.map, None);
        proof {
            lemma_key_index_bound(m, None);
            assert(self.map@[si as int].paths@.map_values(|p: Path| p@) == lookup(m, None));
        }
        push_refs(&self.map[si].paths, &mut frontier);
        let ghost mut fw: Seq<Seq<int>> = kids(Seq::empty(), ref_idx(lookup(m, None)));
        let ghost mut ew: Seq<Seq<int>> = Seq::empty();
        let ghost mut eo: Seq<Symbol> = Seq::empty();
        proof {
            assert(frontier@ =~= refs(lookup(m, None)));
            assert(seen@ =~= Set::<Symbol>::empty());
            assert forall|x: Symbol| frontier@.contains(x) implies u.contains(x) by {
                let k = choose|k: int| 0 <= k < frontier@.len() && frontier@[k] == x;
                assert(refs(lookup(m, None))[k] == x);
            }
        }
        let mut reported = false;
        while !reported && frontier.len() > 0
            invariant
                m == self.entries(),
                u == all_refs(m).to_set(),
                u.finite(),
                seen@.subset_of(u),
                forall|x: Symbol| frontier@.contains(x) ==> u.contains(x),
                !reported ==> self.problem_list() == old(self).problem_list(),
                !reported ==> dfs_inv(m, frontier@, fw, ew, eo, seen@),
                reported ==> exists|x: Symbol|
                    self.problem_list() == old(self).problem_list().push(ProblemV::HasCycle(x))
                        && shared(m, x),
                reported ==> not_tree(m),
            decreases u.len() - seen@.len(), if reported { 0int } else { 1int },
        {
            proof {
                vstd::set_lib::lemma_len_subset(seen@, u);
            }
            let ghost old_frontier = frontier@;
            let ghost old_seen = seen@;
            let elem = frontier.pop().unwrap();
            proof {
                assert(old_frontier.last() == elem);
                assert(old_frontier.contains(elem));
                assert(frontier@ =~= old_frontier.drop_last());
                assert forall|x: Symbol| frontier@.contains(x) implies u.contains(x) by {
                    let k = choose|k: int| 0 <= k < frontier@.len() && frontier@[k] == x;
                    assert(old_frontier[k] == x);
                }
            }
            if seen.contains(&elem) {
                self.problems.push(Problem::HasCycle(elem));
                reported = true;
                proof {
                    lemma_dfs_repeat(m, old_frontier, fw, ew, eo, old_seen);
                    assert(self.problem_list() =~= old(self).problem_list().push(
                        ProblemV::HasCycle(elem),
                    ));
                }
            } else {
                seen.insert(elem);
                proof {
                    lemma_dfs_expand(m, old_frontier, fw, ew, eo, old_seen);
                    let w = fw.last();
                    fw = fw.drop_last() + kids(w, ref_idx(lookup(m, Some(elem))));
                    ew = ew.push(w);
                    eo = eo.push(elem);
                    assert(seen@ == old_seen.insert(elem));
                    assert(u.contains(elem));
                    assert(seen@.subset_of(u));
                    assert(seen@.len() == old_seen.len() + 1);
                    vstd::set_lib::lemma_len_subset(seen@, u);
                }
                let i = key_position(&self.map, Some(elem));
                proof {
                    lemma_key_index_bound(m, Some(elem));
                    lemma_lookup_in_all(m, Some(elem));
                }
                let ghost mid = frontier@;
                if i < self.map.len() {
                    proof {
                        assert(self.map@[i as int].paths@.map_values(|p: Path| p@) == lookup(
                            m,
                            Some(elem),
                        ));
                    }
                    push_refs(&self.map[i].paths, &mut frontier);
                } else {
                    proof {
                        assert(refs(lookup(m, Some(elem))) =~= Seq::<Symbol>::empty());
                        assert(frontier@ =~= mid + refs(lookup(m, Some(elem))));
                    }
                }
                proof {
                    let added = refs(lookup(m, Some(elem)));
                    assert(frontier@ == mid + added);
                    assert forall|x: Symbol| frontier@.contains(x) implies u.contains(x) by {
                        let k = choose|k: int| 0 <= k < frontier@.len() && frontier@[k] == x;
                        if k >= mid.len() {
                            assert(added[k - mid.len()] == x);
                        } else {
                            assert(mid[k] == x);
                        }
                    }
                }
            }
        }
        proof {
            if !reported {
                assert(frontier@ =~= Seq::<Symbol>::empty());
                assert(fw =~= Seq::<Seq<int>>::empty());
                lemma_dfs_done(m, ew, eo, seen@);
                assert(self.problem_list().skip(old(self).problem_list().len() as int) =~= Seq::<
                    ProblemV,
                >::empty());
            } else {
                let x = choose|x: Symbol|
                    self.problem_list() == old(self).problem_list().push(ProblemV::HasCycle(x))
                        && shared(m, x);
                assert(self.problem_list().skip(old(self).problem_list().len() as int) =~= seq![
                    ProblemV::HasCycle(x),
                ]);
            }
            assert(self.problem_list().take(old(self).problem_list().len() as int)
                =~= old(self).problem_list());
        }
    }
}

/// The analysis of a list of rules: the map and problems of the scan, then
/// `NoDone` when no path reaches the sink, or else what the cycle search
/// adds.
pub open spec fn analysis_of(rules: Seq<RuleV>, entries: Seq<EntryV>, problems: Seq<ProblemV>) -> bool {
    let (m, ps) = scan(rules);
    &&& entries == m
    &&& !has_sink(m) ==> problems == ps.push(ProblemV::NoDone)
    &&& has_sink(m) ==> problems.len() >= ps.len() && problems.take(ps.len() as int) == ps
        && cycle_report(m, problems.skip(ps.len() as int))
}

impl Analysis {
    /// Reads a recipe's rules into a map from join points to the paths that
    /// lead to them, and collects the problems found. This never fails: an
    /// analysis with problems cannot be turned into a tree.
    pub fn from_recipe(state: &State, recipe: &Recipe) -> (a: Self)
        requires
            state.holds_recipe(recipe),
        ensures
            analysis_of(state.recipe_rules(recipe), a.entries(), a.problem_list()),
            keys_unique(a.entries()),
    {
        let ghost rules = state.recipe_rules(recipe);
        let mut analysis = Analysis { map: Vec::new(), problems: Vec::new() };
        proof {
            assert(analysis.entries() =~= Seq::<EntryV>::empty());
            assert(analysis.problem_list() =~= Seq::<ProblemV>::empty());
            assert(rules.take(0) =~= Seq::<RuleV>::empty());
        }
        let mut k: usize = 0;
        while k < recipe.rules.len()
            invariant
                0 <= k <= recipe.rules.len(),
                state.holds_recipe(recipe),
                rules == state.recipe_rules(recipe),
                rules.len() == recipe.rules@.len(),
                (analysis.entries(), analysis.problem_list()) == scan(rules.take(k as int)),
                keys_unique(analysis.entries()),
            decreases recipe.rules.len() - k,
        {
            assert(state.has_rule(recipe.rules@[k as int]));
            let rule = state.rule(recipe.rules[k]);
            let ghost rv = rule@;
            let ghost acts = rv.actions;
            let ghost m0 = analysis.entries();
            let ghost probs_before = analysis.problem_list();
            let ghost w = walk(m0, rv.input, Seq::empty(), acts);
            proof {
                assert(rv == rules[k as int]);
                assert(rules.take(k + 1).drop_last() =~= rules.take(k as int));
                assert(rules.take(k + 1).last() == rules[k as int]);
                assert(acts.skip(0) =~= acts);
            }
            let mut actions: Vec<ActionStep> = Vec::new();
            let mut start = rule.input.clone();
            proof {
                assert(actions@.map_values(|a: ActionStep| a@) =~= Seq::<StepV>::empty());
            }
            let mut j: usize = 0;
            let mut done = false;
            while j < rule.actions.len() && !done
                invariant
                    0 <= j <= rule.actions.len(),
                    rv == rule@,
                    acts == rv.actions,
                    acts.len() == rule.actions@.len(),
                    w == walk(m0, rv.input, Seq::empty(), acts),
                    analysis.problem_list() == probs_before,
                    keys_unique(analysis.entries()),
                    !done ==> walk(
                        analysis.entries(),
                        start@,
                        actions@.map_values(|a: ActionStep| a@),
                        acts.skip(j as int),
                    ) == w,
                    done ==> analysis.entries() == w.0 && w.1 is None,
                decreases rule.actions.len() - j, if done { 0int } else { 1int },
            {
                proof {
                    assert(acts.skip(j as int)[0] == rule.actions@[j as int]@);
                    assert(acts.skip(j as int).drop_first() =~= acts.skip(j + 1));
                }
                match &rule.actions[j] {
                    Action::Action { step } => {
                        let ghost before = actions@.map_values(|a: ActionStep| a@);
                        actions.push(step.clone());
                        proof {
                            assert(actions@.map_values(|a: ActionStep| a@) =~= before.push(step@));
                        }
                    },
                    Action::Join { point } => {
                        analysis.add(Some(point.value), Path { actions, start });
                        actions = Vec::new();
                        start = Input::Join { point: *point };
                        proof {
                            assert(actions@.map_values(|a: ActionStep| a@) =~= Seq::<StepV>::empty());
                        }
                    },
                    Action::Done => {
                        analysis.add(None, Path { actions, start });
                        actions = Vec::new();
                        start = Input::Ingredients { list: Vec::new() };
                        done = true;
                    },
                }
                j += 1;
            }
            if !done {
                proof {
                    assert(acts.skip(j as int) =~= Seq::<ActionV>::empty());
                }
                if actions.len() > 0 {
                    analysis.problems.push(Problem::DanglingSteps(actions, start));
                    proof {
                        assert(analysis.problem_list() =~= probs_before.push(w.1->0));
                    }
                }
            }
            k += 1;
        }
        proof {
            assert(rules.take(k as int) =~= rules);
        }
        let si = key_position(&analysis.map, None);
        if si >= analysis.map.len() {
            analysis.problems.push(Problem::NoDone);
            proof {
                assert(analysis.problem_list() =~= scan(rules).1.push(ProblemV::NoDone));
            }
        } else {
            analysis.find_cycles();
        }
        analysis
    }
}

pub open spec fn trees_view(v: Seq<BackwardTree>) -> Seq<TreeV> {
    v.map_values(|c: BackwardTree| tree_view(c))
}

pub open spec fn seq_sum(s: Seq<nat>) -> nat
    decreases s.len(),
{
    if s.len() == 0 {
        0
    } else {
        s[0] + seq_sum(s.drop_first())
    }
}

pub open spec fn seq_max(s: Seq<nat>) -> nat
    decreases s.len(),
{
    if s.len() == 0 {
        0
    } else {
        let r = seq_max(s.drop_first());
        if s[0] >= r {
            s[0]
        } else {
            r
        }
    }
}

pub open spec fn sizes(ts: Seq<TreeV>) -> Seq<nat> {
    ts.map_values(|t: TreeV| t.size)
}

pub open spec fn depths(ts: Seq<TreeV>) -> Seq<nat> {
    ts.map_values(|t: TreeV| t.max_depth)
}

/// How many ingredients a path starts from.
pub open spec fn path_ingredients(p: PathV) -> nat {
    match p.start {
        InputV::Ingredients(l) => l.len(),
        InputV::Join(_) => 0,
    }
}

pub open spec fn paths_ingredients(ps: Seq<PathV>) -> nat {
    seq_sum(ps.map_values(|p: PathV| path_ingredients(p)))
}

pub open spec fn paths_steps(ps: Seq<PathV>) -> nat {
    seq_sum(ps.map_values(|p: PathV| p.actions.len()))
}

/// How many ingredients all the paths of the map start from.
pub open spec fn total_ingredients(m: Seq<EntryV>) -> nat {
    seq_sum(m.map_values(|e: EntryV| paths_ingredients(e.1)))
}

/// How many steps all the paths of the map hold.
pub open spec fn total_steps(m: Seq<EntryV>) -> nat {
    seq_sum(m.map_values(|e: EntryV| paths_steps(e.1)))
}

/// A tree node over `kids`: its size and depth follow from theirs.
pub open spec fn node(actions: Seq<StepV>, kids: Seq<TreeV>) -> TreeV {
    TreeV {
        actions,
        children: kids,
        ingredients: Seq::empty(),
        size: seq_sum(sizes(kids)),
        max_depth: actions.len() + seq_max(depths(kids)),
    }
}

/// Resolves one path against the map: a path from ingredients becomes a
/// leaf; a path from a join point takes that join point's paths out of the
/// map and resolves each of them into a child. Gives the node and what is
/// left of the map.
pub open spec fn resolve_path(m: Seq<EntryV>, p: PathV) -> (TreeV, Seq<EntryV>)
    decreases m.len(), 0nat,
{
    match p.start {
        InputV::Ingredients(l) => (
            TreeV {
                actions: p.actions,
                children: Seq::empty(),
                ingredients: l,
                size: l.len(),
                max_depth: p.actions.len(),
            },
            m,
        ),
        InputV::Join(pt) => {
            let i = key_index(m, Some(pt.value));
            if 0 <= i < m.len() {
                let (kids, m2) = resolve_all(m.remove(i), m[i].1);
                (node(p.actions, kids), m2)
            } else {
                (node(p.actions, Seq::empty()), m)
            }
        },
    }
}

/// Resolves paths one after the other, each against what the ones before
/// left of the map.
pub open spec fn resolve_all(m: Seq<EntryV>, ps: Seq<PathV>) -> (Seq<TreeV>, Seq<EntryV>)
    decreases m.len(), ps.len() + 1,
{
    if ps.len() == 0 {
        (Seq::empty(), m)
    } else {
        let (t, m1) = resolve_path(m, ps[0]);
        if m1.len() <= m.len() {
            let (ts, m2) = resolve_all(m1, ps.drop_first());
            (seq![t] + ts, m2)
        } else {
            (seq![t], m1)
        }
    }
}

/// The backward tree of a map: a root with no actions whose children are
/// the resolved paths that reach the sink.
pub open spec fn tree_of(m: Seq<EntryV>) -> TreeV {
    let i = key_index(m, None);
    if 0 <= i < m.len() {
        node(Seq::empty(), resolve_all(m.remove(i), m[i].1).0)
    } else {
        node(Seq::empty(), Seq::empty())
    }
}

/// The counts of the map fit in a `usize`, so every size and depth does.
pub open spec fn fits(m: Seq<EntryV>) -> bool {
    total_ingredients(m) <= usize::MAX && total_steps(m) <= usize::MAX
}

pub(crate) proof fn lemma_sum_push(s: Seq<nat>, x: nat)
    ensures
        seq_sum(s.push(x)) == seq_sum(s) + x,
        seq_max(s.push(x)) == if seq_max(s) >= x { seq_max(s) } else { x },
    decreases s.len(),
{
    if s.len() > 0 {
        assert(s.push(x).drop_first() =~= s.drop_first().push(x));
        assert(s.push(x)[0] == s[0]);
        lemma_sum_push(s.drop_first(), x);
    } else {
        assert(s.push(x).drop_first() =~= Seq::<nat>::empty());
        assert(s.push(x)[0] == x);
        assert(seq_sum(Seq::<nat>::empty()) == 0);
        assert(seq_max(Seq::<nat>::empty()) == 0);
    }
}

proof fn lemma_sum_remove(s: Seq<nat>, i: int)
    requires
        0 <= i < s.len(),
    ensures
        seq_sum(s) == seq_sum(s.remove(i)) + s[i],
    decreases s.len(),
{
    if i == 0 {
        assert(s.remove(0) =~= s.drop_first());
    } else {
        assert(s.remove(i).drop_first() =~= s.drop_first().remove(i - 1));
        lemma_sum_remove(s.drop_first(), i - 1);
    }
}

proof fn lemma_totals_remove(m: Seq<EntryV>, i: int)
    requires
        0 <= i < m.len(),
    ensures
        total_ingredients(m) == total_ingredients(m.remove(i)) + paths_ingredients(m[i].1),
        total_steps(m) == total_steps(m.remove(i)) + paths_steps(m[i].1),
{
    let f = |e: EntryV| paths_ingredients(e.1);
    let g = |e: EntryV| paths_steps(e.1);
    lemma_sum_remove(m.map_values(f), i);
    lemma_sum_remove(m.map_values(g), i);
    assert(m.map_values(f).remove(i) =~= m.remove(i).map_values(f));
    assert(m.map_values(g).remove(i) =~= m.remove(i).map_values(g));
}

proof fn lemma_resolve_path(m: Seq<EntryV>, p: PathV)
    ensures
        resolve_path(m, p).1.len() <= m.len(),
        resolve_path(m, p).0.size + total_ingredients(resolve_path(m, p).1) == path_ingredients(p)
            + total_ingredients(m),
        total_steps(resolve_path(m, p).1) <= total_steps(m),
        resolve_path(m, p).0.max_depth + total_steps(resolve_path(m, p).1) <= p.actions.len()
            + total_steps(m),
    decreases m.len(), 0nat,
{
    match p.start {
        InputV::Ingredients(l) => {},
        InputV::Join(pt) => {
            let i = key_index(m, Some(pt.value));
            if 0 <= i < m.len() {
                lemma_resolve_all(m.remove(i), m[i].1);
                lemma_totals_remove(m, i);
            } else {
                assert(sizes(Seq::<TreeV>::empty()) =~= Seq::<nat>::empty());
                assert(depths(Seq::<TreeV>::empty()) =~= Seq::<nat>::empty());
            }
        },
    }
}

proof fn lemma_resolve_all(m: Seq<EntryV>, ps: Seq<PathV>)
    ensures
        resolve_all(m, ps).1.len() <= m.len(),
        seq_sum(sizes(resolve_all(m, ps).0)) + total_ingredients(resolve_all(m, ps).1)
            == paths_ingredients(ps) + total_ingredients(m),
        total_steps(resolve_all(m, ps).1) <= total_steps(m),
        seq_max(depths(resolve_all(m, ps).0)) + total_steps(resolve_all(m, ps).1) <= paths_steps(
            ps,
        ) + total_steps(m),
    decreases m.len(), ps.len() + 1,
{
    let f = |p: PathV| path_ingredients(p);
    let g = |p: PathV| p.actions.len();
    if ps.len() == 0 {
        assert(sizes(Seq::<TreeV>::empty()) =~= Seq::<nat>::empty());
        assert(depths(Seq::<TreeV>::empty()) =~= Seq::<nat>::empty());
        assert(ps.map_values(f) =~= Seq::<nat>::empty());
        assert(ps.map_values(g) =~= Seq::<nat>::empty());
    } else {
        let (t, m1) = resolve_path(m, ps[0]);
        lemma_resolve_path(m, ps[0]);
        lemma_resolve_all(m1, ps.drop_first());
        let (ts, m2) = resolve_all(m1, ps.drop_first());
        let all = seq![t] + ts;
        assert(resolve_all(m, ps).0 == all);
        assert(sizes(all).drop_first() =~= sizes(ts));
        assert(depths(all).drop_first() =~= depths(ts));
        assert(ps.map_values(f).drop_first() =~= ps.drop_first().map_values(f));
        assert(ps.map_values(g).drop_first() =~= ps.drop_first().map_values(g));
    }
}

proof fn lemma_trees_push(v: Seq<BackwardTree>, t: BackwardTree)
    ensures
        trees_view(v.push(t)) == trees_view(v).push(tree_view(t)),
        sizes(trees_view(v.push(t))) == sizes(trees_view(v)).push(tree_view(t).size),
        depths(trees_view(v.push(t))) == depths(trees_view(v)).push(tree_view(t).max_depth),
{
    assert(trees_view(v.push(t)) =~= trees_view(v).push(tree_view(t)));
    assert(sizes(trees_view(v.push(t))) =~= sizes(trees_view(v)).push(tree_view(t).size));
    assert(depths(trees_view(v.push(t))) =~= depths(trees_view(v)).push(tree_view(t).max_depth));
}

proof fn lemma_children_view(t: BackwardTree)
    ensures
        tree_view(t).children == trees_view(t.paths@),
{
    assert(tree_view(t).children =~= trees_view(t.paths@));
}

impl Analysis {
    /// Resolves `path` into a node, pushes it onto `vec`, and returns the
    /// node's size and depth.
    fn convert_tree_helper(&mut self, path: Path, vec: &mut Vec<BackwardTree>) -> (r: (
        usize,
        usize,
    ))
        requires
            total_ingredients(old(self).entries()) + path_ingredients(path@) <= usize::MAX,
            total_steps(old(self).entries()) + path@.actions.len() <= usize::MAX,
        ensures
            final(self).entries() == resolve_path(old(self).entries(), path@).1,
            final(self).problem_list() == old(self).problem_list(),
            trees_view(final(vec)@) == trees_view(old(vec)@).push(
                resolve_path(old(self).entries(), path@).0,
            ),
            r.0 == resolve_path(old(self).entries(), path@).0.size,
            r.1 == resolve_path(old(self).entries(), path@).0.max_depth,
        decreases old(self).map@.len(), 0nat,
    {
        let ghost m0 = self.entries();
        let ghost pv = path@;
        proof {
            lemma_resolve_path(m0, pv);
        }
        let Path { actions, start } = path;
        let mut children: Vec<BackwardTree> = Vec::new();
        let mut size: usize = 0;
        let mut max_depth: usize = 0;
        let ingredients: Vec<IngredientRef>;
        proof {
            assert(trees_view(children@) =~= Seq::<TreeV>::empty());
            assert(sizes(Seq::<TreeV>::empty()) =~= Seq::<nat>::empty());
            assert(depths(Seq::<TreeV>::empty()) =~= Seq::<nat>::empty());
        }
        match start {
            Input::Ingredients { list } => {
                size = list.len();
                ingredients = list;
            },
            Input::Join { point } => {
                ingredients = Vec::new();
                let i = key_position(&self.map, Some(point.value));
                proof {
                    lemma_key_index_bound(m0, Some(point.value));
                }
                if i < self.map.len() {
                    let ghost mr = m0.remove(i as int);
                    let entry = self.map.remove(i);
                    proof {
                        assert(self.entries() =~= mr);
                        lemma_totals_remove(m0, i as int);
                    }
                    let (ns, nd) = self.convert_paths(entry.paths, &mut children);
                    size = ns;
                    max_depth = nd;
                }
            },
        }
        max_depth = max_depth + actions.len();
        let t = BackwardTree { paths: children, actions, ingredients, size, max_depth };
        proof {
            lemma_children_view(t);
            let tv = resolve_path(m0, pv).0;
            assert(tree_view(t).actions == tv.actions);
            assert(tree_view(t) == tv);
        }
        let ghost vold = vec@;
        vec.push(t);
        proof {
            lemma_trees_push(vold, t);
        }
        (size, max_depth)
    }
}

impl Analysis {
    /// Resolves `paths` in order into `children`, which starts empty, and
    /// returns the sum of their sizes and the largest of their depths.
    fn convert_paths(&mut self, paths: Vec<Path>, children: &mut Vec<BackwardTree>) -> (r: (
        usize,
        usize,
    ))
        requires
            old(children)@.len() == 0,
            total_ingredients(old(self).entries()) + paths_ingredients(
                paths@.map_values(|p: Path| p@),
            ) <= usize::MAX,
            total_steps(old(self).entries()) + paths_steps(paths@.map_values(|p: Path| p@))
                <= usize::MAX,
        ensures
            final(self).entries() == resolve_all(
                old(self).entries(),
                paths@.map_values(|p: Path| p@),
            ).1,
            final(self).problem_list() == old(self).problem_list(),
            trees_view(final(children)@) == resolve_all(
                old(self).entries(),
                paths@.map_values(|p: Path| p@),
            ).0,
            r.0 == seq_sum(sizes(trees_view(final(children)@))),
            r.1 == seq_max(depths(trees_view(final(children)@))),
        decreases old(self).map@.len(), 1nat,
    {
        let ghost m0 = self.entries();
        let ghost ps0 = paths@.map_values(|p: Path| p@);
        let mut paths = paths;
        let mut size: usize = 0;
        let mut max_depth: usize = 0;
        proof {
            lemma_resolve_all(m0, ps0);
            assert(trees_view(children@) =~= Seq::<TreeV>::empty());
            assert(sizes(Seq::<TreeV>::empty()) =~= Seq::<nat>::empty());
            assert(depths(Seq::<TreeV>::empty()) =~= Seq::<nat>::empty());
            assert(trees_view(children@) + resolve_all(m0, ps0).0 =~= resolve_all(m0, ps0).0);
        }
        while paths.len() > 0
            invariant
                self.map@.len() <= old(self).map@.len(),
                self.problem_list() == old(self).problem_list(),
                resolve_all(self.entries(), paths@.map_values(|p: Path| p@)).1 == resolve_all(
                    m0,
                    ps0,
                ).1,
                trees_view(children@) + resolve_all(
                    self.entries(),
                    paths@.map_values(|p: Path| p@),
                ).0 == resolve_all(m0, ps0).0,
                size == seq_sum(sizes(trees_view(children@))),
                max_depth == seq_max(depths(trees_view(children@))),
                size + total_ingredients(self.entries()) + paths_ingredients(
                    paths@.map_values(|p: Path| p@),
                ) == total_ingredients(m0) + paths_ingredients(ps0),
                max_depth + total_steps(self.entries()) + paths_steps(
                    paths@.map_values(|p: Path| p@),
                ) <= total_steps(m0) + paths_steps(ps0),
                total_ingredients(m0) + paths_ingredients(ps0) <= usize::MAX,
                total_steps(m0) + paths_steps(ps0) <= usize::MAX,
            decreases paths.len(),
        {
            let ghost rest = paths@.map_values(|p: Path| p@);
            let ghost mc = self.entries();
            let ghost before = children@;
            let p = paths.remove(0);
            proof {
                let f = |p: PathV| path_ingredients(p);
                let g = |p: PathV| p.actions.len();
                assert(rest[0] == p@);
                assert(rest.drop_first() =~= paths@.map_values(|p: Path| p@));
                assert(rest.map_values(f).drop_first() =~= rest.drop_first().map_values(f));
                assert(rest.map_values(g).drop_first() =~= rest.drop_first().map_values(g));
                lemma_resolve_path(mc, p@);
            }
            let (ns, nd) = self.convert_tree_helper(p, children);
            proof {
                let (t, m1) = resolve_path(mc, rest[0]);
                lemma_resolve_all(m1, rest.drop_first());
                assert(trees_view(children@) == trees_view(before).push(t));
                assert(trees_view(children@) + resolve_all(m1, rest.drop_first()).0 =~= trees_view(
                    before,
                ) + resolve_all(mc, rest).0);
                lemma_sum_push(sizes(trees_view(before)), t.size);
                lemma_sum_push(depths(trees_view(before)), t.max_depth);
                assert(sizes(trees_view(children@)) =~= sizes(trees_view(before)).push(t.size));
                assert(depths(trees_view(children@)) =~= depths(trees_view(before)).push(
                    t.max_depth,
                ));
            }
            size = size + ns;
            if nd > max_depth {
                max_depth = nd;
            }
        }
        proof {
            assert(paths@.map_values(|p: Path| p@) =~= Seq::<PathV>::empty());
            assert(trees_view(children@) =~= resolve_all(m0, ps0).0);
        }
        (size, max_depth)
    }

    /// Turns the analysis into a backward tree, consuming it. Fails with the
    /// problems, as they are, when there are any.
    pub fn into_tree(self) -> (r: Result<BackwardTree, Vec<Problem>>)
        requires
            fits(self.entries()),
        ensures
            match r {
                Ok(t) => self.problem_list().len() == 0 && tree_view(t) == tree_of(self.entries())
                    && well_formed(tree_view(t)),
                Err(ps) => self.problem_list().len() > 0 && problems_view(ps@)
                    == self.problem_list(),
            },
    {
        if self.problems.len() > 0 {
            return Err(self.problems);
        }
        let ghost m0 = self.entries();
        let mut a = self;
        let mut children: Vec<BackwardTree> = Vec::new();
        let mut size: usize = 0;
        let mut max_depth: usize = 0;
        let si = key_position(&a.map, None);
        proof {
            lemma_key_index_bound(m0, None);
            assert(sizes(Seq::<TreeV>::empty()) =~= Seq::<nat>::empty());
            assert(depths(Seq::<TreeV>::empty()) =~= Seq::<nat>::empty());
            assert(trees_view(children@) =~= Seq::<TreeV>::empty());
        }
        if si < a.map.len() {
            let entry = a.map.remove(si);
            proof {
                assert(a.entries() =~= m0.remove(si as int));
                lemma_totals_remove(m0, si as int);
            }
            let (ns, nd) = a.convert_paths(entry.paths, &mut children);
            size = ns;
            max_depth = nd;
        }
        let t = BackwardTree {
            paths: children,
            actions: Vec::new(),
            ingredients: Vec::new(),
            size,
            max_depth,
        };
        proof {
            lemma_children_view(t);
            assert(tree_view(t).actions =~= Seq::<StepV>::empty());
            assert(tree_view(t).ingredients =~= Seq::<IngredientRef>::empty());
            assert(tree_view(t) == tree_of(m0));
            size_conservation(m0);
        }
        Ok(t)
    }
}

/// The sizes and depths of every node follow from the node's children: a
/// leaf's size is its ingredient count and its depth its own step count; a
/// node with children has no ingredients, the sum of their sizes, and its
/// step count plus the largest of their depths.
pub open spec fn well_formed(t: TreeV) -> bool
    decreases t,
{
    &&& t.children.len() == 0 ==> t.size == t.ingredients.len() && t.max_depth == t.actions.len()
    &&& t.children.len() > 0 ==> t.ingredients.len() == 0 && t.size == seq_sum(sizes(t.children))
        && t.max_depth == t.actions.len() + seq_max(depths(t.children))
    &&& forall|i: int| 0 <= i < t.children.len() ==> well_formed(#[trigger] t.children[i])
}

/// What is left of the map once the sink's paths are resolved: the join
/// points that no walk back from the sink reached.
pub open spec fn left_over(m: Seq<EntryV>) -> Seq<EntryV> {
    let i = key_index(m, None);
    if 0 <= i < m.len() {
        resolve_all(m.remove(i), m[i].1).1
    } else {
        m
    }
}

proof fn lemma_resolve_path_wf(m: Seq<EntryV>, p: PathV)
    ensures
        well_formed(resolve_path(m, p).0),
    decreases m.len(), 0nat,
{
    match p.start {
        InputV::Ingredients(l) => {},
        InputV::Join(pt) => {
            let i = key_index(m, Some(pt.value));
            if 0 <= i < m.len() {
                lemma_resolve_all_wf(m.remove(i), m[i].1);
                let kids = resolve_all(m.remove(i), m[i].1).0;
                if kids.len() == 0 {
                    assert(sizes(kids) =~= Seq::<nat>::empty());
                    assert(depths(kids) =~= Seq::<nat>::empty());
                }
            } else {
                assert(sizes(Seq::<TreeV>::empty()) =~= Seq::<nat>::empty());
                assert(depths(Seq::<TreeV>::empty()) =~= Seq::<nat>::empty());
            }
        },
    }
}

proof fn lemma_resolve_all_wf(m: Seq<EntryV>, ps: Seq<PathV>)
    ensures
        forall|i: int|
            0 <= i < resolve_all(m, ps).0.len() ==> well_formed(#[trigger] resolve_all(m, ps).0[i]),
    decreases m.len(), ps.len() + 1,
{
    if ps.len() > 0 {
        let (t, m1) = resolve_path(m, ps[0]);
        lemma_resolve_path(m, ps[0]);
        lemma_resolve_path_wf(m, ps[0]);
        lemma_resolve_all_wf(m1, ps.drop_first());
        let ts = resolve_all(m1, ps.drop_first()).0;
        assert forall|i: int|
            0 <= i < resolve_all(m, ps).0.len() implies well_formed(
            #[trigger] resolve_all(m, ps).0[i],
        ) by {
            if i > 0 {
                assert(resolve_all(m, ps).0[i] == ts[i - 1]);
            }
        }
    }
}

/// Size conservation: in the tree of a map every node's size is its
/// ingredient count (leaf) or the sum of its children's sizes, and the
/// root's size is the number of ingredients that start the map's paths,
/// less those of the join points that the walk from the sink never reached.
pub proof fn size_conservation(m: Seq<EntryV>)
    ensures
        well_formed(tree_of(m)),
        tree_of(m).size + total_ingredients(left_over(m)) == total_ingredients(m),
{
    let i = key_index(m, None);
    if 0 <= i < m.len() {
        lemma_resolve_all_wf(m.remove(i), m[i].1);
        lemma_resolve_all(m.remove(i), m[i].1);
        lemma_totals_remove(m, i);
        let kids = resolve_all(m.remove(i), m[i].1).0;
        if kids.len() == 0 {
            assert(sizes(kids) =~= Seq::<nat>::empty());
            assert(depths(kids) =~= Seq::<nat>::empty());
        }
    } else {
        assert(sizes(Seq::<TreeV>::empty()) =~= Seq::<nat>::empty());
        assert(depths(Seq::<TreeV>::empty()) =~= Seq::<nat>::empty());
    }
}

proof fn lemma_sink_from_walk(m: Seq<EntryV>, x: Symbol)
    requires
        refs(lookup(m, None)).contains(x),
    ensures
        has_sink(m),
{
    lemma_key_index_bound(m, None);
    if key_index(m, None) >= m.len() {
        assert(refs(Seq::<PathV>::empty()) =~= Seq::<Symbol>::empty());
    }
}

/// A walk back from the sink that meets a join point twice is always
/// reported, so such a recipe never becomes a tree.
pub proof fn cycle_is_reported(rules: Seq<RuleV>, a: Analysis)
    requires
        analysis_of(rules, a.entries(), a.problem_list()),
        has_cycle(a.entries()),
    ensures
        exists|i: int| 0 <= i < a.problem_list().len() && (#[trigger] a.problem_list()[i]) is HasCycle,
        a.problem_list().len() > 0,
{
    let m = a.entries();
    let (c, i, j) = choose|c: Seq<Symbol>, i: int, j: int|
        sink_walk(m, c) && 0 <= i < j < c.len() && #[trigger] c[i] == #[trigger] c[j];
    lemma_sink_from_walk(m, c[0]);
    lemma_cycle_not_tree(m);
    let ps = scan(rules).1;
    let extra = a.problem_list().skip(ps.len() as int);
    assert(extra.len() == 1);
    assert(extra[0] == a.problem_list()[ps.len() as int]);
}

proof fn lemma_walk_dangling(m: Seq<EntryV>, start: InputV, pending: Seq<StepV>, acts: Seq<ActionV>)
    ensures
        walk(m, start, pending, acts).1 is Some ==> walk(m, start, pending, acts).1->0 is DanglingSteps,
    decreases acts.len(),
{
    if acts.len() > 0 {
        match acts[0] {
            ActionV::Step(s) => lemma_walk_dangling(m, start, pending.push(s), acts.drop_first()),
            ActionV::Join(pt) => lemma_walk_dangling(
                add_path(m, Some(pt.value), PathV { actions: pending, start }),
                InputV::Join(pt),
                Seq::empty(),
                acts.drop_first(),
            ),
            ActionV::Done => {},
        }
    }
}

/// The scan only finds chains that end in steps.
proof fn lemma_scan_dangling(rules: Seq<RuleV>)
    ensures
        forall|i: int| 0 <= i < scan(rules).1.len() ==> (#[trigger] scan(rules).1[i]) is DanglingSteps,
    decreases rules.len(),
{
    if rules.len() > 0 {
        lemma_scan_dangling(rules.drop_last());
        let m = scan(rules.drop_last()).0;
        lemma_walk_dangling(m, rules.last().input, Seq::empty(), rules.last().actions);
    }
}

/// Every key of the map is a join point.
pub open spec fn only_joins(m: Seq<EntryV>) -> bool {
    forall|i: int| 0 <= i < m.len() ==> (#[trigger] m[i]).0 is Some
}

/// The rule has a `Done` action.
pub open spec fn has_done(r: RuleV) -> bool {
    exists|i: int| 0 <= i < r.actions.len() && (#[trigger] r.actions[i]) is Done
}

proof fn lemma_walk_no_done(m: Seq<EntryV>, start: InputV, pending: Seq<StepV>, acts: Seq<ActionV>)
    requires
        only_joins(m),
        forall|i: int| 0 <= i < acts.len() ==> !((#[trigger] acts[i]) is Done),
    ensures
        only_joins(walk(m, start, pending, acts).0),
    decreases acts.len(),
{
    if acts.len() > 0 {
        assert(!(acts[0] is Done));
        assert forall|i: int| 0 <= i < acts.drop_first().len() implies !((
        #[trigger] acts.drop_first()[i]) is Done) by {
            assert(acts.drop_first()[i] == acts[i + 1]);
        }
        match acts[0] {
            ActionV::Step(s) => lemma_walk_no_done(m, start, pending.push(s), acts.drop_first()),
            ActionV::Join(pt) => {
                let m2 = add_path(m, Some(pt.value), PathV { actions: pending, start });
                lemma_key_index_bound(m, Some(pt.value));
                assert(only_joins(m2));
                lemma_walk_no_done(m2, InputV::Join(pt), Seq::empty(), acts.drop_first());
            },
            ActionV::Done => {},
        }
    }
}

proof fn lemma_scan_no_done(rules: Seq<RuleV>)
    requires
        forall|k: int| 0 <= k < rules.len() ==> !has_done(#[trigger] rules[k]),
    ensures
        only_joins(scan(rules).0),
    decreases rules.len(),
{
    if rules.len() > 0 {
        assert forall|k: int| 0 <= k < rules.drop_last().len() implies !has_done(
            #[trigger] rules.drop_last()[k],
        ) by {
            assert(rules.drop_last()[k] == rules[k]);
        }
        lemma_scan_no_done(rules.drop_last());
        let r = rules.last();
        assert(!has_done(rules[rules.len() - 1]));
        assert forall|i: int| 0 <= i < r.actions.len() implies !((#[trigger] r.actions[i]) is Done) by {
            if r.actions[i] is Done {
                assert(has_done(r));
            }
        }
        lemma_walk_no_done(scan(rules.drop_last()).0, r.input, Seq::empty(), r.actions);
    } else {
        assert(only_joins(Seq::<EntryV>::empty()));
    }
}

/// A recipe in which no rule reaches `<>` gets exactly one `NoDone`
/// problem, the last one, so it never becomes a tree.
pub proof fn missing_sink_is_reported(rules: Seq<RuleV>, a: Analysis)
    requires
        analysis_of(rules, a.entries(), a.problem_list()),
        forall|k: int| 0 <= k < rules.len() ==> !has_done(#[trigger] rules[k]),
    ensures
        a.problem_list().len() > 0,
        a.problem_list().last() == ProblemV::NoDone,
        forall|i: int| 0 <= i < a.problem_list().len() - 1 ==> !((#[trigger] a.problem_list()[i]) is NoDone),
{
    lemma_scan_no_done(rules);
    lemma_scan_dangling(rules);
    let m = scan(rules).0;
    lemma_key_index_bound(m, None);
    if has_sink(m) {
        assert(m[key_index(m, None)].0 is Some);
    }
    assert forall|i: int| 0 <= i < a.problem_list().len() - 1 implies !((
    #[trigger] a.problem_list()[i]) is NoDone) by {
        assert(a.problem_list()[i] == scan(rules).1[i]);
    }
}

/// The position of the last `Join` among the actions, or -1.
pub open spec fn last_join(acts: Seq<ActionV>) -> int
    decreases acts.len(),
{
    if acts.len() == 0 {
        -1
    } else {
        let j = last_join(acts.drop_first());
        if j >= 0 {
            j + 1
        } else if acts[0] is Join {
            0
        } else {
            -1
        }
    }
}

pub open spec fn step_of(a: ActionV) -> StepV {
    match a {
        ActionV::Step(s) => s,
        _ => arbitrary(),
    }
}

/// The problem of a rule whose chain ends in steps: the steps after its last
/// join point, and that join point (or the rule's input when it has none).
pub open spec fn dangling_of(r: RuleV) -> ProblemV {
    let j = last_join(r.actions);
    ProblemV::DanglingSteps(
        r.actions.skip(j + 1).map_values(|a: ActionV| step_of(a)),
        if j >= 0 {
            InputV::Join(r.actions[j]->Join_0)
        } else {
            r.input
        },
    )
}

proof fn lemma_last_join_bound(acts: Seq<ActionV>)
    ensures
        -1 <= last_join(acts) < acts.len(),
        last_join(acts) >= 0 ==> acts[last_join(acts)] is Join,
    decreases acts.len(),
{
    if acts.len() > 0 {
        lemma_last_join_bound(acts.drop_first());
        let j = last_join(acts.drop_first());
        if j >= 0 {
            assert(acts.drop_first()[j] == acts[j + 1]);
        }
    }
}

proof fn lemma_walk_tail(m: Seq<EntryV>, start: InputV, pending: Seq<StepV>, acts: Seq<ActionV>)
    requires
        acts.len() > 0,
        acts.last() is Step,
        forall|i: int| 0 <= i < acts.len() ==> !((#[trigger] acts[i]) is Done),
    ensures
        walk(m, start, pending, acts).1 == Some(
            ProblemV::DanglingSteps(
                if last_join(acts) >= 0 {
                    acts.skip(last_join(acts) + 1).map_values(|a: ActionV| step_of(a))
                } else {
                    pending + acts.map_values(|a: ActionV| step_of(a))
                },
                if last_join(acts) >= 0 {
                    InputV::Join(acts[last_join(acts)]->Join_0)
                } else {
                    start
                },
            ),
        ),
    decreases acts.len(),
{
    let rest = acts.drop_first();
    let f = |a: ActionV| step_of(a);
    lemma_last_join_bound(rest);
    assert(!(acts[0] is Done));
    assert forall|i: int| 0 <= i < rest.len() implies !((#[trigger] rest[i]) is Done) by {
        assert(rest[i] == acts[i + 1]);
    }
    if rest.len() == 0 {
        assert(acts[0] is Step);
        assert(acts.map_values(f) =~= seq![step_of(acts[0])]);
        assert(last_join(rest) == -1);
        assert(last_join(acts) == -1);
        match acts[0] {
            ActionV::Step(s) => {
                assert(pending.push(s) =~= pending + acts.map_values(f));
                assert(walk(m, start, pending.push(s), rest) == (m, Some(ProblemV::DanglingSteps(pending.push(s), start))));
            },
            _ => {},
        }
    } else {
        assert(rest.last() == acts.last());
        match acts[0] {
            ActionV::Step(s) => {
                lemma_walk_tail(m, start, pending.push(s), rest);
                let j = last_join(rest);
                if j >= 0 {
                    assert(rest.skip(j + 1) =~= acts.skip(j + 2));
                    assert(rest[j] == acts[j + 1]);
                } else {
                    assert(pending.push(s) + rest.map_values(f) =~= pending + acts.map_values(f));
                }
            },
            ActionV::Join(pt) => {
                let m2 = add_path(m, Some(pt.value), PathV { actions: pending, start });
                lemma_walk_tail(m2, InputV::Join(pt), Seq::empty(), rest);
                let j = last_join(rest);
                if j >= 0 {
                    assert(rest.skip(j + 1) =~= acts.skip(j + 2));
                    assert(rest[j] == acts[j + 1]);
                } else {
                    assert(Seq::<StepV>::empty() + rest.map_values(f) =~= acts.skip(1).map_values(f));
                }
            },
            ActionV::Done => {},
        }
    }
}

proof fn lemma_scan_has(rules: Seq<RuleV>, k: int, p: ProblemV)
    requires
        0 <= k < rules.len(),
        forall|m: Seq<EntryV>| #[trigger] walk(m, rules[k].input, Seq::empty(), rules[k].actions).1 == Some(p),
    ensures
        scan(rules).1.contains(p),
    decreases rules.len(),
{
    let (m, ps) = scan(rules.drop_last());
    let w = walk(m, rules.last().input, Seq::empty(), rules.last().actions);
    if k == rules.len() - 1 {
        assert(w.1 == Some(p));
        assert(scan(rules).1 == ps.push(p));
        assert(scan(rules).1[ps.len() as int] == p);
    } else {
        assert(rules.drop_last()[k] == rules[k]);
        lemma_scan_has(rules.drop_last(), k, p);
        let i = choose|i: int| 0 <= i < ps.len() && ps[i] == p;
        match w.1 {
            Some(x) => assert(scan(rules).1[i] == p),
            None => assert(scan(rules).1[i] == p),
        }
    }
}

/// A rule whose chain ends in steps, with no `Done`, is reported with
/// exactly its trailing steps and the start of that last segment.
pub proof fn dangling_chain_is_reported(rules: Seq<RuleV>, a: Analysis, k: int)
    requires
        analysis_of(rules, a.entries(), a.problem_list()),
        0 <= k < rules.len(),
        rules[k].actions.len() > 0,
        rules[k].actions.last() is Step,
        !has_done(rules[k]),
    ensures
        a.problem_list().contains(dangling_of(rules[k])),
{
    let r = rules[k];
    assert forall|i: int| 0 <= i < r.actions.len() implies !((#[trigger] r.actions[i]) is Done) by {
        if r.actions[i] is Done {
            assert(has_done(r));
        }
    }
    assert forall|m: Seq<EntryV>| #[trigger] walk(m, r.input, Seq::empty(), r.actions).1 == Some(
        dangling_of(r),
    ) by {
        lemma_walk_tail(m, r.input, Seq::empty(), r.actions);
        if last_join(r.actions) < 0 {
            assert(Seq::<StepV>::empty() + r.actions.map_values(|a: ActionV| step_of(a))
                =~= r.actions.skip(0).map_values(|a: ActionV| step_of(a)));
        }
    }
    lemma_scan_has(rules, k, dangling_of(r));
    let ps = scan(rules).1;
    let i = choose|i: int| 0 <= i < ps.len() && ps[i] == dangling_of(r);
    if has_sink(scan(rules).0) {
        assert(a.problem_list().take(ps.len() as int)[i] == a.problem_list()[i]);
    }
    assert(a.problem_list()[i] == dangling_of(r));
}

/// A recipe whose only path reaches the sink straight from its ingredients,
/// with no join point anywhere and no chain left hanging, has no problems,
/// and its tree is a root with one child whose size is that path's
/// ingredient count.
pub proof fn single_path_tree(rules: Seq<RuleV>, a: Analysis)
    requires
        analysis_of(rules, a.entries(), a.problem_list()),
        a.entries().len() == 1,
        a.entries()[0].0 is None,
        a.entries()[0].1.len() == 1,
        a.entries()[0].1[0].start is Ingredients,
        forall|i: int| 0 <= i < a.problem_list().len() ==> !((#[trigger] a.problem_list()[i]) is DanglingSteps),
    ensures
        a.problem_list().len() == 0,
        tree_of(a.entries()).children.len() == 1,
        tree_of(a.entries()).children[0].size == a.entries()[0].1[0].start->Ingredients_0.len(),
        tree_of(a.entries()).size == a.entries()[0].1[0].start->Ingredients_0.len(),
        tree_of(a.entries()).children[0].ingredients == a.entries()[0].1[0].start->Ingredients_0,
        tree_of(a.entries()).children[0].children.len() == 0,
{
    let m = a.entries();
    let p = m[0].1[0];
    lemma_key_index_at(m, None, 0);
    assert(m[0].1.drop_last() =~= Seq::<PathV>::empty());
    assert(m[0].1.last() == p);
    assert(refs(Seq::<PathV>::empty()) == Seq::<Symbol>::empty());
    assert(refs(m[0].1) =~= Seq::<Symbol>::empty());
    let ps = scan(rules).1;
    lemma_scan_dangling(rules);
    let extra = a.problem_list().skip(ps.len() as int);
    if extra.len() == 1 {
        let x = extra[0]->HasCycle_0;
        let (w1, w2) = choose|w1: Seq<int>, w2: Seq<int>| w1 != w2 && #[trigger] reaches(m, w1, x) && #[trigger] reaches(m, w2, x);
        assert(lookup(m, None) == m[0].1);
        assert(next(m, None, w1[0]) is None);
    }
    if ps.len() > 0 {
        assert(a.problem_list()[0] == a.problem_list().take(ps.len() as int)[0]);
    }
    assert(a.problem_list() =~= a.problem_list().take(ps.len() as int) + extra);
    let rest = m.remove(0);
    assert(rest =~= Seq::<EntryV>::empty());
    let (t, m1) = resolve_path(rest, p);
    assert(m[0].1.drop_first() =~= Seq::<PathV>::empty());
    assert(m[0].1[0] == p);
    assert(m1 == rest);
    assert(resolve_all(m1, Seq::<PathV>::empty()).0 =~= Seq::<TreeV>::empty());
    let kids = resolve_all(rest, m[0].1).0;
    assert(kids =~= seq![t]);
    assert(sizes(kids).drop_first() =~= Seq::<nat>::empty());
    assert(seq_sum(Seq::<nat>::empty()) == 0);
    assert(sizes(kids)[0] == t.size);
    assert(tree_of(m) == node(Seq::empty(), kids));
}

proof fn lemma_sum_split(s: Seq<nat>, i: int)
    requires
        0 <= i <= s.len(),
    ensures
        seq_sum(s) == seq_sum(s.take(i)) + seq_sum(s.skip(i)),
    decreases i,
{
    if i == 0 {
        assert(s.take(0) =~= Seq::<nat>::empty());
        assert(s.skip(0) =~= s);
    } else {
        lemma_sum_split(s.drop_first(), i - 1);
        assert(s.take(i).drop_first() =~= s.drop_first().take(i - 1));
        assert(s.take(i)[0] == s[0]);
        assert(s.skip(i) =~= s.drop_first().skip(i - 1));
    }
}

/// Adds `x` to `acc`, or gives `None` when the sum passes `usize::MAX`.
fn add_capped(acc: usize, x: usize) -> (r: Option<usize>)
    ensures
        r matches Some(v) ==> v == acc + x,
        r is None ==> acc + x > usize::MAX,
{
    if x <= usize::MAX - acc {
        Some(acc + x)
    } else {
        None
    }
}

/// The ingredient and step counts of the paths, if both fit in a `usize`.
fn paths_counts(paths: &Vec<Path>) -> (r: Option<(usize, usize)>)
    ensures
        r matches Some(c) ==> c.0 == paths_ingredients(paths@.map_values(|p: Path| p@)) && c.1
            == paths_steps(paths@.map_values(|p: Path| p@)),
        r is None ==> paths_ingredients(paths@.map_values(|p: Path| p@)) > usize::MAX
            || paths_steps(paths@.map_values(|p: Path| p@)) > usize::MAX,
{
    let ghost pv = paths@.map_values(|p: Path| p@);
    let ghost fs = pv.map_values(|p: PathV| path_ingredients(p));
    let ghost gs = pv.map_values(|p: PathV| p.actions.len());
    let mut ni: usize = 0;
    let mut ns: usize = 0;
    let mut i: usize = 0;
    proof {
        assert(fs.take(0) =~= Seq::<nat>::empty());
        assert(gs.take(0) =~= Seq::<nat>::empty());
    }
    while i < paths.len()
        invariant
            0 <= i <= paths.len(),
            pv == paths@.map_values(|p: Path| p@),
            fs == pv.map_values(|p: PathV| path_ingredients(p)),
            gs == pv.map_values(|p: PathV| p.actions.len()),
            ni == seq_sum(fs.take(i as int)),
            ns == seq_sum(gs.take(i as int)),
        decreases paths.len() - i,
    {
        let n = match &paths[i].start {
            Input::Ingredients { list } => list.len(),
            Input::Join { .. } => 0,
        };
        proof {
            assert(fs.take(i + 1) =~= fs.take(i as int).push(fs[i as int]));
            assert(gs.take(i + 1) =~= gs.take(i as int).push(gs[i as int]));
            lemma_sum_push(fs.take(i as int), fs[i as int]);
            lemma_sum_push(gs.take(i as int), gs[i as int]);
            lemma_sum_split(fs, i + 1);
            lemma_sum_split(gs, i + 1);
        }
        match add_capped(ni, n) {
            Some(v) => ni = v,
            None => return None,
        }
        match add_capped(ns, paths[i].actions.len()) {
            Some(v) => ns = v,
            None => return None,
        }
        i += 1;
    }
    proof {
        assert(fs.take(i as int) =~= fs);
        assert(gs.take(i as int) =~= gs);
    }
    Some((ni, ns))
}

impl Analysis {
    /// The ingredient and step counts of the map fit in a `usize`, as
    /// `into_tree` needs.
    pub fn counts_fit(&self) -> (r: bool)
        ensures
            r == fits(self.entries()),
    {
        let ghost m = self.entries();
        let ghost fs = m.map_values(|e: EntryV| paths_ingredients(e.1));
        let ghost gs = m.map_values(|e: EntryV| paths_steps(e.1));
        let mut ni: usize = 0;
        let mut ns: usize = 0;
        let mut i: usize = 0;
        proof {
            assert(fs.take(0) =~= Seq::<nat>::empty());
            assert(gs.take(0) =~= Seq::<nat>::empty());
        }
        while i < self.map.len()
            invariant
                0 <= i <= self.map.len(),
                m == self.entries(),
                fs == m.map_values(|e: EntryV| paths_ingredients(e.1)),
                gs == m.map_values(|e: EntryV| paths_steps(e.1)),
                ni == seq_sum(fs.take(i as int)),
                ns == seq_sum(gs.take(i as int)),
            decreases self.map.len() - i,
        {
            proof {
                assert(fs.take(i + 1) =~= fs.take(i as int).push(fs[i as int]));
                assert(gs.take(i + 1) =~= gs.take(i as int).push(gs[i as int]));
                lemma_sum_push(fs.take(i as int), fs[i as int]);
                lemma_sum_push(gs.take(i as int), gs[i as int]);
                lemma_sum_split(fs, i + 1);
                lemma_sum_split(gs, i + 1);
            }
            match paths_counts(&self.map[i].paths) {
                Some((a, b)) => {
                    match add_capped(ni, a) {
                        Some(v) => ni = v,
                        None => return false,
                    }
                    match add_capped(ns, b) {
                        Some(v) => ns = v,
                        None => return false,
                    }
                },
                None => {
                    return false;
                },
            }
            i += 1;
        }
        proof {
            assert(fs.take(i as int) =~= fs);
            assert(gs.take(i as int) =~= gs);
        }
        true
    }
}

impl Analysis {
    /// The entries of the map, in the order their keys were first met.
    pub fn map(&self) -> (r: &Vec<Entry>)
        ensures
            entries_view(r@) == self.entries(),
    {
        &self.map
    }

    /// The problems found, in the order they were found.
    pub fn problems(&self) -> (r: &Vec<Problem>)
        ensures
            problems_view(r@) == self.problem_list(),
    {
        &self.problems
    }
}

/// Each step's name after ` <- `.
pub open spec fn back_steps_text(st: &State, acts: Seq<StepV>) -> Seq<char>
    decreases acts.len(),
{
    if acts.len() == 0 {
        Seq::empty()
    } else {
        back_steps_text(st, acts.drop_last()) + " <- "@ + name_text(st, acts.last().action.value)
    }
}

/// A path read backwards, from its end to its start.
pub open spec fn path_text(st: &State, p: PathV) -> Seq<char> {
    "    "@ + back_steps_text(st, p.actions) + " <- "@ + input_text(st, p.start) + "\n"@
}

pub open spec fn paths_text(st: &State, ps: Seq<PathV>) -> Seq<char>
    decreases ps.len(),
{
    if ps.len() == 0 {
        Seq::empty()
    } else {
        paths_text(st, ps.drop_last()) + path_text(st, ps.last())
    }
}

/// A key on its own line, then the paths that lead to it.
pub open spec fn entry_text(st: &State, e: EntryV) -> Seq<char> {
    let head = match e.0 {
        Some(name) => "  "@ + name_text(st, name) + "\n"@,
        None => "  DONE\n"@,
    };
    head + paths_text(st, e.1)
}

pub open spec fn entries_text(st: &State, m: Seq<EntryV>) -> Seq<char>
    decreases m.len(),
{
    if m.len() == 0 {
        Seq::empty()
    } else {
        entries_text(st, m.drop_last()) + entry_text(st, m.last())
    }
}

/// Each step's text, one after the other.
pub open spec fn steps_run_text(st: &State, acts: Seq<StepV>) -> Seq<char>
    decreases acts.len(),
{
    if acts.len() == 0 {
        Seq::empty()
    } else {
        steps_run_text(st, acts.drop_last()) + step_text(st, acts.last())
    }
}

/// Each step's text followed by ` -> `.
pub open spec fn steps_arrow_text(st: &State, acts: Seq<StepV>) -> Seq<char>
    decreases acts.len(),
{
    if acts.len() == 0 {
        Seq::empty()
    } else {
        steps_arrow_text(st, acts.drop_last()) + step_text(st, acts.last()) + " -> "@
    }
}

/// One problem, in words.
pub open spec fn problem_text(st: &State, p: ProblemV) -> Seq<char> {
    match p {
        ProblemV::NoDone => "no `<>` state"@,
        ProblemV::DanglingSteps(acts, InputV::Ingredients(l)) => "path starting from ingredients list '"@
            + ingredients_text(st, l) + "' goes through actions '"@ + steps_run_text(st, acts)
            + "' but never reaches a join point"@,
        ProblemV::DanglingSteps(acts, InputV::Join(pt)) => "path starting at join point '"@
            + name_text(st, pt.value) + "'"@ + " goes through action path '"@ + steps_arrow_text(
            st,
            acts,
        ) + "...' but never reaches a join point"@,
        ProblemV::HasCycle(sym) => "the join point '"@ + name_text(st, sym)
            + "' is involved in a cycle"@,
    }
}

pub open spec fn problems_text(st: &State, ps: Seq<ProblemV>) -> Seq<char>
    decreases ps.len(),
{
    if ps.len() == 0 {
        Seq::empty()
    } else {
        problems_text(st, ps.drop_last()) + " - "@ + problem_text(st, ps.last()) + "\n"@
    }
}

fn back_steps(st: &State, acts: &Vec<ActionStep>) -> (r: String)
    ensures
        r@ == back_steps_text(st, acts@.map_values(|a: ActionStep| a@)),
{
    let ghost av = acts@.map_values(|a: ActionStep| a@);
    let mut buf = String::new();
    let mut i: usize = 0;
    proof {
        assert(av.take(0) =~= Seq::<StepV>::empty());
    }
    while i < acts.len()
        invariant
            0 <= i <= acts.len(),
            av == acts@.map_values(|a: ActionStep| a@),
            buf@ == back_steps_text(st, av.take(i as int)),
        decreases acts.len() - i,
    {
        proof {
            assert(av.take(i + 1).drop_last() =~= av.take(i as int));
            assert(av.take(i + 1).last() == acts@[i as int]@);
        }
        buf.append(" <- ");
        buf.append(st.text(acts[i].action.value).as_str());
        i += 1;
    }
    proof {
        assert(av.take(i as int) =~= av);
    }
    buf
}

fn step_run(st: &State, acts: &Vec<ActionStep>, arrows: bool) -> (r: String)
    ensures
        arrows ==> r@ == steps_arrow_text(st, acts@.map_values(|a: ActionStep| a@)),
        !arrows ==> r@ == steps_run_text(st, acts@.map_values(|a: ActionStep| a@)),
{
    let ghost av = acts@.map_values(|a: ActionStep| a@);
    let mut buf = String::new();
    let mut i: usize = 0;
    proof {
        assert(av.take(0) =~= Seq::<StepV>::empty());
    }
    while i < acts.len()
        invariant
            0 <= i <= acts.len(),
            av == acts@.map_values(|a: ActionStep| a@),
            arrows ==> buf@ == steps_arrow_text(st, av.take(i as int)),
            !arrows ==> buf@ == steps_run_text(st, av.take(i as int)),
        decreases acts.len() - i,
    {
        proof {
            assert(av.take(i + 1).drop_last() =~= av.take(i as int));
            assert(av.take(i + 1).last() == acts@[i as int]@);
        }
        buf.append(st.debug_action_step(&acts[i]).as_str());
        if arrows {
            buf.append(" -> ");
        }
        i += 1;
    }
    proof {
        assert(av.take(i as int) =~= av);
    }
    buf
}

fn entry_lines(st: &State, e: &Entry) -> (r: String)
    ensures
        r@ == entry_text(st, e@),
{
    let mut buf = String::new();
    match e.key {
        Some(name) => {
            buf.append("  ");
            buf.append(st.text(name).as_str());
            buf.append("\n");
        },
        None => {
            buf.append("  DONE\n");
        },
    }
    let ghost head = buf@;
    let ghost pv = e.paths@.map_values(|p: Path| p@);
    proof {
        assert(pv.take(0) =~= Seq::<PathV>::empty());
    }
    let mut i: usize = 0;
    while i < e.paths.len()
        invariant
            0 <= i <= e.paths.len(),
            pv == e.paths@.map_values(|p: Path| p@),
            buf@ == head + paths_text(st, pv.take(i as int)),
        decreases e.paths.len() - i,
    {
        proof {
            assert(pv.take(i + 1).drop_last() =~= pv.take(i as int));
            assert(pv.take(i + 1).last() == e.paths@[i as int]@);
        }
        let alt = &e.paths[i];
        buf.append("    ");
        buf.append(back_steps(st, &alt.actions).as_str());
        buf.append(" <- ");
        buf.append(st.debug_input(&alt.start).as_str());
        buf.append("\n");
        proof {
            assert(buf@ =~= head + paths_text(st, pv.take(i + 1)));
        }
        i += 1;
    }
    proof {
        assert(pv.take(i as int) =~= pv);
        assert(buf@ =~= entry_text(st, e@));
    }
    buf
}

fn problem_line(st: &State, p: &Problem) -> (r: String)
    ensures
        r@ == problem_text(st, p@),
{
    let mut buf = String::new();
    match p {
        Problem::NoDone => buf.append("no `<>` state"),
        Problem::DanglingSteps(actions, Input::Ingredients { list }) => {
            buf.append("path starting from ingredients list '");
            buf.append(st.debug_ingredients(list).as_str());
            buf.append("' goes through actions '");
            buf.append(step_run(st, actions, false).as_str());
            buf.append("' but never reaches a join point");
        },
        Problem::DanglingSteps(actions, Input::Join { point }) => {
            buf.append("path starting at join point '");
            buf.append(st.text(point.value).as_str());
            buf.append("'");
            buf.append(" goes through action path '");
            buf.append(step_run(st, actions, true).as_str());
            buf.append("...' but never reaches a join point");
        },
        Problem::HasCycle(sym) => {
            buf.append("the join point '");
            buf.append(st.text(*sym).as_str());
            buf.append("' is involved in a cycle");
        },
    }
    proof {
        assert(buf@ =~= problem_text(st, p@));
    }
    buf
}

impl Analysis {
    /// The map as text: each key, then each path that leads to it read
    /// from its end back to its start.
    pub fn debug(&self, state: &State) -> (r: String)
        ensures
            r@ == "analysis {\n"@ + entries_text(state, self.entries()) + "}\n"@,
    {
        let ghost m = self.entries();
        let mut buf = String::new();
        buf.append("analysis {\n");
        proof {
            assert(m.take(0) =~= Seq::<EntryV>::empty());
        }
        let mut i: usize = 0;
        while i < self.map.len()
            invariant
                0 <= i <= self.map.len(),
                m == self.entries(),
                buf@ == "analysis {\n"@ + entries_text(state, m.take(i as int)),
            decreases self.map.len() - i,
        {
            proof {
                assert(m.take(i + 1).drop_last() =~= m.take(i as int));
                assert(m.take(i + 1).last() == self.map@[i as int]@);
            }
            buf.append(entry_lines(state, &self.map[i]).as_str());
            proof {
                assert(buf@ =~= "analysis {\n"@ + entries_text(state, m.take(i + 1)));
            }
            i += 1;
        }
        buf.append("}\n");
        proof {
            assert(m.take(i as int) =~= m);
        }
        buf
    }

    /// The problems as text: `graph ok`, or one line for each problem.
    pub fn debug_problems(&self, state: &State) -> (r: String)
        ensures
            self.problem_list().len() == 0 ==> r@ == "graph ok\n"@,
            self.problem_list().len() > 0 ==> r@ == "graph problems:\n"@ + problems_text(
                state,
                self.problem_list(),
            ),
    {
        let mut buf = String::new();
        if self.problems.len() == 0 {
            buf.append("graph ok\n");
            return buf;
        }
        let ghost ps = self.problem_list();
        buf.append("graph problems:\n");
        proof {
            assert(ps.take(0) =~= Seq::<ProblemV>::empty());
        }
        let mut i: usize = 0;
        while i < self.problems.len()
            invariant
                0 <= i <= self.problems.len(),
                ps == self.problem_list(),
                buf@ == "graph problems:\n"@ + problems_text(state, ps.take(i as int)),
            decreases self.problems.len() - i,
        {
            proof {
                assert(ps.take(i + 1).drop_last() =~= ps.take(i as int));
                assert(ps.take(i + 1).last() == self.problems@[i as int]@);
            }
            buf.append(" - ");
            buf.append(problem_line(state, &self.problems[i]).as_str());
            buf.append("\n");
            proof {
                assert(buf@ =~= "graph problems:\n"@ + problems_text(state, ps.take(i + 1)));
            }
            i += 1;
        }
        proof {
            assert(ps.take(i as int) =~= ps);
        }
        buf
    }
}

/// The rule neither starts from nor leads to a join point.
pub open spec fn joins_nowhere(r: RuleV) -> bool {
    &&& !(r.input is Join)
    &&& forall|i: int| 0 <= i < r.actions.len() ==> !((#[trigger] r.actions[i]) is Join)
}

proof fn lemma_walk_no_join(m: Seq<EntryV>, start: InputV, pending: Seq<StepV>, acts: Seq<ActionV>) -> (p: PathV)
    requires
        forall|i: int| 0 <= i < acts.len() ==> !((#[trigger] acts[i]) is Join),
    ensures
        (exists|i: int| 0 <= i < acts.len() && (#[trigger] acts[i]) is Done) ==> p.start == start
            && walk(m, start, pending, acts).0 == add_path(m, None, p),
        !(exists|i: int| 0 <= i < acts.len() && (#[trigger] acts[i]) is Done) ==> walk(
            m,
            start,
            pending,
            acts,
        ).0 == m,
    decreases acts.len(),
{
    if acts.len() == 0 {
        PathV { actions: pending, start }
    } else {
        let rest = acts.drop_first();
        assert forall|i: int| 0 <= i < rest.len() implies !((#[trigger] rest[i]) is Join) by {
            assert(rest[i] == acts[i + 1]);
        }
        assert(!(acts[0] is Join));
        match acts[0] {
            ActionV::Step(st) => {
                let p = lemma_walk_no_join(m, start, pending.push(st), rest);
                if exists|i: int| 0 <= i < acts.len() && (#[trigger] acts[i]) is Done {
                    let i = choose|i: int| 0 <= i < acts.len() && (#[trigger] acts[i]) is Done;
                    assert(rest[i - 1] is Done);
                }
                if exists|i: int| 0 <= i < rest.len() && (#[trigger] rest[i]) is Done {
                    let i = choose|i: int| 0 <= i < rest.len() && (#[trigger] rest[i]) is Done;
                    assert(acts[i + 1] is Done);
                }
                p
            },
            _ => {
                assert(acts[0] is Done);
                PathV { actions: pending, start }
            },
        }
    }
}

proof fn lemma_scan_no_sink_path(rules: Seq<RuleV>)
    requires
        forall|k: int| 0 <= k < rules.len() ==> joins_nowhere(#[trigger] rules[k]),
        forall|k: int| 0 <= k < rules.len() ==> !has_done(#[trigger] rules[k]),
    ensures
        scan(rules).0.len() == 0,
    decreases rules.len(),
{
    if rules.len() > 0 {
        let q = rules.drop_last();
        assert forall|k: int| 0 <= k < q.len() implies joins_nowhere(#[trigger] q[k]) && !has_done(q[k]) by {
            assert(q[k] == rules[k]);
        }
        lemma_scan_no_sink_path(q);
        let r = rules.last();
        assert(joins_nowhere(rules[rules.len() - 1]));
        assert(!has_done(rules[rules.len() - 1]));
        lemma_walk_no_join(scan(q).0, r.input, Seq::empty(), r.actions);
    }
}

proof fn lemma_scan_one_sink_path(rules: Seq<RuleV>, k0: int) -> (p: PathV)
    requires
        forall|k: int| 0 <= k < rules.len() ==> joins_nowhere(#[trigger] rules[k]),
        0 <= k0 < rules.len(),
        has_done(rules[k0]),
        forall|k: int| 0 <= k < rules.len() && k != k0 ==> !has_done(#[trigger] rules[k]),
    ensures
        scan(rules).0 == seq![(None::<Symbol>, seq![p])],
        p.start == rules[k0].input,
    decreases rules.len(),
{
    let q = rules.drop_last();
    let r = rules.last();
    assert forall|k: int| 0 <= k < q.len() implies joins_nowhere(#[trigger] q[k]) by {
        assert(q[k] == rules[k]);
    }
    assert(joins_nowhere(rules[rules.len() - 1]));
    if k0 == rules.len() - 1 {
        assert forall|k: int| 0 <= k < q.len() implies !has_done(#[trigger] q[k]) by {
            assert(q[k] == rules[k]);
        }
        lemma_scan_no_sink_path(q);
        let p = lemma_walk_no_join(scan(q).0, r.input, Seq::empty(), r.actions);
        assert(has_done(r));
        let m0 = scan(q).0;
        assert(key_index(m0, None) == 0);
        assert(add_path(m0, None, p) =~= seq![(None::<Symbol>, seq![p])]);
        p
    } else {
        assert forall|k: int| 0 <= k < q.len() && k != k0 implies !has_done(#[trigger] q[k]) by {
            assert(q[k] == rules[k]);
        }
        assert(q[k0] == rules[k0]);
        let p = lemma_scan_one_sink_path(q, k0);
        assert(!has_done(rules[rules.len() - 1]));
        lemma_walk_no_join(scan(q).0, r.input, Seq::empty(), r.actions);
        p
    }
}

/// A recipe with no join point anywhere, in which exactly one rule reaches
/// `<>`, starting from ingredients, and no chain is left hanging, has no
/// problems; its tree is a root with one leaf child that holds those
/// ingredients, and both sizes are their count.
pub proof fn single_path_recipe(rules: Seq<RuleV>, a: Analysis, k0: int)
    requires
        analysis_of(rules, a.entries(), a.problem_list()),
        forall|k: int| 0 <= k < rules.len() ==> joins_nowhere(#[trigger] rules[k]),
        0 <= k0 < rules.len(),
        has_done(rules[k0]),
        rules[k0].input is Ingredients,
        forall|k: int| 0 <= k < rules.len() && k != k0 ==> !has_done(#[trigger] rules[k]),
        forall|i: int| 0 <= i < a.problem_list().len() ==> !((#[trigger] a.problem_list()[i]) is DanglingSteps),
    ensures
        a.problem_list().len() == 0,
        tree_of(a.entries()).children.len() == 1,
        tree_of(a.entries()).children[0].ingredients == rules[k0].input->Ingredients_0,
        tree_of(a.entries()).children[0].children.len() == 0,
        tree_of(a.entries()).children[0].size == rules[k0].input->Ingredients_0.len(),
        tree_of(a.entries()).size == rules[k0].input->Ingredients_0.len(),
{
    let p = lemma_scan_one_sink_path(rules, k0);
    assert(a.entries()[0].1[0] == p);
    single_path_tree(rules, a);
}

/// The rule's chain ends in steps: it has no `Done` and its last action
/// is a step.
pub open spec fn ends_in_steps(r: RuleV) -> bool {
    !has_done(r) && r.actions.len() > 0 && r.actions.last() is Step
}

/// One `DanglingSteps` for each rule whose chain ends in steps, in rule
/// order.
pub open spec fn chain_problems(rules: Seq<RuleV>) -> Seq<ProblemV>
    decreases rules.len(),
{
    if rules.len() == 0 {
        Seq::empty()
    } else if ends_in_steps(rules.last()) {
        chain_problems(rules.drop_last()).push(dangling_of(rules.last()))
    } else {
        chain_problems(rules.drop_last())
    }
}

proof fn lemma_walk_done(m: Seq<EntryV>, start: InputV, pending: Seq<StepV>, acts: Seq<ActionV>)
    requires
        exists|i: int| 0 <= i < acts.len() && (#[trigger] acts[i]) is Done,
    ensures
        walk(m, start, pending, acts).1 is None,
    decreases acts.len(),
{
    let i = choose|i: int| 0 <= i < acts.len() && (#[trigger] acts[i]) is Done;
    if i > 0 {
        let rest = acts.drop_first();
        assert(rest[i - 1] is Done);
        match acts[0] {
            ActionV::Step(st) => lemma_walk_done(m, start, pending.push(st), rest),
            ActionV::Join(pt) => lemma_walk_done(
                add_path(m, Some(pt.value), PathV { actions: pending, start }),
                InputV::Join(pt),
                Seq::empty(),
                rest,
            ),
            ActionV::Done => {},
        }
    }
}

proof fn lemma_walk_ends_joined(m: Seq<EntryV>, start: InputV, pending: Seq<StepV>, acts: Seq<ActionV>)
    requires
        acts.len() > 0,
        acts.last() is Join,
        forall|i: int| 0 <= i < acts.len() ==> !((#[trigger] acts[i]) is Done),
    ensures
        walk(m, start, pending, acts).1 is None,
    decreases acts.len(),
{
    let rest = acts.drop_first();
    assert(!(acts[0] is Done));
    assert forall|i: int| 0 <= i < rest.len() implies !((#[trigger] rest[i]) is Done) by {
        assert(rest[i] == acts[i + 1]);
    }
    if acts.len() == 1 {
        assert(acts[0] == acts.last());
        match acts[0] {
            ActionV::Join(pt) => {
                let m2 = add_path(m, Some(pt.value), PathV { actions: pending, start });
                assert(rest.len() == 0);
                assert(Seq::<StepV>::empty().len() == 0);
                assert(walk(m2, InputV::Join(pt), Seq::empty(), rest).1 is None);
            },
            _ => {},
        }
    } else {
        assert(rest.last() == acts.last());
        match acts[0] {
            ActionV::Step(st) => lemma_walk_ends_joined(m, start, pending.push(st), rest),
            ActionV::Join(pt) => lemma_walk_ends_joined(
                add_path(m, Some(pt.value), PathV { actions: pending, start }),
                InputV::Join(pt),
                Seq::empty(),
                rest,
            ),
            ActionV::Done => {},
        }
    }
}

proof fn lemma_rule_problem(m: Seq<EntryV>, r: RuleV)
    ensures
        walk(m, r.input, Seq::empty(), r.actions).1 == if ends_in_steps(r) {
            Some(dangling_of(r))
        } else {
            None::<ProblemV>
        },
{
    if has_done(r) {
        lemma_walk_done(m, r.input, Seq::empty(), r.actions);
    } else {
        assert forall|i: int| 0 <= i < r.actions.len() implies !((#[trigger] r.actions[i]) is Done) by {
            if r.actions[i] is Done {
                assert(has_done(r));
            }
        }
        if r.actions.len() == 0 {
        } else if r.actions.last() is Step {
            lemma_walk_tail(m, r.input, Seq::empty(), r.actions);
            if last_join(r.actions) < 0 {
                assert(Seq::<StepV>::empty() + r.actions.map_values(|a: ActionV| step_of(a))
                    =~= r.actions.skip(0).map_values(|a: ActionV| step_of(a)));
            }
        } else if r.actions.last() is Join {
            lemma_walk_ends_joined(m, r.input, Seq::empty(), r.actions);
        } else {
            assert(r.actions[r.actions.len() - 1] is Done);
        }
    }
}

proof fn lemma_scan_problems(rules: Seq<RuleV>)
    ensures
        scan(rules).1 == chain_problems(rules),
    decreases rules.len(),
{
    if rules.len() > 0 {
        lemma_scan_problems(rules.drop_last());
        lemma_rule_problem(scan(rules.drop_last()).0, rules.last());
    }
}

/// Chains that end in steps give exactly one `DanglingSteps` each, with
/// their trailing steps and the start of their last segment, in rule
/// order; no other problem is a `DanglingSteps`.
pub proof fn dangling_chains_one_per_rule(rules: Seq<RuleV>, a: Analysis)
    requires
        analysis_of(rules, a.entries(), a.problem_list()),
    ensures
        a.problem_list().len() >= chain_problems(rules).len(),
        a.problem_list().take(chain_problems(rules).len() as int) == chain_problems(rules),
        forall|i: int|
            chain_problems(rules).len() <= i < a.problem_list().len() ==> !((
            #[trigger] a.problem_list()[i]) is DanglingSteps),
{
    lemma_scan_problems(rules);
    let ps = scan(rules).1;
    if !has_sink(scan(rules).0) {
        assert(a.problem_list().take(ps.len() as int) =~= ps);
    } else {
        assert forall|i: int| ps.len() <= i < a.problem_list().len() implies !((
        #[trigger] a.problem_list()[i]) is DanglingSteps) by {
            assert(a.problem_list()[i] == a.problem_list().skip(ps.len() as int)[i - ps.len()]);
        }
    }
}

} // verus!
