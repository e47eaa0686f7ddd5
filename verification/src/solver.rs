//! The incremental backtracking engine.
//!
//! A `Solver` owns the board-constraint state for one search: per-column and
//! per-diagonal occupancy tables, a counter of complete solutions, and the
//! `context` stack of `(row, next-column-to-try)` cursors that replaces the
//! call stack of a recursive search, so the search can be suspended and
//! resumed between single steps.  `search` advances the enumeration by one
//! committed placement (with any needed backtracking chained in front of it)
//! and returns the configuration it committed, or `None` once the whole
//! search space is exhausted.

use crate::measure::{cursors_ok, lemma_weight_bounds, lemma_weight_decreases, slot, weight};
use vstd::prelude::*;

verus! {

/// One queen at `(r1, c1)` attacks one at `(r2, c2)`: same column or same
/// diagonal (rows are always distinct here, one queen per row).
pub open spec fn attacks(r1: int, c1: int, r2: int, c2: int) -> bool {
    ||| c1 == c2
    ||| r1 + c1 == r2 + c2
    ||| r1 - c1 == r2 - c2
}

/// Columns `q`, one per row starting at row 0, all on an `n`-wide board and
/// pairwise non-attacking.
pub open spec fn safe_placement(q: Seq<int>, n: int) -> bool {
    &&& q.len() <= n
    &&& (forall|k: int| 0 <= k < q.len() ==> 0 <= #[trigger] q[k] < n)
    &&& (forall|a: int, b: int|
        0 <= a < b < q.len() ==> !attacks(a, #[trigger] q[a], b, #[trigger] q[b]))
}

/// A full board of `n` pairwise non-attacking queens.
pub open spec fn complete_solution(q: Seq<int>, n: int) -> bool {
    q.len() == n && safe_placement(q, n)
}

/// The columns of a configuration, as mathematical integers.
pub open spec fn column_view(s: Seq<usize>) -> Seq<int> {
    s.map_values(|c: usize| c as int)
}

/// The solution counter after one more solution: it sticks at `u64::MAX`
/// rather than wrap.
pub open spec fn next_count(c: int) -> int {
    if c == u64::MAX as int {
        c
    } else {
        c + 1
    }
}

/// Square `(i, j)` is attacked by no queen of the placement `q`.
pub open spec fn free_at(q: Seq<int>, i: int, j: int) -> bool {
    forall|k: int| 0 <= k < q.len() ==> !attacks(k, #[trigger] q[k], i, j)
}

/// The first free column of row `i` at or after column `j`, or `n` if the
/// row has none left: the canonical ascending column scan.
pub open spec fn find_free(q: Seq<int>, n: int, i: int, j: int) -> int
    decreases n - j when j <= n
{
    if j >= n {
        n
    } else if free_at(q, i, j) {
        j
    } else {
        find_free(q, n, i, j + 1)
    }
}

/// The abstract state of the engine: everything one step depends on.  The
/// stack holds the column cursor of row r at index r; all entries but the
/// last are committed queens.
pub ghost struct EngineModel {
    pub n: int,
    pub sols: int,
    pub fin: bool,
    pub stack: Seq<int>,
}

/// The abstract state of a fresh engine: row 0, column 0, nothing counted.
pub open spec fn model_new(n: int) -> EngineModel {
    EngineModel { n: n, sols: 0, fin: false, stack: seq![0] }
}

/// One backtrack: drop the row being explored and advance the cursor of the
/// row below past its freed column.
pub open spec fn model_backtrack(m: EngineModel) -> EngineModel {
    let s = m.stack.drop_last();
    if s.len() == 0 {
        EngineModel { n: m.n, sols: m.sols, fin: m.fin, stack: s }
    } else {
        EngineModel {
            n: m.n,
            sols: m.sols,
            fin: m.fin,
            stack: s.update(s.len() - 1, s.last() + 1),
        }
    }
}

/// What one engine step does, as a function of the abstract state alone:
/// the state after the step, and the emitted configuration with its
/// validity flag, if any.
pub open spec fn model_step(m: EngineModel) -> (EngineModel, Option<(Seq<int>, bool)>)
    decreases m.stack.len(),
{
    if m.stack.len() == 0 {
        (EngineModel { n: m.n, sols: m.sols, fin: true, stack: m.stack }, None)
    } else {
        let i = m.stack.len() - 1;
        let q = m.stack.drop_last();
        if i == m.n {
            model_step(model_backtrack(m))
        } else {
            let j = find_free(q, m.n, i, m.stack.last());
            if j == m.n {
                model_step(model_backtrack(m))
            } else {
                let q2 = q.push(j);
                let valid = i + 1 == m.n;
                (
                    EngineModel {
                        n: m.n,
                        sols: if valid {
                            next_count(m.sols)
                        } else {
                            m.sols
                        },
                        fin: m.fin,
                        stack: q2.push(0),
                    },
                    Some((q2, valid)),
                )
            }
        }
    }
}

/// What a step result looks like in the abstract model.
pub open spec fn emitted(r: Option<Configuration>) -> Option<(Seq<int>, bool)> {
    match r {
        Some(c) => Some((column_view(c.configuration@), c.is_valid)),
        None => None,
    }
}

/// One engine step is a function of the engine's abstract state alone: two
/// engines in the same state step to the same state and emit the same
/// configuration.  `Solver::new` pins the initial state, so the ordered
/// sequence a full run emits for a given board size is canonical: a fresh
/// run reproduces it identically.
pub proof fn lemma_search_deterministic(
    pre1: Solver,
    post1: Solver,
    r1: Option<Configuration>,
    pre2: Solver,
    post2: Solver,
    r2: Option<Configuration>,
)
    requires
        post1.model() == model_step(pre1.model()).0,
        emitted(r1) == model_step(pre1.model()).1,
        post2.model() == model_step(pre2.model()).0,
        emitted(r2) == model_step(pre2.model()).1,
        pre1.model() == pre2.model(),
    ensures
        post1.model() == post2.model(),
        emitted(r1) == emitted(r2),
{
}

/// The abstract state of the engine after `k` steps of a fresh run for
/// board size `n`.
pub open spec fn model_run(n: int, k: nat) -> EngineModel
    decreases k,
{
    if k == 0 {
        model_new(n)
    } else {
        model_step(model_run(n, (k - 1) as nat)).0
    }
}

/// How many of the first `k` steps of a fresh run for board size `n`
/// emitted a complete valid solution.
pub open spec fn valid_emissions(n: int, k: nat) -> int
    decreases k,
{
    if k == 0 {
        0
    } else {
        valid_emissions(n, (k - 1) as nat) + match model_step(model_run(n, (k - 1) as nat)).1 {
            Some(step) => if step.1 {
                1int
            } else {
                0int
            },
            None => 0int,
        }
    }
}

/// One step moves the counter by one exactly when it emits a valid
/// solution, and never otherwise, whatever backtracking it chained.
proof fn lemma_model_step_count(m: EngineModel)
    ensures
        model_step(m).0.sols == match model_step(m).1 {
            Some(step) => if step.1 {
                next_count(m.sols)
            } else {
                m.sols
            },
            None => m.sols,
        },
    decreases m.stack.len(),
{
    if m.stack.len() > 0 {
        let i = m.stack.len() - 1;
        let q = m.stack.drop_last();
        if i == m.n || find_free(q, m.n, i, m.stack.last()) == m.n {
            lemma_model_step_count(model_backtrack(m));
        }
    }
}

/// The solution counter is monotone and exact: after any number of steps of
/// a fresh run that the counter can hold, it equals the number of valid
/// configurations emitted so far.
pub proof fn lemma_counter_counts_valid_emissions(n: int, k: nat)
    requires
        k < u64::MAX as int,
    ensures
        0 <= valid_emissions(n, k) <= k,
        model_run(n, k).sols == valid_emissions(n, k),
    decreases k,
{
    if k > 0 {
        lemma_counter_counts_valid_emissions(n, (k - 1) as nat);
        lemma_model_step_count(model_run(n, (k - 1) as nat));
    }
}

/// Some committed queen occupies column `c`.
spec fn col_used(q: Seq<int>, c: int) -> bool {
    exists|k: int| 0 <= k < q.len() && #[trigger] q[k] == c
}

/// Some committed queen occupies the "\"-diagonal `d` (indexed by
/// row + column).
spec fn down_used(q: Seq<int>, d: int) -> bool {
    exists|k: int| 0 <= k < q.len() && k + #[trigger] q[k] == d
}

/// Some committed queen occupies the "/"-diagonal `d` (indexed by
/// row + (n - 1 - column)).
spec fn up_used(q: Seq<int>, n: int, d: int) -> bool {
    exists|k: int| 0 <= k < q.len() && k + n - 1 - #[trigger] q[k] == d
}

/// A (possibly partial) assignment of columns to the rows committed so far,
/// plus whether it is a complete valid solution.
pub struct Configuration {
    pub configuration: Vec<usize>,
    pub is_valid: bool,
}

/// The incremental search engine.
pub struct Solver {
    board_size: usize,
    solutions_found: u64,
    finished: bool,
    col: Vec<bool>,
    up: Vec<bool>,
    down: Vec<bool>,
    context: Vec<(usize, usize)>,
}

/// What one call of `Solver::search` does: the relation between the engine
/// before the call, the engine after it, and the returned step.
pub open spec fn search_step(pre: Solver, post: Solver, r: Option<Configuration>) -> bool {
    &&& post.wf()
    &&& post.size() == pre.size()
    &&& post.solutions() >= pre.solutions()
    &&& (pre.done() ==> post.done() && post.committed() == pre.committed())
    &&& (pre.depth() == 0 ==> r is None)
    &&& ((r is None) <==> post.done())
    &&& match r {
        Some(c) => {
            &&& column_view(c.configuration@) == post.committed()
            &&& 1 <= c.configuration@.len() <= pre.size()
            &&& safe_placement(column_view(c.configuration@), pre.size())
            &&& (c.is_valid <==> c.configuration@.len() == pre.size())
            &&& (c.is_valid ==> complete_solution(column_view(c.configuration@), pre.size()))
            &&& post.solutions() == if c.is_valid {
                next_count(pre.solutions())
            } else {
                pre.solutions()
            }
            &&& 0 <= post.measure() < pre.measure()
        },
        None => post.solutions() == pre.solutions(),
    }
}

/// A vector holding `len` times `true`.
fn filled(len: usize) -> (v: Vec<bool>)
    ensures
        v@.len() == len,
        forall|i: int| 0 <= i < len ==> #[trigger] v@[i],
{
    let mut v: Vec<bool> = Vec::new();
    let mut i: usize = 0;
    while i < len
        invariant
            i <= len,
            v@.len() == i,
            forall|k: int| 0 <= k < i ==> #[trigger] v@[k],
        decreases len - i,
    {
        v.push(true);
        i = i + 1;
    }
    v
}

/// The column recorded at every frontier entry, in row order.
fn collect_columns(ctx: &Vec<(usize, usize)>) -> (cols: Vec<usize>)
    ensures
        cols@.len() == ctx@.len(),
        forall|k: int| 0 <= k < ctx@.len() ==> cols@[k] == (#[trigger] ctx@[k]).1,
{
    let mut cols: Vec<usize> = Vec::new();
    let mut k: usize = 0;
    while k < ctx.len()
        invariant
            k <= ctx@.len(),
            cols@.len() == k,
            forall|i: int| 0 <= i < k ==> cols@[i] == (#[trigger] ctx@[i]).1,
        decreases ctx@.len() - k,
    {
        cols.push(ctx[k].1);
        k = k + 1;
    }
    cols
}

impl Solver {
    /// The board dimension N.
    pub closed spec fn size(self) -> int {
        self.board_size as int
    }

    /// How many complete solutions the engine has produced so far.
    pub closed spec fn solutions(self) -> int {
        self.solutions_found as int
    }

    /// Whether the whole search space has been exhausted.
    pub closed spec fn done(self) -> bool {
        self.finished
    }

    /// The length of the frontier stack.
    pub closed spec fn depth(self) -> int {
        self.context@.len() as int
    }

    /// The column cursor of every frontier entry, the entry being explored
    /// included.
    pub closed spec fn cursors(self) -> Seq<int> {
        self.context@.map_values(|p: (usize, usize)| p.1 as int)
    }

    /// The columns of the committed rows: every frontier entry but the last,
    /// which is the row still being explored.
    pub closed spec fn committed(self) -> Seq<int> {
        if self.context@.len() == 0 {
            Seq::empty()
        } else {
            self.cursors().drop_last()
        }
    }

    /// The abstract state this engine is in.
    pub closed spec fn model(self) -> EngineModel {
        EngineModel { n: self.size(), sols: self.solutions(), fin: self.done(), stack: self.cursors() }
    }

    /// How much of the search space is still ahead of the engine; every
    /// committed placement lowers it.
    pub closed spec fn measure(self) -> int {
        weight(self.cursors(), self.size())
    }

    /// The occupancy tables are sized for the board and mirror exactly the
    /// committed queens, which are pairwise non-attacking; the frontier
    /// entries carry their own row numbers.
    pub closed spec fn wf_core(self) -> bool {
        let n = self.size();
        let ctx = self.context@;
        let q = self.committed();
        &&& 1 <= n
        &&& self.board_size <= usize::MAX / 2
        &&& self.col@.len() == n
        &&& self.down@.len() == 2 * n - 1
        &&& self.up@.len() == 2 * n - 1
        &&& ctx.len() <= n + 1
        &&& (forall|k: int| 0 <= k < ctx.len() ==> (#[trigger] ctx[k]).0 == k)
        &&& (ctx.len() > 0 ==> ctx.last().1 <= n)
        &&& safe_placement(q, n)
        &&& (forall|c: int| 0 <= c < n ==> #[trigger] self.col@[c] == !col_used(q, c))
        &&& (forall|d: int| 0 <= d < 2 * n - 1 ==> #[trigger] self.down@[d] == !down_used(q, d))
        &&& (forall|d: int| 0 <= d < 2 * n - 1 ==> #[trigger] self.up@[d] == !up_used(q, n, d))
    }

    /// Well-formed engine: once exhausted, the frontier is empty.
    pub closed spec fn wf(self) -> bool {
        &&& self.wf_core()
        &&& (self.done() ==> self.context@.len() == 0)
    }

    /// A fresh engine for a `board_size` x `board_size` board, at row 0,
    /// column 0, with nothing committed and nothing counted.  The size must
    /// be valid: a board of size 0 has no row to place on, and one wider
    /// than half the address space has no room for its diagonal tables;
    /// `try_new` turns both away at run time.
    pub fn new(board_size: usize) -> (s: Solver)
        requires
            1 <= board_size,
            board_size <= usize::MAX / 2,
        ensures
            s.wf(),
            s.size() == board_size,
            s.solutions() == 0,
            !s.done(),
            s.depth() == 1,
            s.committed() == Seq::<int>::empty(),
            s.model() == model_new(board_size as int),
    {
        let col = filled(board_size);
        let up = filled(2 * board_size - 1);
        let down = filled(2 * board_size - 1);
        let mut context: Vec<(usize, usize)> = Vec::new();
        context.push((0, 0));
        let s = Solver { board_size, solutions_found: 0, finished: false, col, up, down, context };
        proof {
            assert(s.committed() =~= Seq::<int>::empty());
            assert(s.cursors() =~= seq![0int]);
        }
        s
    }

    /// Build an engine only for a valid board size: positive, and small
    /// enough for the diagonal tables to be addressed.
    pub fn try_new(board_size: usize) -> (s: Option<Solver>)
        ensures
            match s {
                Some(engine) => {
                    &&& 1 <= board_size <= usize::MAX / 2
                    &&& engine.wf()
                    &&& engine.size() == board_size
                    &&& engine.solutions() == 0
                    &&& !engine.done()
                    &&& engine.model() == model_new(board_size as int)
                },
                None => !(1 <= board_size <= usize::MAX / 2),
            },
    {
        if 1 <= board_size && board_size <= usize::MAX / 2 {
            Some(Solver::new(board_size))
        } else {
            None
        }
    }

    pub fn is_finished(&self) -> (b: bool)
        ensures
            b == self.done(),
    {
        self.finished
    }

    pub fn solutions_found(&self) -> (count: u64)
        ensures
            count == self.solutions(),
    {
        self.solutions_found
    }

    /// Pop the row being explored, free the queen committed on the row just
    /// below, and advance that row's cursor past the freed column.
    fn backtrack_once(&mut self)
        requires
            old(self).wf_core(),
            old(self).context@.len() >= 1,
        ensures
            final(self).wf_core(),
            final(self).size() == old(self).size(),
            final(self).solutions() == old(self).solutions(),
            final(self).done() == old(self).done(),
            final(self).depth() == old(self).depth() - 1,
            final(self).depth() > 0 ==> final(self).committed() == old(self).committed().drop_last(),
            final(self).depth() > 0 ==> final(self).measure() < old(self).measure(),
            final(self).depth() == 0 ==> final(self).committed() == old(self).committed(),
            final(self).model() == model_backtrack(old(self).model()),
    {
        let ghost pre = *old(self);
        let _ = self.context.pop();
        if self.context.len() > 0 {
            let last_pos = self.context.len() - 1;
            let (i, j) = self.context[last_pos];
            proof {
                assert(pre.context@[last_pos as int].0 == last_pos as int);
                assert(pre.committed()[last_pos as int] == j as int);
                assert(0 <= j < self.board_size);
            }
            self.col[j] = true;
            self.down[i + j] = true;
            self.up[i + self.board_size - j - 1] = true;
            self.context[last_pos] = (i, j + 1);
            proof {
                self.lemma_backtrack_shape(pre, last_pos as int, i as int, j as int);
            }
        } else {
            proof {
                assert(pre.context@.len() == 1);
                assert(self.context@ =~= pre.context@.drop_last());
                assert(pre.committed() =~= Seq::<int>::empty());
                assert(self.committed() =~= Seq::<int>::empty());
                assert(safe_placement(self.committed(), self.size()));
                assert(self.cursors() =~= pre.cursors().drop_last());
            }
        }
    }

    /// In a well-formed engine every cursor points at a column or just past
    /// the last one.
    proof fn lemma_cursors_ok(self)
        requires
            self.wf_core(),
        ensures
            cursors_ok(self.cursors(), self.size()),
    {
        let n = self.size();
        let cs = self.cursors();
        let q = self.committed();
        assert forall|r: int| 0 <= r < cs.len() implies 0 <= #[trigger] cs[r] <= n by {
            if r < cs.len() - 1 {
                assert(q[r] == cs[r]);
                assert(0 <= q[r] < n);
            } else {
                assert(self.context@.last() == self.context@[r]);
                assert(cs[r] == self.context@[r].1 as int);
            }
        }
    }

    /// The occupancy tables answer exactly whether a square of the row
    /// being explored is free of attacks from the committed queens.
    proof fn lemma_free_marks(self, i: int, j: int)
        requires
            self.wf_core(),
            0 <= i < self.size(),
            0 <= j < self.size(),
        ensures
            (self.col@[j] && self.down@[i + j] && self.up@[i + self.size() - 1 - j]) == free_at(
                self.committed(),
                i,
                j,
            ),
    {
        let n = self.size();
        let q = self.committed();
        if self.col@[j] && self.down@[i + j] && self.up@[i + n - 1 - j] {
            assert(!col_used(q, j));
            assert(!down_used(q, i + j));
            assert(!up_used(q, n, i + n - 1 - j));
            assert forall|k: int| 0 <= k < q.len() implies !attacks(k, #[trigger] q[k], i, j) by {
                assert(q[k] == j ==> col_used(q, j));
                assert(k + q[k] == i + j ==> down_used(q, i + j));
                assert(k + n - 1 - q[k] == i + n - 1 - j ==> up_used(q, n, i + n - 1 - j));
            }
        } else {
            if !self.col@[j] {
                let k = choose|k: int| 0 <= k < q.len() && #[trigger] q[k] == j;
                assert(attacks(k, q[k], i, j));
            } else if !self.down@[i + j] {
                let k = choose|k: int| 0 <= k < q.len() && k + #[trigger] q[k] == i + j;
                assert(attacks(k, q[k], i, j));
            } else {
                let k = choose|k: int| 0 <= k < q.len() && k + n - 1 - #[trigger] q[k] == i + n - 1
                    - j;
                assert(attacks(k, q[k], i, j));
            }
        }
    }

    /// The state shape after a backtrack that left the frontier non-empty:
    /// the remaining committed queens stay safe, the freed queen's marks are
    /// free again, and the cursor stack shrinks lexicographically.
    proof fn lemma_backtrack_shape(self, pre: Solver, t: int, i: int, j: int)
        requires
            pre.wf_core(),
            pre.context@.len() >= 2,
            t == pre.context@.len() - 2,
            i == t,
            pre.context@[t].0 == i,
            pre.context@[t].1 == j,
            self.board_size == pre.board_size,
            self.solutions_found == pre.solutions_found,
            self.finished == pre.finished,
            self.context@ == pre.context@.drop_last().update(t, ((i as usize), ((j + 1) as usize))),
            self.col@ == pre.col@.update(j, true),
            self.down@ == pre.down@.update(i + j, true),
            self.up@ == pre.up@.update(i + pre.board_size - j - 1, true),
            0 <= j < pre.size(),
        ensures
            self.wf_core(),
            self.depth() == pre.depth() - 1,
            self.committed() == pre.committed().drop_last(),
            self.measure() < pre.measure(),
            self.model() == model_backtrack(pre.model()),
    {
        let n = pre.size();
        let q = pre.committed();
        let qn = self.committed();
        assert(q.len() == pre.context@.len() - 1);
        assert(q[t] == j);
        assert(qn =~= q.drop_last());
        assert(self.cursors() =~= pre.cursors().drop_last().update(t, j + 1));

        // The committed prefix is still a safe placement.
        assert(safe_placement(qn, n));

        // The freed column is used by no remaining queen: the committed
        // queens had pairwise distinct columns and diagonals.
        assert forall|c: int| 0 <= c < n implies #[trigger] self.col@[c] == !col_used(qn, c) by {
            if c == j {
                assert forall|k: int| 0 <= k < qn.len() implies #[trigger] qn[k] != c by {
                    assert(!attacks(k, q[k], t, q[t]));
                }
            } else {
                assert(col_used(qn, c) == col_used(q, c)) by {
                    if col_used(q, c) {
                        let k = choose|k: int| 0 <= k < q.len() && #[trigger] q[k] == c;
                        assert(k != t);
                        assert(qn[k] == c);
                    }
                    if col_used(qn, c) {
                        let k = choose|k: int| 0 <= k < qn.len() && #[trigger] qn[k] == c;
                        assert(q[k] == c);
                    }
                }
            }
        }
        assert forall|d: int| 0 <= d < 2 * n - 1 implies #[trigger] self.down@[d] == !down_used(
            qn,
            d,
        ) by {
            if d == i + j {
                assert forall|k: int| 0 <= k < qn.len() implies k + #[trigger] qn[k] != d by {
                    assert(!attacks(k, q[k], t, q[t]));
                }
            } else {
                assert(down_used(qn, d) == down_used(q, d)) by {
                    if down_used(q, d) {
                        let k = choose|k: int| 0 <= k < q.len() && k + #[trigger] q[k] == d;
                        assert(k != t);
                        assert(k + qn[k] == d);
                    }
                    if down_used(qn, d) {
                        let k = choose|k: int| 0 <= k < qn.len() && k + #[trigger] qn[k] == d;
                        assert(k + q[k] == d);
                    }
                }
            }
        }
        assert forall|d: int| 0 <= d < 2 * n - 1 implies #[trigger] self.up@[d] == !up_used(
            qn,
            n,
            d,
        ) by {
            if d == i + n - 1 - j {
                assert forall|k: int| 0 <= k < qn.len() implies k + n - 1 - #[trigger] qn[k]
                    != d by {
                    assert(!attacks(k, q[k], t, q[t]));
                }
            } else {
                assert(up_used(qn, n, d) == up_used(q, n, d)) by {
                    if up_used(q, n, d) {
                        let k = choose|k: int| 0 <= k < q.len() && k + n - 1 - #[trigger] q[k] == d;
                        assert(k != t);
                        assert(k + n - 1 - qn[k] == d);
                    }
                    if up_used(qn, n, d) {
                        let k = choose|k: int|
                            0 <= k < qn.len() && k + n - 1 - #[trigger] qn[k] == d;
                        assert(k + n - 1 - q[k] == d);
                    }
                }
            }
        }

        // The cursor stack got lexicographically smaller at row t: the
        // cursor there moved one column forward.
        let s1 = pre.cursors();
        let s2 = self.cursors();
        pre.lemma_cursors_ok();
        assert forall|r: int| 0 <= r < s2.len() implies 0 <= #[trigger] s2[r] <= n by {
            if r < t {
                assert(s2[r] == s1[r]);
            } else {
                assert(s2[r] == j + 1);
            }
        }
        assert(cursors_ok(s2, n));
        assert(slot(s2, n, t) == n - (j + 1));
        assert(slot(s1, n, t) == n - j);
        assert forall|r: int| 0 <= r < t implies slot(s2, n, r) == slot(s1, n, r) by {
            assert(s2[r] == s1[r]);
        }
        lemma_weight_decreases(s1, s2, n, t);

        // The backtrack matches its abstract description.
        assert(pre.cursors().drop_last() =~= pre.committed());
        assert(pre.cursors()[t] == j);
        assert(self.model().stack =~= model_backtrack(pre.model()).stack);
    }

    /// Advance the search by one unit of work: commit the next queen the
    /// canonical column order allows (backtracking first as often as
    /// needed), and return the configuration of all the committed rows, or
    /// return `None` once no placement, partial or complete, remains.
    #[verifier::loop_isolation(false)]
    pub fn search(&mut self) -> (r: Option<Configuration>)
        requires
            old(self).wf(),
        ensures
            search_step(*old(self), *final(self), r),
            final(self).model() == model_step(old(self).model()).0,
            emitted(r) == model_step(old(self).model()).1,
        decreases old(self).depth(),
    {
        let ghost pre = *old(self);
        let ghost m = pre.model();
        if self.context.len() == 0 {
            self.finished = true;
            proof {
                assert(m.stack.len() == 0);
                assert(self.model() == model_step(m).0);
            }
            return None;
        }
        let last_pos = self.context.len() - 1;
        let (i, mut j) = self.context[last_pos];
        proof {
            assert(pre.context@.last() == pre.context@[last_pos as int]);
            assert(i == last_pos as int);
            assert(!pre.done());
            assert(j <= self.board_size);
            assert(m.stack.len() - 1 == i);
            assert(m.stack.last() == j);
        }
        if i == self.board_size {
            self.backtrack_once();
            let ghost mid = *self;
            let r = self.search();
            proof {
                Self::lemma_step_after_backtrack(pre, mid, *self, r);
                assert(mid.model() == model_backtrack(m));
                assert(model_step(m) == model_step(model_backtrack(m)));
            }
            return r;
        }
        let ghost q = pre.committed();
        let ghost n = pre.size();
        let ghost j0 = j as int;
        proof {
            assert(m.stack.drop_last() =~= q);
        }
        while j < self.board_size && !(self.col[j] && self.down[i + j] && self.up[i
            + self.board_size - j - 1])
            invariant
                j0 <= j <= self.board_size,
                find_free(q, n, i as int, j0) == find_free(q, n, i as int, j as int),
            decreases self.board_size - j,
        {
            proof {
                self.lemma_free_marks(i as int, j as int);
            }
            j = j + 1;
        }
        if j == self.board_size {
            proof {
                assert(find_free(q, n, i as int, j0) == n);
            }
            self.backtrack_once();
            let ghost mid = *self;
            let r = self.search();
            proof {
                Self::lemma_step_after_backtrack(pre, mid, *self, r);
                assert(mid.model() == model_backtrack(m));
                assert(model_step(m) == model_step(model_backtrack(m)));
            }
            return r;
        }
        // A free square: commit the queen at (i, j).
        proof {
            assert(self.col@[j as int] && self.down@[i + j] && self.up@[i + self.board_size - j
                - 1]);
            self.lemma_free_marks(i as int, j as int);
            assert(find_free(q, n, i as int, j as int) == j);
            assert(find_free(q, n, i as int, j0) == j);
        }
        self.context[last_pos] = (i, j);
        self.col[j] = false;
        self.down[i + j] = false;
        self.up[i + self.board_size - j - 1] = false;
        let configuration = collect_columns(&self.context);
        self.context.push((i + 1, 0));
        let is_valid = i + 1 == self.board_size;
        if is_valid {
            if self.solutions_found < u64::MAX {
                self.solutions_found = self.solutions_found + 1;
            }
        }
        proof {
            self.lemma_commit_shape(pre, last_pos as int, i as int, j0, j as int);
            assert(column_view(configuration@) =~= self.committed());
            assert(model_step(m).0.stack == q.push(j as int).push(0));
            assert(model_step(m).0 == self.model());
            assert(model_step(m).1 == Some((q.push(j as int), is_valid)));
            assert(column_view(configuration@) == q.push(j as int));
        }
        Some(Configuration { configuration, is_valid })
    }

    /// The state shape after committing a queen at `(i, j)`: the new
    /// committed prefix is safe, the marks mirror it, and the cursor stack
    /// shrank lexicographically (the cursor at row `i` moved forward, or a
    /// fresh cursor appeared below it).
    proof fn lemma_commit_shape(self, pre: Solver, t: int, i: int, j0: int, j: int)
        requires
            pre.wf_core(),
            !pre.finished,
            pre.context@.len() >= 1,
            t == pre.context@.len() - 1,
            i == t,
            0 <= i < pre.size(),
            pre.context@[t].1 == j0,
            j0 <= j < pre.size(),
            pre.col@[j],
            pre.down@[i + j],
            pre.up@[i + pre.size() - 1 - j],
            self.board_size == pre.board_size,
            self.finished == pre.finished,
            self.solutions_found as int == if i + 1 == pre.size() {
                next_count(pre.solutions())
            } else {
                pre.solutions()
            },
            self.context@ == pre.context@.update(t, ((i as usize), (j as usize))).push(
                (((i + 1) as usize), 0usize),
            ),
            self.col@ == pre.col@.update(j, false),
            self.down@ == pre.down@.update(i + j, false),
            self.up@ == pre.up@.update(i + pre.size() - 1 - j, false),
        ensures
            self.wf(),
            self.committed() == pre.committed().push(j),
            self.cursors() == pre.committed().push(j).push(0),
            self.measure() < pre.measure(),
            0 <= self.measure(),
    {
        let n = pre.size();
        let q = pre.committed();
        let qn = self.committed();
        assert(q.len() == t);
        assert(qn =~= q.push(j));
        assert(self.cursors() =~= pre.cursors().update(t, j).push(0));
        assert(self.cursors() =~= q.push(j).push(0));

        // The new queen attacks no committed queen: its column and both of
        // its diagonals were marked free.
        assert forall|k: int| 0 <= k < q.len() implies !attacks(k, q[k], i, j) by {
            assert(!col_used(q, j));
            assert(!down_used(q, i + j));
            assert(!up_used(q, n, i + n - 1 - j));
            assert(q[k] == j ==> col_used(q, j));
            assert(k + q[k] == i + j ==> down_used(q, i + j));
            assert(k + n - 1 - q[k] == i + n - 1 - j ==> up_used(q, n, i + n - 1 - j));
        }
        assert(safe_placement(qn, n));

        // The marks mirror the extended placement.
        assert forall|c: int| 0 <= c < n implies #[trigger] self.col@[c] == !col_used(qn, c) by {
            if c == j {
                assert(qn[t] == j);
            } else {
                assert(col_used(qn, c) == col_used(q, c)) by {
                    if col_used(qn, c) {
                        let k = choose|k: int| 0 <= k < qn.len() && #[trigger] qn[k] == c;
                        assert(k != t);
                        assert(q[k] == c);
                    }
                    if col_used(q, c) {
                        let k = choose|k: int| 0 <= k < q.len() && #[trigger] q[k] == c;
                        assert(qn[k] == c);
                    }
                }
            }
        }
        assert forall|d: int| 0 <= d < 2 * n - 1 implies #[trigger] self.down@[d] == !down_used(
            qn,
            d,
        ) by {
            if d == i + j {
                assert(t + qn[t] == d);
            } else {
                assert(down_used(qn, d) == down_used(q, d)) by {
                    if down_used(qn, d) {
                        let k = choose|k: int| 0 <= k < qn.len() && k + #[trigger] qn[k] == d;
                        assert(k != t);
                        assert(k + q[k] == d);
                    }
                    if down_used(q, d) {
                        let k = choose|k: int| 0 <= k < q.len() && k + #[trigger] q[k] == d;
                        assert(k + qn[k] == d);
                    }
                }
            }
        }
        assert forall|d: int| 0 <= d < 2 * n - 1 implies #[trigger] self.up@[d] == !up_used(
            qn,
            n,
            d,
        ) by {
            if d == i + n - 1 - j {
                assert(t + n - 1 - qn[t] == d);
            } else {
                assert(up_used(qn, n, d) == up_used(q, n, d)) by {
                    if up_used(qn, n, d) {
                        let k = choose|k: int|
                            0 <= k < qn.len() && k + n - 1 - #[trigger] qn[k] == d;
                        assert(k != t);
                        assert(k + n - 1 - q[k] == d);
                    }
                    if up_used(q, n, d) {
                        let k = choose|k: int| 0 <= k < q.len() && k + n - 1 - #[trigger] q[k] == d;
                        assert(k + n - 1 - qn[k] == d);
                    }
                }
            }
        }

        // Lexicographic decrease of the cursor stack: strictly at row t if
        // the cursor moved, else at the fresh row t + 1, whose slot drops
        // from the padding value to a real cursor.
        let s1 = pre.cursors();
        let s2 = self.cursors();
        pre.lemma_cursors_ok();
        assert forall|r: int| 0 <= r < s2.len() implies 0 <= #[trigger] s2[r] <= n by {
            if r < t {
                assert(s2[r] == s1[r]);
            } else if r == t {
                assert(s2[r] == j);
            } else {
                assert(s2[r] == 0);
            }
        }
        assert(cursors_ok(s2, n));
        if j > j0 {
            assert(slot(s2, n, t) == n - j);
            assert(slot(s1, n, t) == n - j0);
            assert forall|r: int| 0 <= r < t implies slot(s2, n, r) == slot(s1, n, r) by {
                assert(s2[r] == s1[r]);
            }
            lemma_weight_decreases(s1, s2, n, t);
        } else {
            assert(slot(s1, n, t + 1) == n + 1);
            assert(slot(s2, n, t + 1) == n);
            assert forall|r: int| 0 <= r < t + 1 implies slot(s2, n, r) == slot(s1, n, r) by {
                if r < t {
                    assert(s2[r] == s1[r]);
                }
            }
            lemma_weight_decreases(s1, s2, n, t + 1);
        }
        lemma_weight_bounds(s2, n, 0);
    }

    /// Compose a backtrack with the rest of the search: the step the
    /// recursive call returns is a step of the engine as it stood before
    /// the backtrack too.
    proof fn lemma_step_after_backtrack(
        pre: Solver,
        mid: Solver,
        post: Solver,
        r: Option<Configuration>,
    )
        requires
            pre.wf(),
            pre.depth() >= 1,
            !pre.done(),
            mid.wf(),
            mid.size() == pre.size(),
            mid.solutions() == pre.solutions(),
            !mid.done(),
            mid.depth() == pre.depth() - 1,
            mid.depth() > 0 ==> mid.measure() < pre.measure(),
            search_step(mid, post, r),
        ensures
            search_step(pre, post, r),
    {
        if r is Some {
            assert(mid.depth() > 0);
        }
    }
}

} // verus!
