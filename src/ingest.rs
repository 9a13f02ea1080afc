//! Persisting extracted records: each commit is written in a transaction of
//! its own, holding its row and one edge per parent. The store itself is
//! driven from outside; `Ingestion` decides which statement comes next.
use crate::record::{CommitDetails, CommitModel};
use vstd::prelude::*;

verus! {

/// Number of records held in memory at a time. The window bounds memory
/// only: it is not a transaction.
pub const WINDOW_SIZE: usize = 50;

/// The window of records that starts at `start`: up to `size` records,
/// cut short at `n`.
pub open spec fn window(start: int, size: int, n: int) -> (int, int) {
    (start, if start + size < n { start + size } else { n })
}

/// Splits `n` records into windows of `size`, in order: window `k` covers
/// the indices from `k * size` up to `(k + 1) * size` or `n`, whichever is
/// less, and there are just enough windows to cover all `n`.
pub fn window_bounds(n: usize, size: usize) -> (r: Vec<(usize, usize)>)
    requires
        size > 0,
    ensures
        forall|k: int| 0 <= k < r@.len() ==> {
            let (lo, hi) = #[trigger] r@[k];
            (lo as int, hi as int) == window(k * size, size as int, n as int)
        },
        r@.len() * size >= n,
        r@.len() == 0 || (r@.len() - 1) * size < n,
{
    let mut r: Vec<(usize, usize)> = Vec::new();
    let mut start: usize = 0;
    while start < n
        invariant
            size > 0,
            start <= n,
            start < n ==> start == r@.len() * size,
            start == n ==> r@.len() * size >= n,
            r@.len() == 0 || (r@.len() - 1) * size < n,
            forall|k: int| 0 <= k < r@.len() ==> {
                let (lo, hi) = #[trigger] r@[k];
                (lo as int, hi as int) == window(k * size, size as int, n as int)
            },
        decreases n - start,
    {
        let end: usize = if n - start > size { start + size } else { n };
        let ghost len = r@.len();
        r.push((start, end));
        proof {
            assert((len + 1) * size == len * size + size) by (nonlinear_arith);
            assert(r@[len as int] == (start, end));
        }
        start = end;
    }
    r
}

/// Why the store refused a statement.
pub enum StoreFailure {
    /// A primary key was already present.
    UniqueViolation(String),
    /// Any other refusal.
    Other(String),
}

/// Mathematical view of a `StoreFailure`.
pub enum FailureModel {
    UniqueViolation(Seq<char>),
    Other(Seq<char>),
}

impl View for StoreFailure {
    type V = FailureModel;

    open spec fn view(&self) -> FailureModel {
        match self {
            StoreFailure::UniqueViolation(m) => FailureModel::UniqueViolation(m@),
            StoreFailure::Other(m) => FailureModel::Other(m@),
        }
    }
}

/// What the store is to do next.
pub enum StoreStep {
    /// Open a transaction.
    Begin,
    /// Insert a commit row: id, author, date, message.
    InsertCommit(String, String, i64, String),
    /// Insert an edge: parent id, child id.
    InsertRelation(String, String),
    /// Commit the open transaction.
    Commit,
    /// Every record is persisted.
    Finished,
    /// The last statement failed: drop the open transaction and stop.
    Stopped(StoreFailure),
}

/// Mathematical view of a `StoreStep`.
pub enum StepModel {
    Begin,
    InsertCommit(Seq<char>, Seq<char>, int, Seq<char>),
    InsertRelation(Seq<char>, Seq<char>),
    Commit,
    Finished,
    Stopped(FailureModel),
}

impl View for StoreStep {
    type V = StepModel;

    open spec fn view(&self) -> StepModel {
        match self {
            StoreStep::Begin => StepModel::Begin,
            StoreStep::InsertCommit(id, a, d, m) => StepModel::InsertCommit(id@, a@, *d as int, m@),
            StoreStep::InsertRelation(p, c) => StepModel::InsertRelation(p@, c@),
            StoreStep::Commit => StepModel::Commit,
            StoreStep::Finished => StepModel::Finished,
            StoreStep::Stopped(f) => StepModel::Stopped(f@),
        }
    }
}

/// The edge rows of one commit: (parent, commit) for each parent, in order.
pub open spec fn relation_rows(c: CommitModel) -> Seq<(Seq<char>, Seq<char>)> {
    c.parents.map_values(|p: Seq<char>| (p, c.id))
}

/// The statements of the transaction that persists one commit.
pub open spec fn unit_steps(c: CommitModel) -> Seq<StepModel> {
    seq![StepModel::Begin, StepModel::InsertCommit(c.id, c.author, c.date, c.message)]
        + relation_rows(c).map_values(|r: (Seq<char>, Seq<char>)| StepModel::InsertRelation(r.0, r.1))
        + seq![StepModel::Commit]
}

/// Every statement that persists `cs`, one transaction per commit, in order.
pub open spec fn plan(cs: Seq<CommitModel>) -> Seq<StepModel>
    decreases cs.len(),
{
    if cs.len() == 0 {
        seq![]
    } else {
        plan(cs.drop_last()) + unit_steps(cs.last())
    }
}

proof fn lemma_plan_extend(cs: Seq<CommitModel>, i: int)
    requires
        0 <= i < cs.len(),
    ensures
        plan(cs.take(i + 1)) == plan(cs.take(i)) + unit_steps(cs[i]),
{
    assert(cs.take(i + 1).drop_last() =~= cs.take(i));
}

proof fn lemma_plan_prefix(cs: Seq<CommitModel>, i: int)
    requires
        0 <= i <= cs.len(),
    ensures
        plan(cs.take(i)).len() <= plan(cs).len(),
        forall|k: int| 0 <= k < plan(cs.take(i)).len() ==> plan(cs)[k] == #[trigger] plan(cs.take(i))[k],
    decreases cs.len() - i,
{
    if i == cs.len() {
        assert(cs.take(i) =~= cs);
    } else {
        lemma_plan_extend(cs, i);
        lemma_plan_prefix(cs, i + 1);
        assert forall|k: int| 0 <= k < plan(cs.take(i)).len() implies plan(cs)[k] == #[trigger] plan(cs.take(i))[k] by {
            assert(plan(cs.take(i + 1))[k] == plan(cs.take(i))[k]);
        }
    }
}

/// Where a run stands inside the transaction of one commit.
enum Stage {
    /// The transaction is to be opened.
    Open,
    /// The commit row is to be inserted.
    Row,
    /// The edge of the parent at this index is to be inserted; past the
    /// last parent, the transaction is to be committed.
    Edge(usize),
}

impl Stage {
    /// Position inside the commit's statements.
    spec fn index(self) -> int {
        match self {
            Stage::Open => 0,
            Stage::Row => 1,
            Stage::Edge(j) => j + 2,
        }
    }
}

/// The persisting of a list of records, one statement at a time.
pub struct Ingestion {
    commits: Vec<CommitDetails>,
    next: usize,
    stage: Stage,
    over: bool,
}

/// Mathematical view of an `Ingestion`: the records, how many statements
/// of their plan were handed out, and whether the run has ended.
pub struct IngestionModel {
    pub commits: Seq<CommitModel>,
    pub issued: int,
    pub over: bool,
}

impl View for Ingestion {
    type V = IngestionModel;

    closed spec fn view(&self) -> IngestionModel {
        IngestionModel {
            commits: self.commits@.map_values(|c: CommitDetails| c@),
            issued: plan(self.commits@.map_values(|c: CommitDetails| c@).take(self.next as int)).len()
                + self.stage.index(),
            over: self.over,
        }
    }
}

impl Ingestion {
    /// Internal consistency of the position in the plan.
    pub closed spec fn wf(&self) -> bool {
        &&& self.next <= self.commits@.len()
        &&& self.next < self.commits@.len() ==> match self.stage {
            Stage::Edge(j) => j <= self.commits@[self.next as int].parents@.len(),
            _ => true,
        }
        &&& self.next == self.commits@.len() ==> self.stage is Open
    }

    /// A run over `commits` that has handed out nothing yet.
    pub fn new(commits: Vec<CommitDetails>) -> (r: Ingestion)
        ensures
            r.wf(),
            r@.commits == commits@.map_values(|c: CommitDetails| c@),
            r@.issued == 0,
            !r@.over,
    {
        let r = Ingestion { commits, next: 0, stage: Stage::Open, over: false };
        assert(r.commits@.map_values(|c: CommitDetails| c@).take(0) =~= Seq::<CommitModel>::empty());
        r
    }

    /// Whether `Finished` or `Stopped` was handed out.
    pub fn is_over(&self) -> (r: bool)
        ensures
            r == self@.over,
    {
        self.over
    }

    /// The next statement, given how the previous one went (`Ok(())` for
    /// the first call). A failure stops the run; otherwise the plan is
    /// handed out statement by statement and then `Finished`.
    pub fn next_step(&mut self, outcome: Result<(), StoreFailure>) -> (r: StoreStep)
        requires
            old(self).wf(),
            !old(self)@.over,
        ensures
            final(self).wf(),
            final(self)@.commits == old(self)@.commits,
            0 <= old(self)@.issued <= plan(old(self)@.commits).len(),
            match outcome {
                Err(f) => {
                    &&& r@ == StepModel::Stopped(f@)
                    &&& final(self)@.over
                    &&& final(self)@.issued == old(self)@.issued
                },
                Ok(_) => if old(self)@.issued < plan(old(self)@.commits).len() {
                    &&& r@ == plan(old(self)@.commits)[old(self)@.issued]
                    &&& !final(self)@.over
                    &&& final(self)@.issued == old(self)@.issued + 1
                } else {
                    &&& r@ == StepModel::Finished
                    &&& final(self)@.over
                    &&& final(self)@.issued == old(self)@.issued
                },
            },
    {
        let ghost cs = self@.commits;
        let ghost i = self.next as int;
        proof {
            lemma_plan_prefix(cs, i);
            if i < cs.len() {
                lemma_plan_extend(cs, i);
                lemma_plan_prefix(cs, i + 1);
            } else {
                assert(cs.take(i) =~= cs);
            }
        }
        match outcome {
            Err(f) => {
                self.over = true;
                return StoreStep::Stopped(f);
            },
            Ok(_) => {},
        }
        if self.next == self.commits.len() {
            self.over = true;
            return StoreStep::Finished;
        }
        let c = &self.commits[self.next];
        let n = c.parents.len();
        let ghost at = self.stage.index();
        let step = match self.stage {
            Stage::Open => {
                self.stage = Stage::Row;
                StoreStep::Begin
            },
            Stage::Row => {
                self.stage = Stage::Edge(0);
                StoreStep::InsertCommit(c.id.clone(), c.author.clone(), c.date, c.message.clone())
            },
            Stage::Edge(j) => {
                if j < n {
                    self.stage = Stage::Edge(j + 1);
                    StoreStep::InsertRelation(c.parents[j].clone(), c.id.clone())
                } else {
                    self.next = self.next + 1;
                    self.stage = Stage::Open;
                    StoreStep::Commit
                }
            },
        };
        proof {
            let u = unit_steps(cs[i]);
            let k = plan(cs.take(i)).len() + at;
            assert(plan(cs.take(i + 1))[k] == u[at]);
            assert(plan(cs)[k] == u[at]);
        }
        step
    }
}

} // verus!
