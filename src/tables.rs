//! What the store holds after a run, as the schema's keys decide it, and
//! the laws of ingestion stated over it.
use crate::ingest::{plan, relation_rows, unit_steps, StepModel};
use crate::record::CommitModel;
use vstd::prelude::*;

verus! {

/// Contents of the two written tables, rows in insertion order.
pub struct Tables {
    /// `commit_details`: id, author, date, message.
    pub details: Seq<(Seq<char>, Seq<char>, int, Seq<char>)>,
    /// `commit_relation`: parent, child.
    pub relations: Seq<(Seq<char>, Seq<char>)>,
}

/// A key that was already present.
pub enum Violation {
    /// A commit id in `commit_details`.
    CommitKey(Seq<char>),
    /// A (parent, child) pair in `commit_relation`.
    RelationKey,
}

/// The `commit_details` row of a commit.
pub open spec fn detail_row(c: CommitModel) -> (Seq<char>, Seq<char>, int, Seq<char>) {
    (c.id, c.author, c.date, c.message)
}

/// Whether `t` holds a commit row with this id.
pub open spec fn has_commit(t: Tables, id: Seq<char>) -> bool {
    exists|k: int| 0 <= k < t.details.len() && (#[trigger] t.details[k]).0 == id
}

/// The transaction of one commit: its row and its edges are all written,
/// or, where a key is already taken, none of them.
pub open spec fn apply_unit(t: Tables, c: CommitModel) -> Result<Tables, Violation> {
    if has_commit(t, c.id) {
        Err(Violation::CommitKey(c.id))
    } else if !relation_rows(c).no_duplicates()
        || exists|k: int| 0 <= k < relation_rows(c).len() && t.relations.contains(#[trigger] relation_rows(c)[k]) {
        Err(Violation::RelationKey)
    } else {
        Ok(Tables {
            details: t.details.push(detail_row(c)),
            relations: t.relations + relation_rows(c),
        })
    }
}

/// A run over `cs` from the store `t`: the transactions in order until the
/// first that fails. Gives the store after the run and, on failure, the
/// index of the failing commit and the key it hit.
pub open spec fn ingest(t: Tables, cs: Seq<CommitModel>) -> (Tables, Option<(int, Violation)>)
    decreases cs.len(),
{
    if cs.len() == 0 {
        (t, None)
    } else {
        match apply_unit(t, cs[0]) {
            Err(v) => (t, Some((0, v))),
            Ok(t2) => {
                let (t3, f) = ingest(t2, cs.drop_first());
                (t3, match f {
                    Some((i, v)) => Some((i + 1, v)),
                    None => None,
                })
            },
        }
    }
}

/// Every edge row of `cs`, commit by commit.
pub open spec fn all_relation_rows(cs: Seq<CommitModel>) -> Seq<(Seq<char>, Seq<char>)>
    decreases cs.len(),
{
    if cs.len() == 0 {
        seq![]
    } else {
        relation_rows(cs[0]) + all_relation_rows(cs.drop_first())
    }
}

/// Sum of the parent counts of `cs`.
pub open spec fn parent_total(cs: Seq<CommitModel>) -> int
    decreases cs.len(),
{
    if cs.len() == 0 {
        0
    } else {
        cs[0].parents.len() + parent_total(cs.drop_first())
    }
}

/// The commit ids of `cs`, in order.
pub open spec fn ids(cs: Seq<CommitModel>) -> Seq<Seq<char>> {
    cs.map_values(|c: CommitModel| c.id)
}

/// What a history walk yields: each commit once, each parent once per commit.
pub open spec fn distinct_history(cs: Seq<CommitModel>) -> bool {
    &&& ids(cs).no_duplicates()
    &&& forall|i: int| 0 <= i < cs.len() ==> (#[trigger] cs[i]).parents.no_duplicates()
}

proof fn lemma_relation_rows_distinct(c: CommitModel)
    requires
        c.parents.no_duplicates(),
    ensures
        relation_rows(c).no_duplicates(),
{
    assert forall|a: int, b: int| 0 <= a < relation_rows(c).len() && 0 <= b < relation_rows(c).len() && a != b
        implies #[trigger] relation_rows(c)[a] != #[trigger] relation_rows(c)[b] by {
        assert(c.parents[a] != c.parents[b]);
    }
}

proof fn lemma_all_relation_rows_member(cs: Seq<CommitModel>, row: (Seq<char>, Seq<char>))
    ensures
        all_relation_rows(cs).contains(row) <==> exists|i: int| 0 <= i < cs.len()
            && row.1 == (#[trigger] cs[i]).id && cs[i].parents.contains(row.0),
    decreases cs.len(),
{
    if cs.len() > 0 {
        let rest = cs.drop_first();
        lemma_all_relation_rows_member(rest, row);
        let head = relation_rows(cs[0]);
        let all = all_relation_rows(cs);
        assert(all == head + all_relation_rows(rest));
        if all.contains(row) {
            let k = choose|k: int| 0 <= k < all.len() && all[k] == row;
            if k < head.len() {
                assert(cs[0].parents[k] == row.0);
                assert(cs[0].parents.contains(row.0));
            } else {
                assert(all_relation_rows(rest)[k - head.len()] == row);
                let i = choose|i: int| 0 <= i < rest.len() && row.1 == (#[trigger] rest[i]).id
                    && rest[i].parents.contains(row.0);
                assert(cs[i + 1] == rest[i]);
            }
        }
        if exists|i: int| 0 <= i < cs.len() && row.1 == (#[trigger] cs[i]).id && cs[i].parents.contains(row.0) {
            let i = choose|i: int| 0 <= i < cs.len() && row.1 == (#[trigger] cs[i]).id
                && cs[i].parents.contains(row.0);
            if i == 0 {
                let j = choose|j: int| 0 <= j < cs[0].parents.len() && cs[0].parents[j] == row.0;
                assert(all[j] == head[j]);
            } else {
                assert(rest[i - 1] == cs[i]);
                let k = choose|k: int| 0 <= k < all_relation_rows(rest).len() && all_relation_rows(rest)[k] == row;
                assert(all[k + head.len()] == row);
            }
        }
    }
}

proof fn lemma_all_relation_rows_len(cs: Seq<CommitModel>)
    ensures
        all_relation_rows(cs).len() == parent_total(cs),
    decreases cs.len(),
{
    if cs.len() > 0 {
        lemma_all_relation_rows_len(cs.drop_first());
    }
}

proof fn lemma_all_relation_rows_distinct(cs: Seq<CommitModel>)
    requires
        distinct_history(cs),
    ensures
        all_relation_rows(cs).no_duplicates(),
    decreases cs.len(),
{
    if cs.len() > 0 {
        let rest = cs.drop_first();
        assert forall|i: int| 0 <= i < rest.len() implies (#[trigger] rest[i]).parents.no_duplicates() by {
            assert(rest[i] == cs[i + 1]);
        }
        assert(ids(rest) =~= ids(cs).drop_first());
        lemma_all_relation_rows_distinct(rest);
        lemma_relation_rows_distinct(cs[0]);
        let head = relation_rows(cs[0]);
        let tail = all_relation_rows(rest);
        let all = all_relation_rows(cs);
        assert forall|a: int, b: int| 0 <= a < all.len() && 0 <= b < all.len() && a != b
            implies #[trigger] all[a] != #[trigger] all[b] by {
            if a < head.len() && b >= head.len() {
                lemma_all_relation_rows_member(rest, all[b]);
                assert(tail[b - head.len()] == all[b]);
                let i = choose|i: int| 0 <= i < rest.len() && all[b].1 == (#[trigger] rest[i]).id
                    && rest[i].parents.contains(all[b].0);
                assert(ids(cs)[0] != ids(cs)[i + 1]);
            } else if b < head.len() && a >= head.len() {
                lemma_all_relation_rows_member(rest, all[a]);
                assert(tail[a - head.len()] == all[a]);
                let i = choose|i: int| 0 <= i < rest.len() && all[a].1 == (#[trigger] rest[i]).id
                    && rest[i].parents.contains(all[a].0);
                assert(ids(cs)[0] != ids(cs)[i + 1]);
            } else if a >= head.len() {
                assert(tail[a - head.len()] != tail[b - head.len()]);
            }
        }
    }
}

/// The rows of `cs`, written into `t`.
pub open spec fn with_rows(t: Tables, cs: Seq<CommitModel>) -> Tables {
    Tables {
        details: t.details + cs.map_values(|c: CommitModel| detail_row(c)),
        relations: t.relations + all_relation_rows(cs),
    }
}

/// `t` holds no row that a commit of `cs` would write a key for.
pub open spec fn clear_of(t: Tables, cs: Seq<CommitModel>) -> bool {
    &&& forall|i: int| 0 <= i < cs.len() ==> !has_commit(t, (#[trigger] cs[i]).id)
    &&& forall|k: int| 0 <= k < t.relations.len() ==> !ids(cs).contains((#[trigger] t.relations[k]).1)
}

proof fn lemma_ingest_clear(t: Tables, cs: Seq<CommitModel>)
    requires
        distinct_history(cs),
        clear_of(t, cs),
    ensures
        ingest(t, cs) == (with_rows(t, cs), None::<(int, Violation)>),
    decreases cs.len(),
{
    if cs.len() == 0 {
        assert(with_rows(t, cs).details =~= t.details);
        assert(with_rows(t, cs).relations =~= t.relations);
    } else {
        let c = cs[0];
        let rest = cs.drop_first();
        assert(ids(cs)[0] == c.id);
        lemma_relation_rows_distinct(c);
        assert forall|k: int| 0 <= k < relation_rows(c).len() implies !t.relations.contains(
            #[trigger] relation_rows(c)[k],
        ) by {
            if t.relations.contains(relation_rows(c)[k]) {
                let j = choose|j: int| 0 <= j < t.relations.len() && t.relations[j] == relation_rows(c)[k];
                assert(ids(cs).contains(t.relations[j].1));
            }
        }
        assert(!has_commit(t, cs[0].id));
        let t2 = Tables { details: t.details.push(detail_row(c)), relations: t.relations + relation_rows(c) };
        assert(apply_unit(t, c) == Ok::<Tables, Violation>(t2));
        assert forall|i: int| 0 <= i < rest.len() implies (#[trigger] rest[i]).parents.no_duplicates() by {
            assert(rest[i] == cs[i + 1]);
        }
        assert(ids(rest) =~= ids(cs).drop_first());
        assert forall|i: int| 0 <= i < rest.len() implies !has_commit(t2, (#[trigger] rest[i]).id) by {
            assert(rest[i] == cs[i + 1]);
            assert(ids(cs)[0] != ids(cs)[i + 1]);
            if has_commit(t2, rest[i].id) {
                let k = choose|k: int| 0 <= k < t2.details.len() && (#[trigger] t2.details[k]).0 == rest[i].id;
                if k < t.details.len() {
                    assert(t.details[k] == t2.details[k]);
                    assert(has_commit(t, cs[i + 1].id));
                }
            }
        }
        assert forall|k: int| 0 <= k < t2.relations.len() implies !ids(rest).contains(
            (#[trigger] t2.relations[k]).1,
        ) by {
            if k < t.relations.len() {
                assert(t2.relations[k] == t.relations[k]);
                if ids(rest).contains(t.relations[k].1) {
                    let j = choose|j: int| 0 <= j < ids(rest).len() && ids(rest)[j] == t.relations[k].1;
                    assert(ids(cs)[j + 1] == ids(rest)[j]);
                }
            } else {
                assert(t2.relations[k] == relation_rows(c)[k - t.relations.len()]);
                if ids(rest).contains(c.id) {
                    let j = choose|j: int| 0 <= j < ids(rest).len() && ids(rest)[j] == c.id;
                    assert(ids(cs)[j + 1] == ids(rest)[j]);
                }
            }
        }
        lemma_ingest_clear(t2, rest);
        assert(with_rows(t2, rest).details =~= with_rows(t, cs).details);
        assert(with_rows(t2, rest).relations =~= with_rows(t, cs).relations);
    }
}

/// `r` with failure positions moved on by `n`.
pub open spec fn shifted(r: (Tables, Option<(int, Violation)>), n: int) -> (Tables, Option<(int, Violation)>) {
    (r.0, match r.1 {
        Some((i, v)) => Some((i + n, v)),
        None => None,
    })
}

proof fn lemma_ingest_concat(t: Tables, a: Seq<CommitModel>, b: Seq<CommitModel>)
    ensures
        ingest(t, a + b) == (match ingest(t, a) {
            (t1, None) => shifted(ingest(t1, b), a.len() as int),
            r => r,
        }),
    decreases a.len(),
{
    if a.len() == 0 {
        assert(a + b =~= b);
        let r = ingest(t, b);
        assert(shifted(r, 0) == r);
    } else {
        assert((a + b)[0] == a[0]);
        assert((a + b).drop_first() =~= a.drop_first() + b);
        match apply_unit(t, a[0]) {
            Err(v) => {},
            Ok(t2) => {
                lemma_ingest_concat(t2, a.drop_first(), b);
            },
        }
    }
}

proof fn lemma_new_rows_member(t: Tables, cs: Seq<CommitModel>, i: int, row: (Seq<char>, Seq<char>))
    requires
        clear_of(t, cs),
        0 <= i < cs.len(),
        row.1 == cs[i].id,
    ensures
        (t.relations + all_relation_rows(cs)).contains(row) <==> all_relation_rows(cs).contains(row),
{
    let all = t.relations + all_relation_rows(cs);
    assert(ids(cs)[i] == row.1);
    if all.contains(row) {
        let j = choose|j: int| 0 <= j < all.len() && all[j] == row;
        if j < t.relations.len() {
            assert(t.relations[j] == row);
            assert(ids(cs).contains(t.relations[j].1));
        } else {
            assert(all_relation_rows(cs)[j - t.relations.len()] == row);
        }
    }
    if all_relation_rows(cs).contains(row) {
        let j = choose|j: int| 0 <= j < all_relation_rows(cs).len() && all_relation_rows(cs)[j] == row;
        assert(all[j + t.relations.len()] == row);
    }
}

/// Ingesting a history into a store that holds none of its commits and no
/// edge into them succeeds, adds exactly one `commit_details` row per
/// commit, holding its author, date and message, and keeps the rows that
/// were there.
pub proof fn lemma_one_row_per_commit(t: Tables, cs: Seq<CommitModel>)
    requires
        distinct_history(cs),
        clear_of(t, cs),
    ensures
        ingest(t, cs) == (with_rows(t, cs), None::<(int, Violation)>),
        ingest(t, cs).0.details.len() == t.details.len() + cs.len(),
        forall|k: int| 0 <= k < t.details.len() ==> #[trigger] ingest(t, cs).0.details[k] == t.details[k],
        forall|i: int| 0 <= i < cs.len() ==>
            #[trigger] ingest(t, cs).0.details[t.details.len() + i] == detail_row(cs[i]),
        forall|i: int, k: int| 0 <= i < cs.len() && 0 <= k < ingest(t, cs).0.details.len() ==>
            ((#[trigger] ingest(t, cs).0.details[k]).0 == (#[trigger] cs[i]).id <==> k == t.details.len() + i),
{
    lemma_ingest_clear(t, cs);
    let d = ingest(t, cs).0.details;
    assert forall|i: int, k: int| 0 <= i < cs.len() && 0 <= k < d.len() implies
        ((#[trigger] ingest(t, cs).0.details[k]).0 == (#[trigger] cs[i]).id <==> k == t.details.len() + i) by {
        if k < t.details.len() {
            assert(d[k] == t.details[k]);
            assert(!has_commit(t, cs[i].id));
        } else {
            let j = k - t.details.len();
            assert(d[k] == detail_row(cs[j]));
            assert(ids(cs)[j] == cs[j].id);
            assert(ids(cs)[i] == cs[i].id);
        }
    }
}

/// Ingesting such a history adds as many `commit_relation` rows as its
/// commits have parents in all, none twice, after the rows that were there.
pub proof fn lemma_relation_count(t: Tables, cs: Seq<CommitModel>)
    requires
        distinct_history(cs),
        clear_of(t, cs),
    ensures
        ingest(t, cs).1 is None,
        ingest(t, cs).0.relations == t.relations + all_relation_rows(cs),
        ingest(t, cs).0.relations.len() == t.relations.len() + parent_total(cs),
        all_relation_rows(cs).no_duplicates(),
{
    lemma_ingest_clear(t, cs);
    lemma_all_relation_rows_len(cs);
    lemma_all_relation_rows_distinct(cs);
}

/// After ingesting such a history, the edges whose child is a given commit
/// of it are exactly one per parent of that commit.
pub proof fn lemma_edges_of_commit(t: Tables, cs: Seq<CommitModel>, i: int, row: (Seq<char>, Seq<char>))
    requires
        distinct_history(cs),
        clear_of(t, cs),
        0 <= i < cs.len(),
        row.1 == cs[i].id,
    ensures
        ingest(t, cs).0.relations.contains(row) <==> cs[i].parents.contains(row.0),
{
    lemma_ingest_clear(t, cs);
    lemma_new_rows_member(t, cs, i, row);
    lemma_all_relation_rows_member(cs, row);
    if exists|j: int| 0 <= j < cs.len() && row.1 == (#[trigger] cs[j]).id && cs[j].parents.contains(row.0) {
        let j = choose|j: int| 0 <= j < cs.len() && row.1 == (#[trigger] cs[j]).id && cs[j].parents.contains(row.0);
        assert(ids(cs)[i] == ids(cs)[j]);
    }
}

/// A root commit of the history is the child of no edge. Any commit id,
/// a root stored earlier or one of this history, becomes the parent of
/// one new edge for each commit of the history that lists it as a parent,
/// and of no other new edge.
pub proof fn lemma_root_commit(t: Tables, cs: Seq<CommitModel>, r: int, root: Seq<char>)
    requires
        distinct_history(cs),
        clear_of(t, cs),
        0 <= r < cs.len(),
        cs[r].parents.len() == 0,
    ensures
        forall|row: (Seq<char>, Seq<char>)| #[trigger] ingest(t, cs).0.relations.contains(row) ==> row.1 != cs[r].id,
        forall|d: int| 0 <= d < cs.len() ==> (ingest(t, cs).0.relations.contains((root, #[trigger] cs[d].id))
            <==> cs[d].parents.contains(root)),
        forall|row: (Seq<char>, Seq<char>)| #[trigger] all_relation_rows(cs).contains(row) && row.0 == root
            ==> exists|d: int| 0 <= d < cs.len() && row.1 == (#[trigger] cs[d]).id && cs[d].parents.contains(root),
        all_relation_rows(cs).no_duplicates(),
{
    lemma_all_relation_rows_distinct(cs);
    assert forall|row: (Seq<char>, Seq<char>)| #[trigger] ingest(t, cs).0.relations.contains(row)
        implies row.1 != cs[r].id by {
        if row.1 == cs[r].id {
            lemma_edges_of_commit(t, cs, r, row);
        }
    }
    assert forall|d: int| 0 <= d < cs.len() implies (ingest(t, cs).0.relations.contains((root, #[trigger] cs[d].id))
        <==> cs[d].parents.contains(root)) by {
        lemma_edges_of_commit(t, cs, d, (root, cs[d].id));
    }
    assert forall|row: (Seq<char>, Seq<char>)| #[trigger] all_relation_rows(cs).contains(row) && row.0 == root
        implies exists|d: int| 0 <= d < cs.len() && row.1 == (#[trigger] cs[d]).id && cs[d].parents.contains(root) by {
        lemma_all_relation_rows_member(cs, row);
    }
}

/// A merge commit with two parents is the child of exactly two edges: one
/// from each parent.
pub proof fn lemma_merge_commit(t: Tables, cs: Seq<CommitModel>, m: int)
    requires
        distinct_history(cs),
        clear_of(t, cs),
        0 <= m < cs.len(),
        cs[m].parents.len() == 2,
    ensures
        ingest(t, cs).1 is None,
        ingest(t, cs).0.relations.contains((cs[m].parents[0], cs[m].id)),
        ingest(t, cs).0.relations.contains((cs[m].parents[1], cs[m].id)),
        cs[m].parents[0] != cs[m].parents[1],
        forall|row: (Seq<char>, Seq<char>)| #[trigger] ingest(t, cs).0.relations.contains(row)
            && row.1 == cs[m].id ==> row == (cs[m].parents[0], cs[m].id) || row == (cs[m].parents[1], cs[m].id),
{
    lemma_ingest_clear(t, cs);
    lemma_edges_of_commit(t, cs, m, (cs[m].parents[0], cs[m].id));
    lemma_edges_of_commit(t, cs, m, (cs[m].parents[1], cs[m].id));
    assert(cs[m].parents.contains(cs[m].parents[0]));
    assert(cs[m].parents.contains(cs[m].parents[1]));
    assert forall|row: (Seq<char>, Seq<char>)| #[trigger] ingest(t, cs).0.relations.contains(row)
        && row.1 == cs[m].id implies row == (cs[m].parents[0], cs[m].id) || row == (cs[m].parents[1], cs[m].id) by {
        lemma_edges_of_commit(t, cs, m, row);
    }
}

/// Where the first commit of a history whose id the store already holds
/// stands at index `k`, a run persists the commits before it, fails there
/// on its id, and adds nothing of it or of what follows.
pub proof fn lemma_first_taken_id_fails(t: Tables, cs: Seq<CommitModel>, k: int)
    requires
        0 <= k < cs.len(),
        distinct_history(cs.take(k)),
        clear_of(t, cs.take(k)),
        has_commit(t, cs[k].id),
    ensures
        ingest(t, cs) == (with_rows(t, cs.take(k)), Some((k, Violation::CommitKey(cs[k].id)))),
{
    assert(cs =~= cs.take(k) + cs.skip(k));
    lemma_ingest_concat(t, cs.take(k), cs.skip(k));
    lemma_ingest_clear(t, cs.take(k));
    let t1 = with_rows(t, cs.take(k));
    let j = choose|j: int| 0 <= j < t.details.len() && (#[trigger] t.details[j]).0 == cs[k].id;
    assert(t1.details[j] == t.details[j]);
    assert(has_commit(t1, cs[k].id));
    assert(cs.skip(k)[0] == cs[k]);
}

/// Ingesting a non-empty history a second time, into the store the first
/// run left, fails at the first commit on its id and changes nothing.
pub proof fn lemma_rerun_fails(t: Tables, cs: Seq<CommitModel>)
    requires
        distinct_history(cs),
        clear_of(t, cs),
        cs.len() > 0,
    ensures
        ingest(ingest(t, cs).0, cs) == (ingest(t, cs).0, Some((0int, Violation::CommitKey(cs[0].id)))),
{
    lemma_one_row_per_commit(t, cs);
    let t1 = ingest(t, cs).0;
    assert(t1.details[t.details.len() as int] == detail_row(cs[0]));
    assert(has_commit(t1, cs[0].id));
    assert(cs.take(0) =~= Seq::<CommitModel>::empty());
    lemma_first_taken_id_fails(t1, cs, 0);
    assert(with_rows(t1, cs.take(0)).details =~= t1.details);
    assert(with_rows(t1, cs.take(0)).relations =~= t1.relations);
}

/// The store between statements: what is committed, and the working copy of
/// the open transaction, if one is open.
pub struct StoreState {
    pub committed: Tables,
    pub open: Option<Tables>,
}

/// A store holding `t` with no transaction open.
pub open spec fn idle(t: Tables) -> StoreState {
    StoreState { committed: t, open: None }
}

/// One statement against the store, under the schema's keys.
pub open spec fn apply_step(s: StoreState, step: StepModel) -> Result<StoreState, Violation> {
    match step {
        StepModel::Begin => Ok(StoreState { committed: s.committed, open: Some(s.committed) }),
        StepModel::InsertCommit(id, author, date, message) => match s.open {
            Some(t) => if has_commit(t, id) {
                Err(Violation::CommitKey(id))
            } else {
                Ok(StoreState {
                    committed: s.committed,
                    open: Some(Tables { details: t.details.push((id, author, date, message)), relations: t.relations }),
                })
            },
            None => Ok(s),
        },
        StepModel::InsertRelation(parent, child) => match s.open {
            Some(t) => if t.relations.contains((parent, child)) {
                Err(Violation::RelationKey)
            } else {
                Ok(StoreState {
                    committed: s.committed,
                    open: Some(Tables { details: t.details, relations: t.relations.push((parent, child)) }),
                })
            },
            None => Ok(s),
        },
        StepModel::Commit => match s.open {
            Some(t) => Ok(idle(t)),
            None => Ok(s),
        },
        _ => Ok(s),
    }
}

/// Statements run in order until one fails; a failure rolls the open
/// transaction back and ends the run.
pub open spec fn run_steps(s: StoreState, steps: Seq<StepModel>) -> (StoreState, Option<Violation>)
    decreases steps.len(),
{
    if steps.len() == 0 {
        (s, None)
    } else {
        match apply_step(s, steps[0]) {
            Err(v) => (idle(s.committed), Some(v)),
            Ok(s2) => run_steps(s2, steps.drop_first()),
        }
    }
}

/// The key that stopped a run, without its position.
pub open spec fn violation_of(f: Option<(int, Violation)>) -> Option<Violation> {
    match f {
        Some((_, v)) => Some(v),
        None => None,
    }
}

proof fn lemma_run_concat(s: StoreState, a: Seq<StepModel>, b: Seq<StepModel>)
    ensures
        run_steps(s, a + b) == (match run_steps(s, a) {
            (s1, None) => run_steps(s1, b),
            r => r,
        }),
    decreases a.len(),
{
    if a.len() == 0 {
        assert(a + b =~= b);
    } else {
        assert((a + b).drop_first() =~= a.drop_first() + b);
        assert((a + b)[0] == a[0]);
        match apply_step(s, a[0]) {
            Err(v) => {},
            Ok(s2) => {
                lemma_run_concat(s2, a.drop_first(), b);
            },
        }
    }
}

proof fn lemma_plan_front(cs: Seq<CommitModel>)
    requires
        cs.len() > 0,
    ensures
        plan(cs) == unit_steps(cs[0]) + plan(cs.drop_first()),
    decreases cs.len(),
{
    if cs.len() == 1 {
        assert(cs.drop_last() =~= Seq::<CommitModel>::empty());
        assert(cs.drop_first() =~= Seq::<CommitModel>::empty());
        assert(plan(cs) =~= unit_steps(cs[0]) + plan(cs.drop_first()));
    } else {
        let init = cs.drop_last();
        lemma_plan_front(init);
        assert(init.drop_first() =~= cs.drop_first().drop_last());
        assert(cs.drop_first().last() == cs.last());
        assert(plan(cs) =~= unit_steps(cs[0]) + plan(cs.drop_first()));
    }
}

/// Edge statements for `rows`, in order.
spec fn relation_steps(rows: Seq<(Seq<char>, Seq<char>)>) -> Seq<StepModel> {
    rows.map_values(|r: (Seq<char>, Seq<char>)| StepModel::InsertRelation(r.0, r.1))
}

/// No row of `rows` is in `held`.
spec fn disjoint(held: Seq<(Seq<char>, Seq<char>)>, rows: Seq<(Seq<char>, Seq<char>)>) -> bool {
    forall|k: int| 0 <= k < rows.len() ==> !held.contains(#[trigger] rows[k])
}

proof fn lemma_run_relations(committed: Tables, t: Tables, rows: Seq<(Seq<char>, Seq<char>)>)
    ensures
        run_steps(StoreState { committed, open: Some(t) }, relation_steps(rows)) == (
            if rows.no_duplicates() && disjoint(t.relations, rows) {
                (StoreState { committed, open: Some(Tables { details: t.details, relations: t.relations + rows }) },
                None::<Violation>)
            } else {
                (idle(committed), Some(Violation::RelationKey))
            }
        ),
    decreases rows.len(),
{
    let s = StoreState { committed, open: Some(t) };
    if rows.len() == 0 {
        assert(t.relations + rows =~= t.relations);
        assert(rows.no_duplicates());
    } else {
        let r0 = rows[0];
        let rest = rows.drop_first();
        assert(relation_steps(rows).drop_first() =~= relation_steps(rest));
        assert(relation_steps(rows)[0] == StepModel::InsertRelation(r0.0, r0.1));
        if t.relations.contains(r0) {
            assert(!disjoint(t.relations, rows));
        } else {
            let t2 = Tables { details: t.details, relations: t.relations.push(r0) };
            lemma_run_relations(committed, t2, rest);
            assert(t2.relations + rest =~= t.relations + rows);
            let ok_rows = rows.no_duplicates() && disjoint(t.relations, rows);
            let ok_rest = rest.no_duplicates() && disjoint(t2.relations, rest);
            if ok_rows {
                assert forall|a: int, b: int| 0 <= a < rest.len() && 0 <= b < rest.len() && a != b
                    implies #[trigger] rest[a] != #[trigger] rest[b] by {
                    assert(rows[a + 1] != rows[b + 1]);
                }
                assert forall|k: int| 0 <= k < rest.len() implies !t2.relations.contains(#[trigger] rest[k]) by {
                    assert(rest[k] == rows[k + 1]);
                    assert(rows[0] != rows[k + 1]);
                    if t2.relations.contains(rest[k]) {
                        let j = choose|j: int| 0 <= j < t2.relations.len() && t2.relations[j] == rest[k];
                        if j < t.relations.len() {
                            assert(t.relations[j] == t2.relations[j]);
                        }
                    }
                }
            }
            if ok_rest {
                assert forall|a: int, b: int| 0 <= a < rows.len() && 0 <= b < rows.len() && a != b
                    implies #[trigger] rows[a] != #[trigger] rows[b] by {
                    if a > 0 && b > 0 {
                        assert(rest[a - 1] != rest[b - 1]);
                    } else if a == 0 {
                        assert(!t2.relations.contains(rest[b - 1]));
                        assert(t2.relations[t.relations.len() as int] == r0);
                    } else {
                        assert(!t2.relations.contains(rest[a - 1]));
                        assert(t2.relations[t.relations.len() as int] == r0);
                    }
                }
                assert forall|k: int| 0 <= k < rows.len() implies !t.relations.contains(#[trigger] rows[k]) by {
                    if k > 0 {
                        assert(rest[k - 1] == rows[k]);
                        if t.relations.contains(rows[k]) {
                            let j = choose|j: int| 0 <= j < t.relations.len() && t.relations[j] == rows[k];
                            assert(t2.relations[j] == rows[k]);
                        }
                    }
                }
            }
        }
    }
}

proof fn lemma_run_unit(t: Tables, c: CommitModel)
    ensures
        run_steps(idle(t), unit_steps(c)) == (match apply_unit(t, c) {
            Ok(t2) => (idle(t2), None),
            Err(v) => (idle(t), Some(v)),
        }),
{
    let head = seq![StepModel::Begin, StepModel::InsertCommit(c.id, c.author, c.date, c.message)];
    let rels = relation_steps(relation_rows(c));
    assert(unit_steps(c) == head + rels + seq![StepModel::Commit]);
    lemma_run_concat(idle(t), head + rels, seq![StepModel::Commit]);
    lemma_run_concat(idle(t), head, rels);
    let s1 = StoreState { committed: t, open: Some(t) };
    assert(head.drop_first() =~= seq![StepModel::InsertCommit(c.id, c.author, c.date, c.message)]);
    assert(run_steps(idle(t), head) == run_steps(s1, head.drop_first()));
    let single = head.drop_first();
    assert(single.drop_first() =~= Seq::<StepModel>::empty());
    if !has_commit(t, c.id) {
        let t1 = Tables { details: t.details.push(detail_row(c)), relations: t.relations };
        let s2 = StoreState { committed: t, open: Some(t1) };
        assert(apply_step(s1, single[0]) == Ok::<StoreState, Violation>(s2));
        assert(run_steps(s2, single.drop_first()) == (s2, None::<Violation>));
        assert(run_steps(s1, single) == run_steps(s2, single.drop_first()));
        assert(run_steps(idle(t), head) == (s2, None::<Violation>));
        lemma_run_relations(t, t1, relation_rows(c));
        if relation_rows(c).no_duplicates() && disjoint(t.relations, relation_rows(c)) {
            let t2 = Tables { details: t1.details, relations: t.relations + relation_rows(c) };
            let after = StoreState { committed: t, open: Some(t2) };
            assert(seq![StepModel::Commit].drop_first() =~= Seq::<StepModel>::empty());
            let fin = seq![StepModel::Commit];
            assert(apply_step(after, fin[0]) == Ok::<StoreState, Violation>(idle(t2)));
            assert(run_steps(idle(t2), fin.drop_first()) == (idle(t2), None::<Violation>));
            assert(run_steps(after, fin) == (idle(t2), None::<Violation>));
            assert(!(exists|k: int| 0 <= k < relation_rows(c).len() && t.relations.contains(#[trigger] relation_rows(c)[k])));
        } else {
            if relation_rows(c).no_duplicates() {
                let k = choose|k: int| 0 <= k < relation_rows(c).len() && t.relations.contains(#[trigger] relation_rows(c)[k]);
            }
        }
    }
}

/// Running the statements that `Ingestion` hands out for `cs`, from a store
/// holding `t`, leaves what `ingest` describes: the transactions of the
/// commits before the first failing one, and the key it hit.
pub proof fn lemma_plan_runs_as_ingest(t: Tables, cs: Seq<CommitModel>)
    ensures
        run_steps(idle(t), plan(cs)) == (idle(ingest(t, cs).0), violation_of(ingest(t, cs).1)),
    decreases cs.len(),
{
    if cs.len() > 0 {
        lemma_plan_front(cs);
        lemma_run_concat(idle(t), unit_steps(cs[0]), plan(cs.drop_first()));
        lemma_run_unit(t, cs[0]);
        match apply_unit(t, cs[0]) {
            Ok(t2) => {
                lemma_plan_runs_as_ingest(t2, cs.drop_first());
            },
            Err(v) => {},
        }
    }
}

} // verus!
