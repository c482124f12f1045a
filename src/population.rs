use vstd::prelude::*;
use crate::error::HuntError;
use crate::survey::{extract_observation, filter_view, observation_of, Observation};

verus! {

/// One row of the table: an observed (display, authority file) pair and how
/// many processes showed it.
pub type Row = ((Seq<char>, Option<Seq<char>>), nat);

/// The sum of the counts of a table.
pub open spec fn total_of(rows: Seq<Row>) -> nat
    decreases rows.len(),
{
    if rows.len() == 0 {
        0
    } else {
        total_of(rows.drop_last()) + rows.last().1
    }
}

pub open spec fn holds_key(rows: Seq<Row>, o: (Seq<char>, Option<Seq<char>>), i: int) -> bool {
    0 <= i < rows.len() && rows[i].0 == o
}

/// The table after one more process showed `o`: its row counts one more, or
/// a new row with a count of one is appended.
pub open spec fn recorded(rows: Seq<Row>, o: (Seq<char>, Option<Seq<char>>)) -> Seq<Row> {
    if exists|i: int| holds_key(rows, o, i) {
        let i = choose|i: int| holds_key(rows, o, i);
        rows.update(i, (o, rows[i].1 + 1))
    } else {
        rows.push((o, 1))
    }
}

/// The table after inspecting one environment block.
pub open spec fn inspected(rows: Seq<Row>, block: Seq<char>, filter: Option<Seq<char>>) -> Seq<
    Row,
> {
    match observation_of(block, filter) {
        Some(o) => recorded(rows, o),
        None => rows,
    }
}

/// Row `i` wins: no row counts more, and every row before it counts less
/// (ties go to the pair observed first).
pub open spec fn is_winner(rows: Seq<Row>, i: int) -> bool {
    &&& 0 <= i < rows.len()
    &&& forall|j: int| 0 <= j < rows.len() ==> rows[j].1 <= rows[i].1
    &&& forall|j: int| 0 <= j < i ==> rows[j].1 < rows[i].1
}

/// The population table: each distinct observation once, in the order first
/// seen, with its count.
pub struct PopulationTable {
    rows: Vec<(Observation, usize)>,
    total: usize,
}

impl PopulationTable {
    pub closed spec fn view(&self) -> Seq<Row> {
        self.rows@.map_values(|r: (Observation, usize)| (r.0@, r.1 as nat))
    }

    pub closed spec fn total_spec(&self) -> nat {
        self.total as nat
    }

    /// Keys are distinct, every count is positive, and the counts add up to
    /// the number of observations recorded.
    pub closed spec fn wf(&self) -> bool {
        &&& forall|i: int, j: int|
            0 <= i < j < self.view().len() ==> self.view()[i].0 != self.view()[j].0
        &&& forall|i: int| 0 <= i < self.view().len() ==> self.view()[i].1 >= 1
        &&& total_of(self.view()) == self.total
    }

    pub fn new() -> (r: PopulationTable)
        ensures
            r.wf(),
            r.view() == Seq::<Row>::empty(),
            r.total_spec() == 0,
    {
        let r = PopulationTable { rows: Vec::new(), total: 0 };
        assert(r.view() =~= Seq::<Row>::empty());
        r
    }

    /// How many observations were recorded: the sum of the counts.
    pub fn total(&self) -> (r: usize)
        requires
            self.wf(),
        ensures
            r == self.total_spec(),
            r == total_of(self.view()),
    {
        self.total
    }

    /// How many distinct observations were recorded.
    pub fn distinct(&self) -> (r: usize)
        ensures
            r == self.view().len(),
    {
        self.rows.len()
    }

    /// Counts one more process that showed `obs`.
    pub fn record(&mut self, obs: Observation)
        requires
            old(self).wf(),
            old(self).total_spec() < usize::MAX,
        ensures
            final(self).wf(),
            final(self).view() == recorded(old(self).view(), obs@),
            final(self).total_spec() == old(self).total_spec() + 1,
    {
        let ghost before = self.view();
        let ghost count_before = self.total_spec();
        let mut i: usize = 0;
        while i < self.rows.len()
            invariant
                i <= self.rows.len(),
                self.view() == before,
                self.wf(),
                self.total_spec() == count_before,
                before == old(self).view(),
                count_before == old(self).total_spec(),
                count_before < usize::MAX,
                forall|j: int| 0 <= j < i ==> before[j].0 != obs@,
            decreases self.rows.len() - i,
        {
            if self.rows[i].0.same_as(&obs) {
                proof {
                    assert(holds_key(before, obs@, i as int));
                    let k = choose|k: int| holds_key(before, obs@, k);
                    assert(k == i);
                    lemma_total_update(before, i as int, (obs@, before[i as int].1 + 1));
                    lemma_count_le_total(before, i as int);
                }
                let count = self.rows[i].1;
                self.rows.set(i, (obs, count + 1));
                self.total = self.total + 1;
                proof {
                    assert(self.view() =~= before.update(i as int, (obs@, before[i as int].1 + 1)));
                }
                return;
            }
            i = i + 1;
        }
        proof {
            assert(!exists|k: int| holds_key(before, obs@, k));
        }
        self.rows.push((obs, 1));
        self.total = self.total + 1;
        proof {
            assert(self.view() =~= before.push((obs@, 1)));
            assert(self.view().drop_last() =~= before);
        }
    }

    /// Inspects one environment block and counts the observation it yields,
    /// if any. Returns whether one was counted.
    pub fn inspect(&mut self, block: &str, filter: Option<&str>) -> (r: bool)
        requires
            old(self).wf(),
            old(self).total_spec() < usize::MAX,
        ensures
            final(self).wf(),
            final(self).view() == inspected(old(self).view(), block@, filter_view(filter)),
            r == observation_of(block@, filter_view(filter)) is Some,
            final(self).total_spec() == old(self).total_spec() + if r { 1nat } else { 0nat },
    {
        match extract_observation(block, filter) {
            Some(obs) => {
                self.record(obs);
                true
            },
            None => false,
        }
    }

    /// The most popular observation and its count; among equally popular
    /// ones, the one observed first. Fails when nothing was observed.
    pub fn winner(&self) -> (r: Result<(Observation, usize), HuntError>)
        requires
            self.wf(),
        ensures
            self.view().len() == 0 <==> r == Err::<(Observation, usize), HuntError>(
                HuntError::NoDisplay,
            ),
            r is Ok || r == Err::<(Observation, usize), HuntError>(HuntError::NoDisplay),
            r matches Ok(w) ==> exists|i: int|
                is_winner(self.view(), i) && self.view()[i] == (w.0@, w.1 as nat),
    {
        if self.rows.len() == 0 {
            return Err(HuntError::NoDisplay);
        }
        let mut best: usize = 0;
        let mut i: usize = 1;
        while i < self.rows.len()
            invariant
                1 <= i <= self.rows.len(),
                best < i,
                forall|j: int| 0 <= j < i ==> self.view()[j].1 <= self.view()[best as int].1,
                forall|j: int| 0 <= j < best ==> self.view()[j].1 < self.view()[best as int].1,
            decreases self.rows.len() - i,
        {
            if self.rows[i].1 > self.rows[best].1 {
                best = i;
            }
            i = i + 1;
        }
        let w = self.rows[best].0.duplicate();
        let c = self.rows[best].1;
        assert(is_winner(self.view(), best as int));
        Ok((w, c))
    }
}

/// With a display filter, no row for another display ever enters the table:
/// if every row holds the filtered display, so does every row after one more
/// block is inspected.
pub proof fn lemma_filter_keeps_table(rows: Seq<Row>, block: Seq<char>, display: Seq<char>)
    requires
        forall|i: int| 0 <= i < rows.len() ==> (#[trigger] rows[i]).0.0 == display,
    ensures
        ({
            let after = inspected(rows, block, Some(display));
            forall|i: int| 0 <= i < after.len() ==> (#[trigger] after[i]).0.0 == display
        }),
{
    let after = inspected(rows, block, Some(display));
    match observation_of(block, Some(display)) {
        Some(o) => {
            assert(o.0 == display);
            if exists|i: int| holds_key(rows, o, i) {
                let k = choose|i: int| holds_key(rows, o, i);
                assert forall|i: int| 0 <= i < after.len() implies (#[trigger] after[i]).0.0
                    == display by {
                    if i != k {
                        assert(after[i] == rows[i]);
                    }
                }
            } else {
                assert forall|i: int| 0 <= i < after.len() implies (#[trigger] after[i]).0.0
                    == display by {
                    if i < rows.len() {
                        assert(after[i] == rows[i]);
                    }
                }
            }
        },
        None => {},
    }
}

proof fn lemma_total_update(rows: Seq<Row>, i: int, r: Row)
    requires
        0 <= i < rows.len(),
    ensures
        total_of(rows.update(i, r)) + rows[i].1 == total_of(rows) + r.1,
    decreases rows.len(),
{
    let u = rows.update(i, r);
    if i == rows.len() - 1 {
        assert(u.drop_last() =~= rows.drop_last());
    } else {
        lemma_total_update(rows.drop_last(), i, r);
        assert(u.drop_last() =~= rows.drop_last().update(i, r));
    }
}

proof fn lemma_count_le_total(rows: Seq<Row>, i: int)
    requires
        0 <= i < rows.len(),
    ensures
        rows[i].1 <= total_of(rows),
    decreases rows.len(),
{
    if i < rows.len() - 1 {
        lemma_count_le_total(rows.drop_last(), i);
    }
}

} // verus!
