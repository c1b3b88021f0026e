use vstd::prelude::*;
use vstd::slice::slice_subrange;

verus! {

/// Why a fan-out write was abandoned.
#[derive(Debug, Clone, Copy, PartialEq, Eq)]
pub enum FanOutError {
    /// A sink accepted no bytes of a non-empty buffer.
    WriteZero,
}

/// One logical write of a buffer to several sinks. Each sink is handed the
/// part of the buffer it has not yet accepted, until every sink holds all of it.
pub struct FanOut {
    chunk: Vec<u8>,
    progress: Vec<usize>,
}

/// The least of `ps`.
pub open spec fn seq_min(ps: Seq<usize>) -> nat
    decreases ps.len(),
{
    if ps.len() == 0 {
        0
    } else if ps.len() == 1 {
        ps[0] as nat
    } else {
        let m = seq_min(ps.drop_last());
        if ps.last() < m {
            ps.last() as nat
        } else {
            m
        }
    }
}

proof fn lemma_seq_min(ps: Seq<usize>)
    requires
        ps.len() > 0,
    ensures
        forall|i: int| 0 <= i < ps.len() ==> seq_min(ps) <= ps[i],
        exists|i: int| 0 <= i < ps.len() && seq_min(ps) == ps[i],
    decreases ps.len(),
{
    if ps.len() > 1 {
        let d = ps.drop_last();
        lemma_seq_min(d);
        assert forall|i: int| 0 <= i < ps.len() implies seq_min(ps) <= ps[i] by {
            if i < ps.len() - 1 {
                assert(d[i] == ps[i]);
            }
        }
        let j = choose|j: int| 0 <= j < d.len() && seq_min(d) == d[j];
        assert(d[j] == ps[j]);
        if ps.last() < seq_min(d) {
            assert(seq_min(ps) == ps[ps.len() - 1]);
        } else {
            assert(seq_min(ps) == ps[j]);
        }
    } else {
        assert(seq_min(ps) == ps[0]);
    }
}

impl FanOut {
    /// The buffer being written.
    pub closed spec fn chunk(&self) -> Seq<u8> {
        self.chunk@
    }

    /// How many bytes of the buffer each sink has accepted.
    pub closed spec fn progress(&self) -> Seq<usize> {
        self.progress@
    }

    /// The bytes sink `i` has received so far.
    pub open spec fn received(&self, i: int) -> Seq<u8> {
        self.chunk().take(self.progress()[i] as int)
    }

    /// The bytes sink `i` is still owed.
    pub open spec fn owed(&self, i: int) -> Seq<u8> {
        self.chunk().skip(self.progress()[i] as int)
    }

    pub open spec fn wf(&self) -> bool {
        &&& self.progress().len() >= 1
        &&& forall|i: int| 0 <= i < self.progress().len() ==> #[trigger] self.progress()[i]
            <= self.chunk().len()
    }

    /// Every sink holds the whole buffer.
    pub open spec fn all_done(&self) -> bool {
        forall|i: int| 0 <= i < self.progress().len() ==> #[trigger] self.progress()[i]
            == self.chunk().len()
    }

    /// Starts writing `chunk` to `sinks` sinks.
    pub fn new(chunk: Vec<u8>, sinks: usize) -> (r: FanOut)
        requires
            sinks >= 1,
        ensures
            r.wf(),
            r.chunk() == chunk@,
            r.progress() == Seq::new(sinks as nat, |i: int| 0usize),
    {
        let mut progress: Vec<usize> = Vec::new();
        let mut i: usize = 0;
        while i < sinks
            invariant
                i <= sinks,
                progress@ == Seq::new(i as nat, |j: int| 0usize),
            decreases sinks - i,
        {
            progress.push(0);
            i = i + 1;
            assert(progress@ == Seq::new(i as nat, |j: int| 0usize));
        }
        FanOut { chunk, progress }
    }

    /// Number of sinks.
    pub fn sinks(&self) -> (r: usize)
        ensures
            r == self.progress().len(),
    {
        self.progress.len()
    }

    /// The part of the buffer sink `i` has not accepted yet; empty once it holds it all.
    pub fn owed_slice(&self, i: usize) -> (r: &[u8])
        requires
            self.wf(),
            i < self.progress().len(),
        ensures
            r@ == self.owed(i as int),
    {
        let p = self.progress[i];
        let s = self.chunk.as_slice();
        let r = slice_subrange(s, p, s.len());
        r
    }

    /// Records that sink `i` accepted the first `accepted` bytes of what it is
    /// owed. A sink that accepts nothing of a non-empty remainder ends the write.
    pub fn record(&mut self, i: usize, accepted: usize) -> (r: Result<(), FanOutError>)
        requires
            old(self).wf(),
            i < old(self).progress().len(),
            accepted <= old(self).owed(i as int).len(),
        ensures
            final(self).wf(),
            final(self).chunk() == old(self).chunk(),
            r is Err <==> accepted == 0 && old(self).owed(i as int).len() > 0,
            r is Err ==> final(self).progress() == old(self).progress(),
            r is Ok ==> final(self).progress() == old(self).progress().update(
                i as int,
                (old(self).progress()[i as int] + accepted) as usize,
            ),
            r is Ok ==> final(self).received(i as int) == old(self).received(i as int) + old(
                self,
            ).owed(i as int).take(accepted as int),
    {
        let p = self.progress[i];
        if accepted == 0 && p < self.chunk.len() {
            return Err(FanOutError::WriteZero);
        }
        let n = self.chunk.len();
        assert(self.progress()[i as int] <= n);
        assert(self.chunk@.skip(p as int).len() == self.chunk@.len() - p);
        self.progress.set(i, p + accepted);
        proof {
            let c = self.chunk@;
            assert(c.take(p + accepted) == c.take(p as int) + c.skip(p as int).take(
                accepted as int,
            ));
            assert forall|j: int| 0 <= j < self.progress().len() implies #[trigger] self.progress()[j]
                <= self.chunk().len() by {
                if j != i {
                    assert(self.progress()[j] == old(self).progress()[j]);
                }
            }
        }
        Ok(())
    }

    /// Whether every sink holds the whole buffer.
    pub fn is_done(&self) -> (r: bool)
        requires
            self.wf(),
        ensures
            r == self.all_done(),
            r ==> forall|i: int| 0 <= i < self.progress().len() ==> #[trigger] self.received(i)
                == self.chunk(),
    {
        let n = self.chunk.len();
        let mut i: usize = 0;
        while i < self.progress.len()
            invariant
                n == self.chunk().len(),
                i <= self.progress().len(),
                forall|j: int| 0 <= j < i ==> #[trigger] self.progress()[j] == n,
            decreases self.progress().len() - i,
        {
            if self.progress[i] != n {
                return false;
            }
            i = i + 1;
        }
        assert forall|j: int| 0 <= j < self.progress().len() implies #[trigger] self.received(j)
            == self.chunk() by {
            assert(self.progress()[j] == n);
            assert(self.chunk().take(n as int) == self.chunk());
        }
        true
    }

    /// Bytes of the buffer that every sink has accepted: the least progress
    /// over the sinks, never the count of one chosen sink.
    pub fn accepted_by_all(&self) -> (r: usize)
        requires
            self.wf(),
        ensures
            r == seq_min(self.progress()),
            forall|i: int| 0 <= i < self.progress().len() ==> r <= #[trigger] self.progress()[i],
            exists|i: int| 0 <= i < self.progress().len() && r == self.progress()[i],
            r == self.chunk().len() <==> self.all_done(),
    {
        let mut m = self.progress[0];
        let mut i: usize = 1;
        proof {
            assert(self.progress@.take(1) =~= seq![self.progress@[0]]);
        }
        while i < self.progress.len()
            invariant
                self.wf(),
                1 <= i <= self.progress().len(),
                m == seq_min(self.progress().take(i as int)),
            decreases self.progress().len() - i,
        {
            assert(self.progress().take(i + 1).drop_last() == self.progress().take(i as int));
            if self.progress[i] < m {
                m = self.progress[i];
            }
            i = i + 1;
        }
        proof {
            assert(self.progress().take(i as int) == self.progress());
            lemma_seq_min(self.progress());
        }
        m
    }
}

/// A buffer written through a fan-out is reported complete only when every
/// sink has accepted all of it, and then each sink has received exactly the
/// buffer: the count reported to the caller is then the buffer's length.
pub proof fn lemma_complete_means_synchronised(f: FanOut)
    requires
        f.wf(),
        seq_min(f.progress()) == f.chunk().len(),
    ensures
        f.all_done(),
        forall|i: int| 0 <= i < f.progress().len() ==> #[trigger] f.received(i) == f.chunk(),
{
    lemma_seq_min(f.progress());
    assert forall|i: int| 0 <= i < f.progress().len() implies #[trigger] f.received(i)
        == f.chunk() by {
        assert(f.progress()[i] == f.chunk().len());
        assert(f.chunk().take(f.chunk().len() as int) == f.chunk());
    }
}

/// The first failure among results that were all attempted, or success when there is none.
pub fn first_failure<E>(results: Vec<Result<(), E>>) -> (r: Result<(), E>)
    ensures
        r is Ok <==> forall|i: int| 0 <= i < results@.len() ==> #[trigger] results@[i] is Ok,
        r is Err ==> exists|i: int|
            0 <= i < results@.len() && results@[i] == r && forall|j: int|
                0 <= j < i ==> #[trigger] results@[j] is Ok,
{
    let ghost all = results@;
    let mut rs = results;
    let mut i: usize = 0;
    while i < rs.len()
        invariant
            rs@ == all,
            all == results@,
            i <= all.len(),
            forall|j: int| 0 <= j < i ==> #[trigger] all[j] is Ok,
        decreases all.len() - i,
    {
        if rs[i].is_err() {
            let r = rs.remove(i);
            assert(r == all[i as int]);
            assert(all[i as int] is Err);
            return r;
        }
        i = i + 1;
    }
    Ok(())
}

} // verus!
