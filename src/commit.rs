use crate::digest::{sha256, sha256_of};
use crate::error::PoolError;
use soroban_sdk::Env;
use vstd::prelude::*;

verus! {

/// A participant's commitment for the current epoch and, once revealed, the
/// preimage that matched it.
pub struct CommitRecord {
    pub participant: u64,
    pub commitment: Vec<u8>,
    pub revealed: Option<Vec<u8>>,
}

/// What the protocol knows of one participant in the current epoch: the
/// committed hash and the revealed preimage, if any.
pub type CommitState = (Seq<u8>, Option<Seq<u8>>);

pub open spec fn opt_bytes(o: Option<Vec<u8>>) -> Option<Seq<u8>> {
    match o {
        Some(v) => Some(v@),
        None => None,
    }
}

pub open spec fn state_of(r: CommitRecord) -> CommitState {
    (r.commitment@, opt_bytes(r.revealed))
}

pub open spec fn unique(s: Seq<CommitRecord>) -> bool {
    forall|i: int, j: int| 0 <= i < s.len() && 0 <= j < s.len() && i != j ==> s[i].participant != s[j].participant
}

pub open spec fn has_commit(s: Seq<CommitRecord>, p: u64) -> bool {
    exists|i: int| 0 <= i < s.len() && s[i].participant == p
}

pub open spec fn states_of(s: Seq<CommitRecord>) -> Map<u64, CommitState> {
    Map::new(
        |p: u64| has_commit(s, p),
        |p: u64| state_of(s[choose|i: int| 0 <= i < s.len() && s[i].participant == p]),
    )
}

/// The states after `p` commits to `h`: any earlier commitment of `p` in this
/// epoch, and its reveal, is replaced.
pub open spec fn after_commit(m: Map<u64, CommitState>, p: u64, h: Seq<u8>) -> Map<u64, CommitState> {
    m.insert(p, (h, None))
}

/// The outcome of `p` revealing `x`, whose digest is `d`.
pub open spec fn reveal_outcome(m: Map<u64, CommitState>, p: u64, x: Seq<u8>, d: Seq<u8>) -> Result<(), PoolError> {
    if !m.dom().contains(p) || m[p].1 is Some {
        Err(PoolError::NoCommitment)
    } else if x.len() == 0 {
        Err(PoolError::EmptyPreimage)
    } else if d != m[p].0 {
        Err(PoolError::InvalidReveal)
    } else {
        Ok(())
    }
}

/// The states after a successful reveal of `x` by `p`.
pub open spec fn after_reveal(m: Map<u64, CommitState>, p: u64, x: Seq<u8>) -> Map<u64, CommitState> {
    m.insert(p, (m[p].0, Some(x)))
}

/// The revealed preimages of the records, concatenated in record order.
pub open spec fn revealed_bytes(s: Seq<CommitRecord>) -> Seq<u8>
    decreases s.len(),
{
    if s.len() == 0 {
        Seq::empty()
    } else {
        revealed_bytes(s.drop_last()) + match opt_bytes(s.last().revealed) {
            Some(v) => v,
            None => Seq::empty(),
        }
    }
}

proof fn lemma_state_at(s: Seq<CommitRecord>, k: int)
    requires
        unique(s),
        0 <= k < s.len(),
    ensures
        has_commit(s, s[k].participant),
        states_of(s)[s[k].participant] == state_of(s[k]),
{
    assert(0 <= k < s.len() && s[k].participant == s[k].participant);
}

proof fn lemma_state_update(s: Seq<CommitRecord>, k: int, r: CommitRecord)
    requires
        unique(s),
        0 <= k < s.len(),
        r.participant == s[k].participant,
    ensures
        unique(s.update(k, r)),
        states_of(s.update(k, r)) == states_of(s).insert(r.participant, state_of(r)),
{
    let s2 = s.update(k, r);
    assert forall|q: u64| has_commit(s2, q) == has_commit(s, q) by {
        if has_commit(s, q) {
            let j = choose|j: int| 0 <= j < s.len() && s[j].participant == q;
            assert(s2[j].participant == q);
        }
        if has_commit(s2, q) {
            let j = choose|j: int| 0 <= j < s2.len() && s2[j].participant == q;
            assert(s[j].participant == q);
        }
    }
    assert forall|q: u64| has_commit(s2, q) implies states_of(s2)[q] == states_of(s).insert(
        r.participant,
        state_of(r),
    )[q] by {
        let j = choose|j: int| 0 <= j < s2.len() && s2[j].participant == q;
        lemma_state_at(s2, j);
        lemma_state_at(s, j);
    }
    assert(states_of(s2) =~= states_of(s).insert(r.participant, state_of(r)));
}

proof fn lemma_state_push(s: Seq<CommitRecord>, r: CommitRecord)
    requires
        unique(s),
        !has_commit(s, r.participant),
    ensures
        unique(s.push(r)),
        states_of(s.push(r)) == states_of(s).insert(r.participant, state_of(r)),
{
    let s2 = s.push(r);
    assert(unique(s2)) by {
        assert forall|i: int, j: int| 0 <= i < s2.len() && 0 <= j < s2.len() && i != j implies s2[i].participant
            != s2[j].participant by {
            if i == s.len() {
                assert(s[j].participant != r.participant);
            } else if j == s.len() {
                assert(s[i].participant != r.participant);
            }
        }
    }
    assert forall|q: u64| has_commit(s2, q) == (q == r.participant || has_commit(s, q)) by {
        if has_commit(s, q) {
            let j = choose|j: int| 0 <= j < s.len() && s[j].participant == q;
            assert(s2[j].participant == q);
        }
        if q == r.participant {
            assert(s2[s.len() as int].participant == q);
        }
        if has_commit(s2, q) && q != r.participant {
            let j = choose|j: int| 0 <= j < s2.len() && s2[j].participant == q;
            assert(s[j].participant == q);
        }
    }
    assert forall|q: u64| has_commit(s2, q) implies states_of(s2)[q] == states_of(s).insert(
        r.participant,
        state_of(r),
    )[q] by {
        let j = choose|j: int| 0 <= j < s2.len() && s2[j].participant == q;
        lemma_state_at(s2, j);
        if j < s.len() {
            lemma_state_at(s, j);
        }
    }
    assert(states_of(s2) =~= states_of(s).insert(r.participant, state_of(r)));
}

/// Whether two byte strings are equal.
pub fn bytes_equal(a: &Vec<u8>, b: &Vec<u8>) -> (r: bool)
    ensures
        r == (a@ == b@),
{
    if a.len() != b.len() {
        return false;
    }
    let mut i: usize = 0;
    while i < a.len()
        invariant
            a@.len() == b@.len(),
            i <= a@.len(),
            forall|j: int| 0 <= j < i ==> a@[j] == b@[j],
        decreases a@.len() - i,
    {
        if a[i] != b[i] {
            return false;
        }
        i += 1;
    }
    assert(a@ =~= b@);
    true
}

/// The commitments of the current epoch, one record per participant, in the
/// order in which participants first committed.
pub struct CommitmentBook {
    records: Vec<CommitRecord>,
}

impl CommitmentBook {
    pub closed spec fn records(&self) -> Seq<CommitRecord> {
        self.records@
    }

    pub open spec fn wf(&self) -> bool {
        unique(self.records())
    }

    pub open spec fn states(&self) -> Map<u64, CommitState> {
        states_of(self.records())
    }

    /// A book with no commitment.
    pub fn new() -> (r: Self)
        ensures
            r.wf(),
            r.states() == Map::<u64, CommitState>::empty(),
    {
        let r = CommitmentBook { records: Vec::new() };
        assert(r.states() =~= Map::<u64, CommitState>::empty());
        r
    }

    /// Rebuilds a book from stored records, if no participant has two.
    pub fn from_records(records: Vec<CommitRecord>) -> (r: Option<Self>)
        ensures
            r is Some <==> unique(records@),
            r matches Some(b) ==> b.wf() && b.records() == records@,
    {
        let ghost s = records@;
        let mut i: usize = 0;
        while i < records.len()
            invariant
                s == records@,
                i <= s.len(),
                forall|a: int, b: int| 0 <= a < i && 0 <= b < s.len() && a != b ==> s[a].participant != s[b].participant,
            decreases s.len() - i,
        {
            let mut j: usize = 0;
            while j < records.len()
                invariant
                    s == records@,
                    i < s.len(),
                    j <= s.len(),
                    forall|a: int, b: int| 0 <= a < i && 0 <= b < s.len() && a != b ==> s[a].participant != s[b].participant,
                    forall|b: int| 0 <= b < j && b != i ==> s[i as int].participant != s[b].participant,
                decreases s.len() - j,
            {
                if j != i && records[j].participant == records[i].participant {
                    return None;
                }
                j += 1;
            }
            i += 1;
        }
        Some(CommitmentBook { records })
    }

    /// The records, in the order in which participants first committed.
    pub fn entries(&self) -> (r: &Vec<CommitRecord>)
        ensures
            r@ == self.records(),
    {
        &self.records
    }

    fn position(&self, p: u64) -> (k: usize)
        ensures
            k <= self.records().len(),
            k < self.records().len() ==> self.records()[k as int].participant == p,
            k == self.records().len() ==> !has_commit(self.records(), p),
    {
        let mut k: usize = 0;
        while k < self.records.len()
            invariant
                k <= self.records@.len(),
                forall|i: int| 0 <= i < k ==> self.records@[i].participant != p,
            decreases self.records@.len() - k,
        {
            if self.records[k].participant == p {
                return k;
            }
            k += 1;
        }
        k
    }

    /// Records `h` as the commitment of `p`, replacing an earlier one.
    pub fn commit(&mut self, p: u64, h: Vec<u8>)
        requires
            old(self).wf(),
        ensures
            final(self).wf(),
            final(self).states() == after_commit(old(self).states(), p, h@),
    {
        let k = self.position(p);
        let ghost s = self.records@;
        let r = CommitRecord { participant: p, commitment: h, revealed: None };
        if k < self.records.len() {
            self.records.set(k, r);
            proof {
                lemma_state_update(s, k as int, r);
            }
        } else {
            self.records.push(r);
            proof {
                lemma_state_push(s, r);
            }
        }
    }

    /// Reveals `x`, whose digest is `d`, against the commitment of `p`.
    pub fn reveal_with_digest(&mut self, p: u64, x: Vec<u8>, d: &Vec<u8>) -> (r: Result<(), PoolError>)
        requires
            old(self).wf(),
        ensures
            final(self).wf(),
            r == reveal_outcome(old(self).states(), p, x@, d@),
            r is Ok ==> final(self).states() == after_reveal(old(self).states(), p, x@),
            r is Err ==> *final(self) == *old(self),
    {
        let k = self.position(p);
        let ghost s = self.records@;
        if k == self.records.len() || self.records[k].revealed.is_some() {
            proof {
                if k < s.len() {
                    lemma_state_at(s, k as int);
                }
            }
            return Err(PoolError::NoCommitment);
        }
        proof {
            lemma_state_at(s, k as int);
        }
        if x.len() == 0 {
            return Err(PoolError::EmptyPreimage);
        }
        if !bytes_equal(d, &self.records[k].commitment) {
            return Err(PoolError::InvalidReveal);
        }
        let commitment = self.records[k].commitment.clone();
        assert(commitment@ =~= s[k as int].commitment@);
        let ghost xv = x@;
        let rec = CommitRecord { participant: p, commitment, revealed: Some(x) };
        self.records.set(k, rec);
        proof {
            lemma_state_update(s, k as int, rec);
        }
        Ok(())
    }

    /// Reveals `x` against the commitment of `p`, checking that its SHA-256
    /// digest is the committed hash.
    pub fn reveal_preimage(&mut self, env: &Env, p: u64, x: Vec<u8>) -> (r: Result<(), PoolError>)
        requires
            old(self).wf(),
        ensures
            final(self).wf(),
            r == reveal_outcome(old(self).states(), p, x@, sha256_of(x@)),
            r is Ok ==> final(self).states() == after_reveal(old(self).states(), p, x@),
            r is Err ==> *final(self) == *old(self),
    {
        let d = sha256(env, &x);
        self.reveal_with_digest(p, x, &d)
    }

    /// Drops every commitment, as a new epoch begins.
    pub fn clear(&mut self)
        ensures
            final(self).wf(),
            final(self).states() == Map::<u64, CommitState>::empty(),
    {
        self.records = Vec::new();
        assert(self.states() =~= Map::<u64, CommitState>::empty());
    }

    /// The revealed preimages, concatenated in record order.
    pub fn revealed_entropy(&self) -> (r: Vec<u8>)
        ensures
            r@ == revealed_bytes(self.records()),
    {
        let ghost s = self.records@;
        let mut out: Vec<u8> = Vec::new();
        let mut i: usize = 0;
        assert(s.subrange(0, 0) =~= Seq::<CommitRecord>::empty());
        while i < self.records.len()
            invariant
                s == self.records@,
                i <= s.len(),
                out@ == revealed_bytes(s.subrange(0, i as int)),
            decreases s.len() - i,
        {
            assert(s.subrange(0, i + 1).drop_last() =~= s.subrange(0, i as int));
            match &self.records[i].revealed {
                Some(v) => {
                    let ghost base = out@;
                    let mut j: usize = 0;
                    while j < v.len()
                        invariant
                            j <= v@.len(),
                            out@ == base + v@.subrange(0, j as int),
                        decreases v@.len() - j,
                    {
                        out.push(v[j]);
                        j += 1;
                        assert(out@ =~= base + v@.subrange(0, j as int));
                    }
                    assert(v@.subrange(0, v@.len() as int) =~= v@);
                }
                None => {
                    assert(out@ =~= out@ + Seq::<u8>::empty());
                }
            }
            i += 1;
        }
        assert(s.subrange(0, s.len() as int) =~= s);
        out
    }
}

/// Commit-reveal soundness: after `p` commits to `h`, revealing `x` succeeds
/// exactly when `x` is non-empty and its SHA-256 digest is `h`; a non-empty
/// preimage with another digest is refused with `InvalidReveal`; once a reveal
/// has consumed the commitment, every further reveal is refused with
/// `NoCommitment`, as is any reveal by a participant who has not committed.
pub proof fn lemma_commit_reveal_sound(m: Map<u64, CommitState>, p: u64, h: Seq<u8>, x: Seq<u8>)
    ensures
        reveal_outcome(after_commit(m, p, h), p, x, sha256_of(x)) is Ok <==> (x.len() > 0 && sha256_of(x)
            == h),
        x.len() > 0 && sha256_of(x) != h ==> reveal_outcome(after_commit(m, p, h), p, x, sha256_of(x))
            == Err::<(), PoolError>(PoolError::InvalidReveal),
        forall|y: Seq<u8>, d: Seq<u8>|
            #[trigger] reveal_outcome(after_reveal(after_commit(m, p, h), p, x), p, y, d) == Err::<
                (),
                PoolError,
            >(PoolError::NoCommitment),
        !m.dom().contains(p) ==> forall|y: Seq<u8>, d: Seq<u8>|
            #[trigger] reveal_outcome(m, p, y, d) == Err::<(), PoolError>(PoolError::NoCommitment),
{
}

} // verus!
