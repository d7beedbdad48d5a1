//! The broadcast fan-out: a message goes to every known chat, one send at
//! a time, and one failed delivery never costs any other recipient its
//! message. The sends themselves happen outside; this state machine fixes
//! who is next and records how each send went.

use vstd::prelude::*;

use crate::store::UsersSet;

verus! {

/// The recipients whose send succeeded, among the first `out.len()`
/// attempted, in order.
pub open spec fn delivered_of(rs: Seq<i64>, out: Seq<bool>) -> Seq<i64>
    decreases out.len(),
{
    if out.len() == 0 || rs.len() == 0 {
        Seq::empty()
    } else {
        (if out[0] {
            seq![rs[0]]
        } else {
            Seq::empty()
        }) + delivered_of(rs.skip(1), out.skip(1))
    }
}

/// The recipients whose send failed, among the first `out.len()`
/// attempted, in order.
pub open spec fn failed_of(rs: Seq<i64>, out: Seq<bool>) -> Seq<i64>
    decreases out.len(),
{
    if out.len() == 0 || rs.len() == 0 {
        Seq::empty()
    } else {
        (if out[0] {
            Seq::empty()
        } else {
            seq![rs[0]]
        }) + failed_of(rs.skip(1), out.skip(1))
    }
}

/// One fan-out over a snapshot of the users set.
pub struct Broadcast {
    recipients: Vec<i64>,
    results: Vec<bool>,
}

impl Broadcast {
    pub closed spec fn recipients_seq(self) -> Seq<i64> {
        self.recipients@
    }

    pub closed spec fn results_seq(self) -> Seq<bool> {
        self.results@
    }

    pub open spec fn wf(self) -> bool {
        self.results_seq().len() <= self.recipients_seq().len()
    }

    pub open spec fn attempted(self) -> int {
        self.results_seq().len() as int
    }

    pub open spec fn done(self) -> bool {
        self.attempted() == self.recipients_seq().len()
    }

    /// Starts a fan-out to every chat known at this moment; the list is a
    /// snapshot, so the live set need not be held while sending.
    pub fn begin(users: &UsersSet) -> (r: Broadcast)
        ensures
            r.wf(),
            r.recipients_seq() == users.ids_seq(),
            r.results_seq() == Seq::<bool>::empty(),
    {
        Broadcast { recipients: users.snapshot(), results: Vec::new() }
    }

    /// Whom to send to next: always the recipient right after the last
    /// recorded attempt, whatever that attempt's outcome was.
    pub fn next_recipient(&self) -> (r: Option<i64>)
        requires
            self.wf(),
        ensures
            match r {
                Some(c) => !self.done() && c == self.recipients_seq()[self.attempted()],
                None => self.done(),
            },
    {
        if self.results.len() < self.recipients.len() {
            Some(self.recipients[self.results.len()])
        } else {
            None
        }
    }

    /// Records how the current send went and moves on. The recipient list
    /// never changes, and exactly one attempt is added, success or not.
    pub fn record(&mut self, ok: bool)
        requires
            old(self).wf(),
            !old(self).done(),
        ensures
            final(self).wf(),
            final(self).recipients_seq() == old(self).recipients_seq(),
            final(self).results_seq() == old(self).results_seq().push(ok),
    {
        self.results.push(ok);
    }

    /// The recipients whose send succeeded so far, in order.
    pub fn delivered(&self) -> (r: Vec<i64>)
        requires
            self.wf(),
        ensures
            r@ == delivered_of(self.recipients_seq(), self.results_seq()),
    {
        let ghost rs = self.recipients_seq();
        let ghost out = self.results_seq();
        let mut acc: Vec<i64> = Vec::new();
        let mut k: usize = 0;
        proof {
            assert(rs.skip(0) =~= rs);
            assert(out.skip(0) =~= out);
            assert(acc@ + delivered_of(rs, out) =~= delivered_of(rs, out));
            assert(acc@ + failed_of(rs, out) =~= failed_of(rs, out));
        }
        while k < self.results.len()
            invariant
                self.wf(),
                rs == self.recipients_seq(),
                out == self.results_seq(),
                k <= out.len(),
                delivered_of(rs, out) == acc@ + delivered_of(
                    rs.skip(k as int),
                    out.skip(k as int),
                ),
            decreases self.results.len() - k,
        {
            proof {
                assert(rs.skip(k as int)[0] == rs[k as int]);
                assert(out.skip(k as int)[0] == out[k as int]);
                assert(rs.skip(k as int).skip(1) =~= rs.skip(k as int + 1));
                assert(out.skip(k as int).skip(1) =~= out.skip(k as int + 1));
            }
            if self.results[k] {
                acc.push(self.recipients[k]);
            }
            proof {
                assert(delivered_of(rs, out) =~= acc@ + delivered_of(
                    rs.skip(k as int + 1),
                    out.skip(k as int + 1),
                ));
            }
            k = k + 1;
        }
        proof {
            assert(out.skip(out.len() as int).len() == 0);
        }
        acc
    }

    /// The recipients whose send failed so far, in order.
    pub fn failed(&self) -> (r: Vec<i64>)
        requires
            self.wf(),
        ensures
            r@ == failed_of(self.recipients_seq(), self.results_seq()),
    {
        let ghost rs = self.recipients_seq();
        let ghost out = self.results_seq();
        let mut acc: Vec<i64> = Vec::new();
        let mut k: usize = 0;
        proof {
            assert(rs.skip(0) =~= rs);
            assert(out.skip(0) =~= out);
            assert(acc@ + delivered_of(rs, out) =~= delivered_of(rs, out));
            assert(acc@ + failed_of(rs, out) =~= failed_of(rs, out));
        }
        while k < self.results.len()
            invariant
                self.wf(),
                rs == self.recipients_seq(),
                out == self.results_seq(),
                k <= out.len(),
                failed_of(rs, out) == acc@ + failed_of(rs.skip(k as int), out.skip(k as int)),
            decreases self.results.len() - k,
        {
            proof {
                assert(rs.skip(k as int)[0] == rs[k as int]);
                assert(out.skip(k as int)[0] == out[k as int]);
                assert(rs.skip(k as int).skip(1) =~= rs.skip(k as int + 1));
                assert(out.skip(k as int).skip(1) =~= out.skip(k as int + 1));
            }
            if !self.results[k] {
                acc.push(self.recipients[k]);
            }
            proof {
                assert(failed_of(rs, out) =~= acc@ + failed_of(
                    rs.skip(k as int + 1),
                    out.skip(k as int + 1),
                ));
            }
            k = k + 1;
        }
        proof {
            assert(out.skip(out.len() as int).len() == 0);
        }
        acc
    }
}

/// One recipient's failure is isolated: each attempted send is decided by
/// its own outcome alone. Whatever the other outcomes, a recipient whose
/// send succeeded is in the delivered list, one whose send failed is in
/// the failed list, and every attempt lands in exactly one of the two.
pub proof fn lemma_send_failure_isolated(rs: Seq<i64>, out: Seq<bool>)
    requires
        out.len() <= rs.len(),
    ensures
        forall|i: int|
            0 <= i < out.len() && out[i] ==> delivered_of(rs, out).contains(#[trigger] rs[i]),
        forall|i: int|
            0 <= i < out.len() && !out[i] ==> failed_of(rs, out).contains(#[trigger] rs[i]),
        delivered_of(rs, out).len() + failed_of(rs, out).len() == out.len(),
    decreases out.len(),
{
    if out.len() > 0 {
        lemma_send_failure_isolated(rs.skip(1), out.skip(1));
        let del = delivered_of(rs, out);
        let fai = failed_of(rs, out);
        let dtail = delivered_of(rs.skip(1), out.skip(1));
        let ftail = failed_of(rs.skip(1), out.skip(1));
        assert forall|i: int|
            0 <= i < out.len() && out[i] implies del.contains(#[trigger] rs[i]) by {
            if i == 0 {
                assert(del[0] == rs[0]);
            } else {
                assert(out.skip(1)[i - 1] == out[i]);
                assert(rs.skip(1)[i - 1] == rs[i]);
                assert(dtail.contains(rs.skip(1)[i - 1]));
                let k = choose|k: int| 0 <= k < dtail.len() && #[trigger] dtail[k] == rs[i];
                let pre: int = if out[0] {
                    1
                } else {
                    0
                };
                assert(del[pre + k] == rs[i]);
            }
        }
        assert forall|i: int|
            0 <= i < out.len() && !out[i] implies fai.contains(#[trigger] rs[i]) by {
            if i == 0 {
                assert(fai[0] == rs[0]);
            } else {
                assert(out.skip(1)[i - 1] == out[i]);
                assert(rs.skip(1)[i - 1] == rs[i]);
                assert(ftail.contains(rs.skip(1)[i - 1]));
                let k = choose|k: int| 0 <= k < ftail.len() && #[trigger] ftail[k] == rs[i];
                let pre: int = if out[0] {
                    0
                } else {
                    1
                };
                assert(fai[pre + k] == rs[i]);
            }
        }
    }
}

} // verus!
