use vstd::prelude::*;

verus! {

/// One question put to a padding oracle, and the verdict that came back.
pub struct Exchange {
    pub query: Seq<u8>,
    pub valid: bool,
}

/// The verdicts that `oracle` may give, as a relation between a query and a verdict.
/// The relation `replies(oracle)` holds of `(query, valid)` when a call of `oracle` on the
/// bytes `query` can return `valid`.
pub open spec fn replies<F: Fn(&[u8]) -> bool>(oracle: F) -> spec_fn(Seq<u8>, bool) -> bool {
    |query: Seq<u8>, valid: bool|
        exists|q: &[u8]| q@ == query && #[trigger] oracle.ensures((q,), valid)
}

/// A relation of verdicts that gives each query at most one verdict.
pub open spec fn deterministic(answers: spec_fn(Seq<u8>, bool) -> bool) -> bool {
    forall|query: Seq<u8>, v: bool, w: bool|
        #[trigger] answers(query, v) && #[trigger] answers(query, w) ==> v == w
}

/// Every verdict in `log` is among `answers`.
pub open spec fn genuine(answers: spec_fn(Seq<u8>, bool) -> bool, log: Seq<Exchange>) -> bool {
    forall|i: int| 0 <= i < log.len() ==> answers((#[trigger] log[i]).query, log[i].valid)
}

/// A padding oracle together with the record of every question put to it.
///
/// The callable is private, so the only way to reach it is `query`, which adds one
/// entry to the history for each call it makes. The length of the history therefore
/// counts the calls.
pub struct Oracle<F> {
    test: F,
    log: Ghost<Seq<Exchange>>,
}

impl<F: Fn(&[u8]) -> bool> Oracle<F> {
    /// The callable that answers the queries.
    pub closed spec fn callable(&self) -> F {
        self.test
    }

    /// Every query made so far with its verdict, oldest first.
    pub closed spec fn history(&self) -> Seq<Exchange> {
        self.log@
    }

    /// The callable accepts every byte string, and every recorded verdict is one that
    /// the callable can give to the recorded query.
    pub open spec fn wf(&self) -> bool {
        &&& forall|q: &[u8]| #[trigger] self.callable().requires((q,))
        &&& genuine(replies(self.callable()), self.history())
    }

    /// `self` is `before` after some further queries: the same callable, and a history
    /// that continues the one of `before`.
    pub open spec fn continues(&self, before: &Self) -> bool {
        &&& self.callable() == before.callable()
        &&& before.history().is_prefix_of(self.history())
    }

    /// The exchanges since `before`, oldest first.
    pub open spec fn asked_since(&self, before: &Self) -> Seq<Exchange> {
        self.history().skip(before.history().len() as int)
    }

    /// The number of queries made since `before`.
    pub open spec fn calls_since(&self, before: &Self) -> int {
        self.history().len() - before.history().len()
    }

    /// The exchanges since `before` are as many as the calls since, and their verdicts
    /// are verdicts of the callable.
    pub proof fn lemma_asked_since(self, before: Self)
        requires
            self.wf(),
            self.continues(&before),
        ensures
            self.asked_since(&before).len() == self.calls_since(&before),
            genuine(replies(before.callable()), self.asked_since(&before)),
    {
        let asked = self.asked_since(&before);
        assert forall|i: int| 0 <= i < asked.len() implies replies(before.callable())(
            (#[trigger] asked[i]).query,
            asked[i].valid,
        ) by {
            assert(asked[i] == self.history()[before.history().len() + i]);
        }
    }

    /// Wraps `test` with an empty history.
    pub fn new(test: F) -> (oracle: Self)
        requires
            forall|q: &[u8]| #[trigger] test.requires((q,)),
        ensures
            oracle.wf(),
            oracle.callable() == test,
            oracle.history() == Seq::<Exchange>::empty(),
    {
        Oracle { test, log: Ghost(Seq::empty()) }
    }

    /// Asks the oracle whether `bytes` decrypts to a validly padded message, and records
    /// the exchange.
    pub fn query(&mut self, bytes: &[u8]) -> (valid: bool)
        requires
            old(self).wf(),
        ensures
            final(self).wf(),
            final(self).callable() == old(self).callable(),
            final(self).history() == old(self).history().push(
                Exchange { query: bytes@, valid },
            ),
            replies(old(self).callable())(bytes@, valid),
    {
        assert(self.callable().requires((bytes,)));
        let valid = (self.test)(bytes);
        proof {
            assert(self.test.ensures((bytes,), valid));
            assert(replies(self.callable())(bytes@, valid));
            self.log@ = self.log@.push(Exchange { query: bytes@, valid });
            assert forall|i: int| 0 <= i < self.history().len() implies replies(self.callable())(
                (#[trigger] self.history()[i]).query,
                self.history()[i].valid,
            ) by {
                if i < old(self).history().len() {
                    assert(self.history()[i] == old(self).history()[i]);
                }
            }
            assert(genuine(replies(self.callable()), self.history()));
        }
        valid
    }
}

} // verus!
