//! Session state of the viewer: the balance tree and the transactions
//! loaded so far, rebuilt from scratch on every reload.
use vstd::prelude::*;

use crate::accounts::{add_below, insert_path, leaf, BalanceOverflow, TreeModel, TreeNode};
use crate::ledger::LedgerError;
use crate::transactions::{PostingModel, Transaction, TransactionModel};

verus! {

/// Why a load stopped early.
#[derive(Debug, Clone, PartialEq)]
pub enum LoadError {
    /// The session, or the decoding of its output, failed.
    Session(LedgerError),
    /// A total of the balance tree outgrew its representation.
    Overflow(BalanceOverflow),
}

/// The tree after posting `ps` in order: each posting's account path is
/// added, then its amount is added along the path. The flag is `false` where
/// a total overflowed, and the postings after it are not applied.
pub open spec fn post_all(t: TreeModel, ps: Seq<PostingModel>) -> (TreeModel, bool)
    decreases ps.len(),
{
    if ps.len() == 0 {
        (t, true)
    } else {
        let (t1, ok) = post_all(t, ps.drop_last());
        if !ok {
            (t1, false)
        } else {
            let p = ps.last();
            let t2 = insert_path(t1, p.account, 0);
            let (t3, st) = add_below(t2, p.account, p.amount.value, 0);
            (t3, st is Ok)
        }
    }
}

/// The loaded data: the balance tree, the transactions in arrival order,
/// and the error that ended the last load, if any.
pub struct State {
    pub accounts: TreeNode,
    pub transactions: Vec<Transaction>,
    pub error: Option<LoadError>,
}

impl State {
    pub open spec fn transactions_view(&self) -> Seq<TransactionModel> {
        self.transactions@.map_values(|t: Transaction| t@)
    }

    /// Nothing loaded yet.
    pub fn new() -> (r: Self)
        ensures
            r.accounts@ == leaf(seq![]),
            r.transactions@.len() == 0,
            r.error is None,
    {
        State { accounts: TreeNode::new(), transactions: Vec::new(), error: None }
    }

    /// Starts a reload: everything loaded before is dropped.
    pub fn reset(&mut self)
        ensures
            final(self).accounts@ == leaf(seq![]),
            final(self).transactions@.len() == 0,
            final(self).error is None,
    {
        self.accounts.clear();
        self.transactions = Vec::new();
        self.error = None;
    }

    /// Takes the next item of the transaction stream and says whether to
    /// read on. A transaction has its postings applied to the tree and is
    /// then kept; an error, or an overflowing total, is recorded and ends the
    /// load; the end of the stream ends it too.
    pub fn apply(&mut self, item: Option<Result<Transaction, LedgerError>>) -> (r: bool)
        ensures
            match item {
                None => {
                    &&& !r
                    &&& final(self).accounts@ == old(self).accounts@
                    &&& final(self).transactions_view() == old(self).transactions_view()
                    &&& final(self).error == old(self).error
                },
                Some(Err(e)) => !r && final(self).accounts@ == old(self).accounts@
                    && final(self).transactions_view() == old(self).transactions_view()
                    && final(self).error == Some(LoadError::Session(e)),
                Some(Ok(t)) => {
                    let (tree, ok) = post_all(old(self).accounts@, t@.postings);
                    &&& final(self).accounts@ == tree
                    &&& r == ok
                    &&& ok ==> final(self).transactions_view() == old(
                        self,
                    ).transactions_view().push(t@) && final(self).error == old(self).error
                    &&& !ok ==> final(self).transactions_view() == old(self).transactions_view()
                        && final(self).error == Some(LoadError::Overflow(BalanceOverflow))
                },
            },
    {
        match item {
            None => false,
            Some(Err(e)) => {
                self.error = Some(LoadError::Session(e));
                false
            },
            Some(Ok(t)) => {
                let ghost ps = t@.postings;
                let ghost start = self.accounts@;
                let mut i: usize = 0;
                let mut overflow: Option<BalanceOverflow> = None;
                assert(ps.take(0) =~= seq![]);
                while i < t.postings.len() && overflow.is_none()
                    invariant
                        i <= t.postings.len(),
                        ps == t@.postings,
                        start == old(self).accounts@,
                        self.transactions == old(self).transactions,
                        self.error == old(self).error,
                        ps == t.postings@.map_values(|p: crate::transactions::Posting| p@),
                        overflow is None ==> post_all(start, ps.take(i as int)) == (self.accounts@, true),
                        overflow is Some ==> 0 < i && post_all(start, ps.take(i as int)) == (self.accounts@, false),
                    decreases t.postings.len() - i,
                {
                    let posting = &t.postings[i];
                    assert(ps.take(i + 1).drop_last() =~= ps.take(i as int));
                    assert(ps.take(i + 1).last() == posting@);
                    self.accounts.add_account(&posting.account);
                    match self.accounts.add_amount_to_account(&posting.account, &posting.amount.value) {
                        Ok(()) => {},
                        Err(o) => {
                            overflow = Some(o);
                        },
                    }
                    i = i + 1;
                }
                if let Some(o) = overflow {
                    proof { lemma_post_all_stops(start, ps, i as int); }
                    self.error = Some(LoadError::Overflow(o));
                    return false;
                }
                assert(ps.take(i as int) =~= ps);
                let ghost before = self.transactions@;
                let ghost tv = t@;
                self.transactions.push(t);
                assert(self.transactions_view() =~= before.map_values(|t: Transaction| t@).push(tv));
                true
            },
        }
    }
}

/// Once a posting overflows, the later ones are not applied.
proof fn lemma_post_all_stops(t: TreeModel, ps: Seq<PostingModel>, n: int)
    requires
        0 < n <= ps.len(),
        !post_all(t, ps.take(n)).1,
    ensures
        post_all(t, ps) == post_all(t, ps.take(n)),
    decreases ps.len(),
{
    if n == ps.len() {
        assert(ps.take(n) =~= ps);
    } else {
        assert(ps.drop_last().take(n) =~= ps.take(n));
        lemma_post_all_stops(t, ps.drop_last(), n);
    }
}

} // verus!
