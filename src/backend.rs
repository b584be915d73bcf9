//! The poll service coupled to the token ledger: creating a poll and voting
//! earn the caller a reward minted by the service.
use vstd::prelude::*;
use crate::ledger::{Ledger, LedgerError, UNIT};
use crate::polls::{create_error, string_views, vote_error, PollError, PollService, PollView, VoteView};
use crate::principal::Principal;

verus! {

/// Reward for creating a poll: 100 whole tokens.
pub const CREATE_REWARD: u64 = 100 * UNIT;

/// Reward for casting a vote: 10 whole tokens.
pub const VOTE_REWARD: u64 = 10 * UNIT;

/// Mints `amount` reward units to `user`, on the authority of `minter`.
pub fn airdrop_pps(ledger: &mut Ledger, minter: &Principal, user: &Principal, amount: u64, now: u64) -> (r: Result<(), LedgerError>)
    requires
        old(ledger).wf(),
    ensures
        final(ledger).wf(),
        final(ledger).minter() == old(ledger).minter(),
        final(ledger).token() == old(ledger).token(),
        minter@ != old(ledger).minter() ==> r == Err::<(), LedgerError>(LedgerError::Unauthorized),
        minter@ == old(ledger).minter() && old(ledger).total_supply() + amount > u64::MAX
            ==> r == Err::<(), LedgerError>(LedgerError::Overflow),
        r.is_err() ==> *final(ledger) == *old(ledger),
        minter@ == old(ledger).minter() && old(ledger).total_supply() + amount <= u64::MAX ==> {
            &&& r is Ok
            &&& final(ledger).total_supply() == old(ledger).total_supply() + amount
            &&& final(ledger).balance(user@) == old(ledger).balance(user@) + amount
            &&& forall|s: Seq<u8>| #[trigger] final(ledger).allowance(user@, s) == old(ledger).allowance(user@, s)
            &&& forall|q: Seq<u8>| q != user@ ==> #[trigger] final(ledger).account(q) == old(ledger).account(q)
        },
{
    ledger.mint(minter, user, amount, now)
}

/// What a reward of `amount` to `user` does to a ledger whose minter is the
/// service: the reward is minted unless the total supply would overflow.
pub open spec fn rewarded(before: Ledger, after: Ledger, user: Seq<u8>, amount: u64, outcome: Result<(), LedgerError>) -> bool {
    &&& after.wf()
    &&& after.minter() == before.minter()
    &&& after.token() == before.token()
    &&& before.total_supply() + amount > u64::MAX ==> outcome == Err::<(), LedgerError>(LedgerError::Overflow)
        && after == before
    &&& before.total_supply() + amount <= u64::MAX ==> {
        &&& outcome is Ok
        &&& after.total_supply() == before.total_supply() + amount
        &&& after.balance(user) == before.balance(user) + amount
        &&& forall|s: Seq<u8>| #[trigger] after.allowance(user, s) == before.allowance(user, s)
        &&& forall|q: Seq<u8>| q != user ==> #[trigger] after.account(q) == before.account(q)
    }
}

/// The poll service together with the ledger that pays its rewards.
pub struct Backend {
    pub service: PollService,
    pub ledger: Ledger,
    pub service_id: Principal,
}

impl Backend {
    /// Both invariants hold and the service is the ledger's minter.
    pub open spec fn wf(self) -> bool {
        &&& self.service.wf()
        &&& self.ledger.wf()
        &&& self.ledger.minter() == self.service_id@
    }

    /// An empty service and ledger; `service_id` identifies the service to the
    /// ledger.
    pub fn new(service_id: Principal) -> (r: Backend)
        ensures
            r.wf(),
            r.service_id@ == service_id@,
            r.service.polls().len() == 0,
            r.service.votes().len() == 0,
            r.ledger.total_supply() == 0,
            forall|p: Seq<u8>| #[trigger] r.ledger.balance(p) == 0,
    {
        let minter = service_id.copy();
        let ledger = Ledger::new(minter);
        let r = Backend { service: PollService::new(), ledger, service_id };
        assert forall|p: Seq<u8>| #[trigger] r.ledger.balance(p) == 0 by {
            assert(r.ledger.account(p) is None);
        }
        r
    }

    /// Puts a service and a ledger together; `None` unless the ledger's minter
    /// is `service_id`.
    pub fn assemble(service: PollService, ledger: Ledger, service_id: Principal) -> (r: Option<Backend>)
        requires
            service.wf(),
            ledger.wf(),
        ensures
            ledger.minter() == service_id@ ==> (r matches Some(b) && b.wf() && b.service == service
                && b.ledger == ledger && b.service_id@ == service_id@),
            ledger.minter() != service_id@ ==> r is None,
    {
        if ledger.is_minter(&service_id) {
            Some(Backend { service, ledger, service_id })
        } else {
            None
        }
    }

    /// Creates a poll and rewards its creator. The poll stands whether or not
    /// the reward could be minted; the reward's outcome comes with the id.
    pub fn create_poll(
        &mut self,
        caller: &Principal,
        title: String,
        description: String,
        options: Vec<String>,
        deadline: Option<u64>,
        now: u64,
    ) -> (r: Result<(u64, Result<(), LedgerError>), PollError>)
        requires
            old(self).wf(),
            old(self).service.polls().len() < u64::MAX,
        ensures
            final(self).wf(),
            final(self).service_id == old(self).service_id,
            final(self).service.votes() == old(self).service.votes(),
            create_error(title@, string_views(options@), deadline, now) matches Some(e) ==> r == Err::<
                (u64, Result<(), LedgerError>),
                PollError,
            >(e) && *final(self) == *old(self),
            create_error(title@, string_views(options@), deadline, now) is None ==> {
                &&& r matches Ok((id, reward)) && id == old(self).service.polls().len() + 1
                    && rewarded(old(self).ledger, final(self).ledger, caller@, CREATE_REWARD, reward)
                &&& final(self).service.polls() == old(self).service.polls().push(
                    PollView {
                        id: (old(self).service.polls().len() + 1) as u64,
                        title: title@,
                        description: description@,
                        options: string_views(options@),
                        creator: caller@,
                        created_at: now,
                        deadline: deadline,
                        is_active: true,
                    },
                )
            },
    {
        let id = match self.service.create_poll(caller, title, description, options, deadline, now) {
            Ok(id) => id,
            Err(e) => return Err(e),
        };
        let reward = airdrop_pps(&mut self.ledger, &self.service_id, caller, CREATE_REWARD, now);
        Ok((id, reward))
    }

    /// Records a vote and rewards the voter. The vote stands whether or not
    /// the reward could be minted; the reward's outcome is returned.
    pub fn vote(&mut self, caller: &Principal, poll_id: u64, option_index: u32, now: u64) -> (r: Result<
        Result<(), LedgerError>,
        PollError,
    >)
        requires
            old(self).wf(),
        ensures
            final(self).wf(),
            final(self).service_id == old(self).service_id,
            final(self).service.polls() == old(self).service.polls(),
            vote_error(old(self).service.polls(), old(self).service.votes(), caller@, poll_id, option_index, now) matches Some(e)
                ==> r == Err::<Result<(), LedgerError>, PollError>(e) && *final(self) == *old(self),
            vote_error(old(self).service.polls(), old(self).service.votes(), caller@, poll_id, option_index, now) is None ==> {
                &&& r matches Ok(reward) && rewarded(old(self).ledger, final(self).ledger, caller@, VOTE_REWARD, reward)
                &&& final(self).service.votes() == old(self).service.votes().push(
                    VoteView { poll_id, voter: caller@, option_index, voted_at: now },
                )
            },
    {
        match self.service.vote(caller, poll_id, option_index, now) {
            Ok(()) => {},
            Err(e) => return Err(e),
        }
        let reward = airdrop_pps(&mut self.ledger, &self.service_id, caller, VOTE_REWARD, now);
        Ok(reward)
    }
}

} // verus!
