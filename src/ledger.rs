//! The reward-token ledger: balances, allowances and the total supply.
use vstd::prelude::*;
use crate::principal::Principal;

verus! {

/// Number of decimal places of the token.
pub const DECIMALS: u8 = 8;

/// Base units in one whole token (10 to the power `DECIMALS`).
pub const UNIT: u64 = 100_000_000;

/// Descriptive data of the token, with the running total supply.
pub struct TokenInfo {
    pub name: String,
    pub symbol: String,
    pub decimals: u8,
    pub total_supply: u64,
}

/// The right of `spender` to move up to `amount` units out of an account.
pub struct Allowance {
    pub spender: Principal,
    pub amount: u64,
}

/// The state of one holder of the token.
pub struct Account {
    pub balance: u64,
    pub allowances: Vec<Allowance>,
    pub last_updated: u64,
}

/// Why a ledger operation was refused.
#[derive(Clone, Copy, Debug, PartialEq, Eq, Structural)]
pub enum LedgerError {
    InsufficientBalance,
    NoAllowance,
    InsufficientAllowance,
    Overflow,
    Unauthorized,
}

/// Whether token data carries the token's fixed name, symbol and decimals.
pub open spec fn token_fixed(info: TokenInfo) -> bool {
    info.name@ == "Predi Poll Shares"@ && info.symbol@ == "PPs"@ && info.decimals == DECIMALS
}

/// Sum of the balances of a sequence of accounts.
pub open spec fn sum_balances(s: Seq<Account>) -> nat
    decreases s.len(),
{
    if s.len() == 0 {
        0
    } else {
        sum_balances(s.drop_last()) + s.last().balance as nat
    }
}

/// The amount that `spender` may move according to a list of allowances.
pub open spec fn allowance_in(s: Seq<Allowance>, spender: Seq<u8>) -> Option<u64> {
    if exists|j: int| 0 <= j < s.len() && (#[trigger] s[j]).spender@ == spender {
        Some(s[choose|j: int| 0 <= j < s.len() && (#[trigger] s[j]).spender@ == spender].amount)
    } else {
        None
    }
}

/// No spender occurs twice in a list of allowances.
pub open spec fn spenders_unique(s: Seq<Allowance>) -> bool {
    forall|j: int, k: int|
        0 <= j < s.len() && 0 <= k < s.len() && j != k ==> (#[trigger] s[j]).spender@
            != (#[trigger] s[k]).spender@
}

/// Whether parallel lists of holders and accounts are keyed uniquely, with
/// well-formed allowance lists.
pub open spec fn slots_valid(owners: Seq<Principal>, accounts: Seq<Account>) -> bool {
    &&& owners.len() == accounts.len()
    &&& forall|i: int, j: int|
        0 <= i < owners.len() && 0 <= j < owners.len() && i != j ==> (#[trigger] owners[i])@ != (
        #[trigger] owners[j])@
    &&& forall|i: int| 0 <= i < accounts.len() ==> spenders_unique((#[trigger] accounts[i]).allowances@)
}

proof fn lemma_sum_push(s: Seq<Account>, a: Account)
    ensures
        sum_balances(s.push(a)) == sum_balances(s) + a.balance,
{
    assert(s.push(a).drop_last() =~= s);
}

proof fn lemma_sum_update(s: Seq<Account>, i: int, a: Account)
    requires
        0 <= i < s.len(),
    ensures
        sum_balances(s.update(i, a)) == sum_balances(s) - s[i].balance + a.balance,
    decreases s.len(),
{
    if i == s.len() - 1 {
        assert(s.update(i, a).drop_last() =~= s.drop_last());
    } else {
        lemma_sum_update(s.drop_last(), i, a);
        assert(s.update(i, a).drop_last() =~= s.drop_last().update(i, a));
    }
}

proof fn lemma_sum_two(s: Seq<Account>, i: int, j: int)
    requires
        0 <= i < s.len(),
        0 <= j < s.len(),
    ensures
        sum_balances(s) >= s[i].balance,
        i != j ==> sum_balances(s) >= s[i].balance + s[j].balance,
    decreases s.len(),
{
    let n = s.len() - 1;
    if i != n && j != n {
        lemma_sum_two(s.drop_last(), i, j);
    } else if i != n {
        lemma_sum_two(s.drop_last(), i, i);
    } else if j != n {
        lemma_sum_two(s.drop_last(), j, j);
    }
}

proof fn lemma_allowance_at(s: Seq<Allowance>, spender: Seq<u8>, j: int)
    requires
        spenders_unique(s),
        0 <= j < s.len(),
        s[j].spender@ == spender,
    ensures
        allowance_in(s, spender) == Some(s[j].amount),
{
}

/// The token ledger: one account per holder, keyed by principal.
pub struct Ledger {
    info: TokenInfo,
    owners: Vec<Principal>,
    accounts: Vec<Account>,
    minter: Principal,
}

impl Ledger {
    /// Whether account slot `i` belongs to `p`.
    pub closed spec fn slot(self, p: Seq<u8>, i: int) -> bool {
        0 <= i < self.owners@.len() && self.owners@[i]@ == p
    }

    /// The account of `p`, if it has one.
    pub closed spec fn account(self, p: Seq<u8>) -> Option<Account> {
        if exists|i: int| self.slot(p, i) {
            Some(self.accounts@[choose|i: int| self.slot(p, i)])
        } else {
            None
        }
    }

    /// Balance of `p`: zero for a principal without an account.
    pub open spec fn balance(self, p: Seq<u8>) -> nat {
        match self.account(p) {
            Some(a) => a.balance as nat,
            None => 0,
        }
    }

    /// What `spender` may still move out of the account of `owner`.
    pub open spec fn allowance(self, owner: Seq<u8>, spender: Seq<u8>) -> Option<u64> {
        match self.account(owner) {
            Some(a) => allowance_in(a.allowances@, spender),
            None => None,
        }
    }

    /// Whether `p` has an account last touched at time `now`.
    pub open spec fn updated_at(self, p: Seq<u8>, now: u64) -> bool {
        self.account(p) matches Some(a) && a.last_updated == now
    }

    /// Sum of all balances.
    pub closed spec fn balance_sum(self) -> nat {
        sum_balances(self.accounts@)
    }

    /// The token's total supply.
    pub closed spec fn total_supply(self) -> nat {
        self.info.total_supply as nat
    }

    /// The principal allowed to mint.
    pub closed spec fn minter(self) -> Seq<u8> {
        self.minter@
    }

    /// Name, symbol and decimals of the token.
    pub closed spec fn token(self) -> (Seq<char>, Seq<char>, u8) {
        (self.info.name@, self.info.symbol@, self.info.decimals)
    }

    /// Account slots are keyed uniquely and their allowance lists are well formed.
    pub closed spec fn shape(self) -> bool {
        slots_valid(self.owners@, self.accounts@)
    }

    /// The ledger's invariant: well-formed slots, a total supply equal to the
    /// sum of all balances, and the token's fixed name, symbol and decimals.
    pub closed spec fn wf(self) -> bool {
        &&& self.shape()
        &&& self.total_supply() == self.balance_sum()
        &&& self.token() == ("Predi Poll Shares"@, "PPs"@, DECIMALS)
    }

    proof fn lemma_account_at(self, p: Seq<u8>, i: int)
        requires
            self.shape(),
            self.slot(p, i),
        ensures
            self.account(p) == Some(self.accounts@[i]),
    {
        let k = choose|k: int| self.slot(p, k);
        assert(self.slot(p, k));
    }

    proof fn lemma_same_accounts(a: Ledger, b: Ledger)
        requires
            a.shape(),
            a.owners@ == b.owners@,
            a.accounts@ == b.accounts@,
        ensures
            b.shape(),
            forall|q: Seq<u8>| #[trigger] a.account(q) == b.account(q),
    {
        assert forall|q: Seq<u8>| #[trigger] a.account(q) == b.account(q) by {
            if exists|k: int| a.slot(q, k) {
                let k = choose|k: int| a.slot(q, k);
                a.lemma_account_at(q, k);
                b.lemma_account_at(q, k);
            } else {
                assert forall|k: int| !b.slot(q, k) by {
                    if b.slot(q, k) {
                        assert(a.slot(q, k));
                    }
                }
            }
        }
    }

    /// Under the invariant, the total supply is the sum of all balances.
    pub proof fn lemma_supply_is_sum(self)
        requires
            self.wf(),
        ensures
            self.total_supply() == self.balance_sum(),
    {
    }

    /// A fresh ledger with no accounts, whose only minter is `minter`.
    pub fn new(minter: Principal) -> (r: Ledger)
        ensures
            r.wf(),
            r.total_supply() == 0,
            r.minter() == minter@,
            r.token() == ("Predi Poll Shares"@, "PPs"@, DECIMALS),
            forall|p: Seq<u8>| #[trigger] r.account(p) is None,
    {
        let info = TokenInfo {
            name: "Predi Poll Shares".to_owned(),
            symbol: "PPs".to_owned(),
            decimals: DECIMALS,
            total_supply: 0,
        };
        let r = Ledger { info, owners: Vec::new(), accounts: Vec::new(), minter };
        assert(r.accounts@ =~= Seq::<Account>::empty());
        r
    }

    /// The slot of `p`'s account, if there is one.
    fn find(&self, p: &Principal) -> (r: Option<usize>)
        requires
            self.shape(),
        ensures
            r matches Some(i) ==> self.slot(p@, i as int) && self.account(p@) == Some(
                self.accounts@[i as int],
            ),
            r is None ==> self.account(p@) is None,
    {
        let mut i: usize = 0;
        while i < self.owners.len()
            invariant
                self.shape(),
                i <= self.owners@.len(),
                forall|j: int| 0 <= j < i ==> !self.slot(p@, j),
            decreases self.owners@.len() - i,
        {
            if self.owners[i].same(p) {
                proof {
                    self.lemma_account_at(p@, i as int);
                }
                return Some(i);
            }
            i = i + 1;
        }
        None
    }

    /// Balance of `p`; zero for an unknown principal.
    pub fn balance_of(&self, p: &Principal) -> (r: u64)
        requires
            self.wf(),
        ensures
            r == self.balance(p@),
    {
        match self.find(p) {
            Some(i) => self.accounts[i].balance,
            None => 0,
        }
    }

    /// The allowance that `owner` has given to `spender`, if any.
    pub fn allowance_of(&self, owner: &Principal, spender: &Principal) -> (r: Option<u64>)
        requires
            self.wf(),
        ensures
            r == self.allowance(owner@, spender@),
    {
        match self.find(owner) {
            Some(i) => {
                let acc = &self.accounts[i];
                match find_spender(&acc.allowances, spender) {
                    Some(j) => {
                        proof {
                            assert(spenders_unique(self.accounts@[i as int].allowances@));
                            lemma_allowance_at(acc.allowances@, spender@, j as int);
                        }
                        Some(acc.allowances[j].amount)
                    },
                    None => None,
                }
            },
            None => None,
        }
    }

    /// Whether `p` is the principal allowed to mint.
    pub fn is_minter(&self, p: &Principal) -> (r: bool)
        ensures
            r == (p@ == self.minter()),
    {
        self.minter.same(p)
    }

    /// Name, symbol, decimals and total supply of the token.
    pub fn get_token_info(&self) -> (r: TokenInfo)
        requires
            self.wf(),
        ensures
            (r.name@, r.symbol@, r.decimals) == self.token(),
            r.name@ == "Predi Poll Shares"@,
            r.symbol@ == "PPs"@,
            r.decimals == DECIMALS,
            r.total_supply == self.total_supply(),
            r.total_supply == self.balance_sum(),
    {
        TokenInfo {
            name: self.info.name.clone(),
            symbol: self.info.symbol.clone(),
            decimals: self.info.decimals,
            total_supply: self.info.total_supply,
        }
    }
}

impl Ledger {
    /// Adds `amount` to the balance of `to`, opening an account if it has none.
    fn credit(&mut self, to: &Principal, amount: u64, now: u64) -> (slot: usize)
        requires
            old(self).shape(),
            old(self).balance(to@) + amount <= u64::MAX,
        ensures
            final(self).shape(),
            final(self).slot(to@, slot as int),
            final(self).updated_at(to@, now),
            final(self).info == old(self).info,
            final(self).minter == old(self).minter,
            final(self).balance_sum() == old(self).balance_sum() + amount,
            final(self).balance(to@) == old(self).balance(to@) + amount,
            forall|s: Seq<u8>| #[trigger] final(self).allowance(to@, s) == old(self).allowance(to@, s),
            forall|q: Seq<u8>| q != to@ ==> #[trigger] final(self).account(q) == old(self).account(q),
    {
        match self.find(to) {
            Some(i) => {
                let ghost before = *self;
                let b = self.accounts[i].balance;
                self.accounts[i].balance = b + amount;
                self.accounts[i].last_updated = now;
                proof {
                    assert(self.accounts@ =~= before.accounts@.update(i as int, self.accounts@[i as int]));
                    lemma_sum_update(before.accounts@, i as int, self.accounts@[i as int]);
                    self.lemma_account_at(to@, i as int);
                    assert forall|q: Seq<u8>| q != to@ implies #[trigger] self.account(q) == before.account(q) by {
                        if exists|k: int| before.slot(q, k) {
                            let k = choose|k: int| before.slot(q, k);
                            before.lemma_account_at(q, k);
                            assert(k != i);
                            self.lemma_account_at(q, k);
                        } else {
                            assert forall|k: int| !self.slot(q, k) by {
                                if self.slot(q, k) {
                                    assert(before.slot(q, k));
                                }
                            }
                        }
                    }
                }
                i
            },
            None => {
                let ghost before = *self;
                let acc = Account { balance: amount, allowances: Vec::new(), last_updated: now };
                let n = self.owners.len();
                self.owners.push(to.copy());
                self.accounts.push(acc);
                proof {
                    lemma_sum_push(before.accounts@, acc);
                    assert(self.slot(to@, n as int));
                    assert(acc.allowances@ =~= Seq::<Allowance>::empty());
                    assert forall|k: int| 0 <= k < n as int implies (#[trigger] before.owners@[k])@ != to@ by {
                        if before.owners@[k]@ == to@ {
                            assert(before.slot(to@, k));
                        }
                    }
                    assert(self.owners@[n as int] == self.owners@.last());
                    assert forall|k: int| 0 <= k < n as int implies #[trigger] self.owners@[k] == before.owners@[k] by {}
                    assert forall|k: int| 0 <= k < n as int implies #[trigger] self.accounts@[k] == before.accounts@[k] by {}
                    assert(self.shape());
                    self.lemma_account_at(to@, n as int);
                    assert forall|q: Seq<u8>| q != to@ implies #[trigger] self.account(q) == before.account(q) by {
                        if exists|k: int| before.slot(q, k) {
                            let k = choose|k: int| before.slot(q, k);
                            before.lemma_account_at(q, k);
                            self.lemma_account_at(q, k);
                        } else {
                            assert forall|k: int| !self.slot(q, k) by {
                                if self.slot(q, k) && k < n {
                                    assert(before.slot(q, k));
                                }
                            }
                        }
                    }
                }
                n
            },
        }
    }

    /// Takes `amount` out of the balance held in slot `i`.
    fn debit(&mut self, i: usize, amount: u64, now: u64)
        requires
            old(self).shape(),
            i < old(self).accounts@.len(),
            old(self).accounts@[i as int].balance >= amount,
        ensures
            final(self).shape(),
            final(self).info == old(self).info,
            final(self).minter == old(self).minter,
            final(self).owners@ == old(self).owners@,
            final(self).balance_sum() + amount == old(self).balance_sum(),
            final(self).updated_at(old(self).owners@[i as int]@, now),
            final(self).balance(old(self).owners@[i as int]@) + amount == old(self).balance(
                old(self).owners@[i as int]@,
            ),
            forall|s: Seq<u8>| #[trigger]
                final(self).allowance(old(self).owners@[i as int]@, s) == old(self).allowance(
                    old(self).owners@[i as int]@,
                    s,
                ),
            forall|q: Seq<u8>|
                q != old(self).owners@[i as int]@ ==> #[trigger] final(self).account(q) == old(
                    self,
                ).account(q),
    {
        let ghost before = *self;
        let b = self.accounts[i].balance;
        self.accounts[i].balance = b - amount;
        self.accounts[i].last_updated = now;
        proof {
            assert(self.accounts@ =~= before.accounts@.update(i as int, self.accounts@[i as int]));
            lemma_sum_update(before.accounts@, i as int, self.accounts@[i as int]);
            let o = before.owners@[i as int]@;
            before.lemma_account_at(o, i as int);
            self.lemma_account_at(o, i as int);
            assert forall|q: Seq<u8>| q != o implies #[trigger] self.account(q) == before.account(q) by {
                if exists|k: int| before.slot(q, k) {
                    let k = choose|k: int| before.slot(q, k);
                    before.lemma_account_at(q, k);
                    self.lemma_account_at(q, k);
                } else {
                    assert forall|k: int| !self.slot(q, k) by {
                        if self.slot(q, k) {
                            assert(before.slot(q, k));
                        }
                    }
                }
            }
        }
    }

    /// Sets to `amount` what `spender` may move out of the account in slot `i`.
    fn set_allowance(&mut self, i: usize, spender: &Principal, amount: u64)
        requires
            old(self).shape(),
            i < old(self).accounts@.len(),
        ensures
            final(self).shape(),
            final(self).info == old(self).info,
            final(self).minter == old(self).minter,
            final(self).owners@ == old(self).owners@,
            final(self).balance_sum() == old(self).balance_sum(),
            final(self).allowance(old(self).owners@[i as int]@, spender@) == Some(amount),
            forall|s: Seq<u8>|
                s != spender@ ==> #[trigger] final(self).allowance(old(self).owners@[i as int]@, s)
                    == old(self).allowance(old(self).owners@[i as int]@, s),
            final(self).balance(old(self).owners@[i as int]@) == old(self).balance(
                old(self).owners@[i as int]@,
            ),
            forall|q: Seq<u8>|
                q != old(self).owners@[i as int]@ ==> #[trigger] final(self).account(q) == old(
                    self,
                ).account(q),
    {
        let ghost before = *self;
        let ghost list = self.accounts@[i as int].allowances@;
        proof {
            assert(spenders_unique(list));
        }
        match find_spender(&self.accounts[i].allowances, spender) {
            Some(j) => {
                self.accounts[i].allowances[j].amount = amount;
                proof {
                    lemma_allowance_update(list, self.accounts@[i as int].allowances@, j as int, amount);
                }
            },
            None => {
                self.accounts[i].allowances.push(Allowance { spender: spender.copy(), amount });
                proof {
                    lemma_allowance_push(list, self.accounts@[i as int].allowances@.last());
                    assert(self.accounts@[i as int].allowances@ =~= list.push(
                        self.accounts@[i as int].allowances@.last(),
                    ));
                }
            },
        }
        proof {
            assert(self.accounts@ =~= before.accounts@.update(i as int, self.accounts@[i as int]));
            lemma_sum_update(before.accounts@, i as int, self.accounts@[i as int]);
            assert forall|k: int| 0 <= k < self.accounts@.len() implies spenders_unique(
                (#[trigger] self.accounts@[k]).allowances@,
            ) by {
                if k != i {
                    assert(self.accounts@[k] == before.accounts@[k]);
                }
            }
            let o = before.owners@[i as int]@;
            before.lemma_account_at(o, i as int);
            self.lemma_account_at(o, i as int);
            assert forall|q: Seq<u8>| q != o implies #[trigger] self.account(q) == before.account(q) by {
                if exists|k: int| before.slot(q, k) {
                    let k = choose|k: int| before.slot(q, k);
                    before.lemma_account_at(q, k);
                    self.lemma_account_at(q, k);
                } else {
                    assert forall|k: int| !self.slot(q, k) by {
                        if self.slot(q, k) {
                            assert(before.slot(q, k));
                        }
                    }
                }
            }
        }
    }

    /// Mints `amount` new units to `to`. Only the ledger's minter may do so.
    pub fn mint(&mut self, caller: &Principal, to: &Principal, amount: u64, now: u64) -> (r: Result<(), LedgerError>)
        requires
            old(self).wf(),
        ensures
            final(self).wf(),
            final(self).minter() == old(self).minter(),
            final(self).token() == old(self).token(),
            caller@ != old(self).minter() ==> r == Err::<(), LedgerError>(LedgerError::Unauthorized),
            caller@ == old(self).minter() && old(self).total_supply() + amount > u64::MAX
                ==> r == Err::<(), LedgerError>(LedgerError::Overflow),
            r.is_err() ==> *final(self) == *old(self),
            caller@ == old(self).minter() && old(self).total_supply() + amount <= u64::MAX ==> {
                &&& r is Ok
                &&& final(self).total_supply() == old(self).total_supply() + amount
                &&& final(self).balance(to@) == old(self).balance(to@) + amount
                &&& final(self).updated_at(to@, now)
                &&& forall|s: Seq<u8>| #[trigger] final(self).allowance(to@, s) == old(self).allowance(to@, s)
                &&& forall|q: Seq<u8>| q != to@ ==> #[trigger] final(self).account(q) == old(self).account(q)
            },
    {
        if !caller.same(&self.minter) {
            return Err(LedgerError::Unauthorized);
        }
        if amount > u64::MAX - self.info.total_supply {
            return Err(LedgerError::Overflow);
        }
        proof {
            if let Some(a) = self.account(to@) {
                let k = choose|k: int| self.slot(to@, k);
                lemma_sum_two(self.accounts@, k, k);
            }
        }
        let _ = self.credit(to, amount, now);
        let ghost mid = *self;
        self.info.total_supply = self.info.total_supply + amount;
        proof {
            Ledger::lemma_same_accounts(*self, mid);
            assert(self.account(to@) == mid.account(to@));
            assert forall|s: Seq<u8>| #[trigger] self.allowance(to@, s) == mid.allowance(to@, s) by {}
        }
        Ok(())
    }
}

impl Ledger {
    /// Moves `amount` units from the caller's account to `to`.
    pub fn transfer(&mut self, caller: &Principal, to: &Principal, amount: u64, now: u64) -> (r: Result<(), LedgerError>)
        requires
            old(self).wf(),
        ensures
            final(self).wf(),
            final(self).minter() == old(self).minter(),
            final(self).token() == old(self).token(),
            final(self).total_supply() == old(self).total_supply(),
            amount > old(self).balance(caller@) ==> r == Err::<(), LedgerError>(LedgerError::InsufficientBalance)
                && *final(self) == *old(self),
            amount <= old(self).balance(caller@) ==> {
                &&& r is Ok
                &&& caller@ == to@ ==> final(self).balance(to@) == old(self).balance(to@)
                &&& caller@ != to@ ==> final(self).balance(caller@) == old(self).balance(caller@) - amount
                &&& caller@ != to@ ==> final(self).balance(to@) == old(self).balance(to@) + amount
                &&& final(self).updated_at(to@, now)
                &&& old(self).account(caller@) is Some ==> final(self).updated_at(caller@, now)
                &&& forall|q: Seq<u8>| q != caller@ && q != to@ ==> #[trigger] final(self).account(q) == old(self).account(q)
                &&& forall|o: Seq<u8>, s: Seq<u8>| #[trigger] final(self).allowance(o, s) == old(self).allowance(o, s)
            },
    {
        let slot = self.find(caller);
        let bal = match slot {
            Some(i) => self.accounts[i].balance,
            None => 0,
        };
        if bal < amount {
            return Err(LedgerError::InsufficientBalance);
        }
        let ghost s0 = *self;
        proof {
            if caller@ != to@ && self.account(to@) is Some {
                let k = choose|k: int| self.slot(to@, k);
                self.lemma_account_at(to@, k);
                if let Some(i) = slot {
                    lemma_sum_two(self.accounts@, i as int, k);
                }
            }
        }
        if let Some(i) = slot {
            self.debit(i, amount, now);
        }
        let ghost s1 = *self;
        let _ = self.credit(to, amount, now);
        proof {
            assert(self.account(caller@) == s1.account(caller@) || caller@ == to@);
            assert(s1.updated_at(caller@, now) || slot is None);
            assert(s1.account(to@) == s0.account(to@) || caller@ == to@);
            assert forall|o: Seq<u8>, sp: Seq<u8>| #[trigger] self.allowance(o, sp) == s0.allowance(o, sp) by {
                assert(self.account(o) == s1.account(o) || o == to@);
                assert(s1.account(o) == s0.account(o) || o == caller@);
                assert(self.allowance(o, sp) == s1.allowance(o, sp));
                assert(s1.allowance(o, sp) == s0.allowance(o, sp));
            }
        }
        Ok(())
    }

    /// Lets `spender` move up to `amount` units out of the caller's account,
    /// replacing any earlier allowance; an amount of zero revokes it.
    pub fn approve(&mut self, caller: &Principal, spender: &Principal, amount: u64, now: u64)
        requires
            old(self).wf(),
        ensures
            final(self).wf(),
            final(self).minter() == old(self).minter(),
            final(self).token() == old(self).token(),
            final(self).total_supply() == old(self).total_supply(),
            final(self).allowance(caller@, spender@) == Some(amount),
            forall|o: Seq<u8>, s: Seq<u8>|
                (o != caller@ || s != spender@) ==> #[trigger] final(self).allowance(o, s) == old(self).allowance(o, s),
            forall|q: Seq<u8>| #[trigger] final(self).balance(q) == old(self).balance(q),
    {
        let ghost s0 = *self;
        let i = match self.find(caller) {
            Some(i) => i,
            None => self.credit(caller, 0, now),
        };
        let ghost s1 = *self;
        proof {
            s1.lemma_account_at(caller@, i as int);
        }
        self.set_allowance(i, spender, amount);
        proof {
            assert forall|o: Seq<u8>, sp: Seq<u8>| (o != caller@ || sp != spender@) implies #[trigger] self.allowance(o, sp) == s0.allowance(o, sp) by {
                assert(self.account(o) == s1.account(o) || o == caller@);
                assert(s1.account(o) == s0.account(o) || o == caller@);
                assert(s1.allowance(o, sp) == s0.allowance(o, sp));
            }
            assert forall|q: Seq<u8>| #[trigger] self.balance(q) == s0.balance(q) by {
                assert(self.account(q) == s1.account(q) || q == caller@);
                assert(s1.account(q) == s0.account(q) || q == caller@);
            }
        }
    }

    /// Moves `amount` units from `from` to `to` on behalf of the caller, out of
    /// the allowance that `from` gave the caller.
    pub fn transfer_from(&mut self, caller: &Principal, from: &Principal, to: &Principal, amount: u64, now: u64) -> (r: Result<(), LedgerError>)
        requires
            old(self).wf(),
        ensures
            final(self).wf(),
            final(self).minter() == old(self).minter(),
            final(self).token() == old(self).token(),
            final(self).total_supply() == old(self).total_supply(),
            r.is_err() ==> *final(self) == *old(self),
            old(self).allowance(from@, caller@) is None ==> r == Err::<(), LedgerError>(LedgerError::NoAllowance),
            old(self).allowance(from@, caller@) matches Some(a) && a < amount
                ==> r == Err::<(), LedgerError>(LedgerError::InsufficientAllowance),
            old(self).allowance(from@, caller@) matches Some(a) && a >= amount && old(self).balance(from@) < amount
                ==> r == Err::<(), LedgerError>(LedgerError::InsufficientBalance),
            old(self).allowance(from@, caller@) matches Some(a) ==> (a >= amount && old(self).balance(from@) >= amount ==> {
                &&& r is Ok
                &&& final(self).allowance(from@, caller@) == Some((a - amount) as u64)
                &&& forall|o: Seq<u8>, s: Seq<u8>|
                    (o != from@ || s != caller@) ==> #[trigger] final(self).allowance(o, s) == old(self).allowance(o, s)
                &&& from@ == to@ ==> final(self).balance(to@) == old(self).balance(to@)
                &&& from@ != to@ ==> final(self).balance(from@) == old(self).balance(from@) - amount
                &&& from@ != to@ ==> final(self).balance(to@) == old(self).balance(to@) + amount
                &&& final(self).updated_at(from@, now)
                &&& final(self).updated_at(to@, now)
                &&& forall|q: Seq<u8>| q != from@ && q != to@ ==> #[trigger] final(self).balance(q) == old(self).balance(q)
            }),
    {
        let i = match self.find(from) {
            Some(i) => i,
            None => return Err(LedgerError::NoAllowance),
        };
        let ghost s0 = *self;
        let j = match find_spender(&self.accounts[i].allowances, caller) {
            Some(j) => j,
            None => return Err(LedgerError::NoAllowance),
        };
        let allowed = self.accounts[i].allowances[j].amount;
        proof {
            assert(spenders_unique(self.accounts@[i as int].allowances@));
            lemma_allowance_at(self.accounts@[i as int].allowances@, caller@, j as int);
        }
        if allowed < amount {
            return Err(LedgerError::InsufficientAllowance);
        }
        if self.accounts[i].balance < amount {
            return Err(LedgerError::InsufficientBalance);
        }
        proof {
            if from@ != to@ && self.account(to@) is Some {
                let k = choose|k: int| self.slot(to@, k);
                self.lemma_account_at(to@, k);
                lemma_sum_two(self.accounts@, i as int, k);
            }
        }
        self.set_allowance(i, caller, allowed - amount);
        let ghost s1 = *self;
        proof {
            s1.lemma_account_at(from@, i as int);
        }
        self.debit(i, amount, now);
        let ghost s2 = *self;
        let _ = self.credit(to, amount, now);
        proof {
            assert forall|o: Seq<u8>, sp: Seq<u8>| #[trigger] self.allowance(o, sp) == s1.allowance(o, sp) by {
                assert(self.account(o) == s2.account(o) || o == to@);
                assert(s2.account(o) == s1.account(o) || o == from@);
                assert(self.allowance(o, sp) == s2.allowance(o, sp));
                assert(s2.allowance(o, sp) == s1.allowance(o, sp));
            }
            assert forall|o: Seq<u8>, sp: Seq<u8>| (o != from@ || sp != caller@) implies #[trigger] self.allowance(o, sp) == s0.allowance(o, sp) by {
                assert(self.allowance(o, sp) == s1.allowance(o, sp));
                assert(s1.account(o) == s0.account(o) || o == from@);
            }
            assert(self.allowance(from@, caller@) == s1.allowance(from@, caller@));
            assert forall|q: Seq<u8>| q != from@ && q != to@ implies #[trigger] self.balance(q) == s0.balance(q) by {
                assert(self.account(q) == s2.account(q));
                assert(s2.account(q) == s1.account(q));
                assert(s1.account(q) == s0.account(q));
            }
            assert(s1.balance(from@) == s0.balance(from@));
            assert(s2.balance(to@) == s1.balance(to@) || from@ == to@);
            assert(s2.updated_at(from@, now));
            assert(self.account(from@) == s2.account(from@) || from@ == to@);
            assert(s1.balance(to@) == s0.balance(to@) || from@ == to@);
        }
        Ok(())
    }
}

proof fn lemma_allowance_update(s: Seq<Allowance>, t: Seq<Allowance>, j: int, x: u64)
    requires
        spenders_unique(s),
        0 <= j < s.len(),
        t.len() == s.len(),
        t[j].spender == s[j].spender,
        t[j].amount == x,
        forall|k: int| 0 <= k < s.len() && k != j ==> t[k] == s[k],
    ensures
        spenders_unique(t),
        allowance_in(t, s[j].spender@) == Some(x),
        forall|sp: Seq<u8>| sp != s[j].spender@ ==> #[trigger] allowance_in(t, sp) == allowance_in(s, sp),
{
    assert forall|k: int, l: int|
        0 <= k < t.len() && 0 <= l < t.len() && k != l implies (#[trigger] t[k]).spender@
            != (#[trigger] t[l]).spender@ by {
        assert(t[k].spender == s[k].spender);
        assert(t[l].spender == s[l].spender);
    }
    lemma_allowance_at(t, s[j].spender@, j);
    assert forall|sp: Seq<u8>| sp != s[j].spender@ implies #[trigger] allowance_in(t, sp)
        == allowance_in(s, sp) by {
        if exists|k: int| 0 <= k < s.len() && (#[trigger] s[k]).spender@ == sp {
            let k = choose|k: int| 0 <= k < s.len() && (#[trigger] s[k]).spender@ == sp;
            lemma_allowance_at(s, sp, k);
            lemma_allowance_at(t, sp, k);
        } else {
            assert forall|k: int| 0 <= k < t.len() implies (#[trigger] t[k]).spender@ != sp by {
                assert(t[k].spender == s[k].spender);
            }
        }
    }
}

proof fn lemma_allowance_push(s: Seq<Allowance>, a: Allowance)
    requires
        spenders_unique(s),
        forall|k: int| 0 <= k < s.len() ==> (#[trigger] s[k]).spender@ != a.spender@,
    ensures
        spenders_unique(s.push(a)),
        allowance_in(s.push(a), a.spender@) == Some(a.amount),
        forall|sp: Seq<u8>|
            sp != a.spender@ ==> #[trigger] allowance_in(s.push(a), sp) == allowance_in(s, sp),
{
    let t = s.push(a);
    assert(spenders_unique(t));
    lemma_allowance_at(t, a.spender@, s.len() as int);
    assert forall|sp: Seq<u8>| sp != a.spender@ implies #[trigger] allowance_in(t, sp)
        == allowance_in(s, sp) by {
        if exists|k: int| 0 <= k < s.len() && (#[trigger] s[k]).spender@ == sp {
            let k = choose|k: int| 0 <= k < s.len() && (#[trigger] s[k]).spender@ == sp;
            lemma_allowance_at(s, sp, k);
            lemma_allowance_at(t, sp, k);
        } else {
            assert forall|k: int| 0 <= k < t.len() implies (#[trigger] t[k]).spender@ != sp by {
                if k < s.len() {
                    assert(t[k] == s[k]);
                }
            }
        }
    }
}

/// The position of `spender` in a list of allowances.
fn find_spender(s: &Vec<Allowance>, spender: &Principal) -> (r: Option<usize>)
    ensures
        r matches Some(j) ==> j < s@.len() && s@[j as int].spender@ == spender@,
        r is None ==> forall|j: int| 0 <= j < s@.len() ==> (#[trigger] s@[j]).spender@ != spender@,
{
    let mut j: usize = 0;
    while j < s.len()
        invariant
            j <= s@.len(),
            forall|k: int| 0 <= k < j ==> (#[trigger] s@[k]).spender@ != spender@,
        decreases s@.len() - j,
    {
        if s[j].spender.same(spender) {
            return Some(j);
        }
        j = j + 1;
    }
    None
}


/// A transfer to oneself of no more than one's balance succeeds and leaves
/// every balance and the total supply as they were.
pub proof fn lemma_self_transfer_keeps_balances(before: Ledger, after: Ledger, p: Seq<u8>, amount: u64)
    requires
        before.wf(),
        after.wf(),
        amount <= before.balance(p),
        after.balance(p) == before.balance(p),
        forall|q: Seq<u8>| q != p ==> #[trigger] after.account(q) == before.account(q),
        after.total_supply() == before.total_supply(),
    ensures
        forall|q: Seq<u8>| #[trigger] after.balance(q) == before.balance(q),
        after.balance_sum() == before.balance_sum(),
{
    assert forall|q: Seq<u8>| #[trigger] after.balance(q) == before.balance(q) by {
        if q != p {
            assert(after.account(q) == before.account(q));
        }
    }
}


impl Ledger {
    /// Hands out the token data, the holders, their accounts and the minter,
    /// for storage.
    pub fn into_parts(self) -> (r: (TokenInfo, Vec<Principal>, Vec<Account>, Principal))
        ensures
            r.0.total_supply == self.total_supply(),
            (r.0.name@, r.0.symbol@, r.0.decimals) == self.token(),
            r.3@ == self.minter(),
            slots_valid(r.1@, r.2@) == self.shape(),
            sum_balances(r.2@) == self.balance_sum(),
            forall|i: int| 0 <= i < r.1@.len() && self.shape() ==> self.account((#[trigger] r.1@[i])@) == Some(r.2@[i]),
            forall|p: Seq<u8>|
                #[trigger] self.account(p) is Some ==> exists|i: int| 0 <= i < r.1@.len() && (#[trigger] r.1@[i])@ == p,
    {
        proof {
            assert forall|p: Seq<u8>| #[trigger] self.account(p) is Some implies exists|i: int|
                0 <= i < self.owners@.len() && (#[trigger] self.owners@[i])@ == p by {
                let i = choose|i: int| self.slot(p, i);
                assert(self.owners@[i]@ == p);
            }
            assert forall|i: int| 0 <= i < self.owners@.len() && self.shape() implies self.account((#[trigger] self.owners@[i])@) == Some(self.accounts@[i]) by {
                self.lemma_account_at(self.owners@[i]@, i);
            }
        }
        (self.info, self.owners, self.accounts, self.minter)
    }

    /// Rebuilds a ledger from stored parts; `None` unless the holders are
    /// keyed uniquely, allowance lists name each spender once, and the total
    /// supply equals the sum of the balances.
    pub fn restore(info: TokenInfo, owners: Vec<Principal>, accounts: Vec<Account>, minter: Principal) -> (r: Option<Ledger>)
        ensures
            (slots_valid(owners@, accounts@) && sum_balances(accounts@) == info.total_supply && token_fixed(info))
                ==> (r matches Some(l) && l.wf() && l.total_supply() == info.total_supply && l.minter() == minter@
                && (forall|i: int| 0 <= i < owners@.len() ==> #[trigger] l.account(owners@[i]@) == Some(accounts@[i]))
                && (forall|p: Seq<u8>|
                (forall|i: int| 0 <= i < owners@.len() ==> (#[trigger] owners@[i])@ != p) ==> #[trigger] l.account(p) is None)),
            !(slots_valid(owners@, accounts@) && sum_balances(accounts@) == info.total_supply && token_fixed(info)) ==> r is None,
    {
        if owners.len() != accounts.len() {
            return None;
        }
        let mut i: usize = 0;
        let mut total: u64 = 0;
        while i < owners.len()
            invariant
                owners@.len() == accounts@.len(),
                i <= owners@.len(),
                total == sum_balances(accounts@.take(i as int)),
                forall|a: int, b: int|
                    0 <= a < i && 0 <= b < i && a != b ==> (#[trigger] owners@[a])@ != (#[trigger] owners@[b])@,
                forall|a: int| 0 <= a < i ==> spenders_unique((#[trigger] accounts@[a]).allowances@),
            decreases owners@.len() - i,
        {
            let mut j: usize = 0;
            while j < i
                invariant
                    i < owners@.len(),
                    j <= i,
                    forall|b: int| 0 <= b < j ==> (#[trigger] owners@[b])@ != owners@[i as int]@,
                decreases i - j,
            {
                if owners[j].same(&owners[i]) {
                    return None;
                }
                j = j + 1;
            }
            let list = &accounts[i].allowances;
            let mut a: usize = 0;
            while a < list.len()
                invariant
                    forall|x: int, y: int|
                        0 <= x < a && 0 <= y < a && x != y ==> (#[trigger] list@[x]).spender@ != (#[trigger] list@[y]).spender@,
                    a <= list@.len(),
                    i < accounts@.len(),
                    list@ == accounts@[i as int].allowances@,
                decreases list@.len() - a,
            {
                let mut b: usize = 0;
                while b < a
                    invariant
                        a < list@.len(),
                        b <= a,
                        i < accounts@.len(),
                        list@ == accounts@[i as int].allowances@,
                        forall|y: int| 0 <= y < b ==> (#[trigger] list@[y]).spender@ != list@[a as int].spender@,
                    decreases a - b,
                {
                    if list[b].spender.same(&list[a].spender) {
                        return None;
                    }
                    b = b + 1;
                }
                a = a + 1;
            }
            proof {
                assert(accounts@.take(i + 1).drop_last() =~= accounts@.take(i as int));
            }
            let bal = accounts[i].balance;
            if bal > u64::MAX - total {
                proof {
                    lemma_sum_prefix(accounts@, i + 1);
                }
                return None;
            }
            total = total + bal;
            i = i + 1;
        }
        assert(accounts@.take(owners@.len() as int) =~= accounts@);
        if total != info.total_supply {
            return None;
        }
        let name = "Predi Poll Shares".to_owned();
        let symbol = "PPs".to_owned();
        if !(info.name == name) || !(info.symbol == symbol) || info.decimals != DECIMALS {
            return None;
        }
        let l = Ledger { info, owners, accounts, minter };
        proof {
            assert forall|p: Seq<u8>|
                (forall|i: int| 0 <= i < l.owners@.len() ==> (#[trigger] l.owners@[i])@ != p) implies #[trigger] l.account(p) is None by {
                if exists|i: int| l.slot(p, i) {
                    let i = choose|i: int| l.slot(p, i);
                    assert(l.owners@[i]@ == p);
                }
            }
            assert forall|k: int| 0 <= k < l.owners@.len() implies #[trigger] l.account(l.owners@[k]@) == Some(l.accounts@[k]) by {
                l.lemma_account_at(l.owners@[k]@, k);
            }
        }
        Some(l)
    }
}

proof fn lemma_sum_prefix(s: Seq<Account>, n: int)
    requires
        0 <= n <= s.len(),
    ensures
        sum_balances(s.take(n)) <= sum_balances(s),
    decreases s.len() - n,
{
    if n < s.len() {
        lemma_sum_prefix(s, n + 1);
        assert(s.take(n + 1).drop_last() =~= s.take(n));
    } else {
        assert(s.take(n) =~= s);
    }
}


/// Parts handed out by a consistent ledger satisfy what `restore` checks, so
/// the same accounts, total supply and token data come back after a restart.
pub proof fn lemma_ledger_snapshot_restores(l: Ledger, info: TokenInfo, owners: Seq<Principal>, accounts: Seq<Account>)
    requires
        l.wf(),
        slots_valid(owners, accounts) == l.shape(),
        sum_balances(accounts) == l.balance_sum(),
        info.total_supply == l.total_supply(),
        (info.name@, info.symbol@, info.decimals) == l.token(),
    ensures
        slots_valid(owners, accounts),
        sum_balances(accounts) == info.total_supply,
        token_fixed(info),
{
}

} // verus!
