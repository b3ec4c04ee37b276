use vstd::prelude::*;

use vstd::arithmetic::div_mod::lemma_fundamental_div_mod;
use vstd::arithmetic::div_mod::lemma_hoist_over_denominator;
use vstd::arithmetic::div_mod::lemma_mod_bound;

use crate::account::AccountId;
use crate::error::Error;

verus! {

/// The staked-pool lifecycle: participants join a pending round by staking
/// value into the pool's custody, the controller starts the round, and the
/// controller settles it by naming a winner. The value-transfer primitive
/// itself belongs to the host environment; the host performs each transfer
/// and reports its outcome to these operations, which decide and update the
/// pool state. Every state change of a failed call is discarded: an
/// operation that returns an error leaves the pool exactly as it was.
pub struct StakedPool {
    controller: AccountId,
    balance: u128,
    participants: Vec<AccountId>,
    active: bool,
}

/// The mathematical state of a `StakedPool`: the controller identity, the
/// pooled balance, the joined participants in join order, and whether a
/// round is running.
pub struct StakedPoolView {
    pub controller: AccountId,
    pub balance: u128,
    pub participants: Seq<AccountId>,
    pub active: bool,
}

impl View for StakedPool {
    type V = StakedPoolView;

    closed spec fn view(&self) -> StakedPoolView {
        StakedPoolView {
            controller: self.controller,
            balance: self.balance,
            participants: self.participants@,
            active: self.active,
        }
    }
}

/// The winner's share of a pool balance `b`: `floor(b * 80 / 100)`. It can
/// be computed without overflowing as `4 * (b / 5) + 4 * (b % 5) / 5`, and
/// it never exceeds the balance itself.
proof fn lemma_payout_split(b: u128)
    ensures
        b * 80 / 100 == 4 * (b as int / 5) + 4 * (b as int % 5) / 5,
        0 <= b * 80 / 100 <= b,
{
    let bi = b as int;
    lemma_fundamental_div_mod(bi, 5);
    lemma_mod_bound(bi, 5);
    let q = bi / 5;
    let m = bi % 5;
    assert(q >= 0) by {
        if q < 0 {
            assert(5 * q + m < 0);
        }
    }
    assert(bi * 80 == 400 * q + 80 * m);
    lemma_hoist_over_denominator(80 * m, 4 * q, 100);
    assert(bi * 80 / 100 == 4 * q + 80 * m / 100);
    assert(80 * m / 100 == 4 * m / 5 && 0 <= 4 * m / 5 <= m) by {
        if m == 0 {
            assert(0int / 100 == 0 && 0int / 5 == 0);
        } else if m == 1 {
            assert(80int / 100 == 0 && 4int / 5 == 0);
        } else if m == 2 {
            assert(160int / 100 == 1 && 8int / 5 == 1);
        } else if m == 3 {
            assert(240int / 100 == 2 && 12int / 5 == 2);
        } else {
            assert(m == 4);
            assert(320int / 100 == 3 && 16int / 5 == 3);
        }
    }
}

impl StakedPool {
    /// Invariant of the pool: no participant is listed twice.
    pub open spec fn wf(self) -> bool {
        self@.participants.no_duplicates()
    }

    /// Creates a pool controlled by the calling identity (supplied
    /// explicitly by the host), with an empty participant set, a zero
    /// balance and no round running.
    pub fn new(caller: AccountId) -> (pool: StakedPool)
        ensures
            pool.wf(),
            pool@.controller == caller,
            pool@.balance == 0,
            pool@.participants == Seq::<AccountId>::empty(),
            !pool@.active,
    {
        let pool = StakedPool {
            controller: caller,
            balance: 0,
            participants: Vec::new(),
            active: false,
        };
        proof {
            assert(pool@.participants =~= Seq::<AccountId>::empty());
        }
        pool
    }

    /// The access gate: succeeds exactly when the caller is the controller
    /// identity fixed at construction, and otherwise reports
    /// `NotAuthorized`.
    pub fn ensure_controller(&self, caller: AccountId) -> (r: Result<(), Error>)
        ensures
            r == if caller == self@.controller {
                Ok::<(), Error>(())
            } else {
                Err::<(), Error>(Error::NotAuthorized)
            },
    {
        if caller == self.controller {
            Ok(())
        } else {
            Err(Error::NotAuthorized)
        }
    }

    /// Whether `a` already joined the pending round.
    pub fn has_joined(&self, a: AccountId) -> (r: bool)
        ensures
            r == self@.participants.contains(a),
    {
        let mut i: usize = 0;
        while i < self.participants.len() && self.participants[i] != a
            invariant
                0 <= i <= self.participants.len(),
                forall|j: int| 0 <= j < i ==> self.participants@[j] != a,
            decreases self.participants.len() - i,
        {
            i = i + 1;
        }
        if i < self.participants.len() {
            assert(self.participants@[i as int] == a);
            true
        } else {
            false
        }
    }

    /// A participant stakes `stake` to join the pending round. Refused with
    /// `GameAlreadyActive` while a round runs, with `PlayerAlreadyJoined`
    /// for a caller already in the set, and with `TransferFailed` when the
    /// host reports that moving the stake into custody failed
    /// (`transfer_ok` is that report); every refusal leaves the pool
    /// unchanged. On success the stake accrues to the balance and the
    /// caller is appended to the participant set. The host must not hand
    /// over a stake the 128-bit balance cannot take: it tests that before
    /// moving any funds.
    pub fn join(&mut self, caller: AccountId, stake: u128, transfer_ok: bool) -> (r: Result<
        (),
        Error,
    >)
        requires
            old(self).wf(),
            old(self)@.balance + stake <= u128::MAX,
        ensures
            final(self).wf(),
            r is Err ==> *final(self) == *old(self),
            old(self)@.active ==> r == Err::<(), Error>(Error::GameAlreadyActive),
            !old(self)@.active && old(self)@.participants.contains(caller) ==> r == Err::<
                (),
                Error,
            >(Error::PlayerAlreadyJoined),
            !old(self)@.active && !old(self)@.participants.contains(caller) && !transfer_ok ==> r
                == Err::<(), Error>(Error::TransferFailed),
            !old(self)@.active && !old(self)@.participants.contains(caller) && transfer_ok ==> r
                == Ok::<(), Error>(()) && final(self)@.balance == old(self)@.balance + stake
                && final(self)@.participants == old(self)@.participants.push(caller)
                && !final(self)@.active
                && final(self)@.controller == old(self)@.controller,
    {
        if self.active {
            return Err(Error::GameAlreadyActive);
        }
        if self.has_joined(caller) {
            return Err(Error::PlayerAlreadyJoined);
        }
        if !transfer_ok {
            return Err(Error::TransferFailed);
        }
        self.balance = self.balance + stake;
        self.participants.push(caller);
        proof {
            let s = self@.participants;
            let olds = old(self)@.participants;
            assert forall|i: int, j: int| 0 <= i < j < s.len() implies s[i] != s[j] by {
                if j < olds.len() {
                } else {
                    assert(s[j] == caller);
                    if s[i] == caller {
                        assert(olds[i] == caller);
                        assert(olds.contains(caller));
                    }
                }
            }
        }
        Ok(())
    }

    /// The controller starts the round, freezing the participant set: no
    /// further joins are accepted until settlement. Refused with
    /// `NotAuthorized` for any other caller and with `GameAlreadyActive`
    /// when a round already runs; every refusal leaves the pool unchanged.
    pub fn start_game(&mut self, caller: AccountId) -> (r: Result<(), Error>)
        requires
            old(self).wf(),
        ensures
            final(self).wf(),
            r is Err ==> *final(self) == *old(self),
            caller != old(self)@.controller ==> r == Err::<(), Error>(Error::NotAuthorized),
            caller == old(self)@.controller && old(self)@.active ==> r == Err::<(), Error>(
                Error::GameAlreadyActive,
            ),
            caller == old(self)@.controller && !old(self)@.active ==> r == Ok::<(), Error>(())
                && final(self)@.active
                && final(self)@.balance == old(self)@.balance
                && final(self)@.participants == old(self)@.participants
                && final(self)@.controller == old(self)@.controller,
    {
        match self.ensure_controller(caller) {
            Err(e) => Err(e),
            Ok(()) => {
                if self.active {
                    Err(Error::GameAlreadyActive)
                } else {
                    self.active = true;
                    Ok(())
                }
            },
        }
    }

    /// The winner's payout for the current balance:
    /// `floor(balance * 80 / 100)`. The host transfers exactly this amount
    /// to the winner when settling; the remainder stays with the pool as
    /// the operator's share.
    pub fn reward_amount(&self) -> (r: u128)
        ensures
            r == self@.balance * 80 / 100,
            r <= self@.balance,
    {
        proof {
            lemma_payout_split(self.balance);
        }
        let q = self.balance / 5;
        let m = self.balance % 5;
        4 * q + (4 * m) / 5
    }

    /// The controller settles the running round, naming a winner. The host
    /// transfers `reward_amount` to the winner and reports the outcome as
    /// `transfer_ok`. Refused with `NotAuthorized` for any other caller,
    /// with `GameNotActive` when no round runs, and with `TransferFailed`
    /// when the payout did not complete — the round then stays active and
    /// the pool is unchanged, so no partial payout is ever observable. On
    /// success the pool keeps `balance - floor(balance * 80 / 100)` as the
    /// operator's share, the participant set is cleared and the round ends.
    /// The winner is not checked against the participant set: the
    /// controller is trusted to name a participant.
    #[allow(unused_variables)]
    pub fn end_game(&mut self, caller: AccountId, winner: AccountId, transfer_ok: bool) -> (r:
        Result<(), Error>)
        requires
            old(self).wf(),
        ensures
            final(self).wf(),
            r is Err ==> *final(self) == *old(self),
            caller != old(self)@.controller ==> r == Err::<(), Error>(Error::NotAuthorized),
            caller == old(self)@.controller && !old(self)@.active ==> r == Err::<(), Error>(
                Error::GameNotActive,
            ),
            caller == old(self)@.controller && old(self)@.active && !transfer_ok ==> r == Err::<
                (),
                Error,
            >(Error::TransferFailed),
            caller == old(self)@.controller && old(self)@.active && transfer_ok ==> r == Ok::<
                (),
                Error,
            >(()) && final(self)@.balance == old(self)@.balance - old(self)@.balance * 80 / 100
                && final(self)@.participants == Seq::<AccountId>::empty() && !final(self)@.active
                && final(self)@.controller == old(self)@.controller,
    {
        match self.ensure_controller(caller) {
            Err(e) => Err(e),
            Ok(()) => {
                if !self.active {
                    return Err(Error::GameNotActive);
                }
                if !transfer_ok {
                    return Err(Error::TransferFailed);
                }
                let reward = self.reward_amount();
                self.balance = self.balance - reward;
                self.participants.clear();
                self.active = false;
                Ok(())
            },
        }
    }

    /// The pooled balance currently in custody.
    pub fn balance(&self) -> (r: u128)
        ensures
            r == self@.balance,
    {
        self.balance
    }

    /// Whether a round is currently running.
    pub fn is_active(&self) -> (r: bool)
        ensures
            r == self@.active,
    {
        self.active
    }

    /// The participants of the pending or running round, in join order.
    pub fn participants(&self) -> (r: &Vec<AccountId>)
        ensures
            r@ == self@.participants,
    {
        &self.participants
    }
}

} // verus!
