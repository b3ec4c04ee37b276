use vstd::prelude::*;

use crate::account::AccountId;
use crate::error::Error;
use crate::ranking::lemma_lookup_first;
use crate::ranking::lemma_lookup_none;
use crate::ranking::lemma_rank_pos_agrees;
use crate::ranking::lemma_reposition;
use crate::ranking::lemma_strip_absent;
use crate::ranking::lemma_strip_remove;
use crate::ranking::lookup;
use crate::ranking::reposition;
use crate::ranking::sorted_desc;
use crate::ranking::strip;
use crate::ranking::unique_keys;

verus! {

/// The score registry of one game instance: a designated controller (the
/// identity that constructed the instance) and the ranked board of
/// (participant, score) entries. The board is at once the score ledger —
/// each participant appears at most once, and a missing entry means "no
/// score", distinct from a score of zero — and the materialized ranking,
/// kept sorted by descending score at all times between calls.
pub struct GameScore {
    owner: AccountId,
    entries: Vec<(AccountId, u32)>,
}

/// The mathematical state of a `GameScore`: the controller identity and the
/// board as a sequence of (participant, score) entries.
pub struct GameScoreView {
    pub owner: AccountId,
    pub entries: Seq<(AccountId, u32)>,
}

impl View for GameScore {
    type V = GameScoreView;

    closed spec fn view(&self) -> GameScoreView {
        GameScoreView { owner: self.owner, entries: self.entries@ }
    }
}

impl GameScore {
    /// Invariant of the board: no participant appears twice, and scores
    /// never increase from the front to the back. Together these say the
    /// ranking holds exactly the participants with a recorded score, with
    /// no duplicates, sorted non-increasing by score.
    pub open spec fn wf(self) -> bool {
        unique_keys(self@.entries) && sorted_desc(self@.entries)
    }

    /// Creates an instance owned by the calling identity (supplied
    /// explicitly by the host), with an empty ledger and ranking.
    pub fn new(caller: AccountId) -> (game: GameScore)
        ensures
            game.wf(),
            game@.owner == caller,
            game@.entries == Seq::<(AccountId, u32)>::empty(),
    {
        let game = GameScore { owner: caller, entries: Vec::new() };
        proof {
            assert(game@.entries =~= Seq::<(AccountId, u32)>::empty());
        }
        game
    }

    /// The access gate: succeeds exactly when the caller is the controller
    /// identity captured at construction, and otherwise reports
    /// `NotAuthorized`. Privileged operations consult it before any
    /// mutation.
    pub fn ensure_owner(&self, caller: AccountId) -> (r: Result<(), Error>)
        ensures
            r == if caller == self@.owner {
                Ok::<(), Error>(())
            } else {
                Err::<(), Error>(Error::NotAuthorized)
            },
    {
        if caller == self.owner {
            Ok(())
        } else {
            Err(Error::NotAuthorized)
        }
    }

    /// Repositions `player` on the board for its new score: the old entry
    /// (if any) is removed, and the new one is inserted before the first
    /// occupant scoring strictly less — so among equal scores the incumbents
    /// keep their place and the updated participant goes last.
    fn update_ranking(&mut self, player: AccountId, score: u32)
        requires
            old(self).wf(),
        ensures
            final(self).wf(),
            final(self)@.owner == old(self)@.owner,
            final(self)@.entries == reposition(old(self)@.entries, player, score),
    {
        let ghost g0 = *self;
        let mut i: usize = 0;
        while i < self.entries.len() && self.entries[i].0 != player
            invariant
                *self == g0,
                0 <= i <= self.entries.len(),
                forall|j: int| 0 <= j < i ==> (#[trigger] self.entries@[j]).0 != player,
            decreases self.entries.len() - i,
        {
            i = i + 1;
        }
        if i < self.entries.len() {
            proof {
                lemma_strip_remove(g0@.entries, player, i as int);
            }
            self.entries.remove(i);
        } else {
            proof {
                lemma_strip_absent(g0@.entries, player);
            }
        }
        let ghost rest = self.entries@;
        assert(rest == strip(g0@.entries, player));
        let mut pos: usize = 0;
        while pos < self.entries.len() && self.entries[pos].1 >= score
            invariant
                self.owner == g0.owner,
                self.entries@ == rest,
                0 <= pos <= self.entries.len(),
                forall|j: int| 0 <= j < pos ==> (#[trigger] self.entries@[j]).1 >= score,
            decreases self.entries.len() - pos,
        {
            pos = pos + 1;
        }
        proof {
            lemma_rank_pos_agrees(rest, score, pos as int);
        }
        self.entries.insert(pos, (player, score));
        proof {
            lemma_reposition(g0@.entries, player, score);
        }
    }

    /// Sets `player`'s score to `new_score`, overwriting any prior score,
    /// and keeps the ranking consistent. Only the controller may call this:
    /// any other caller gets `NotAuthorized` and the state is left exactly
    /// as it was. On success the board becomes `reposition` of the old
    /// board: `player` records `new_score`, no other recorded score
    /// changes, and the board stays sorted with unique keys.
    pub fn update_score(&mut self, caller: AccountId, player: AccountId, new_score: u32) -> (r:
        Result<(), Error>)
        requires
            old(self).wf(),
        ensures
            final(self).wf(),
            final(self)@.owner == old(self)@.owner,
            caller != old(self)@.owner ==> r == Err::<(), Error>(Error::NotAuthorized)
                && *final(self) == *old(self),
            caller == old(self)@.owner ==> r == Ok::<(), Error>(()) && final(self)@.entries
                == reposition(old(self)@.entries, player, new_score) && lookup(
                final(self)@.entries,
                player,
            ) == Some(new_score) && (forall|q: AccountId|
                q != player ==> #[trigger] lookup(final(self)@.entries, q) == lookup(
                    old(self)@.entries,
                    q,
                )),
    {
        match self.ensure_owner(caller) {
            Err(e) => Err(e),
            Ok(()) => {
                self.update_ranking(player, new_score);
                proof {
                    lemma_reposition(old(self)@.entries, player, new_score);
                }
                Ok(())
            },
        }
    }

    /// Reads `player`'s recorded score: `None` when no score was ever set
    /// for it. Gated: a caller other than the controller gets
    /// `NotAuthorized`. Never mutates state.
    pub fn get_score(&self, caller: AccountId, player: AccountId) -> (r: Result<Option<u32>, Error>)
        ensures
            caller != self@.owner ==> r == Err::<Option<u32>, Error>(Error::NotAuthorized),
            caller == self@.owner ==> r == Ok::<Option<u32>, Error>(lookup(self@.entries, player)),
    {
        match self.ensure_owner(caller) {
            Err(e) => Err(e),
            Ok(()) => {
                let mut i: usize = 0;
                while i < self.entries.len() && self.entries[i].0 != player
                    invariant
                        0 <= i <= self.entries.len(),
                        forall|j: int| 0 <= j < i ==> (#[trigger] self.entries@[j]).0 != player,
                    decreases self.entries.len() - i,
                {
                    i = i + 1;
                }
                if i < self.entries.len() {
                    proof {
                        lemma_lookup_first(self@.entries, player, i as int);
                    }
                    Ok(Some(self.entries[i].1))
                } else {
                    proof {
                        lemma_lookup_none(self@.entries, player);
                    }
                    Ok(None)
                }
            },
        }
    }

    /// Returns the materialized ranking, best score first, as
    /// (participant, score) pairs. Gated like `get_score`. Never mutates
    /// state.
    pub fn get_ranking(&self, caller: AccountId) -> (r: Result<Vec<(AccountId, u32)>, Error>)
        ensures
            caller != self@.owner ==> r == Err::<Vec<(AccountId, u32)>, Error>(
                Error::NotAuthorized,
            ),
            caller == self@.owner ==> (r matches Ok(ranking) && ranking@ == self@.entries),
    {
        match self.ensure_owner(caller) {
            Err(e) => Err(e),
            Ok(()) => {
                let mut out: Vec<(AccountId, u32)> = Vec::new();
                let mut i: usize = 0;
                proof {
                    assert(out@ =~= self@.entries.subrange(0, 0));
                }
                while i < self.entries.len()
                    invariant
                        0 <= i <= self.entries.len(),
                        out@ == self@.entries.subrange(0, i as int),
                    decreases self.entries.len() - i,
                {
                    let entry = self.entries[i];
                    out.push(entry);
                    proof {
                        assert(out@ =~= self@.entries.subrange(0, i as int + 1));
                    }
                    i = i + 1;
                }
                proof {
                    assert(out@ =~= self@.entries);
                }
                Ok(out)
            },
        }
    }
}

} // verus!
