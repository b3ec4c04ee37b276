use vstd::prelude::*;

use crate::account::AccountId;

verus! {

// A board is a sequence of (participant, score) entries. It serves both as
// the score ledger (participant keys are unique) and as the ranking (entries
// are sorted by score, highest first). The spec functions below give the
// mathematical meaning of the board operations; `GameScore` maintains
// `unique_keys` and `sorted_desc` as its invariant.

/// The score recorded for `a`: the value of the first entry keyed by `a`,
/// or `None` when `a` has never had a score set. With unique keys the first
/// entry is the only one.
pub open spec fn lookup(entries: Seq<(AccountId, u32)>, a: AccountId) -> Option<u32>
    decreases entries.len(),
{
    if entries.len() == 0 {
        None
    } else if entries[0].0 == a {
        Some(entries[0].1)
    } else {
        lookup(entries.drop_first(), a)
    }
}

/// No participant occurs twice on the board.
pub open spec fn unique_keys(entries: Seq<(AccountId, u32)>) -> bool {
    forall|i: int, j: int|
        0 <= i < j < entries.len() ==> (#[trigger] entries[i]).0 != (#[trigger] entries[j]).0
}

/// Scores never increase along the board: the leader stands first.
pub open spec fn sorted_desc(entries: Seq<(AccountId, u32)>) -> bool {
    forall|i: int, j: int|
        0 <= i <= j < entries.len() ==> (#[trigger] entries[i]).1 >= (#[trigger] entries[j]).1
}

/// The board with every entry keyed by `a` removed, other entries kept in
/// their relative order.
pub open spec fn strip(entries: Seq<(AccountId, u32)>, a: AccountId) -> Seq<(AccountId, u32)>
    decreases entries.len(),
{
    if entries.len() == 0 {
        Seq::empty()
    } else if entries[0].0 == a {
        strip(entries.drop_first(), a)
    } else {
        seq![entries[0]] + strip(entries.drop_first(), a)
    }
}

/// The first position whose occupant scores strictly below `s` (the length
/// when no occupant does): where a stable descending insert of a new entry
/// with score `s` lands, after every incumbent with an equal score.
pub open spec fn rank_pos(entries: Seq<(AccountId, u32)>, s: u32) -> int
    decreases entries.len(),
{
    if entries.len() == 0 {
        0
    } else if entries[0].1 < s {
        0
    } else {
        1 + rank_pos(entries.drop_first(), s)
    }
}

/// The index of the first entry keyed by `a` (the length when `a` is absent).
pub open spec fn key_index(entries: Seq<(AccountId, u32)>, a: AccountId) -> int
    decreases entries.len(),
{
    if entries.len() == 0 {
        0
    } else if entries[0].0 == a {
        0
    } else {
        1 + key_index(entries.drop_first(), a)
    }
}

/// The board after setting `a`'s score to `s`: `a`'s old entry (if any) is
/// removed, and `(a, s)` is inserted at the stable descending position.
/// This is exactly what one score update does to the board.
pub open spec fn reposition(entries: Seq<(AccountId, u32)>, a: AccountId, s: u32) -> Seq<
    (AccountId, u32),
> {
    let rest = strip(entries, a);
    rest.insert(rank_pos(rest, s), (a, s))
}

/// `rank_pos` is a position within the board; every occupant before it
/// scores at least `s`, and the occupant at it (if any) scores below `s`.
pub proof fn lemma_rank_pos(entries: Seq<(AccountId, u32)>, s: u32)
    ensures
        0 <= rank_pos(entries, s) <= entries.len(),
        forall|j: int| 0 <= j < rank_pos(entries, s) ==> (#[trigger] entries[j]).1 >= s,
        rank_pos(entries, s) < entries.len() ==> entries[rank_pos(entries, s)].1 < s,
    decreases entries.len(),
{
    if entries.len() == 0 {
    } else if entries[0].1 < s {
    } else {
        lemma_rank_pos(entries.drop_first(), s);
        let p = rank_pos(entries, s);
        assert forall|j: int| 0 <= j < p implies (#[trigger] entries[j]).1 >= s by {
            if j > 0 {
                assert(entries.drop_first()[j - 1] == entries[j]);
            }
        }
        if p < entries.len() {
            assert(entries.drop_first()[p - 1] == entries[p]);
        }
    }
}

/// Any position that has only scores at least `s` before it and a score
/// below `s` (or the end) at it is `rank_pos`: the position is unique.
pub proof fn lemma_rank_pos_agrees(entries: Seq<(AccountId, u32)>, s: u32, pos: int)
    requires
        0 <= pos <= entries.len(),
        forall|j: int| 0 <= j < pos ==> (#[trigger] entries[j]).1 >= s,
        pos < entries.len() ==> entries[pos].1 < s,
    ensures
        pos == rank_pos(entries, s),
{
    lemma_rank_pos(entries, s);
    let p = rank_pos(entries, s);
    if pos < p {
        assert(entries[pos].1 >= s);
        assert(entries[pos].1 < s);
    }
    if p < pos {
        assert(entries[p].1 >= s);
        assert(entries[p].1 < s);
    }
}

/// `lookup` returns the value of the first entry keyed by `a`.
pub proof fn lemma_lookup_first(entries: Seq<(AccountId, u32)>, a: AccountId, i: int)
    requires
        0 <= i < entries.len(),
        entries[i].0 == a,
        forall|j: int| 0 <= j < i ==> (#[trigger] entries[j]).0 != a,
    ensures
        lookup(entries, a) == Some(entries[i].1),
    decreases entries.len(),
{
    if i == 0 {
    } else {
        assert(entries[0].0 != a);
        assert(entries.drop_first()[i - 1] == entries[i]);
        assert forall|j: int| 0 <= j < i - 1 implies (#[trigger] entries.drop_first()[j]).0 != a by {
            assert(entries.drop_first()[j] == entries[j + 1]);
        }
        lemma_lookup_first(entries.drop_first(), a, i - 1);
    }
}

/// A board without an entry keyed by `a` records no score for `a`.
pub proof fn lemma_lookup_none(entries: Seq<(AccountId, u32)>, a: AccountId)
    requires
        forall|j: int| 0 <= j < entries.len() ==> (#[trigger] entries[j]).0 != a,
    ensures
        lookup(entries, a) == None::<u32>,
    decreases entries.len(),
{
    if entries.len() == 0 {
    } else {
        assert(entries[0].0 != a);
        assert forall|j: int| 0 <= j < entries.drop_first().len() implies (#[trigger] entries.drop_first()[
            j
        ]).0 != a by {
            assert(entries.drop_first()[j] == entries[j + 1]);
        }
        lemma_lookup_none(entries.drop_first(), a);
    }
}

/// `key_index` lies within the board and points at the first entry keyed by
/// `a`; it equals the length exactly when `a` has no entry, and `lookup`
/// agrees with it.
pub proof fn lemma_key_index(entries: Seq<(AccountId, u32)>, a: AccountId)
    ensures
        0 <= key_index(entries, a) <= entries.len(),
        key_index(entries, a) < entries.len() ==> entries[key_index(entries, a)].0 == a
            && lookup(entries, a) == Some(entries[key_index(entries, a)].1),
        key_index(entries, a) == entries.len() ==> lookup(entries, a) == None::<u32>,
        forall|j: int| 0 <= j < key_index(entries, a) ==> (#[trigger] entries[j]).0 != a,
    decreases entries.len(),
{
    if entries.len() == 0 {
    } else if entries[0].0 == a {
    } else {
        lemma_key_index(entries.drop_first(), a);
        let k = key_index(entries, a);
        assert forall|j: int| 0 <= j < k implies (#[trigger] entries[j]).0 != a by {
            if j > 0 {
                assert(entries.drop_first()[j - 1] == entries[j]);
            }
        }
        if k < entries.len() {
            assert(entries.drop_first()[k - 1] == entries[k]);
        }
    }
}

/// Stripping `a` removes every entry keyed by `a` and nothing forces the
/// board to grow: the result is at most as long as the board.
pub proof fn lemma_strip_strips(entries: Seq<(AccountId, u32)>, a: AccountId)
    ensures
        strip(entries, a).len() <= entries.len(),
        forall|i: int|
            0 <= i < strip(entries, a).len() ==> (#[trigger] strip(entries, a)[i]).0 != a,
    decreases entries.len(),
{
    if entries.len() == 0 {
    } else {
        lemma_strip_strips(entries.drop_first(), a);
        if entries[0].0 != a {
            let st = strip(entries, a);
            assert forall|i: int| 0 <= i < st.len() implies (#[trigger] st[i]).0 != a by {
                if i > 0 {
                    assert(st[i] == strip(entries.drop_first(), a)[i - 1]);
                }
            }
        }
    }
}

/// Stripping one key cannot introduce entries under another key.
pub proof fn lemma_strip_no_key(entries: Seq<(AccountId, u32)>, a: AccountId, q: AccountId)
    requires
        forall|i: int| 0 <= i < entries.len() ==> (#[trigger] entries[i]).0 != q,
    ensures
        forall|i: int|
            0 <= i < strip(entries, a).len() ==> (#[trigger] strip(entries, a)[i]).0 != q,
    decreases entries.len(),
{
    if entries.len() == 0 {
    } else {
        assert forall|i: int| 0 <= i < entries.drop_first().len() implies (#[trigger] entries.drop_first()[
            i
        ]).0 != q by {
            assert(entries.drop_first()[i] == entries[i + 1]);
        }
        lemma_strip_no_key(entries.drop_first(), a, q);
        if entries[0].0 != a {
            let st = strip(entries, a);
            assert forall|i: int| 0 <= i < st.len() implies (#[trigger] st[i]).0 != q by {
                if i > 0 {
                    assert(st[i] == strip(entries.drop_first(), a)[i - 1]);
                }
            }
        }
    }
}

/// Stripping a key keeps the board sorted, and no surviving score exceeds
/// the original leader's.
pub proof fn lemma_strip_sorted(entries: Seq<(AccountId, u32)>, a: AccountId)
    requires
        sorted_desc(entries),
    ensures
        sorted_desc(strip(entries, a)),
        forall|i: int|
            0 <= i < strip(entries, a).len() ==> entries.len() > 0 && (#[trigger] strip(
                entries,
                a,
            )[i]).1 <= entries[0].1,
    decreases entries.len(),
{
    if entries.len() == 0 {
    } else {
        let rest = entries.drop_first();
        assert forall|i: int, j: int| 0 <= i <= j < rest.len() implies (#[trigger] rest[i]).1 >= (
        #[trigger] rest[j]).1 by {
            assert(rest[i] == entries[i + 1]);
            assert(rest[j] == entries[j + 1]);
        }
        lemma_strip_sorted(rest, a);
        let st = strip(entries, a);
        if entries[0].0 == a {
            assert forall|i: int| 0 <= i < st.len() implies entries.len() > 0 && (#[trigger] st[i]).1
                <= entries[0].1 by {
                assert(rest.len() > 0);
                assert(rest[0] == entries[1]);
                assert(entries[0].1 >= entries[1].1);
            }
        } else {
            assert forall|i: int| 0 <= i < st.len() implies entries.len() > 0 && (#[trigger] st[i]).1
                <= entries[0].1 by {
                if i > 0 {
                    assert(st[i] == strip(rest, a)[i - 1]);
                    assert(rest[0] == entries[1]);
                }
            }
            assert forall|i: int, j: int| 0 <= i <= j < st.len() implies (#[trigger] st[i]).1 >= (
            #[trigger] st[j]).1 by {
                if i > 0 {
                    assert(st[i] == strip(rest, a)[i - 1]);
                }
                if j > 0 {
                    assert(st[j] == strip(rest, a)[j - 1]);
                }
            }
        }
    }
}

/// Stripping a key keeps the remaining keys unique.
pub proof fn lemma_strip_unique(entries: Seq<(AccountId, u32)>, a: AccountId)
    requires
        unique_keys(entries),
    ensures
        unique_keys(strip(entries, a)),
    decreases entries.len(),
{
    if entries.len() == 0 {
    } else {
        let rest = entries.drop_first();
        assert forall|i: int, j: int| 0 <= i < j < rest.len() implies (#[trigger] rest[i]).0 != (
        #[trigger] rest[j]).0 by {
            assert(rest[i] == entries[i + 1]);
            assert(rest[j] == entries[j + 1]);
        }
        lemma_strip_unique(rest, a);
        if entries[0].0 != a {
            assert forall|i: int| 0 <= i < rest.len() implies (#[trigger] rest[i]).0 != entries[0].0 by {
                assert(rest[i] == entries[i + 1]);
            }
            lemma_strip_no_key(rest, a, entries[0].0);
            let st = strip(entries, a);
            assert forall|i: int, j: int| 0 <= i < j < st.len() implies (#[trigger] st[i]).0 != (
            #[trigger] st[j]).0 by {
                assert(st[j] == strip(rest, a)[j - 1]);
                if i > 0 {
                    assert(st[i] == strip(rest, a)[i - 1]);
                }
            }
        }
    }
}

/// Stripping a key that has no entry leaves the board unchanged.
pub proof fn lemma_strip_absent(entries: Seq<(AccountId, u32)>, a: AccountId)
    requires
        forall|i: int| 0 <= i < entries.len() ==> (#[trigger] entries[i]).0 != a,
    ensures
        strip(entries, a) == entries,
    decreases entries.len(),
{
    if entries.len() == 0 {
        assert(strip(entries, a) =~= entries);
    } else {
        assert(entries[0].0 != a);
        assert forall|i: int| 0 <= i < entries.drop_first().len() implies (#[trigger] entries.drop_first()[
            i
        ]).0 != a by {
            assert(entries.drop_first()[i] == entries[i + 1]);
        }
        lemma_strip_absent(entries.drop_first(), a);
        assert(strip(entries, a) =~= entries);
    }
}

/// Stripping a key changes no other participant's recorded score.
pub proof fn lemma_strip_lookup(entries: Seq<(AccountId, u32)>, a: AccountId, q: AccountId)
    requires
        q != a,
    ensures
        lookup(strip(entries, a), q) == lookup(entries, q),
    decreases entries.len(),
{
    if entries.len() == 0 {
    } else if entries[0].0 == a {
        lemma_strip_lookup(entries.drop_first(), a, q);
    } else {
        let st = strip(entries, a);
        assert(st[0] == entries[0]);
        if entries[0].0 == q {
        } else {
            assert(st.drop_first() =~= strip(entries.drop_first(), a));
            lemma_strip_lookup(entries.drop_first(), a, q);
        }
    }
}

/// On a board with unique keys, stripping the key of the entry at `i` is
/// the same as removing that one entry.
pub proof fn lemma_strip_remove(entries: Seq<(AccountId, u32)>, a: AccountId, i: int)
    requires
        unique_keys(entries),
        0 <= i < entries.len(),
        entries[i].0 == a,
    ensures
        strip(entries, a) == entries.remove(i),
    decreases entries.len(),
{
    let rest = entries.drop_first();
    if entries[0].0 == a {
        if i > 0 {
            assert(entries[0].0 != entries[i].0);
        }
        assert(i == 0);
        assert forall|j: int| 0 <= j < rest.len() implies (#[trigger] rest[j]).0 != a by {
            assert(rest[j] == entries[j + 1]);
            assert(entries[0].0 != entries[j + 1].0);
        }
        lemma_strip_absent(rest, a);
        assert(entries.remove(0) =~= rest);
    } else {
        assert(i > 0);
        assert forall|x: int, y: int| 0 <= x < y < rest.len() implies (#[trigger] rest[x]).0 != (
        #[trigger] rest[y]).0 by {
            assert(rest[x] == entries[x + 1]);
            assert(rest[y] == entries[y + 1]);
        }
        assert(rest[i - 1] == entries[i]);
        lemma_strip_remove(rest, a, i - 1);
        assert(strip(entries, a) =~= entries.remove(i)) by {
            entries.remove_ensures(i);
            rest.remove_ensures(i - 1);
        }
    }
}

/// Inserting anywhere but the front commutes with dropping the front.
pub proof fn lemma_insert_drop_first(entries: Seq<(AccountId, u32)>, pos: int, x: (AccountId, u32))
    requires
        1 <= pos <= entries.len(),
    ensures
        entries.insert(pos, x).drop_first() == entries.drop_first().insert(pos - 1, x),
{
    entries.insert_ensures(pos, x);
    entries.drop_first().insert_ensures(pos - 1, x);
    assert(entries.insert(pos, x).drop_first() =~= entries.drop_first().insert(pos - 1, x));
}

/// Inserting `(a, s)` into a board without `a` records `s` for `a` and
/// changes no other participant's recorded score.
pub proof fn lemma_lookup_insert(
    entries: Seq<(AccountId, u32)>,
    pos: int,
    a: AccountId,
    s: u32,
    q: AccountId,
)
    requires
        0 <= pos <= entries.len(),
        forall|i: int| 0 <= i < entries.len() ==> (#[trigger] entries[i]).0 != a,
    ensures
        lookup(entries.insert(pos, (a, s)), a) == Some(s),
        q != a ==> lookup(entries.insert(pos, (a, s)), q) == lookup(entries, q),
    decreases pos,
{
    let ins = entries.insert(pos, (a, s));
    entries.insert_ensures(pos, (a, s));
    if pos == 0 {
        assert(ins[0] == (a, s));
        assert(ins.drop_first() =~= entries);
    } else {
        assert(ins[0] == entries[0]);
        assert(entries[0].0 != a);
        lemma_insert_drop_first(entries, pos, (a, s));
        assert forall|i: int| 0 <= i < entries.drop_first().len() implies (#[trigger] entries.drop_first()[
            i
        ]).0 != a by {
            assert(entries.drop_first()[i] == entries[i + 1]);
        }
        lemma_lookup_insert(entries.drop_first(), pos - 1, a, s, q);
    }
}

/// Stripping `a` right after inserting `(a, s)` into a board without `a`
/// gives back the board.
pub proof fn lemma_strip_insert(entries: Seq<(AccountId, u32)>, pos: int, a: AccountId, s: u32)
    requires
        0 <= pos <= entries.len(),
        forall|i: int| 0 <= i < entries.len() ==> (#[trigger] entries[i]).0 != a,
    ensures
        strip(entries.insert(pos, (a, s)), a) == entries,
    decreases pos,
{
    let ins = entries.insert(pos, (a, s));
    entries.insert_ensures(pos, (a, s));
    if pos == 0 {
        assert(ins[0] == (a, s));
        assert(ins.drop_first() =~= entries);
        lemma_strip_absent(entries, a);
    } else {
        assert(ins[0] == entries[0]);
        assert(entries[0].0 != a);
        lemma_insert_drop_first(entries, pos, (a, s));
        assert forall|i: int| 0 <= i < entries.drop_first().len() implies (#[trigger] entries.drop_first()[
            i
        ]).0 != a by {
            assert(entries.drop_first()[i] == entries[i + 1]);
        }
        lemma_strip_insert(entries.drop_first(), pos - 1, a, s);
        assert(strip(ins, a) =~= entries);
    }
}

/// Inserting an absent key keeps the keys unique.
pub proof fn lemma_unique_insert(entries: Seq<(AccountId, u32)>, pos: int, a: AccountId, s: u32)
    requires
        unique_keys(entries),
        0 <= pos <= entries.len(),
        forall|i: int| 0 <= i < entries.len() ==> (#[trigger] entries[i]).0 != a,
    ensures
        unique_keys(entries.insert(pos, (a, s))),
{
    let ins = entries.insert(pos, (a, s));
    entries.insert_ensures(pos, (a, s));
    assert forall|i: int, j: int| 0 <= i < j < ins.len() implies (#[trigger] ins[i]).0 != (
    #[trigger] ins[j]).0 by {
        if i < pos && j < pos {
            assert(ins[i] == entries[i] && ins[j] == entries[j]);
        } else if i < pos && j == pos {
            assert(ins[i] == entries[i]);
        } else if i < pos && j > pos {
            assert(ins[i] == entries[i] && ins[j] == entries[j - 1]);
        } else if i == pos {
            assert(ins[j] == entries[j - 1]);
        } else {
            assert(ins[i] == entries[i - 1] && ins[j] == entries[j - 1]);
        }
    }
}

/// Inserting a new entry at its `rank_pos` keeps the board sorted.
pub proof fn lemma_sorted_insert(entries: Seq<(AccountId, u32)>, a: AccountId, s: u32)
    requires
        sorted_desc(entries),
    ensures
        sorted_desc(entries.insert(rank_pos(entries, s), (a, s))),
{
    let pos = rank_pos(entries, s);
    lemma_rank_pos(entries, s);
    let ins = entries.insert(pos, (a, s));
    entries.insert_ensures(pos, (a, s));
    assert forall|i: int, j: int| 0 <= i <= j < ins.len() implies (#[trigger] ins[i]).1 >= (
    #[trigger] ins[j]).1 by {
        if i < pos {
            assert(ins[i] == entries[i]);
        } else if i > pos {
            assert(ins[i] == entries[i - 1]);
        }
        if j < pos {
            assert(ins[j] == entries[j]);
        } else if j > pos {
            assert(ins[j] == entries[j - 1]);
            assert(entries[pos].1 >= entries[j - 1].1);
        }
    }
}

/// What one score update does to a well-formed board: the updated
/// participant's score becomes `s`, every other participant's recorded
/// score is untouched, every other entry keeps its relative order, and the
/// board stays sorted with unique keys.
pub proof fn lemma_reposition(entries: Seq<(AccountId, u32)>, a: AccountId, s: u32)
    requires
        unique_keys(entries),
        sorted_desc(entries),
    ensures
        unique_keys(reposition(entries, a, s)),
        sorted_desc(reposition(entries, a, s)),
        lookup(reposition(entries, a, s), a) == Some(s),
        forall|q: AccountId|
            q != a ==> #[trigger] lookup(reposition(entries, a, s), q) == lookup(entries, q),
        strip(reposition(entries, a, s), a) == strip(entries, a),
        reposition(entries, a, s).len() == strip(entries, a).len() + 1,
{
    let rest = strip(entries, a);
    let pos = rank_pos(rest, s);
    lemma_strip_strips(entries, a);
    lemma_strip_sorted(entries, a);
    lemma_strip_unique(entries, a);
    lemma_rank_pos(rest, s);
    lemma_sorted_insert(rest, a, s);
    lemma_unique_insert(rest, pos, a, s);
    lemma_strip_insert(rest, pos, a, s);
    lemma_lookup_insert(rest, pos, a, s, a);
    assert forall|q: AccountId| q != a implies #[trigger] lookup(reposition(entries, a, s), q)
        == lookup(entries, q) by {
        lemma_lookup_insert(rest, pos, a, s, q);
        lemma_strip_lookup(entries, a, q);
    }
    rest.insert_ensures(pos, (a, s));
}

/// Law: setting the same score twice in a row is idempotent. The board
/// after re-applying `reposition` with the same participant and score is
/// exactly the board after applying it once, so a repeated `set_score`
/// call leaves ledger and ranking identical.
pub proof fn lemma_reposition_idempotent(entries: Seq<(AccountId, u32)>, a: AccountId, s: u32)
    requires
        unique_keys(entries),
        sorted_desc(entries),
    ensures
        reposition(reposition(entries, a, s), a, s) == reposition(entries, a, s),
{
    lemma_reposition(entries, a, s);
}

/// Law: the board is a sound ranking of the ledger. A participant stands
/// on the board exactly when a score is recorded for it — together with
/// `unique_keys` (no duplicates) and `sorted_desc` (non-increasing scores),
/// which every operation maintains, the ranking holds exactly the set of
/// participants with a recorded score.
pub proof fn lemma_board_complete(entries: Seq<(AccountId, u32)>, p: AccountId)
    ensures
        lookup(entries, p) is Some <==> exists|i: int|
            0 <= i < entries.len() && (#[trigger] entries[i]).0 == p,
{
    lemma_key_index(entries, p);
    if lookup(entries, p) is Some {
        assert(key_index(entries, p) < entries.len());
        assert(entries[key_index(entries, p)].0 == p);
    }
}

/// Stripping a third key preserves the relative order of two participants'
/// first entries.
pub proof fn lemma_key_index_strip(
    entries: Seq<(AccountId, u32)>,
    a: AccountId,
    p: AccountId,
    q: AccountId,
)
    requires
        p != a,
        q != a,
        key_index(entries, p) < key_index(entries, q) < entries.len(),
    ensures
        key_index(strip(entries, a), p) < key_index(strip(entries, a), q) < strip(
            entries,
            a,
        ).len(),
    decreases entries.len(),
{
    let rest = entries.drop_first();
    let st = strip(entries, a);
    lemma_key_index(entries, p);
    lemma_key_index(entries, q);
    if entries[0].0 == a {
        lemma_key_index_strip(rest, a, p, q);
    } else if entries[0].0 == p {
        assert(st[0] == entries[0]);
        assert(key_index(st, p) == 0);
        // `q` stands somewhere in the tail, and stripping keeps its entry.
        assert(key_index(rest, q) < rest.len());
        lemma_key_index(rest, q);
        lemma_strip_lookup(rest, a, q);
        lemma_key_index(strip(rest, a), q);
        assert(key_index(strip(rest, a), q) < strip(rest, a).len());
        assert(st.drop_first() =~= strip(rest, a));
        assert(key_index(st, q) == 1 + key_index(strip(rest, a), q));
    } else {
        assert(entries[0].0 != q);
        lemma_key_index_strip(rest, a, p, q);
        assert(st[0] == entries[0]);
        assert(st.drop_first() =~= strip(rest, a));
        assert(key_index(st, p) == 1 + key_index(strip(rest, a), p));
        assert(key_index(st, q) == 1 + key_index(strip(rest, a), q));
    }
}

/// How inserting an entry under a fresh key shifts the first position of
/// any other key: positions before the insertion point stay, later ones
/// move one step down.
pub proof fn lemma_key_index_insert(
    entries: Seq<(AccountId, u32)>,
    pos: int,
    a: AccountId,
    s: u32,
    q: AccountId,
)
    requires
        q != a,
        0 <= pos <= entries.len(),
    ensures
        key_index(entries.insert(pos, (a, s)), q) == if key_index(entries, q) < pos {
            key_index(entries, q)
        } else {
            key_index(entries, q) + 1
        },
    decreases pos,
{
    let ins = entries.insert(pos, (a, s));
    entries.insert_ensures(pos, (a, s));
    lemma_key_index(entries, q);
    if pos == 0 {
        assert(ins[0] == (a, s));
        assert(ins.drop_first() =~= entries);
        assert(key_index(ins, q) == 1 + key_index(entries, q));
    } else {
        assert(ins[0] == entries[0]);
        if entries[0].0 == q {
            assert(key_index(ins, q) == 0);
            assert(key_index(entries, q) == 0);
        } else {
            lemma_insert_drop_first(entries, pos, (a, s));
            lemma_key_index_insert(entries.drop_first(), pos - 1, a, s, q);
            assert(key_index(ins, q) == 1 + key_index(ins.drop_first(), q));
            assert(key_index(entries, q) == 1 + key_index(entries.drop_first(), q));
        }
    }
}

/// Law: a score update is stable. Two participants other than the updated
/// one keep their relative order on the board — in particular, two
/// participants with equal scores stay in their order unless one of them is
/// the participant being re-scored.
pub proof fn lemma_reposition_stable(
    entries: Seq<(AccountId, u32)>,
    a: AccountId,
    s: u32,
    p: AccountId,
    q: AccountId,
)
    requires
        p != a,
        q != a,
        key_index(entries, p) < key_index(entries, q) < entries.len(),
    ensures
        key_index(reposition(entries, a, s), p) < key_index(reposition(entries, a, s), q)
            < reposition(entries, a, s).len(),
{
    let rest = strip(entries, a);
    let pos = rank_pos(rest, s);
    lemma_key_index_strip(entries, a, p, q);
    lemma_rank_pos(rest, s);
    lemma_key_index_insert(rest, pos, a, s, p);
    lemma_key_index_insert(rest, pos, a, s, q);
    rest.insert_ensures(pos, (a, s));
}

} // verus!
