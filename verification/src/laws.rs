//! The session-wide laws: well-formedness of a game state, its
//! preservation by the reducer, and the authorization, freezing and
//! idempotence properties of single actions.

use vstd::prelude::*;

use crate::game::{
    apply, apply_player_joined, apply_player_left, apply_position_changed,
    apply_results_approved, apply_stories_added, apply_story_removed, apply_story_updated,
    apply_vote_casted, apply_voting_opened, backlog_idx, close_selected, is_admin_gated,
    lemma_backlog_idx, lemma_estimated_idx, lemma_player_idx, player_idx, voting_target_present,
    ActionV, GameV,
};
use crate::model::{
    lemma_vote_idx, upsert_vote, vote_idx, BacklogStoryV, EstimatedStoryV, PlayerV,
    SelectedStoryV, StoryInfoV, UserV,
};

verus! {

/// Whether some player entry carries user id `id`.
pub open spec fn has_player_id(players: Seq<PlayerV>, id: u128) -> bool {
    exists|k: int| 0 <= k < players.len() && players[k].user.id == id
}

/// Whether some backlog entry carries story id `id`.
pub open spec fn backlog_has_id(b: Seq<BacklogStoryV>, id: u128) -> bool {
    exists|k: int| 0 <= k < b.len() && b[k].id == id
}

/// Whether some finished estimate carries story id `id`.
pub open spec fn estimated_has_id(e: Seq<EstimatedStoryV>, id: u128) -> bool {
    exists|k: int| 0 <= k < e.len() && e[k].id == id
}

impl GameV {
    pub open spec fn players_unique(self) -> bool {
        forall|i: int, j: int|
            0 <= i < j < self.players.len() ==> self.players[i].user.id
                != self.players[j].user.id
    }

    pub open spec fn backlog_unique(self) -> bool {
        forall|i: int, j: int|
            0 <= i < j < self.backlog.len() ==> self.backlog[i].id != self.backlog[j].id
    }

    pub open spec fn estimated_unique(self) -> bool {
        forall|i: int, j: int|
            0 <= i < j < self.estimated.len() ==> self.estimated[i].id != self.estimated[j].id
    }

    /// Votes on the selected story: one per user, and only from known
    /// players.
    pub open spec fn votes_wf(self) -> bool {
        match self.selected {
            Some(s) => {
                &&& forall|i: int, j: int|
                    0 <= i < j < s.votes.len() ==> s.votes[i].user_id != s.votes[j].user_id
                &&& forall|i: int|
                    0 <= i < s.votes.len() ==> has_player_id(
                        self.players,
                        #[trigger] s.votes[i].user_id,
                    )
            },
            None => true,
        }
    }

    /// A story id lives in at most one of: backlog, selected story,
    /// finished estimates.
    pub open spec fn stories_disjoint(self) -> bool {
        &&& forall|i: int, j: int|
            0 <= i < self.backlog.len() && 0 <= j < self.estimated.len()
                ==> self.backlog[i].id != self.estimated[j].id
        &&& match self.selected {
            Some(s) => !backlog_has_id(self.backlog, s.id) && !estimated_has_id(
                self.estimated,
                s.id,
            ),
            None => true,
        }
    }

    /// The invariant every reachable game state satisfies.
    pub open spec fn wf(self) -> bool {
        &&& self.players_unique()
        &&& self.backlog_unique()
        &&& self.estimated_unique()
        &&& self.votes_wf()
        &&& self.stories_disjoint()
    }
}

/// A freshly created session (one player, nothing else) is well-formed.
pub proof fn lemma_initial_wf(g: GameV)
    requires
        g.players.len() == 1,
        g.backlog.len() == 0,
        g.estimated.len() == 0,
        g.selected is None,
    ensures
        g.wf(),
{
}

/// For a well-formed game, a story id occurs in at most one of the three
/// places.
pub proof fn lemma_story_in_one_place(g: GameV, id: u128)
    requires
        g.wf(),
    ensures
        !(backlog_has_id(g.backlog, id) && estimated_has_id(g.estimated, id)),
        !(backlog_has_id(g.backlog, id) && (g.selected matches Some(s) && s.id == id)),
        !(estimated_has_id(g.estimated, id) && (g.selected matches Some(s) && s.id == id)),
{
    if backlog_has_id(g.backlog, id) && estimated_has_id(g.estimated, id) {
        let i = choose|i: int| 0 <= i < g.backlog.len() && g.backlog[i].id == id;
        let j = choose|j: int| 0 <= j < g.estimated.len() && g.estimated[j].id == id;
        assert(g.backlog[i].id != g.estimated[j].id);
    }
}

/// Once votes are revealed, a further `VoteCasted` is a no-op, whoever
/// casts it, until the votes are explicitly cleared.
pub proof fn lemma_votes_frozen_after_reveal(g: GameV, actor: u128, v: int)
    requires
        g.selected matches Some(s) && s.votes_revealed,
    ensures
        apply(g, actor, ActionV::VoteCasted(v)) == g,
{
}

/// An admin-gated action performed by an actor who is not an admin of
/// the game leaves the state unchanged.
pub proof fn lemma_non_admin_noop(g: GameV, actor: u128, a: ActionV)
    requires
        is_admin_gated(a),
        !g.is_admin(actor),
    ensures
        apply(g, actor, a) == g,
{
}

/// `player_idx` depends only on the user ids, elementwise.
proof fn lemma_player_idx_same_ids(s1: Seq<PlayerV>, s2: Seq<PlayerV>, id: u128)
    requires
        s1.len() == s2.len(),
        forall|k: int| 0 <= k < s1.len() ==> s1[k].user.id == s2[k].user.id,
    ensures
        player_idx(s1, id) == player_idx(s2, id),
    decreases s1.len(),
{
    if s1.len() > 0 {
        let r1 = s1.drop_first();
        let r2 = s2.drop_first();
        assert(forall|k: int| 0 <= k < r1.len() ==> r1[k].user.id == r2[k].user.id) by {
            assert(forall|k: int|
                0 <= k < r1.len() ==> #[trigger] r1[k] == s1[k + 1] && r2[k] == s2[k + 1]);
        }
        lemma_player_idx_same_ids(r1, r2, id);
    }
}

/// Applying `PlayerLeft` twice in a row for the same user yields the
/// same state as applying it once.
pub proof fn lemma_player_left_idempotent(g: GameV, actor: u128)
    ensures
        apply(apply(g, actor, ActionV::PlayerLeft), actor, ActionV::PlayerLeft) == apply(
            g,
            actor,
            ActionV::PlayerLeft,
        ),
{
    let g1 = apply(g, actor, ActionV::PlayerLeft);
    let i = player_idx(g.players, actor);
    if i >= 0 {
        lemma_player_idx(g.players, actor);
        assert(g1.players =~= g.players.update(
            i,
            PlayerV { active: false, ..g.players[i] },
        ));
        lemma_player_idx_same_ids(g1.players, g.players, actor);
        assert(player_idx(g1.players, actor) == i);
        assert(g1.players[i] == (PlayerV { active: false, ..g.players[i] }));
        assert(g1.players.update(i, PlayerV { active: false, ..g1.players[i] }) =~= g1.players);
        assert(apply(g1, actor, ActionV::PlayerLeft) =~= g1);
    } else {
        lemma_player_idx(g.players, actor);
        assert(g1 == g);
    }
}

/// Removing an entry from a duplicate-free backlog keeps it
/// duplicate-free, keeps only ids it had, drops the removed id entirely,
/// and keeps every other id.
proof fn lemma_backlog_remove(b: Seq<BacklogStoryV>, i: int)
    requires
        0 <= i < b.len(),
        forall|p: int, q: int| 0 <= p < q < b.len() ==> b[p].id != b[q].id,
    ensures
        forall|p: int, q: int|
            0 <= p < q < b.remove(i).len() ==> b.remove(i)[p].id != b.remove(i)[q].id,
        forall|id: u128| #[trigger] backlog_has_id(b.remove(i), id) ==> backlog_has_id(b, id),
        !backlog_has_id(b.remove(i), b[i].id),
        forall|k: int|
            0 <= k < b.len() && k != i ==> backlog_has_id(b.remove(i), #[trigger] b[k].id),
{
    b.remove_ensures(i);
    let b2 = b.remove(i);
    assert forall|p: int, q: int| 0 <= p < q < b2.len() implies b2[p].id != b2[q].id by {
        let sp = if p < i { p } else { p + 1 };
        let sq = if q < i { q } else { q + 1 };
        assert(b2[p] == b[sp]);
        assert(b2[q] == b[sq]);
        assert(b[sp].id != b[sq].id);
    }
    assert forall|id: u128| #[trigger] backlog_has_id(b2, id) implies backlog_has_id(b, id) by {
        let k = choose|k: int| 0 <= k < b2.len() && b2[k].id == id;
        let sk = if k < i { k } else { k + 1 };
        assert(b2[k] == b[sk]);
    }
    assert(!backlog_has_id(b2, b[i].id)) by {
        if backlog_has_id(b2, b[i].id) {
            let k = choose|k: int| 0 <= k < b2.len() && b2[k].id == b[i].id;
            let sk = if k < i { k } else { k + 1 };
            assert(b2[k] == b[sk]);
            if sk < i {
                assert(b[sk].id != b[i].id);
            } else {
                assert(b[i].id != b[sk].id);
            }
        }
    }
    assert forall|k: int| 0 <= k < b.len() && k != i implies backlog_has_id(
        b2,
        #[trigger] b[k].id,
    ) by {
        if k < i {
            assert(b2[k] == b[k]);
        } else {
            assert(b2[k - 1] == b[k]);
        }
    }
}

/// Inserting an entry with a fresh id into a duplicate-free backlog
/// keeps it duplicate-free; afterwards it holds exactly the old ids plus
/// the new one.
proof fn lemma_backlog_insert(b: Seq<BacklogStoryV>, idx: int, x: BacklogStoryV)
    requires
        0 <= idx <= b.len(),
        forall|p: int, q: int| 0 <= p < q < b.len() ==> b[p].id != b[q].id,
        !backlog_has_id(b, x.id),
    ensures
        forall|p: int, q: int|
            0 <= p < q < b.insert(idx, x).len() ==> b.insert(idx, x)[p].id != b.insert(
                idx,
                x,
            )[q].id,
        forall|id: u128|
            #[trigger] backlog_has_id(b.insert(idx, x), id) ==> id == x.id || backlog_has_id(
                b,
                id,
            ),
        forall|id: u128| #[trigger] backlog_has_id(b, id) ==> backlog_has_id(b.insert(idx, x), id),
        backlog_has_id(b.insert(idx, x), x.id),
{
    b.insert_ensures(idx, x);
    let b2 = b.insert(idx, x);
    assert forall|k: int| 0 <= k < b.len() implies b[k].id != x.id by {
        if b[k].id == x.id {
            assert(backlog_has_id(b, x.id));
        }
    }
    assert forall|p: int, q: int| 0 <= p < q < b2.len() implies b2[p].id != b2[q].id by {
        if p < idx {
            assert(b2[p] == b[p]);
        } else if p == idx {
            assert(b2[p] == x);
        } else {
            assert(b2[p] == b[p - 1]);
        }
        if q < idx {
            assert(b2[q] == b[q]);
        } else if q == idx {
            assert(b2[q] == x);
        } else {
            assert(b2[q] == b[q - 1]);
        }
    }
    assert forall|id: u128| #[trigger] backlog_has_id(b2, id) implies id == x.id
        || backlog_has_id(b, id) by {
        let k = choose|k: int| 0 <= k < b2.len() && b2[k].id == id;
        if k < idx {
            assert(b2[k] == b[k]);
        } else if k > idx {
            assert(b2[k] == b[k - 1]);
        }
    }
    assert forall|id: u128| #[trigger] backlog_has_id(b, id) implies backlog_has_id(b2, id) by {
        let k = choose|k: int| 0 <= k < b.len() && b[k].id == id;
        if k < idx {
            assert(b2[k] == b[k]);
        } else {
            assert(b2[k + 1] == b[k]);
        }
    }
    assert(b2[idx] == x);
}

proof fn lemma_wf_player_joined(g: GameV, u: UserV)
    requires
        g.wf(),
    ensures
        apply_player_joined(g, u).wf(),
{
    let i = player_idx(g.players, u.id);
    lemma_player_idx(g.players, u.id);
    let g2 = apply_player_joined(g, u);
    if i >= 0 {
        assert(forall|k: int|
            0 <= k < g2.players.len() ==> #[trigger] g2.players[k].user.id
                == g.players[k].user.id);
    } else {
        assert(forall|k: int|
            0 <= k < g.players.len() ==> #[trigger] g2.players[k].user.id
                == g.players[k].user.id);
        assert(g2.players[g.players.len() as int].user.id == u.id);
    }
    match g.selected {
        Some(s) => {
            assert forall|ii: int| 0 <= ii < s.votes.len() implies has_player_id(
                g2.players,
                #[trigger] s.votes[ii].user_id,
            ) by {
                let vid = s.votes[ii].user_id;
                assert(has_player_id(g.players, vid));
                let k = choose|k: int| 0 <= k < g.players.len() && g.players[k].user.id == vid;
                assert(g2.players[k].user.id == vid);
            }
        },
        None => {},
    }
}

proof fn lemma_wf_player_left(g: GameV, id: u128)
    requires
        g.wf(),
    ensures
        apply_player_left(g, id).wf(),
{
    let i = player_idx(g.players, id);
    let g2 = apply_player_left(g, id);
    if i >= 0 {
        lemma_player_idx(g.players, id);
        assert(forall|k: int|
            0 <= k < g2.players.len() ==> #[trigger] g2.players[k].user.id
                == g.players[k].user.id);
        match g.selected {
            Some(s) => {
                assert forall|ii: int| 0 <= ii < s.votes.len() implies has_player_id(
                    g2.players,
                    #[trigger] s.votes[ii].user_id,
                ) by {
                    let vid = s.votes[ii].user_id;
                    assert(has_player_id(g.players, vid));
                    let k = choose|k: int|
                        0 <= k < g.players.len() && g.players[k].user.id == vid;
                    assert(g2.players[k].user.id == vid);
                }
            },
            None => {},
        }
    }
}

proof fn lemma_wf_stories_added(g: GameV, ss: Seq<BacklogStoryV>)
    requires
        g.wf(),
    ensures
        apply_stories_added(g, ss).wf(),
    decreases ss.len(),
{
    if ss.len() > 0 {
        let x = ss[0];
        if g.story_id_present(x.id) {
            lemma_wf_stories_added(g, ss.drop_first());
        } else {
            let g1 = GameV { backlog: g.backlog.push(x), ..g };
            lemma_backlog_idx(g.backlog, x.id);
            lemma_estimated_idx(g.estimated, x.id);
            assert(g.backlog.push(x) =~= g.backlog.insert(g.backlog.len() as int, x));
            assert(!backlog_has_id(g.backlog, x.id)) by {
                if backlog_has_id(g.backlog, x.id) {
                    let k = choose|k: int| 0 <= k < g.backlog.len() && g.backlog[k].id == x.id;
                }
            }
            lemma_backlog_insert(g.backlog, g.backlog.len() as int, x);
            assert(g1.backlog_unique());
            assert forall|i: int, j: int|
                0 <= i < g1.backlog.len() && 0 <= j < g1.estimated.len() implies g1.backlog[i].id
                != g1.estimated[j].id by {
                if i < g.backlog.len() {
                    assert(g1.backlog[i] == g.backlog[i]);
                } else {
                    assert(g1.backlog[i] == x);
                }
            }
            match g.selected {
                Some(s) => {
                    assert(s.id != x.id);
                    assert(!backlog_has_id(g1.backlog, s.id)) by {
                        if backlog_has_id(g1.backlog, s.id) {
                            let k = choose|k: int|
                                0 <= k < g1.backlog.len() && g1.backlog[k].id == s.id;
                            if k < g.backlog.len() {
                                assert(g1.backlog[k] == g.backlog[k]);
                                assert(backlog_has_id(g.backlog, s.id));
                            } else {
                                assert(g1.backlog[k] == x);
                            }
                        }
                    }
                },
                None => {},
            }
            assert(g1.wf());
            lemma_wf_stories_added(g1, ss.drop_first());
        }
    }
}

proof fn lemma_wf_story_updated(g: GameV, id: u128, info: StoryInfoV)
    requires
        g.wf(),
    ensures
        apply_story_updated(g, id, info).wf(),
{
    let i = backlog_idx(g.backlog, id);
    let g2 = apply_story_updated(g, id, info);
    if i >= 0 {
        lemma_backlog_idx(g.backlog, id);
        assert(forall|k: int|
            0 <= k < g2.backlog.len() ==> #[trigger] g2.backlog[k].id == g.backlog[k].id);
        match g.selected {
            Some(s) => {
                assert(!backlog_has_id(g2.backlog, s.id)) by {
                    if backlog_has_id(g2.backlog, s.id) {
                        let k = choose|k: int|
                            0 <= k < g2.backlog.len() && g2.backlog[k].id == s.id;
                        assert(g.backlog[k].id == s.id);
                        assert(backlog_has_id(g.backlog, s.id));
                    }
                }
            },
            None => {},
        }
    }
}

proof fn lemma_wf_position_changed(g: GameV, id: u128, idx: int)
    requires
        g.wf(),
    ensures
        apply_position_changed(g, id, idx).wf(),
{
    if 0 <= idx < g.backlog.len() {
        let i = backlog_idx(g.backlog, id);
        if i >= 0 {
            lemma_backlog_idx(g.backlog, id);
            let x = g.backlog[i];
            let b1 = g.backlog.remove(i);
            lemma_backlog_remove(g.backlog, i);
            lemma_backlog_insert(b1, idx, x);
            let b2 = b1.insert(idx, x);
            let g2 = apply_position_changed(g, id, idx);
            assert(g2.backlog == b2);
            assert forall|p: int, q: int|
                0 <= p < g2.backlog.len() && 0 <= q < g2.estimated.len() implies g2.backlog[p].id
                != g2.estimated[q].id by {
                assert(backlog_has_id(b2, b2[p].id));
                let sid = b2[p].id;
                if sid == x.id {
                    assert(g.backlog[i].id != g.estimated[q].id);
                } else {
                    assert(backlog_has_id(b1, sid));
                    assert(backlog_has_id(g.backlog, sid));
                    let k = choose|k: int|
                        0 <= k < g.backlog.len() && g.backlog[k].id == sid;
                    assert(g.backlog[k].id != g.estimated[q].id);
                }
            }
            match g.selected {
                Some(s) => {
                    assert(!backlog_has_id(g2.backlog, s.id)) by {
                        if backlog_has_id(b2, s.id) {
                            assert(s.id == x.id || backlog_has_id(b1, s.id));
                            if s.id == x.id {
                                assert(backlog_has_id(g.backlog, s.id));
                            } else {
                                assert(backlog_has_id(g.backlog, s.id));
                            }
                        }
                    }
                },
                None => {},
            }
        }
    }
}

proof fn lemma_wf_story_removed(g: GameV, id: u128)
    requires
        g.wf(),
    ensures
        apply_story_removed(g, id).wf(),
{
    let i = backlog_idx(g.backlog, id);
    if i >= 0 {
        lemma_backlog_idx(g.backlog, id);
        lemma_backlog_remove(g.backlog, i);
        let g2 = apply_story_removed(g, id);
        assert forall|p: int, q: int|
            0 <= p < g2.backlog.len() && 0 <= q < g2.estimated.len() implies g2.backlog[p].id
            != g2.estimated[q].id by {
            assert(backlog_has_id(g2.backlog, g2.backlog[p].id));
            let sid = g2.backlog[p].id;
            assert(backlog_has_id(g.backlog, sid));
            let k = choose|k: int| 0 <= k < g.backlog.len() && g.backlog[k].id == sid;
            assert(g.backlog[k].id != g.estimated[q].id);
        }
        match g.selected {
            Some(s) => {
                assert(!backlog_has_id(g2.backlog, s.id)) by {
                    if backlog_has_id(g2.backlog, s.id) {
                        assert(backlog_has_id(g.backlog, s.id));
                    }
                }
            },
            None => {},
        }
    }
}

proof fn lemma_wf_close_selected(g: GameV)
    requires
        g.wf(),
    ensures
        close_selected(g).wf(),
{
    match g.selected {
        Some(s) => {
            let x = BacklogStoryV { id: s.id, info: s.info };
            lemma_backlog_insert(g.backlog, 0, x);
            let g2 = close_selected(g);
            assert forall|p: int, q: int|
                0 <= p < g2.backlog.len() && 0 <= q < g2.estimated.len() implies g2.backlog[p].id
                != g2.estimated[q].id by {
                assert(backlog_has_id(g2.backlog, g2.backlog[p].id));
                let sid = g2.backlog[p].id;
                if sid == x.id {
                    assert(!estimated_has_id(g.estimated, s.id));
                    if g2.estimated[q].id == sid {
                        assert(estimated_has_id(g.estimated, sid));
                    }
                } else {
                    assert(backlog_has_id(g.backlog, sid));
                    let k = choose|k: int|
                        0 <= k < g.backlog.len() && g.backlog[k].id == sid;
                    assert(g.backlog[k].id != g.estimated[q].id);
                }
            }
        },
        None => {},
    }
}

proof fn lemma_wf_voting_opened(g: GameV, id: u128)
    requires
        g.wf(),
    ensures
        apply_voting_opened(g, id).wf(),
{
    if !voting_target_present(g, id) {
        return;
    }
    lemma_wf_close_selected(g);
    let g1 = close_selected(g);
    let i = backlog_idx(g1.backlog, id);
    if i >= 0 {
        lemma_backlog_idx(g1.backlog, id);
        lemma_backlog_remove(g1.backlog, i);
        let g2 = apply_voting_opened(g, id);
        assert(g2.backlog == g1.backlog.remove(i));
        assert(g2.selected == Some(
            SelectedStoryV {
                id: g1.backlog[i].id,
                info: g1.backlog[i].info,
                votes: Seq::empty(),
                votes_revealed: false,
            },
        ));
        let sid = g1.backlog[i].id;
        assert(!backlog_has_id(g2.backlog, sid));
        assert(!estimated_has_id(g2.estimated, sid)) by {
            if estimated_has_id(g1.estimated, sid) {
                let q = choose|q: int|
                    0 <= q < g1.estimated.len() && g1.estimated[q].id == sid;
                assert(g1.backlog[i].id != g1.estimated[q].id);
            }
        }
        assert forall|p: int, q: int|
            0 <= p < g2.backlog.len() && 0 <= q < g2.estimated.len() implies g2.backlog[p].id
            != g2.estimated[q].id by {
            assert(backlog_has_id(g2.backlog, g2.backlog[p].id));
            let bid = g2.backlog[p].id;
            assert(backlog_has_id(g1.backlog, bid));
            let k = choose|k: int| 0 <= k < g1.backlog.len() && g1.backlog[k].id == bid;
            assert(g1.backlog[k].id != g1.estimated[q].id);
        }
    }
}

proof fn lemma_wf_vote_casted(g: GameV, actor: u128, v: int)
    requires
        g.wf(),
        has_player_id(g.players, actor),
    ensures
        apply_vote_casted(g, actor, v).wf(),
{
    match g.selected {
        Some(s) => {
            if !s.votes_revealed {
                let i = vote_idx(s.votes, actor);
                lemma_vote_idx(s.votes, actor);
                let nv = upsert_vote(s.votes, actor, v);
                let g2 = apply_vote_casted(g, actor, v);
                if i >= 0 {
                    assert(forall|k: int|
                        0 <= k < nv.len() ==> #[trigger] nv[k].user_id == s.votes[k].user_id);
                } else {
                    assert(forall|k: int|
                        0 <= k < s.votes.len() ==> #[trigger] nv[k].user_id
                            == s.votes[k].user_id);
                    assert(nv[s.votes.len() as int].user_id == actor);
                }
                assert(g2.votes_wf());
            }
        },
        None => {},
    }
}

proof fn lemma_wf_results_approved(g: GameV, est: Option<int>)
    requires
        g.wf(),
    ensures
        apply_results_approved(g, est).wf(),
{
    match g.selected {
        Some(s) => {
            if s.votes_revealed && s.votes.len() > 0 {
                let g2 = apply_results_approved(g, est);
                let n = g.estimated.len() as int;
                assert(g2.estimated[n].id == s.id);
                assert(forall|k: int|
                    0 <= k < n ==> #[trigger] g2.estimated[k] == g.estimated[k]);
                assert forall|p: int, q: int|
                    0 <= p < q < g2.estimated.len() implies g2.estimated[p].id
                    != g2.estimated[q].id by {
                    if q == n {
                        if g.estimated[p].id == s.id {
                            assert(estimated_has_id(g.estimated, s.id));
                        }
                    }
                }
                assert forall|p: int, q: int|
                    0 <= p < g2.backlog.len() && 0 <= q < g2.estimated.len() implies
                    g2.backlog[p].id != g2.estimated[q].id by {
                    if q == n {
                        if g.backlog[p].id == s.id {
                            assert(backlog_has_id(g.backlog, s.id));
                        }
                    }
                }
            }
        },
        None => {},
    }
}

/// The reducer preserves well-formedness: every state reachable from a
/// well-formed state is well-formed.
pub proof fn lemma_apply_preserves_wf(g: GameV, actor: u128, a: ActionV)
    requires
        g.wf(),
    ensures
        apply(g, actor, a).wf(),
{
    match a {
        ActionV::PlayerJoined(u) => {
            lemma_wf_player_joined(g, u);
        },
        _ => {
            if g.has_player(actor) {
                lemma_player_idx(g.players, actor);
                assert(has_player_id(g.players, actor)) by {
                    let i = player_idx(g.players, actor);
                    assert(g.players[i].user.id == actor);
                }
                match a {
                    ActionV::PlayerJoined(_) => {},
                    ActionV::PlayerLeft => {
                        lemma_wf_player_left(g, actor);
                    },
                    ActionV::StoriesAdded(ss) => {
                        if g.is_admin(actor) {
                            lemma_wf_stories_added(g, ss);
                        }
                    },
                    ActionV::StoryUpdated(id, info) => {
                        if g.is_admin(actor) {
                            lemma_wf_story_updated(g, id, info);
                        }
                    },
                    ActionV::StoryPositionChanged(id, idx) => {
                        lemma_wf_position_changed(g, id, idx);
                    },
                    ActionV::StoryRemoved(id) => {
                        if g.is_admin(actor) {
                            lemma_wf_story_removed(g, id);
                        }
                    },
                    ActionV::VotingOpened(id) => {
                        if g.is_admin(actor) {
                            lemma_wf_voting_opened(g, id);
                        }
                    },
                    ActionV::VotingClosed => {
                        if g.is_admin(actor) {
                            lemma_wf_close_selected(g);
                        }
                    },
                    ActionV::VoteCasted(v) => {
                        lemma_wf_vote_casted(g, actor, v);
                    },
                    ActionV::VotesRevealed => {},
                    ActionV::VotesCleared => {},
                    ActionV::ResultsApproved(e) => {
                        if g.is_admin(actor) {
                            lemma_wf_results_approved(g, e);
                        }
                    },
                }
            }
        },
    }
}

} // verus!
