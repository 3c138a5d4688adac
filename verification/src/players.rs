use vstd::prelude::*;

use crate::xo::XOPlayerRole;

verus! {

broadcast use vstd::set::group_set_axioms;

/// The players of a game, at most one for each role.
pub struct RolePlayers<P> {
    x: Option<P>,
    o: Option<P>,
}

impl<P> View for RolePlayers<P> {
    type V = Map<XOPlayerRole, P>;

    /// Each role that has a player, mapped to that player.
    closed spec fn view(&self) -> Map<XOPlayerRole, P> {
        Map::new(|r: XOPlayerRole| self.slot(r) is Some, |r: XOPlayerRole| self.slot(r)->0)
    }
}

impl<P> RolePlayers<P> {
    /// The place that holds the player of `role`.
    closed spec fn slot(&self, role: XOPlayerRole) -> Option<P> {
        match role {
            XOPlayerRole::X => self.x,
            XOPlayerRole::O => self.o,
        }
    }

    /// No role has a player.
    pub fn new() -> (r: Self)
        ensures
            r@ == Map::<XOPlayerRole, P>::empty(),
    {
        let r = RolePlayers { x: None, o: None };
        assert(r@.dom() =~= Set::<XOPlayerRole>::empty());
        assert(r@ =~= Map::<XOPlayerRole, P>::empty());
        r
    }

    /// Whether `role` has a player.
    pub fn contains_key(&self, role: XOPlayerRole) -> (b: bool)
        ensures
            b == self@.contains_key(role),
    {
        match role {
            XOPlayerRole::X => self.x.is_some(),
            XOPlayerRole::O => self.o.is_some(),
        }
    }

    /// The player of `role`, if it has one.
    pub fn get(&self, role: XOPlayerRole) -> (r: Option<&P>)
        ensures
            self@.contains_key(role) ==> r == Some(&self@[role]),
            !self@.contains_key(role) ==> r is None,
    {
        match role {
            XOPlayerRole::X => self.x.as_ref(),
            XOPlayerRole::O => self.o.as_ref(),
        }
    }

    /// Makes `player` the player of `role`, and hands back the player it had, if any.
    pub fn insert(&mut self, role: XOPlayerRole, player: P) -> (r: Option<P>)
        ensures
            final(self)@ == old(self)@.insert(role, player),
            old(self)@.contains_key(role) ==> r == Some(old(self)@[role]),
            !old(self)@.contains_key(role) ==> r is None,
    {
        let prev = match role {
            XOPlayerRole::X => {
                let prev = self.x.take();
                self.x = Some(player);
                prev
            },
            XOPlayerRole::O => {
                let prev = self.o.take();
                self.o = Some(player);
                prev
            },
        };
        assert(self@ =~= old(self)@.insert(role, player));
        prev
    }
}

/// The players after each replacement `(role, player)` is made, first to last.
pub open spec fn after_replacements<P>(m: Map<XOPlayerRole, P>, reps: Seq<(XOPlayerRole, P)>) -> Map<
    XOPlayerRole,
    P,
>
    decreases reps.len(),
{
    if reps.len() == 0 {
        m
    } else {
        after_replacements(m, reps.drop_last()).insert(reps.last().0, reps.last().1)
    }
}

/// The players that the replacements hand back, first to last, each with its role.
pub open spec fn handed_back<P>(m: Map<XOPlayerRole, P>, reps: Seq<(XOPlayerRole, P)>) -> Seq<
    (XOPlayerRole, P),
>
    decreases reps.len(),
{
    if reps.len() == 0 {
        seq![]
    } else {
        handed_back(m, reps.drop_last()).push(
            (reps.last().0, after_replacements(m, reps.drop_last())[reps.last().0]),
        )
    }
}

/// No role is named twice.
pub open spec fn distinct_roles<P>(reps: Seq<(XOPlayerRole, P)>) -> bool {
    forall|i: int, j: int| 0 <= i < j < reps.len() ==> #[trigger] reps[i].0 != #[trigger] reps[j].0
}

/// Some replacement names `k`.
pub open spec fn names_role<P>(reps: Seq<(XOPlayerRole, P)>, k: XOPlayerRole) -> bool {
    exists|i: int| 0 <= i < reps.len() && #[trigger] reps[i].0 == k
}

/// Every role named already has a player.
pub open spec fn all_present<P>(m: Map<XOPlayerRole, P>, reps: Seq<(XOPlayerRole, P)>) -> bool {
    forall|i: int| 0 <= i < reps.len() ==> m.contains_key(#[trigger] reps[i].0)
}

/// What the replacements leave: a role named by one of them gets that player,
/// any other keeps its own.
pub proof fn lemma_after_replacements_value<P>(m: Map<XOPlayerRole, P>, reps: Seq<(XOPlayerRole, P)>)
    requires
        distinct_roles(reps),
    ensures
        forall|i: int|
            0 <= i < reps.len() ==> after_replacements(m, reps).contains_key(#[trigger] reps[i].0)
                && after_replacements(m, reps)[reps[i].0] == reps[i].1,
        forall|k: XOPlayerRole|
            !names_role(reps, k) ==> (#[trigger] after_replacements(m, reps).contains_key(k)
                == m.contains_key(k) && (m.contains_key(k) ==> after_replacements(m, reps)[k]
                == m[k])),
    decreases reps.len(),
{
    if reps.len() > 0 {
        let init = reps.drop_last();
        assert forall|i: int, j: int| 0 <= i < j < init.len() implies #[trigger] init[i].0 != #[trigger] init[j].0 by {
            assert(init[i] == reps[i] && init[j] == reps[j]);
        }
        lemma_after_replacements_value(m, init);
        let n = reps.len() - 1;
        assert forall|i: int| 0 <= i < reps.len() implies after_replacements(m, reps).contains_key(
            #[trigger] reps[i].0,
        ) && after_replacements(m, reps)[reps[i].0] == reps[i].1 by {
            if i < n {
                assert(init[i] == reps[i]);
                assert(reps[i].0 != reps[n].0);
            }
        }
        assert forall|k: XOPlayerRole|
            !names_role(reps, k) implies (#[trigger] after_replacements(m, reps).contains_key(k)
                == m.contains_key(k) && (m.contains_key(k) ==> after_replacements(m, reps)[k]
                == m[k])) by {
            assert(reps[n].0 != k);
            if names_role(init, k) {
                let i = choose|i: int| 0 <= i < init.len() && #[trigger] init[i].0 == k;
                assert(init[i] == reps[i]);
            }
            assert(after_replacements(m, init).contains_key(k) == m.contains_key(k));
            assert(after_replacements(m, reps) == after_replacements(m, init).insert(reps[n].0, reps[n].1));
        }
    }
}

/// Each replacement hands back the player that its role had before any of them.
pub proof fn lemma_handed_back_value<P>(m: Map<XOPlayerRole, P>, reps: Seq<(XOPlayerRole, P)>)
    requires
        distinct_roles(reps),
    ensures
        handed_back(m, reps).len() == reps.len(),
        forall|i: int|
            0 <= i < reps.len() ==> #[trigger] handed_back(m, reps)[i] == (reps[i].0, m[reps[i].0]),
    decreases reps.len(),
{
    if reps.len() > 0 {
        let init = reps.drop_last();
        let n = reps.len() - 1;
        assert forall|i: int, j: int| 0 <= i < j < init.len() implies #[trigger] init[i].0 != #[trigger] init[j].0 by {
            assert(init[i] == reps[i] && init[j] == reps[j]);
        }
        lemma_handed_back_value(m, init);
        lemma_after_replacements_value(m, init);
        assert forall|i: int| 0 <= i < init.len() implies #[trigger] init[i].0 != reps[n].0 by {
            assert(init[i] == reps[i]);
        }
        assert forall|i: int| 0 <= i < reps.len() implies #[trigger] handed_back(m, reps)[i] == (
        reps[i].0, m[reps[i].0]) by {
            if i < n {
                assert(handed_back(m, reps)[i] == handed_back(m, init)[i]);
                assert(init[i] == reps[i]);
            }
        }
    }
}

/// `changed` agrees with `m` on every role that no replacement names.
pub open spec fn agrees_outside<P>(
    changed: Map<XOPlayerRole, P>,
    m: Map<XOPlayerRole, P>,
    reps: Seq<(XOPlayerRole, P)>,
) -> bool {
    forall|k: XOPlayerRole|
        !names_role(reps, k) ==> (#[trigger] changed.contains_key(k) == m.contains_key(k) && (
        m.contains_key(k) ==> changed[k] == m[k]))
}

/// Replacing again the player of a role that a replacement names keeps the players
/// in agreement outside the named roles.
pub proof fn lemma_replacing_named_role_keeps_agreement<P>(
    changed: Map<XOPlayerRole, P>,
    m: Map<XOPlayerRole, P>,
    reps: Seq<(XOPlayerRole, P)>,
    role: XOPlayerRole,
    player: P,
)
    requires
        agrees_outside(changed, m, reps),
        names_role(reps, role),
    ensures
        agrees_outside(changed.insert(role, player), m, reps),
{
    assert forall|k: XOPlayerRole| !names_role(reps, k) implies (#[trigger] changed.insert(role, player).contains_key(k)
        == m.contains_key(k) && (m.contains_key(k) ==> changed.insert(role, player)[k] == m[k])) by {
        assert(k != role);
        assert(changed.contains_key(k) == m.contains_key(k));
    }
}

/// Putting back the players that replacements handed back, in any order, gives back
/// the players that were there before the replacements, even when the players of the
/// replaced roles were changed again in between: the rollback of a simulation.
pub proof fn lemma_replacements_roll_back_after_changes<P>(
    m: Map<XOPlayerRole, P>,
    reps: Seq<(XOPlayerRole, P)>,
    changed: Map<XOPlayerRole, P>,
    back: Seq<(XOPlayerRole, P)>,
)
    requires
        distinct_roles(reps),
        all_present(m, reps),
        agrees_outside(changed, after_replacements(m, reps), reps),
        distinct_roles(back),
        forall|x: (XOPlayerRole, P)| back.contains(x) <==> handed_back(m, reps).contains(x),
    ensures
        after_replacements(changed, back) == m,
{
    let m1 = after_replacements(m, reps);
    let hb = handed_back(m, reps);
    lemma_after_replacements_value(m, reps);
    lemma_handed_back_value(m, reps);
    lemma_after_replacements_value(changed, back);
    let m2 = after_replacements(changed, back);
    assert forall|k: XOPlayerRole| #[trigger] m2.contains_key(k) == m.contains_key(k) && (m.contains_key(k) ==> m2[k] == m[k]) by {
        if names_role(back, k) {
            let j = choose|j: int| 0 <= j < back.len() && #[trigger] back[j].0 == k;
            assert(back.contains(back[j]));
            assert(hb.contains(back[j]));
            let i = choose|i: int| 0 <= i < hb.len() && hb[i] == back[j];
            assert(hb[i] == (reps[i].0, m[reps[i].0]));
            assert(m.contains_key(reps[i].0));
            assert(reps[i].0 == k);
            assert(m2.contains_key(back[j].0) && m2[back[j].0] == back[j].1);
            assert(m2.contains_key(k));
            assert(m2[k] == m[k]);
        } else {
            if names_role(reps, k) {
                let i = choose|i: int| 0 <= i < reps.len() && #[trigger] reps[i].0 == k;
                assert(hb[i] == (reps[i].0, m[reps[i].0]));
                assert(hb.contains(hb[i]));
                assert(back.contains(hb[i]));
                let j = choose|j: int| 0 <= j < back.len() && back[j] == hb[i];
                assert(back[j].0 == k);
            }
            assert(!names_role(back, k));
            assert(m1.contains_key(k) == m.contains_key(k));
            assert(changed.contains_key(k) == m1.contains_key(k));
            assert(m2.contains_key(k) == changed.contains_key(k));
            assert(m.contains_key(k) ==> m1[k] == m[k]);
            assert(m1.contains_key(k) ==> changed[k] == m1[k]);
            assert(changed.contains_key(k) ==> m2[k] == changed[k]);
        }
    }
    assert(m2 =~= m);
}

/// Putting back the players that replacements handed back, in any order, right after
/// the replacements, gives back the players that were there before them.
pub proof fn lemma_replacements_roll_back<P>(
    m: Map<XOPlayerRole, P>,
    reps: Seq<(XOPlayerRole, P)>,
    back: Seq<(XOPlayerRole, P)>,
)
    requires
        distinct_roles(reps),
        all_present(m, reps),
        distinct_roles(back),
        forall|x: (XOPlayerRole, P)| back.contains(x) <==> handed_back(m, reps).contains(x),
    ensures
        after_replacements(after_replacements(m, reps), back) == m,
{
    lemma_replacements_roll_back_after_changes(m, reps, after_replacements(m, reps), back);
}

} // verus!
