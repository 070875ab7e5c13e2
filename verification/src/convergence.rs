//! Laws of the planner: carried out in any order, its actions turn the
//! interface seen into the interface wanted, and planning again after that
//! finds nothing to do.

use crate::peers::{
    distinct_keys, has_key, key_index, lemma_key_index, lemma_key_index_unique, peer_map,
    PeerView,
};
use crate::reconcile::{
    apply_action, apply_all, differs_in, identity_steps, is_absent_from, model_of, peer_steps,
    planned, steps, ActionView, InterfaceModel, StateView,
};
use crate::sequences::lemma_filter_nothing;
use vstd::prelude::*;

verus! {

/// The part of an interface that an action writes.
pub enum Target {
    PrivateKey,
    ListenPort,
    Peer(Seq<char>),
}

/// The part of the interface that `action` writes.
pub open spec fn target_of(action: ActionView) -> Target {
    match action {
        ActionView::SetPrivateKey(_) => Target::PrivateKey,
        ActionView::SetListenPort(_) => Target::ListenPort,
        ActionView::RemovePeer(key) => Target::Peer(key),
        ActionView::AddPeer(peer) => Target::Peer(peer.public_key),
        ActionView::UpdatePeer(peer) => Target::Peer(peer.public_key),
    }
}

/// True when no two actions of `actions` write the same part.
pub open spec fn distinct_targets(actions: Seq<ActionView>) -> bool {
    forall|i: int, j: int|
        0 <= i < j < actions.len() ==> target_of(#[trigger] actions[i]) != target_of(
            #[trigger] actions[j],
        )
}

/// True when no action of `actions` writes `target`.
pub open spec fn untouched(actions: Seq<ActionView>, target: Target) -> bool {
    forall|i: int| 0 <= i < actions.len() ==> target_of(#[trigger] actions[i]) != target
}

/// The value that `part` of the interface has: its private key, its port, or
/// the ranges of a key, if the key is there.
pub enum PartValue {
    PrivateKey(Seq<char>),
    ListenPort(u16),
    Ranges(Option<Seq<crate::net::IpRange>>),
}

/// The value of one part of an interface.
pub open spec fn part_of(interface: InterfaceModel, target: Target) -> PartValue {
    match target {
        Target::PrivateKey => PartValue::PrivateKey(interface.private_key),
        Target::ListenPort => PartValue::ListenPort(interface.listen_port),
        Target::Peer(key) => PartValue::Ranges(
            if interface.peers.contains_key(key) {
                Some(interface.peers[key])
            } else {
                None
            },
        ),
    }
}

/// The value that `action` gives to the part it writes.
pub open spec fn written_by(action: ActionView) -> PartValue {
    match action {
        ActionView::SetPrivateKey(key) => PartValue::PrivateKey(key),
        ActionView::SetListenPort(port) => PartValue::ListenPort(port),
        ActionView::RemovePeer(_) => PartValue::Ranges(None),
        ActionView::AddPeer(peer) => PartValue::Ranges(Some(peer.allowed_ips)),
        ActionView::UpdatePeer(peer) => PartValue::Ranges(Some(peer.allowed_ips)),
    }
}

/// One action sets the part it writes and leaves every other part alone.
pub proof fn lemma_apply_action_parts(interface: InterfaceModel, action: ActionView, part: Target)
    ensures
        part_of(apply_action(interface, action), part) == if target_of(action) == part {
            written_by(action)
        } else {
            part_of(interface, part)
        },
{
}

/// After a run of actions that write distinct parts, each part holds what
/// its action wrote, and a part that no action wrote is as before.
pub proof fn lemma_apply_all_parts(interface: InterfaceModel, actions: Seq<ActionView>)
    requires
        distinct_targets(actions),
    ensures
        forall|i: int|
            0 <= i < actions.len() ==> part_of(
                apply_all(interface, actions),
                target_of(#[trigger] actions[i]),
            ) == written_by(actions[i]),
        forall|part: Target|
            untouched(actions, part) ==> #[trigger] part_of(apply_all(interface, actions), part)
                == part_of(interface, part),
    decreases actions.len(),
{
    if actions.len() > 0 {
        let front = actions.drop_last();
        let last = actions.last();
        let before = apply_all(interface, front);
        lemma_apply_all_parts(interface, front);
        assert forall|i: int| 0 <= i < actions.len() implies part_of(
            apply_all(interface, actions),
            target_of(#[trigger] actions[i]),
        ) == written_by(actions[i]) by {
            lemma_apply_action_parts(before, last, target_of(actions[i]));
            if i < actions.len() - 1 {
                assert(front[i] == actions[i]);
                assert(target_of(actions[i]) != target_of(actions[actions.len() - 1]));
            }
        }
        assert forall|part: Target| untouched(actions, part) implies #[trigger] part_of(
            apply_all(interface, actions),
            part,
        ) == part_of(interface, part) by {
            lemma_apply_action_parts(before, last, part);
            assert(target_of(actions[actions.len() - 1]) != part);
            assert forall|i: int| 0 <= i < front.len() implies target_of(#[trigger] front[i])
                != part by {
                assert(front[i] == actions[i]);
            }
            assert(untouched(front, part));
        }
    }
}

/// Two interfaces with the same parts are the same interface.
pub proof fn lemma_same_parts(left: InterfaceModel, right: InterfaceModel)
    requires
        forall|part: Target| #[trigger] part_of(left, part) == part_of(right, part),
    ensures
        left == right,
{
    assert(part_of(left, Target::PrivateKey) == part_of(right, Target::PrivateKey));
    assert(part_of(left, Target::ListenPort) == part_of(right, Target::ListenPort));
    assert forall|key: Seq<char>|
        (#[trigger] left.peers.dom().contains(key)) == right.peers.dom().contains(key) && (
        left.peers.dom().contains(key) ==> left.peers[key] == right.peers[key]) by {
        assert(part_of(left, Target::Peer(key)) == part_of(right, Target::Peer(key)));
    }
    assert(left.peers.dom() =~= right.peers.dom());
    assert(left.peers =~= right.peers);
}

/// What a filter keeps of a table without repeated keys: a table without
/// repeated keys, made of exactly the entries that pass the test.
pub proof fn lemma_filter_table(table: Seq<PeerView>, pred: spec_fn(PeerView) -> bool)
    requires
        distinct_keys(table),
    ensures
        distinct_keys(table.filter(pred)),
        forall|i: int|
            0 <= i < table.filter(pred).len() ==> pred(#[trigger] table.filter(pred)[i])
                && table.contains(table.filter(pred)[i]),
        forall|j: int|
            0 <= j < table.len() && pred(#[trigger] table[j]) ==> table.filter(pred).contains(
                table[j],
            ),
    decreases table.len(),
{
    reveal(Seq::filter);
    if table.len() > 0 {
        let front = table.drop_last();
        let last = table.last();
        let kept = front.filter(pred);
        let all = table.filter(pred);
        assert(distinct_keys(front)) by {
            assert forall|i: int, j: int| 0 <= i < j < front.len() implies (
            #[trigger] front[i]).public_key != (#[trigger] front[j]).public_key by {
                assert(front[i] == table[i] && front[j] == table[j]);
            }
        }
        lemma_filter_table(front, pred);
        assert forall|i: int| 0 <= i < kept.len() implies table.contains(#[trigger] kept[i])
            && kept[i].public_key != last.public_key by {
            let at = choose|at: int| 0 <= at < front.len() && front[at] == kept[i];
            assert(table[at] == kept[i]);
            assert(table[at].public_key != table[table.len() - 1].public_key);
        }
        assert(table[table.len() - 1] == last);
        if pred(last) {
            assert(all == kept.push(last));
            assert forall|i: int| 0 <= i < all.len() implies pred(#[trigger] all[i])
                && table.contains(all[i]) by {
                if i < kept.len() {
                    assert(all[i] == kept[i]);
                }
            }
            assert forall|i: int, j: int| 0 <= i < j < all.len() implies (
            #[trigger] all[i]).public_key != (#[trigger] all[j]).public_key by {
                assert(all[i] == kept[i]);
                if j < kept.len() {
                    assert(all[j] == kept[j]);
                }
            }
            assert forall|j: int| 0 <= j < table.len() && pred(
                #[trigger] table[j],
            ) implies all.contains(table[j]) by {
                if j < front.len() {
                    assert(front[j] == table[j]);
                    let at = choose|at: int| 0 <= at < kept.len() && kept[at] == front[j];
                    assert(all[at] == table[j]);
                } else {
                    assert(all[kept.len() as int] == table[j]);
                }
            }
        } else {
            assert(all == kept);
            assert forall|j: int| 0 <= j < table.len() && pred(
                #[trigger] table[j],
            ) implies all.contains(table[j]) by {
                assert(front[j] == table[j]);
            }
        }
    }
}

/// Joined runs of actions write distinct parts when each run does and no
/// part is written by both.
pub proof fn lemma_distinct_targets_join(left: Seq<ActionView>, right: Seq<ActionView>)
    requires
        distinct_targets(left),
        distinct_targets(right),
        forall|i: int, j: int|
            0 <= i < left.len() && 0 <= j < right.len() ==> target_of(#[trigger] left[i])
                != target_of(#[trigger] right[j]),
    ensures
        distinct_targets(left + right),
{
    let both = left + right;
    assert forall|i: int, j: int| 0 <= i < j < both.len() implies target_of(#[trigger] both[i])
        != target_of(#[trigger] both[j]) by {
        if j < left.len() {
            assert(both[i] == left[i] && both[j] == left[j]);
        } else if i < left.len() {
            assert(both[i] == left[i] && both[j] == right[j - left.len()]);
        } else {
            assert(both[i] == right[i - left.len()] && both[j] == right[j - left.len()]);
        }
    }
}

/// How a key stands between the peers wanted and the peers seen.
pub enum Standing {
    /// Wanted and not seen.
    Missing,
    /// Seen and not wanted.
    Stale,
    /// Wanted and seen, with different ranges.
    Changed,
    /// Wanted and seen alike, or neither wanted nor seen.
    Settled,
}

/// The standing of `key` between the two tables.
pub open spec fn standing(want: Seq<PeerView>, seen: Seq<PeerView>, key: Seq<char>) -> Standing {
    if has_key(want, key) {
        if !has_key(seen, key) {
            Standing::Missing
        } else if peer_map(seen)[key] != peer_map(want)[key] {
            Standing::Changed
        } else {
            Standing::Settled
        }
    } else if has_key(seen, key) {
        Standing::Stale
    } else {
        Standing::Settled
    }
}

/// What a run of peer actions does for the keys of one standing: it writes
/// distinct keys of that standing only, writes each such key, and gives each
/// the ranges that are wanted for it.
pub open spec fn serves(
    run: Seq<ActionView>,
    want: Seq<PeerView>,
    seen: Seq<PeerView>,
    which: Standing,
) -> bool {
    &&& distinct_targets(run)
    &&& forall|i: int|
        0 <= i < run.len() ==> {
            &&& target_of(#[trigger] run[i]) is Peer
            &&& standing(want, seen, target_of(run[i])->Peer_0) == which
            &&& written_by(run[i]) == part_of(peers_only(want), target_of(run[i]))
        }
    &&& forall|key: Seq<char>|
        #[trigger] standing(want, seen, key) == which ==> !untouched(run, Target::Peer(key))
}

/// The interface that has the peers `peers`, whatever its identity.
pub open spec fn peers_only(peers: Seq<PeerView>) -> InterfaceModel {
    model_of(StateView { private_key: seq![], listen_port: 0, peers })
}

/// The additions of a plan serve the keys that are missing.
pub proof fn lemma_additions_serve(want: Seq<PeerView>, seen: Seq<PeerView>)
    requires
        distinct_keys(want),
        distinct_keys(seen),
    ensures
        serves(
            planned(want, seen).to_add.map_values(|peer: PeerView| ActionView::AddPeer(peer)),
            want,
            seen,
            Standing::Missing,
        ),
{
    let pred = is_absent_from(seen);
    let kept = want.filter(pred);
    let run = kept.map_values(|peer: PeerView| ActionView::AddPeer(peer));
    lemma_filter_table(want, pred);
    assert forall|i: int| 0 <= i < run.len() implies {
        &&& target_of(#[trigger] run[i]) is Peer
        &&& standing(want, seen, target_of(run[i])->Peer_0) == Standing::Missing
        &&& written_by(run[i]) == part_of(peers_only(want), target_of(run[i]))
    } by {
        assert(pred(kept[i]) && want.contains(kept[i]));
        let at = choose|at: int| 0 <= at < want.len() && want[at] == kept[i];
        lemma_key_index_unique(want, at);
    }
    assert forall|i: int, j: int| 0 <= i < j < run.len() implies target_of(#[trigger] run[i])
        != target_of(#[trigger] run[j]) by {
        assert(kept[i].public_key != kept[j].public_key);
    }
    assert forall|key: Seq<char>| #[trigger]
        standing(want, seen, key) == Standing::Missing implies !untouched(
        run,
        Target::Peer(key),
    ) by {
        lemma_key_index(want, key);
        let at = key_index(want, key);
        assert(pred(want[at]));
        let i = choose|i: int| 0 <= i < kept.len() && kept[i] == want[at];
        assert(target_of(run[i]) == Target::Peer(key));
    }
}

/// The updates of a plan serve the keys whose ranges have changed.
pub proof fn lemma_updates_serve(want: Seq<PeerView>, seen: Seq<PeerView>)
    requires
        distinct_keys(want),
        distinct_keys(seen),
    ensures
        serves(
            planned(want, seen).to_update.map_values(
                |peer: PeerView| ActionView::UpdatePeer(peer),
            ),
            want,
            seen,
            Standing::Changed,
        ),
{
    let pred = differs_in(seen);
    let kept = want.filter(pred);
    let run = kept.map_values(|peer: PeerView| ActionView::UpdatePeer(peer));
    lemma_filter_table(want, pred);
    assert forall|i: int| 0 <= i < run.len() implies {
        &&& target_of(#[trigger] run[i]) is Peer
        &&& standing(want, seen, target_of(run[i])->Peer_0) == Standing::Changed
        &&& written_by(run[i]) == part_of(peers_only(want), target_of(run[i]))
    } by {
        assert(pred(kept[i]) && want.contains(kept[i]));
        let at = choose|at: int| 0 <= at < want.len() && want[at] == kept[i];
        lemma_key_index_unique(want, at);
    }
    assert forall|i: int, j: int| 0 <= i < j < run.len() implies target_of(#[trigger] run[i])
        != target_of(#[trigger] run[j]) by {
        assert(kept[i].public_key != kept[j].public_key);
    }
    assert forall|key: Seq<char>| #[trigger]
        standing(want, seen, key) == Standing::Changed implies !untouched(
        run,
        Target::Peer(key),
    ) by {
        lemma_key_index(want, key);
        let at = key_index(want, key);
        lemma_key_index_unique(want, at);
        assert(pred(want[at]));
        let i = choose|i: int| 0 <= i < kept.len() && kept[i] == want[at];
        assert(target_of(run[i]) == Target::Peer(key));
    }
}

/// The removals of a plan serve the keys that are stale.
pub proof fn lemma_removals_serve(want: Seq<PeerView>, seen: Seq<PeerView>)
    requires
        distinct_keys(want),
        distinct_keys(seen),
    ensures
        serves(
            planned(want, seen).to_remove.map_values(
                |key: Seq<char>| ActionView::RemovePeer(key),
            ),
            want,
            seen,
            Standing::Stale,
        ),
{
    let pred = is_absent_from(want);
    let kept = seen.filter(pred);
    let keys = kept.map_values(|p: PeerView| p.public_key);
    let run = keys.map_values(|key: Seq<char>| ActionView::RemovePeer(key));
    lemma_filter_table(seen, pred);
    assert forall|i: int| 0 <= i < run.len() implies {
        &&& target_of(#[trigger] run[i]) is Peer
        &&& standing(want, seen, target_of(run[i])->Peer_0) == Standing::Stale
        &&& written_by(run[i]) == part_of(peers_only(want), target_of(run[i]))
    } by {
        assert(run[i] == ActionView::RemovePeer(kept[i].public_key));
        assert(pred(kept[i]) && seen.contains(kept[i]));
        let at = choose|at: int| 0 <= at < seen.len() && seen[at] == kept[i];
        lemma_key_index_unique(seen, at);
    }
    assert forall|i: int, j: int| 0 <= i < j < run.len() implies target_of(#[trigger] run[i])
        != target_of(#[trigger] run[j]) by {
        assert(run[i] == ActionView::RemovePeer(kept[i].public_key));
        assert(run[j] == ActionView::RemovePeer(kept[j].public_key));
        assert(kept[i].public_key != kept[j].public_key);
    }
    assert forall|key: Seq<char>| #[trigger]
        standing(want, seen, key) == Standing::Stale implies !untouched(
        run,
        Target::Peer(key),
    ) by {
        lemma_key_index(seen, key);
        let at = key_index(seen, key);
        assert(pred(seen[at]));
        let i = choose|i: int| 0 <= i < kept.len() && kept[i] == seen[at];
        assert(run[i] == ActionView::RemovePeer(kept[i].public_key));
        assert(target_of(run[i]) == Target::Peer(key));
    }
}

/// The three groups of a plan sort the keys by their standing: a key is
/// added exactly when it is missing, removed exactly when it is stale, and
/// updated exactly when its ranges have changed. So no key is in two groups,
/// and a key that is settled is in none.
pub proof fn lemma_plan_sorts_keys(want: Seq<PeerView>, seen: Seq<PeerView>, key: Seq<char>)
    requires
        distinct_keys(want),
        distinct_keys(seen),
    ensures
        has_key(planned(want, seen).to_add, key) <==> standing(want, seen, key)
            == Standing::Missing,
        planned(want, seen).to_remove.contains(key) <==> standing(want, seen, key)
            == Standing::Stale,
        has_key(planned(want, seen).to_update, key) <==> standing(want, seen, key)
            == Standing::Changed,
        distinct_keys(planned(want, seen).to_add),
        distinct_keys(planned(want, seen).to_update),
        planned(want, seen).to_remove.no_duplicates(),
{
    let changes = planned(want, seen);
    let stale = seen.filter(is_absent_from(want));
    lemma_filter_table(want, is_absent_from(seen));
    lemma_filter_table(want, differs_in(seen));
    lemma_filter_table(seen, is_absent_from(want));
    if has_key(changes.to_add, key) {
        let i = choose|i: int|
            0 <= i < changes.to_add.len() && (#[trigger] changes.to_add[i]).public_key == key;
        let at = choose|at: int| 0 <= at < want.len() && want[at] == changes.to_add[i];
        assert(want[at].public_key == key);
    }
    if has_key(changes.to_update, key) {
        let i = choose|i: int|
            0 <= i < changes.to_update.len() && (#[trigger] changes.to_update[i]).public_key
                == key;
        let at = choose|at: int| 0 <= at < want.len() && want[at] == changes.to_update[i];
        lemma_key_index_unique(want, at);
    }
    if changes.to_remove.contains(key) {
        let i = choose|i: int| 0 <= i < changes.to_remove.len() && changes.to_remove[i] == key;
        assert(stale[i].public_key == key);
        let at = choose|at: int| 0 <= at < seen.len() && seen[at] == stale[i];
        assert(seen[at].public_key == key);
    }
    if has_key(want, key) {
        lemma_key_index(want, key);
        let at = key_index(want, key);
        lemma_key_index_unique(want, at);
        if standing(want, seen, key) == Standing::Missing {
            assert(is_absent_from(seen)(want[at]));
            let i = choose|i: int|
                0 <= i < changes.to_add.len() && changes.to_add[i] == want[at];
            assert(changes.to_add[i].public_key == key);
        }
        if standing(want, seen, key) == Standing::Changed {
            assert(differs_in(seen)(want[at]));
            let i = choose|i: int|
                0 <= i < changes.to_update.len() && changes.to_update[i] == want[at];
            assert(changes.to_update[i].public_key == key);
        }
    } else if has_key(seen, key) {
        lemma_key_index(seen, key);
        let at = key_index(seen, key);
        assert(is_absent_from(want)(seen[at]));
        let i = choose|i: int| 0 <= i < stale.len() && stale[i] == seen[at];
        assert(changes.to_remove[i] == key);
    }
    assert forall|i: int, j: int|
        0 <= i < changes.to_remove.len() && 0 <= j < changes.to_remove.len() && i
            != j implies changes.to_remove[i] != changes.to_remove[j] by {
        if i < j {
            assert(stale[i].public_key != stale[j].public_key);
        } else {
            assert(stale[j].public_key != stale[i].public_key);
        }
    }
}

/// The actions of a plan write distinct parts, each writes what is wanted
/// for its part, and a part that none of them writes is already as wanted.
pub proof fn lemma_steps_sound(want: StateView, seen: StateView)
    requires
        distinct_keys(want.peers),
        distinct_keys(seen.peers),
    ensures
        distinct_targets(steps(want, seen)),
        forall|i: int|
            0 <= i < steps(want, seen).len() ==> written_by(#[trigger] steps(want, seen)[i])
                == part_of(model_of(want), target_of(steps(want, seen)[i])),
        forall|part: Target| #[trigger]
            untouched(steps(want, seen), part) ==> part_of(model_of(seen), part) == part_of(
                model_of(want),
                part,
            ),
{
    let changes = planned(want.peers, seen.peers);
    let identity = identity_steps(want, seen);
    let removes = changes.to_remove.map_values(|key: Seq<char>| ActionView::RemovePeer(key));
    let adds = changes.to_add.map_values(|peer: PeerView| ActionView::AddPeer(peer));
    let updates = changes.to_update.map_values(|peer: PeerView| ActionView::UpdatePeer(peer));
    let all = steps(want, seen);
    lemma_removals_serve(want.peers, seen.peers);
    lemma_additions_serve(want.peers, seen.peers);
    lemma_updates_serve(want.peers, seen.peers);
    assert(all =~= identity + (removes + adds + updates));
    assert(distinct_targets(identity));
    lemma_distinct_targets_join(removes, adds);
    assert forall|i: int, j: int|
        0 <= i < (removes + adds).len() && 0 <= j < updates.len() implies target_of(
        #[trigger] (removes + adds)[i],
    ) != target_of(#[trigger] updates[j]) by {
        if i < removes.len() {
            assert((removes + adds)[i] == removes[i]);
        } else {
            assert((removes + adds)[i] == adds[i - removes.len()]);
        }
    }
    lemma_distinct_targets_join(removes + adds, updates);
    let peers = removes + adds + updates;
    assert forall|i: int| 0 <= i < peers.len() implies {
        &&& target_of(#[trigger] peers[i]) is Peer
        &&& written_by(peers[i]) == part_of(peers_only(want.peers), target_of(peers[i]))
    } by {
        if i < removes.len() {
            assert(peers[i] == removes[i]);
        } else if i < removes.len() + adds.len() {
            assert(peers[i] == adds[i - removes.len()]);
        } else {
            assert(peers[i] == updates[i - removes.len() - adds.len()]);
        }
    }
    lemma_distinct_targets_join(identity, peers);
    assert forall|i: int| 0 <= i < all.len() implies written_by(#[trigger] all[i]) == part_of(
        model_of(want),
        target_of(all[i]),
    ) by {
        if i < identity.len() {
            assert(all[i] == identity[i]);
        } else {
            assert(all[i] == peers[i - identity.len()]);
        }
    }
    assert forall|part: Target| #[trigger] untouched(all, part) implies part_of(
        model_of(seen),
        part,
    ) == part_of(model_of(want), part) by {
        match part {
            Target::PrivateKey => {
                if seen.private_key != want.private_key {
                    assert(all[0] == identity[0]);
                    assert(target_of(all[0]) == part);
                }
            },
            Target::ListenPort => {
                if seen.listen_port != want.listen_port {
                    let at = identity.len() - 1;
                    assert(all[at] == identity[at]);
                    assert(target_of(all[at]) == part);
                }
            },
            Target::Peer(key) => {
                assert forall|i: int| 0 <= i < peers.len() implies target_of(#[trigger] peers[i])
                    != part by {
                    assert(all[identity.len() + i] == peers[i]);
                }
                assert(untouched(removes, part)) by {
                    assert forall|i: int| 0 <= i < removes.len() implies target_of(
                        #[trigger] removes[i],
                    ) != part by {
                        assert(peers[i] == removes[i]);
                    }
                }
                assert(untouched(adds, part)) by {
                    assert forall|i: int| 0 <= i < adds.len() implies target_of(
                        #[trigger] adds[i],
                    ) != part by {
                        assert(peers[removes.len() + i] == adds[i]);
                    }
                }
                assert(untouched(updates, part)) by {
                    assert forall|i: int| 0 <= i < updates.len() implies target_of(
                        #[trigger] updates[i],
                    ) != part by {
                        assert(peers[removes.len() + adds.len() + i] == updates[i]);
                    }
                }
                assert(standing(want.peers, seen.peers, key) == Standing::Settled);
            },
        }
    }
}

/// A rearrangement of actions that write distinct parts holds the same
/// actions and writes distinct parts too.
pub proof fn lemma_rearranged(order: Seq<ActionView>, actions: Seq<ActionView>)
    requires
        distinct_targets(actions),
        order.to_multiset() == actions.to_multiset(),
    ensures
        distinct_targets(order),
        forall|a: ActionView| order.contains(a) <==> actions.contains(a),
{
    order.to_multiset_ensures();
    actions.to_multiset_ensures();
    assert forall|a: ActionView| order.contains(a) <==> actions.contains(a) by {
        assert(order.contains(a) <==> order.to_multiset().count(a) > 0);
        assert(actions.contains(a) <==> actions.to_multiset().count(a) > 0);
    }
    assert(actions.no_duplicates()) by {
        assert forall|i: int, j: int|
            0 <= i < actions.len() && 0 <= j < actions.len() && i != j implies actions[i]
            != actions[j] by {
            if i < j {
                assert(target_of(actions[i]) != target_of(actions[j]));
            } else {
                assert(target_of(actions[j]) != target_of(actions[i]));
            }
        }
    }
    actions.unique_seq_to_set();
    assert(order.to_set() =~= actions.to_set());
    order.lemma_no_dup_set_cardinality();
    assert forall|i: int, j: int| 0 <= i < j < order.len() implies target_of(#[trigger] order[i])
        != target_of(#[trigger] order[j]) by {
        assert(order[i] != order[j]);
        assert(order.contains(order[i]) && order.contains(order[j]));
        let p = choose|p: int| 0 <= p < actions.len() && actions[p] == order[i];
        let q = choose|q: int| 0 <= q < actions.len() && actions[q] == order[j];
        if p < q {
            assert(target_of(actions[p]) != target_of(actions[q]));
        } else {
            assert(target_of(actions[q]) != target_of(actions[p]));
        }
    }
}

/// Convergence. Carried out in any order, the actions that the planner
/// computes from the state wanted and the state seen turn the interface seen
/// into exactly the interface wanted.
pub proof fn lemma_reconcile_converges(want: StateView, seen: StateView, order: Seq<ActionView>)
    requires
        distinct_keys(want.peers),
        distinct_keys(seen.peers),
        order.to_multiset() == steps(want, seen).to_multiset(),
    ensures
        apply_all(model_of(seen), order) == model_of(want),
{
    let plan = steps(want, seen);
    let after = apply_all(model_of(seen), order);
    lemma_steps_sound(want, seen);
    lemma_rearranged(order, plan);
    lemma_apply_all_parts(model_of(seen), order);
    assert forall|part: Target| #[trigger] part_of(after, part) == part_of(
        model_of(want),
        part,
    ) by {
        if untouched(order, part) {
            assert forall|i: int| 0 <= i < plan.len() implies target_of(#[trigger] plan[i])
                != part by {
                assert(order.contains(plan[i]));
                let at = choose|at: int| 0 <= at < order.len() && order[at] == plan[i];
                assert(target_of(order[at]) != part);
            }
            assert(untouched(plan, part));
        } else {
            let at = choose|at: int| 0 <= at < order.len() && target_of(#[trigger] order[at])
                == part;
            assert(plan.contains(order[at]));
            let i = choose|i: int| 0 <= i < plan.len() && plan[i] == order[at];
            assert(written_by(plan[i]) == part_of(model_of(want), target_of(plan[i])));
        }
    }
    lemma_same_parts(after, model_of(want));
}

/// An interface that is as wanted needs no action.
pub proof fn lemma_settled_needs_nothing(want: StateView, seen: StateView)
    requires
        distinct_keys(want.peers),
        distinct_keys(seen.peers),
        model_of(seen) == model_of(want),
    ensures
        steps(want, seen) == Seq::<ActionView>::empty(),
{
    let changes = planned(want.peers, seen.peers);
    assert forall|key: Seq<char>| has_key(want.peers, key) == has_key(seen.peers, key) by {
        assert(peer_map(want.peers).dom().contains(key) == peer_map(seen.peers).dom().contains(
            key,
        ));
    }
    assert forall|i: int| 0 <= i < want.peers.len() implies !is_absent_from(seen.peers)(
        #[trigger] want.peers[i],
    ) && !differs_in(seen.peers)(want.peers[i]) by {
        lemma_key_index_unique(want.peers, i);
        assert(has_key(seen.peers, want.peers[i].public_key));
    }
    assert forall|i: int| 0 <= i < seen.peers.len() implies !is_absent_from(want.peers)(
        #[trigger] seen.peers[i],
    ) by {
        lemma_key_index_unique(seen.peers, i);
        assert(has_key(want.peers, seen.peers[i].public_key));
    }
    lemma_filter_nothing(want.peers, is_absent_from(seen.peers));
    lemma_filter_nothing(want.peers, differs_in(seen.peers));
    lemma_filter_nothing(seen.peers, is_absent_from(want.peers));
    assert(steps(want, seen) =~= Seq::<ActionView>::empty());
}

/// Idempotence. Once the actions of a plan have been carried out, planning
/// again for the same wanted state, from any well-formed observation of the
/// interface as it then is, finds nothing to do.
pub proof fn lemma_reconcile_idempotent(want: StateView, seen: StateView, again: StateView)
    requires
        distinct_keys(want.peers),
        distinct_keys(seen.peers),
        distinct_keys(again.peers),
        model_of(again) == apply_all(model_of(seen), steps(want, seen)),
    ensures
        steps(want, again) == Seq::<ActionView>::empty(),
        planned(want.peers, again.peers).to_add.len() == 0,
        planned(want.peers, again.peers).to_remove.len() == 0,
        planned(want.peers, again.peers).to_update.len() == 0,
{
    lemma_reconcile_converges(want, seen, steps(want, seen));
    lemma_settled_needs_nothing(want, again);
    let changes = planned(want.peers, again.peers);
    assert(peer_steps(changes).len() == 0);
    assert(peer_steps(changes).len() == changes.to_remove.len() + changes.to_add.len()
        + changes.to_update.len());
}

} // verus!
