//! The planner that brings a live interface in line with the configuration:
//! a pure function from the desired and the observed state to the changes
//! that turn one into the other.

use crate::net::{ranges_wf, IpRange};
use crate::peers::{
    has_key, key_index, peer_map, peer_views, peers_have_ranges, same_ranges, Peer, PeerTable,
    PeerView,
};
use crate::decimal::{decimal_text, push_decimal};
use crate::sequences::{lemma_filter_empty, lemma_filter_keeps, lemma_filter_push};
use crate::wg::{wg_error_text, WgError};
use vstd::prelude::*;
use vstd::string::StringExecFns;

verus! {

/// The changes to the peers of an interface, in three groups that share no
/// key.
#[derive(Clone, Debug, PartialEq, Eq)]
pub struct ChangeSet {
    /// Peers that are wanted and not on the interface.
    pub to_add: Vec<Peer>,
    /// Keys that are on the interface and not wanted.
    pub to_remove: Vec<String>,
    /// Peers that are on the interface with other ranges than wanted.
    pub to_update: Vec<Peer>,
}

/// The mathematical value of a change-set.
pub struct ChangeSetView {
    pub to_add: Seq<PeerView>,
    pub to_remove: Seq<Seq<char>>,
    pub to_update: Seq<PeerView>,
}

/// The values of a sequence of keys, in order.
pub open spec fn key_views(keys: Seq<String>) -> Seq<Seq<char>> {
    keys.map_values(|k: String| k@)
}

impl View for ChangeSet {
    type V = ChangeSetView;

    open spec fn view(&self) -> ChangeSetView {
        ChangeSetView {
            to_add: peer_views(self.to_add@),
            to_remove: key_views(self.to_remove@),
            to_update: peer_views(self.to_update@),
        }
    }
}

/// The test "this peer's key is not in `others`".
pub open spec fn is_absent_from(others: Seq<PeerView>) -> spec_fn(PeerView) -> bool {
    |p: PeerView| !has_key(others, p.public_key)
}

/// The test "this peer's key is in `others`, with other ranges".
pub open spec fn differs_in(others: Seq<PeerView>) -> spec_fn(PeerView) -> bool {
    |p: PeerView|
        has_key(others, p.public_key) && others[key_index(others, p.public_key)].allowed_ips
            != p.allowed_ips
}

/// The changes that lead from `observed` to `desired`: the desired peers
/// that are missing, in the order desired; the observed keys that are not
/// desired, in the order observed; and the desired peers that are present
/// with other ranges, in the order desired.
pub open spec fn planned(desired: Seq<PeerView>, observed: Seq<PeerView>) -> ChangeSetView {
    ChangeSetView {
        to_add: desired.filter(is_absent_from(observed)),
        to_remove: observed.filter(is_absent_from(desired)).map_values(
            |p: PeerView| p.public_key,
        ),
        to_update: desired.filter(differs_in(observed)),
    }
}

impl ChangeSet {
    /// True when there is nothing to change.
    pub fn is_empty(&self) -> (result: bool)
        ensures
            result == (self@.to_add.len() == 0 && self@.to_remove.len() == 0
                && self@.to_update.len() == 0),
    {
        self.to_add.len() == 0 && self.to_remove.len() == 0 && self.to_update.len() == 0
    }
}

/// Tells whether `peer` is in `observed` with other ranges than its own.
fn is_changed(peer: &Peer, observed: &PeerTable) -> (result: bool)
    ensures
        result == differs_in(observed@)(peer@),
{
    match observed.find(&peer.public_key) {
        Some(at) => !same_ranges(&observed.get(at).allowed_ips, &peer.allowed_ips),
        None => false,
    }
}

/// Tells whether no peer of `others` has the key of `peer`.
fn is_missing(peer: &Peer, others: &PeerTable) -> (result: bool)
    ensures
        result == is_absent_from(others@)(peer@),
{
    others.find(&peer.public_key).is_none()
}

/// The desired peers that are missing from `observed`, and those that are
/// there with other ranges.
fn missing_and_changed(desired: &PeerTable, observed: &PeerTable) -> (result: (
    Vec<Peer>,
    Vec<Peer>,
))
    ensures
        peer_views(result.0@) == planned(desired@, observed@).to_add,
        peer_views(result.1@) == planned(desired@, observed@).to_update,
{
    let mut to_add: Vec<Peer> = Vec::new();
    let mut to_update: Vec<Peer> = Vec::new();
    let mut i: usize = 0;
    proof {
        lemma_filter_empty(is_absent_from(observed@));
        lemma_filter_empty(differs_in(observed@));
        assert(desired@.take(0) =~= Seq::<PeerView>::empty());
        assert(peer_views(to_add@) =~= Seq::<PeerView>::empty());
        assert(peer_views(to_update@) =~= Seq::<PeerView>::empty());
    }
    while i < desired.len()
        invariant
            i <= desired@.len(),
            peer_views(to_add@) == desired@.take(i as int).filter(is_absent_from(observed@)),
            peer_views(to_update@) == desired@.take(i as int).filter(differs_in(observed@)),
        decreases desired@.len() - i,
    {
        let peer = desired.get(i);
        proof {
            assert(desired@.take(i + 1) =~= desired@.take(i as int).push(peer@));
            lemma_filter_push(desired@.take(i as int), peer@, is_absent_from(observed@));
            lemma_filter_push(desired@.take(i as int), peer@, differs_in(observed@));
        }
        if is_missing(peer, observed) {
            let ghost before = to_add@;
            to_add.push(peer.duplicate());
            assert(peer_views(to_add@) =~= peer_views(before).push(peer@));
        } else if is_changed(peer, observed) {
            let ghost before = to_update@;
            to_update.push(peer.duplicate());
            assert(peer_views(to_update@) =~= peer_views(before).push(peer@));
        }
        i = i + 1;
    }
    assert(desired@.take(desired@.len() as int) =~= desired@);
    (to_add, to_update)
}

/// The keys of the observed peers that are not desired.
fn stale_keys(desired: &PeerTable, observed: &PeerTable) -> (result: Vec<String>)
    ensures
        key_views(result@) == planned(desired@, observed@).to_remove,
{
    let mut to_remove: Vec<String> = Vec::new();
    let mut k: usize = 0;
    let ghost key_of = |p: PeerView| p.public_key;
    proof {
        lemma_filter_empty(is_absent_from(desired@));
        assert(observed@.take(0) =~= Seq::<PeerView>::empty());
        assert(key_views(to_remove@) =~= Seq::<PeerView>::empty().map_values(key_of));
    }
    while k < observed.len()
        invariant
            k <= observed@.len(),
            key_of == |p: PeerView| p.public_key,
            key_views(to_remove@) == observed@.take(k as int).filter(
                is_absent_from(desired@),
            ).map_values(key_of),
        decreases observed@.len() - k,
    {
        let peer = observed.get(k);
        let ghost kept = observed@.take(k as int).filter(is_absent_from(desired@));
        proof {
            assert(observed@.take(k + 1) =~= observed@.take(k as int).push(peer@));
            lemma_filter_push(observed@.take(k as int), peer@, is_absent_from(desired@));
        }
        if is_missing(peer, desired) {
            let ghost before = to_remove@;
            to_remove.push(peer.public_key.clone());
            assert(key_views(to_remove@) =~= key_views(before).push(peer@.public_key));
            assert(kept.push(peer@).map_values(key_of) =~= kept.map_values(key_of).push(
                peer@.public_key,
            ));
        }
        k = k + 1;
    }
    assert(observed@.take(observed@.len() as int) =~= observed@);
    to_remove
}

/// Computes the changes that lead from the observed peers to the desired
/// ones. Neither table is changed.
pub fn plan(desired: &PeerTable, observed: &PeerTable) -> (result: ChangeSet)
    ensures
        result@ == planned(desired@, observed@),
{
    let (to_add, to_update) = missing_and_changed(desired, observed);
    let to_remove = stale_keys(desired, observed);
    ChangeSet { to_add, to_remove, to_update }
}

/// The state of an interface as far as it is managed here: its identity and
/// its peers. The same type describes the state that is wanted.
#[derive(Clone, Debug, PartialEq, Eq)]
pub struct InterfaceState {
    pub private_key: String,
    pub listen_port: u16,
    pub peers: PeerTable,
}

/// The mathematical value of an interface state, peers in table order.
pub struct StateView {
    pub private_key: Seq<char>,
    pub listen_port: u16,
    pub peers: Seq<PeerView>,
}

impl View for InterfaceState {
    type V = StateView;

    open spec fn view(&self) -> StateView {
        StateView {
            private_key: self.private_key@,
            listen_port: self.listen_port,
            peers: self.peers@,
        }
    }
}

impl InterfaceState {
    /// A state is well formed when its peer table is.
    pub open spec fn wf(&self) -> bool {
        self.peers.wf()
    }
}

/// An interface as the protocol sees it: a private key, a port, and a
/// store of allowed ranges by public key.
pub struct InterfaceModel {
    pub private_key: Seq<char>,
    pub listen_port: u16,
    pub peers: Map<Seq<char>, Seq<IpRange>>,
}

/// The interface that a state describes.
pub open spec fn model_of(state: StateView) -> InterfaceModel {
    InterfaceModel {
        private_key: state.private_key,
        listen_port: state.listen_port,
        peers: peer_map(state.peers),
    }
}

/// One call to the interface.
#[derive(Clone, Debug, PartialEq, Eq)]
pub enum Action {
    SetPrivateKey(String),
    SetListenPort(u16),
    RemovePeer(String),
    AddPeer(Peer),
    UpdatePeer(Peer),
}

/// The mathematical value of an action.
pub enum ActionView {
    SetPrivateKey(Seq<char>),
    SetListenPort(u16),
    RemovePeer(Seq<char>),
    AddPeer(PeerView),
    UpdatePeer(PeerView),
}

impl View for Action {
    type V = ActionView;

    open spec fn view(&self) -> ActionView {
        match self {
            Action::SetPrivateKey(key) => ActionView::SetPrivateKey(key@),
            Action::SetListenPort(port) => ActionView::SetListenPort(*port),
            Action::RemovePeer(key) => ActionView::RemovePeer(key@),
            Action::AddPeer(peer) => ActionView::AddPeer(peer@),
            Action::UpdatePeer(peer) => ActionView::UpdatePeer(peer@),
        }
    }
}

/// The values of a sequence of actions, in order.
pub open spec fn action_views(actions: Seq<Action>) -> Seq<ActionView> {
    actions.map_values(|a: Action| a@)
}

/// What one action does to an interface. Adding and updating both set the
/// ranges of the peer's key, as the interface does.
pub open spec fn apply_action(interface: InterfaceModel, action: ActionView) -> InterfaceModel {
    match action {
        ActionView::SetPrivateKey(key) => InterfaceModel { private_key: key, ..interface },
        ActionView::SetListenPort(port) => InterfaceModel { listen_port: port, ..interface },
        ActionView::RemovePeer(key) => InterfaceModel {
            peers: interface.peers.remove(key),
            ..interface
        },
        ActionView::AddPeer(peer) => InterfaceModel {
            peers: interface.peers.insert(peer.public_key, peer.allowed_ips),
            ..interface
        },
        ActionView::UpdatePeer(peer) => InterfaceModel {
            peers: interface.peers.insert(peer.public_key, peer.allowed_ips),
            ..interface
        },
    }
}

/// What a sequence of actions does to an interface, first action first.
pub open spec fn apply_all(interface: InterfaceModel, actions: Seq<ActionView>) -> InterfaceModel
    decreases actions.len(),
{
    if actions.len() == 0 {
        interface
    } else {
        apply_action(apply_all(interface, actions.drop_last()), actions.last())
    }
}

/// The actions that set the identity of the interface where it differs from
/// the one wanted: the private key first, then the port.
pub open spec fn identity_steps(want: StateView, seen: StateView) -> Seq<ActionView> {
    (if seen.private_key != want.private_key {
        seq![ActionView::SetPrivateKey(want.private_key)]
    } else {
        Seq::<ActionView>::empty()
    }) + (if seen.listen_port != want.listen_port {
        seq![ActionView::SetListenPort(want.listen_port)]
    } else {
        Seq::<ActionView>::empty()
    })
}

/// The actions of a change-set: removals, then additions, then updates.
pub open spec fn peer_steps(changes: ChangeSetView) -> Seq<ActionView> {
    changes.to_remove.map_values(|key: Seq<char>| ActionView::RemovePeer(key))
        + changes.to_add.map_values(|peer: PeerView| ActionView::AddPeer(peer))
        + changes.to_update.map_values(|peer: PeerView| ActionView::UpdatePeer(peer))
}

/// The ranges that an action hands to the interface: those of the peer it
/// adds or updates, and none otherwise.
pub open spec fn action_ranges(action: ActionView) -> Seq<IpRange> {
    match action {
        ActionView::AddPeer(peer) => peer.allowed_ips,
        ActionView::UpdatePeer(peer) => peer.allowed_ips,
        _ => Seq::<IpRange>::empty(),
    }
}

/// All the actions that lead from the state seen to the state wanted.
pub open spec fn steps(want: StateView, seen: StateView) -> Seq<ActionView> {
    identity_steps(want, seen) + peer_steps(planned(want.peers, seen.peers))
}

/// The planner hands to the interface only ranges of peers that are wanted:
/// where those are well formed, so are the ranges of every action.
pub proof fn lemma_steps_hand_on_wanted_ranges(want: StateView, seen: StateView)
    requires
        peers_have_ranges(want.peers),
    ensures
        forall|i: int|
            0 <= i < steps(want, seen).len() ==> ranges_wf(
                action_ranges(#[trigger] steps(want, seen)[i]),
            ),
{
    let changes = planned(want.peers, seen.peers);
    let identity = identity_steps(want, seen);
    let removes = changes.to_remove.map_values(|key: Seq<char>| ActionView::RemovePeer(key));
    let adds = changes.to_add.map_values(|peer: PeerView| ActionView::AddPeer(peer));
    let updates = changes.to_update.map_values(|peer: PeerView| ActionView::UpdatePeer(peer));
    let all = steps(want, seen);
    lemma_filter_keeps(want.peers, is_absent_from(seen.peers));
    lemma_filter_keeps(want.peers, differs_in(seen.peers));
    assert forall|i: int| 0 <= i < all.len() implies ranges_wf(action_ranges(#[trigger] all[i])) by {
        let a = identity.len();
        let b = a + removes.len();
        let c = b + adds.len();
        if i < a {
            assert(all[i] == identity[i]);
        } else if i < b {
            assert(all[i] == removes[i - a]);
        } else if i < c {
            assert(all[i] == adds[i - b]);
            let peer = changes.to_add[i - b];
            assert(want.peers.contains(peer));
            let at = choose|at: int| 0 <= at < want.peers.len() && want.peers[at] == peer;
            assert(ranges_wf(want.peers[at].allowed_ips));
        } else {
            assert(all[i] == updates[i - c]);
            let peer = changes.to_update[i - c];
            assert(want.peers.contains(peer));
            let at = choose|at: int| 0 <= at < want.peers.len() && want.peers[at] == peer;
            assert(ranges_wf(want.peers[at].allowed_ips));
        }
    }
}

/// Lists the actions of a change-set: removals, then additions, then
/// updates, each group in its own order.
pub fn actions_of(changes: ChangeSet) -> (result: Vec<Action>)
    ensures
        action_views(result@) == peer_steps(changes@),
{
    let ghost view = changes@;
    let ChangeSet { to_add, to_remove, to_update } = changes;
    let ghost removing = |key: Seq<char>| ActionView::RemovePeer(key);
    let ghost adding = |peer: PeerView| ActionView::AddPeer(peer);
    let ghost updating = |peer: PeerView| ActionView::UpdatePeer(peer);
    let mut out: Vec<Action> = Vec::new();
    let mut to_remove = to_remove;
    let mut to_add = to_add;
    let mut to_update = to_update;
    let mut i: usize = 0;
    assert(action_views(out@) =~= view.to_remove.take(0).map_values(removing));
    while i < to_remove.len()
        invariant
            i <= to_remove.len(),
            key_views(to_remove@) == view.to_remove,
            removing == |key: Seq<char>| ActionView::RemovePeer(key),
            action_views(out@) == view.to_remove.take(i as int).map_values(removing),
        decreases to_remove.len() - i,
    {
        let ghost before = out@;
        out.push(Action::RemovePeer(to_remove[i].clone()));
        assert(action_views(out@) =~= action_views(before).push(
            ActionView::RemovePeer(view.to_remove[i as int]),
        ));
        assert(view.to_remove.take(i + 1).map_values(removing) =~= view.to_remove.take(
            i as int,
        ).map_values(removing).push(ActionView::RemovePeer(view.to_remove[i as int])));
        i = i + 1;
    }
    assert(view.to_remove.take(to_remove.len() as int) =~= view.to_remove);
    let ghost removed = out@;
    let mut j: usize = 0;
    assert(action_views(out@) =~= action_views(removed) + view.to_add.take(0).map_values(adding));
    while j < to_add.len()
        invariant
            j <= to_add.len(),
            peer_views(to_add@) == view.to_add,
            adding == |peer: PeerView| ActionView::AddPeer(peer),
            action_views(out@) == action_views(removed) + view.to_add.take(j as int).map_values(
                adding,
            ),
        decreases to_add.len() - j,
    {
        let ghost before = out@;
        out.push(Action::AddPeer(to_add[j].duplicate()));
        assert(action_views(out@) =~= action_views(before).push(
            ActionView::AddPeer(view.to_add[j as int]),
        ));
        assert(view.to_add.take(j + 1).map_values(adding) =~= view.to_add.take(
            j as int,
        ).map_values(adding).push(ActionView::AddPeer(view.to_add[j as int])));
        j = j + 1;
    }
    assert(view.to_add.take(to_add.len() as int) =~= view.to_add);
    let ghost added = out@;
    let mut k: usize = 0;
    assert(action_views(out@) =~= action_views(added) + view.to_update.take(0).map_values(
        updating,
    ));
    while k < to_update.len()
        invariant
            k <= to_update.len(),
            peer_views(to_update@) == view.to_update,
            updating == |peer: PeerView| ActionView::UpdatePeer(peer),
            action_views(out@) == action_views(added) + view.to_update.take(k as int).map_values(
                updating,
            ),
        decreases to_update.len() - k,
    {
        let ghost before = out@;
        out.push(Action::UpdatePeer(to_update[k].duplicate()));
        assert(action_views(out@) =~= action_views(before).push(
            ActionView::UpdatePeer(view.to_update[k as int]),
        ));
        assert(view.to_update.take(k + 1).map_values(updating) =~= view.to_update.take(
            k as int,
        ).map_values(updating).push(ActionView::UpdatePeer(view.to_update[k as int])));
        k = k + 1;
    }
    assert(view.to_update.take(to_update.len() as int) =~= view.to_update);
    out
}

/// Computes the actions that bring the interface from the state seen to the
/// state wanted: first its identity, then its peers.
pub fn reconcile(want: &InterfaceState, seen: &InterfaceState) -> (result: Vec<Action>)
    ensures
        action_views(result@) == steps(want@, seen@),
{
    let mut out: Vec<Action> = Vec::new();
    if seen.private_key != want.private_key {
        out.push(Action::SetPrivateKey(want.private_key.clone()));
    }
    if seen.listen_port != want.listen_port {
        out.push(Action::SetListenPort(want.listen_port));
    }
    assert(action_views(out@) =~= identity_steps(want@, seen@));
    let ghost identity = out@;
    let mut rest = actions_of(plan(&want.peers, &seen.peers));
    let ghost peers = rest@;
    out.append(&mut rest);
    assert(action_views(out@) =~= action_views(identity) + action_views(peers));
    out
}

/// What an action does, in words: the operation and the key or value it
/// is about. The private key itself is not spelled out.
pub open spec fn action_text(action: ActionView) -> Seq<char> {
    match action {
        ActionView::SetPrivateKey(_) => "set private key"@,
        ActionView::SetListenPort(port) => "set listen port "@ + decimal_text(port as nat),
        ActionView::RemovePeer(key) => "remove peer "@ + key,
        ActionView::AddPeer(peer) => "add peer "@ + peer.public_key,
        ActionView::UpdatePeer(peer) => "update peer "@ + peer.public_key,
    }
}

/// The report of an action that failed: what was tried and why it failed,
/// so that the operator knows what is left to do.
pub open spec fn failure_text(action: ActionView, error: WgError) -> Seq<char> {
    "failed to "@ + action_text(action) + ": "@ + wg_error_text(error)
}

impl Action {
    /// Says in words what the action does.
    pub fn describe(&self) -> (result: String)
        ensures
            result@ == action_text(self@),
    {
        match self {
            Action::SetPrivateKey(_) => String::from_str("set private key"),
            Action::SetListenPort(port) => {
                let mut out = String::from_str("set listen port ");
                push_decimal(&mut out, *port as u32);
                out
            },
            Action::RemovePeer(key) => {
                let mut out = String::from_str("remove peer ");
                out.append(key.as_str());
                out
            },
            Action::AddPeer(peer) => {
                let mut out = String::from_str("add peer ");
                out.append(peer.public_key.as_str());
                out
            },
            Action::UpdatePeer(peer) => {
                let mut out = String::from_str("update peer ");
                out.append(peer.public_key.as_str());
                out
            },
        }
    }

    /// Reports that the action failed with `error`.
    pub fn failure(&self, error: WgError) -> (result: String)
        ensures
            result@ == failure_text(self@, error),
    {
        let mut out = String::from_str("failed to ");
        out.append(self.describe().as_str());
        out.append(": ");
        out.append(error.to_string().as_str());
        out
    }
}

} // verus!
