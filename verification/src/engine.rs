//! The event-loop coordinator's state and decisions.
//!
//! The coordinator owns the network state and handles exactly one item per
//! iteration: a queued command or a network-side event. This module holds
//! every decision it makes — what to publish, what to hand the UI, which
//! peers to register — as verified functions from state and item to new
//! state and actions. The unverified host performs the actions (publish,
//! emit, peer bookkeeping in the gossip layer) and feeds the next item in.
use vstd::prelude::*;
use crate::codec::{spec_encode, spec_decode, encode_message, decode_message};
use crate::message::{ChatMessage, ChatMessageModel, Command, CommandModel};

verus! {

/// Copies a byte slice into an owned vector.
fn clone_bytes(v: &[u8]) -> (r: Vec<u8>)
    ensures
        r@ == v@,
{
    let blen: usize = v.len();
    let mut r: Vec<u8> = Vec::new();
    let mut k: usize = 0;
    proof {
        assert(v@.subrange(0, 0) =~= Seq::<u8>::empty());
    }
    while k < blen
        invariant
            k <= blen,
            blen == v@.len(),
            r@ == v@.subrange(0, k as int),
        decreases blen - k,
    {
        r.push(v[k]);
        proof {
            let s1 = v@.subrange(0, k as int + 1);
            assert(s1.drop_last() =~= v@.subrange(0, k as int));
            assert(r@ =~= s1);
        }
        k = k + 1;
    }
    proof {
        assert(v@.subrange(0, v@.len() as int) =~= v@);
    }
    r
}

/// Whether two byte slices hold the same bytes.
fn bytes_eq(a: &[u8], b: &[u8]) -> (r: bool)
    ensures
        r == (a@ == b@),
{
    if a.len() != b.len() {
        return false;
    }
    let n: usize = a.len();
    let mut k: usize = 0;
    while k < n
        invariant
            k <= n,
            n == a@.len(),
            n == b@.len(),
            forall|q: int| 0 <= q < k ==> a@[q] == b@[q],
        decreases n - k,
    {
        if a[k] != b[k] {
            return false;
        }
        k = k + 1;
    }
    proof {
        assert(a@ =~= b@);
    }
    true
}

/// One discovered contact: a peer identifier and the address it was seen
/// at, both as the raw bytes the discovery layer reported.
pub struct PeerContact {
    pub peer: Vec<u8>,
    pub addr: Vec<u8>,
}

/// Model of a contact.
#[verifier::ext_equal]
pub ghost struct PeerContactModel {
    pub peer: Seq<u8>,
    pub addr: Seq<u8>,
}

impl View for PeerContact {
    type V = PeerContactModel;

    open spec fn view(&self) -> PeerContactModel {
        PeerContactModel { peer: self.peer@, addr: self.addr@ }
    }
}

/// One registered peer: its identifier and every address it was seen at.
pub struct PeerEntry {
    pub id: Vec<u8>,
    pub addrs: Vec<Vec<u8>>,
}

/// Model of a registered peer.
#[verifier::ext_equal]
pub ghost struct PeerEntryModel {
    pub id: Seq<u8>,
    pub addrs: Seq<Seq<u8>>,
}

impl View for PeerEntry {
    type V = PeerEntryModel;

    open spec fn view(&self) -> PeerEntryModel {
        PeerEntryModel { id: self.id@, addrs: self.addrs@.map_values(|a: Vec<u8>| a@) }
    }
}

/// Whether some entry carries this peer identifier.
pub open spec fn has_peer(s: Seq<PeerEntryModel>, id: Seq<u8>) -> bool {
    exists|j: int| 0 <= j < s.len() && s[j].id == id
}

/// The place of the entry carrying this peer identifier.
pub open spec fn peer_index(s: Seq<PeerEntryModel>, id: Seq<u8>) -> int {
    choose|j: int| 0 <= j < s.len() && s[j].id == id
}

/// No two entries carry the same peer identifier.
pub open spec fn wf_peers(s: Seq<PeerEntryModel>) -> bool {
    forall|j: int, k: int| 0 <= j < k < s.len() ==> s[j].id != s[k].id
}

/// The registry after one appearance: a known peer gains the address, an
/// unknown peer gains an entry at the end.
pub open spec fn register_model(
    s: Seq<PeerEntryModel>,
    peer: Seq<u8>,
    addr: Seq<u8>,
) -> Seq<PeerEntryModel> {
    if has_peer(s, peer) {
        let j = peer_index(s, peer);
        s.update(j, PeerEntryModel { id: peer, addrs: s[j].addrs.push(addr) })
    } else {
        s.push(PeerEntryModel { id: peer, addrs: seq![addr] })
    }
}

/// The registry after one expiry: the peer's entry leaves; an expiry for a
/// peer never registered changes nothing.
pub open spec fn deregister_model(s: Seq<PeerEntryModel>, peer: Seq<u8>) -> Seq<PeerEntryModel> {
    if has_peer(s, peer) {
        s.remove(peer_index(s, peer))
    } else {
        s
    }
}

/// The ephemeral registry of peers found on the local network. Entries are
/// created by discovery appearances and destroyed by expiries; nothing is
/// persisted.
pub struct PeerSet {
    entries: Vec<PeerEntry>,
}

impl View for PeerSet {
    type V = Seq<PeerEntryModel>;

    closed spec fn view(&self) -> Seq<PeerEntryModel> {
        self.entries@.map_values(|e: PeerEntry| e@)
    }
}

impl PeerSet {
    /// An empty registry.
    pub fn new() -> (s: Self)
        ensures
            s@ == Seq::<PeerEntryModel>::empty(),
            wf_peers(s@),
    {
        let s = PeerSet { entries: Vec::new() };
        proof {
            assert(s@ =~= Seq::<PeerEntryModel>::empty());
        }
        s
    }

    /// How many peers are registered.
    pub fn len(&self) -> (n: usize)
        ensures
            n == self@.len(),
    {
        self.entries.len()
    }

    /// Whether this peer is registered.
    pub fn contains(&self, id: &[u8]) -> (r: bool)
        ensures
            r == has_peer(self@, id@),
    {
        match self.index_of(id) {
            Option::Some(_) => true,
            Option::None => false,
        }
    }

    /// The place of this peer's entry, if it has one.
    fn index_of(&self, id: &[u8]) -> (r: Option<usize>)
        ensures
            match r {
                Option::Some(j) => j < self@.len() && self@[j as int].id == id@,
                Option::None => !has_peer(self@, id@),
            },
    {
        let n: usize = self.entries.len();
        let mut j: usize = 0;
        while j < n
            invariant
                j <= n,
                n == self@.len(),
                n == self.entries@.len(),
                forall|q: int| 0 <= q < j ==> self@[q].id != id@,
            decreases n - j,
        {
            if bytes_eq(self.entries[j].id.as_slice(), id) {
                return Option::Some(j);
            }
            j = j + 1;
        }
        Option::None
    }

    /// Records an appearance: the peer's entry gains the address, or a new
    /// entry is made for it.
    pub fn register(&mut self, peer: Vec<u8>, addr: Vec<u8>)
        requires
            wf_peers(old(self)@),
        ensures
            final(self)@ == register_model(old(self)@, peer@, addr@),
            wf_peers(final(self)@),
    {
        let ghost ov = self@;
        let ghost pv = peer@;
        let ghost av = addr@;
        match self.index_of(peer.as_slice()) {
            Option::Some(j) => {
                let mut e = self.entries.remove(j);
                e.addrs.push(addr);
                self.entries.insert(j, e);
                proof {
                    let pj = peer_index(ov, pv);
                    assert(0 <= pj < ov.len() && ov[pj].id == pv);
                    assert(pj == j);
                    assert(e@.addrs =~= ov[j as int].addrs.push(av));
                    assert(self@ =~= ov.update(
                        j as int,
                        PeerEntryModel { id: pv, addrs: ov[j as int].addrs.push(av) },
                    ));
                    assert(wf_peers(self@));
                }
            },
            Option::None => {
                let mut addrs: Vec<Vec<u8>> = Vec::new();
                addrs.push(addr);
                self.entries.push(PeerEntry { id: peer, addrs });
                proof {
                    assert(seq![addr].map_values(|a: Vec<u8>| a@) =~= seq![av]);
                    assert(self@ =~= ov.push(PeerEntryModel { id: pv, addrs: seq![av] }));
                    assert forall|j: int, k: int| 0 <= j < k < self@.len() implies self@[j].id
                        != self@[k].id by {
                        if k == self@.len() - 1 {
                            assert(!has_peer(ov, pv));
                            assert(self@[j] == ov[j]);
                        }
                    }
                }
            },
        }
    }

    /// Records an expiry: the peer's entry leaves. An expiry for a peer
    /// never registered is a no-op: the registry is left exactly as it
    /// was, and no error arises.
    pub fn deregister(&mut self, peer: &[u8])
        requires
            wf_peers(old(self)@),
        ensures
            final(self)@ == deregister_model(old(self)@, peer@),
            wf_peers(final(self)@),
            !has_peer(final(self)@, peer@),
            !has_peer(old(self)@, peer@) ==> final(self)@ == old(self)@,
    {
        let ghost ov = self@;
        let ghost pv = peer@;
        match self.index_of(peer) {
            Option::Some(j) => {
                self.entries.remove(j);
                proof {
                    let pj = peer_index(ov, pv);
                    assert(0 <= pj < ov.len() && ov[pj].id == pv);
                    assert(pj == j);
                    assert(self@ =~= ov.remove(j as int));
                    assert(wf_peers(self@));
                    assert forall|q: int| 0 <= q < self@.len() implies self@[q].id != pv by {
                        if q < j {
                            assert(self@[q] == ov[q]);
                        } else {
                            assert(self@[q] == ov[q + 1]);
                        }
                    }
                }
            },
            Option::None => {},
        }
    }
}

/// An effect the coordinator asks the host to perform.
#[derive(Debug)]
pub enum Action {
    /// Publish these bytes on the fixed chat topic.
    Publish(Vec<u8>),
    /// Hand this received message to the UI.
    EmitReceived(ChatMessage),
    /// Force-include this peer in gossip dissemination.
    AddExplicitPeer(Vec<u8>),
    /// Stop force-including this peer.
    RemoveExplicitPeer(Vec<u8>),
}

/// Model of an action.
pub ghost enum ActionModel {
    Publish(Seq<u8>),
    EmitReceived(ChatMessageModel),
    AddExplicitPeer(Seq<u8>),
    RemoveExplicitPeer(Seq<u8>),
}

impl View for Action {
    type V = ActionModel;

    open spec fn view(&self) -> ActionModel {
        match self {
            Action::Publish(p) => ActionModel::Publish(p@),
            Action::EmitReceived(m) => ActionModel::EmitReceived(m@),
            Action::AddExplicitPeer(p) => ActionModel::AddExplicitPeer(p@),
            Action::RemoveExplicitPeer(p) => ActionModel::RemoveExplicitPeer(p@),
        }
    }
}

/// The models of a row of actions.
pub open spec fn actions_model(s: Seq<Action>) -> Seq<ActionModel> {
    s.map_values(|a: Action| a@)
}

/// The models of a row of contacts.
pub open spec fn contacts_model(s: Seq<PeerContact>) -> Seq<PeerContactModel> {
    s.map_values(|c: PeerContact| c@)
}

/// The registry after a row of appearances, first to last.
pub open spec fn register_all(
    s: Seq<PeerEntryModel>,
    cs: Seq<PeerContactModel>,
) -> Seq<PeerEntryModel>
    decreases cs.len(),
{
    if cs.len() == 0 {
        s
    } else {
        register_all(register_model(s, cs[0].peer, cs[0].addr), cs.drop_first())
    }
}

/// The registry after a row of expiries, first to last.
pub open spec fn deregister_all(
    s: Seq<PeerEntryModel>,
    cs: Seq<PeerContactModel>,
) -> Seq<PeerEntryModel>
    decreases cs.len(),
{
    if cs.len() == 0 {
        s
    } else {
        deregister_all(deregister_model(s, cs[0].peer), cs.drop_first())
    }
}

/// One registration action per appeared contact, in order.
pub open spec fn add_actions(cs: Seq<PeerContactModel>) -> Seq<ActionModel> {
    cs.map_values(|c: PeerContactModel| ActionModel::AddExplicitPeer(c.peer))
}

/// One deregistration action per expired contact, in order.
pub open spec fn remove_actions(cs: Seq<PeerContactModel>) -> Seq<ActionModel> {
    cs.map_values(|c: PeerContactModel| ActionModel::RemoveExplicitPeer(c.peer))
}

/// A network-side event handed to the coordinator, already reduced to
/// plain values by the host.
pub enum NetEvent {
    /// Discovery reported these peers as appeared.
    PeersDiscovered(Vec<PeerContact>),
    /// Discovery reported these peers as expired.
    PeersExpired(Vec<PeerContact>),
    /// A message arrived on the fixed chat topic; the gossip layer has
    /// already checked its signature and suppressed duplicates. The bytes
    /// are its raw payload.
    TopicMessage(Vec<u8>),
    /// A transport started listening on an address: informational only.
    NewListenAddr(Vec<u8>),
    /// Any other network event: ignored.
    Other,
}

/// Why a send intent was refused. The failure is per-send and recoverable:
/// the engine stays alive and later sends proceed.
#[derive(Debug, PartialEq, Eq)]
pub enum SendError {
    /// A text field's UTF-8 form exceeds the wire format's length field.
    MessageTooLarge,
}

impl SendError {
    /// The failure as plain text for the UI.
    pub fn describe(&self) -> (r: &'static str)
        ensures
            r@ == "message too large for the wire format"@,
    {
        "message too large for the wire format"
    }
}

/// The coordinator's state: the identity, transports and topic live in the
/// host's gossip layer; what the decisions need is the peer registry.
pub struct Engine {
    /// The peers currently registered from discovery.
    pub peers: PeerSet,
}

impl Engine {
    /// A fresh engine with no peers registered.
    pub fn new() -> (e: Self)
        ensures
            e.peers@ == Seq::<PeerEntryModel>::empty(),
            wf_peers(e.peers@),
    {
        Engine { peers: PeerSet::new() }
    }

    /// Decides what one queued command does. A send intent becomes a
    /// publish of exactly the message's canonical wire encoding; a message
    /// the wire format cannot carry is refused with an error for the
    /// caller, and never published. The state does not change.
    pub fn handle_command(&self, c: &Command) -> (r: Result<Action, SendError>)
        ensures
            match r {
                Result::Ok(a) => command_wf(c@) && a@ == ActionModel::Publish(
                    spec_encode(crate::message::command_message(c@)),
                ),
                Result::Err(err) => !command_wf(c@) && err == SendError::MessageTooLarge,
            },
    {
        match c {
            Command::SendMessage(m) => {
                if m.encodable() {
                    Result::Ok(Action::Publish(encode_message(m)))
                } else {
                    Result::Err(SendError::MessageTooLarge)
                }
            },
        }
    }

    /// Decides what one network event does, and hands back the actions in
    /// the order to perform them.
    ///
    /// - Appeared peers are registered and force-included, in the order
    ///   reported.
    /// - Expired peers are deregistered; an expiry for a peer never
    ///   registered leaves the registry exactly as it was.
    /// - A topic message is delivered to the UI exactly when its payload
    ///   decodes as a chat message, and the delivered message is the one
    ///   whose canonical encoding the payload is; bytes that decode to
    ///   nothing are dropped and the engine carries on. Nothing but a
    ///   topic message makes the UI see a message.
    /// - Listen-address notes and all other events change nothing.
    pub fn handle_event(&mut self, e: NetEvent) -> (actions: Vec<Action>)
        requires
            wf_peers(old(self).peers@),
        ensures
            wf_peers(final(self).peers@),
            match e {
                NetEvent::PeersDiscovered(list) => {
                    &&& final(self).peers@ == register_all(old(self).peers@, contacts_model(list@))
                    &&& actions_model(actions@) == add_actions(contacts_model(list@))
                },
                NetEvent::PeersExpired(list) => {
                    &&& final(self).peers@ == deregister_all(
                        old(self).peers@,
                        contacts_model(list@),
                    )
                    &&& actions_model(actions@) == remove_actions(contacts_model(list@))
                },
                NetEvent::TopicMessage(payload) => {
                    &&& final(self).peers@ == old(self).peers@
                    &&& match spec_decode(payload@) {
                        Option::Some(v) => actions_model(actions@) == seq![
                            ActionModel::EmitReceived(v),
                        ] && v.wf() && spec_encode(v) == payload@,
                        Option::None => actions@.len() == 0,
                    }
                },
                NetEvent::NewListenAddr(_) => final(self).peers@ == old(self).peers@
                    && actions@.len() == 0,
                NetEvent::Other => final(self).peers@ == old(self).peers@ && actions@.len() == 0,
            },
    {
        let mut actions: Vec<Action> = Vec::new();
        match e {
            NetEvent::PeersDiscovered(mut list) => {
                let ghost cs = contacts_model(list@);
                let ghost orig = self.peers@;
                proof {
                    assert(actions_model(actions@) + add_actions(cs) =~= add_actions(cs));
                }
                while list.len() > 0
                    invariant
                        wf_peers(self.peers@),
                        register_all(orig, cs) == register_all(
                            self.peers@,
                            contacts_model(list@),
                        ),
                        add_actions(cs) == actions_model(actions@) + add_actions(
                            contacts_model(list@),
                        ),
                    decreases list@.len(),
                {
                    let ghost pre_list = list@;
                    let ghost pre_peers = self.peers@;
                    let ghost pre_actions = actions@;
                    let c = list.remove(0);
                    let peer_copy = clone_bytes(c.peer.as_slice());
                    let ghost cv = c@;
                    self.peers.register(c.peer, c.addr);
                    actions.push(Action::AddExplicitPeer(peer_copy));
                    proof {
                        assert(contacts_model(list@) =~= contacts_model(pre_list).drop_first());
                        assert(contacts_model(pre_list)[0] == cv);
                        assert(register_all(pre_peers, contacts_model(pre_list)) == register_all(
                            self.peers@,
                            contacts_model(list@),
                        ));
                        assert(actions_model(actions@) =~= actions_model(pre_actions).push(
                            ActionModel::AddExplicitPeer(cv.peer),
                        ));
                        assert(actions_model(pre_actions).push(
                            ActionModel::AddExplicitPeer(cv.peer),
                        ) + add_actions(contacts_model(list@)) =~= actions_model(pre_actions)
                            + add_actions(contacts_model(pre_list)));
                    }
                }
                proof {
                    assert(contacts_model(list@) =~= Seq::<PeerContactModel>::empty());
                    assert(register_all(self.peers@, contacts_model(list@)) == self.peers@);
                    assert(add_actions(contacts_model(list@)) =~= Seq::<ActionModel>::empty());
                    assert(actions_model(actions@) + add_actions(contacts_model(list@))
                        =~= actions_model(actions@));
                }
            },
            NetEvent::PeersExpired(mut list) => {
                let ghost cs = contacts_model(list@);
                let ghost orig = self.peers@;
                proof {
                    assert(actions_model(actions@) + remove_actions(cs) =~= remove_actions(cs));
                }
                while list.len() > 0
                    invariant
                        wf_peers(self.peers@),
                        deregister_all(orig, cs) == deregister_all(
                            self.peers@,
                            contacts_model(list@),
                        ),
                        remove_actions(cs) == actions_model(actions@) + remove_actions(
                            contacts_model(list@),
                        ),
                    decreases list@.len(),
                {
                    let ghost pre_list = list@;
                    let ghost pre_peers = self.peers@;
                    let ghost pre_actions = actions@;
                    let c = list.remove(0);
                    let ghost cv = c@;
                    self.peers.deregister(c.peer.as_slice());
                    actions.push(Action::RemoveExplicitPeer(c.peer));
                    proof {
                        assert(contacts_model(list@) =~= contacts_model(pre_list).drop_first());
                        assert(contacts_model(pre_list)[0] == cv);
                        assert(deregister_all(pre_peers, contacts_model(pre_list))
                            == deregister_all(self.peers@, contacts_model(list@)));
                        assert(actions_model(actions@) =~= actions_model(pre_actions).push(
                            ActionModel::RemoveExplicitPeer(cv.peer),
                        ));
                        assert(actions_model(pre_actions).push(
                            ActionModel::RemoveExplicitPeer(cv.peer),
                        ) + remove_actions(contacts_model(list@)) =~= actions_model(pre_actions)
                            + remove_actions(contacts_model(pre_list)));
                    }
                }
                proof {
                    assert(contacts_model(list@) =~= Seq::<PeerContactModel>::empty());
                    assert(deregister_all(self.peers@, contacts_model(list@)) == self.peers@);
                    assert(remove_actions(contacts_model(list@)) =~= Seq::<ActionModel>::empty());
                    assert(actions_model(actions@) + remove_actions(contacts_model(list@))
                        =~= actions_model(actions@));
                }
            },
            NetEvent::TopicMessage(payload) => {
                match decode_message(payload.as_slice()) {
                    Option::Some(m) => {
                        let ghost mv = m@;
                        actions.push(Action::EmitReceived(m));
                        proof {
                            assert(actions_model(actions@) =~= seq![ActionModel::EmitReceived(mv)]);
                            crate::codec::lemma_decode_encode(payload@, mv);
                        }
                    },
                    Option::None => {},
                }
            },
            NetEvent::NewListenAddr(_) => {},
            NetEvent::Other => {},
        }
        actions
    }
}

/// Whether a command's message can be put on the wire.
pub open spec fn command_wf(c: CommandModel) -> bool {
    crate::message::command_message(c).wf()
}

} // verus!
