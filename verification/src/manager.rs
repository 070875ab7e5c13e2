//! The server configuration: the identity of the interface, the address
//! pool, and the registry of clients with its rules.

use crate::net::{address_text, parsed_range, range_text, Address, Endpoint, IpRange};
use crate::peers::{
    lemma_with_peer_ranges, peers_have_ranges, with_peer, Peer, PeerTable, PeerView,
};
use crate::reconcile::{
    action_ranges, action_views, lemma_steps_hand_on_wanted_ranges, reconcile, steps, Action,
    InterfaceState, StateView,
};
use crate::net::ranges_wf;
use crate::utils::cells_of;
use crate::wg::Wg;
use vstd::prelude::*;
use vstd::string::StringExecFns;

verus! {

/// Why an operation on the configuration was refused.
#[derive(Clone, Debug, PartialEq, Eq)]
pub enum ManagerError {
    /// The configuration file could not be read or written; the text says why.
    IOError(String),
    /// The configuration file does not hold a configuration; the text says
    /// why.
    SerializationError(String),
    /// A client of this name is registered already.
    ClientNameExistsError(String),
    /// No client of this name is registered.
    ClientNotFoundError(String),
    /// The address lies outside the address pool of the server.
    AddressOutOfRangeError(Address),
    /// The address is the server's own or that of a registered client.
    AddressInUseError(Address),
}

/// The mathematical value of an error.
pub enum ManagerErrorView {
    IOError(Seq<char>),
    SerializationError(Seq<char>),
    ClientNameExistsError(Seq<char>),
    ClientNotFoundError(Seq<char>),
    AddressOutOfRangeError(Address),
    AddressInUseError(Address),
}

impl View for ManagerError {
    type V = ManagerErrorView;

    open spec fn view(&self) -> ManagerErrorView {
        match self {
            ManagerError::IOError(text) => ManagerErrorView::IOError(text@),
            ManagerError::SerializationError(text) => ManagerErrorView::SerializationError(text@),
            ManagerError::ClientNameExistsError(name) => ManagerErrorView::ClientNameExistsError(
                name@,
            ),
            ManagerError::ClientNotFoundError(name) => ManagerErrorView::ClientNotFoundError(
                name@,
            ),
            ManagerError::AddressOutOfRangeError(ip) => ManagerErrorView::AddressOutOfRangeError(
                *ip,
            ),
            ManagerError::AddressInUseError(ip) => ManagerErrorView::AddressInUseError(*ip),
        }
    }
}

/// The message of an error, as shown to the operator.
pub open spec fn error_text(error: ManagerErrorView) -> Seq<char> {
    match error {
        ManagerErrorView::IOError(text) => text,
        ManagerErrorView::SerializationError(text) => text,
        ManagerErrorView::ClientNameExistsError(name) => "client with name '"@ + name
            + "' already exists"@,
        ManagerErrorView::ClientNotFoundError(name) => "client with name '"@ + name
            + "' does not exist"@,
        ManagerErrorView::AddressOutOfRangeError(ip) => "address "@ + address_text(ip.bits)
            + " is outside the address range"@,
        ManagerErrorView::AddressInUseError(ip) => "address "@ + address_text(ip.bits)
            + " is already in use"@,
    }
}

impl ManagerError {
    /// The message of the error.
    pub fn to_string(&self) -> (result: String)
        ensures
            result@ == error_text(self@),
    {
        match self {
            ManagerError::IOError(text) => text.clone(),
            ManagerError::SerializationError(text) => text.clone(),
            ManagerError::ClientNameExistsError(name) => {
                let mut out = String::from_str("client with name '");
                out.append(name.as_str());
                out.append("' already exists");
                out
            },
            ManagerError::ClientNotFoundError(name) => {
                let mut out = String::from_str("client with name '");
                out.append(name.as_str());
                out.append("' does not exist");
                out
            },
            ManagerError::AddressOutOfRangeError(ip) => {
                let mut out = String::from_str("address ");
                out.append(ip.to_text().as_str());
                out.append(" is outside the address range");
                out
            },
            ManagerError::AddressInUseError(ip) => {
                let mut out = String::from_str("address ");
                out.append(ip.to_text().as_str());
                out.append(" is already in use");
                out
            },
        }
    }
}

/// One client of the server.
#[derive(Clone, Debug, PartialEq, Eq)]
pub struct Client {
    name: String,
    public_key: String,
    ip: Address,
}

/// The mathematical value of a client.
pub struct ClientView {
    pub name: Seq<char>,
    pub public_key: Seq<char>,
    pub ip: Address,
}

impl View for Client {
    type V = ClientView;

    closed spec fn view(&self) -> ClientView {
        ClientView { name: self.name@, public_key: self.public_key@, ip: self.ip }
    }
}

impl Client {
    /// The client of the given name, public key and address.
    pub fn new(name: String, public_key: String, ip: Address) -> (client: Client)
        ensures
            client@ == (ClientView { name: name@, public_key: public_key@, ip }),
    {
        Client { name, public_key, ip }
    }

    /// The name of the client.
    pub fn name(&self) -> (name: &String)
        ensures
            name@ == self@.name,
    {
        &self.name
    }

    /// The public key of the client.
    pub fn public_key(&self) -> (key: &String)
        ensures
            key@ == self@.public_key,
    {
        &self.public_key
    }

    /// The address of the client.
    pub fn ip(&self) -> (ip: Address)
        ensures
            ip == self@.ip,
    {
        self.ip
    }

    /// A copy of the client.
    pub fn duplicate(&self) -> (client: Client)
        ensures
            client@ == self@,
    {
        Client { name: self.name.clone(), public_key: self.public_key.clone(), ip: self.ip }
    }
}

/// The values of a sequence of clients, in order.
pub open spec fn client_views(clients: Seq<Client>) -> Seq<ClientView> {
    clients.map_values(|c: Client| c@)
}

/// True when some client of `roster` has the name `name`.
pub open spec fn has_name(roster: Seq<ClientView>, name: Seq<char>) -> bool {
    exists|i: int| 0 <= i < roster.len() && (#[trigger] roster[i]).name == name
}

/// The position of a client with the name `name`; meaningful only when there
/// is one.
pub open spec fn name_index(roster: Seq<ClientView>, name: Seq<char>) -> int {
    choose|i: int| 0 <= i < roster.len() && (#[trigger] roster[i]).name == name
}

/// True when no two clients of `roster` share a name.
pub open spec fn distinct_names(roster: Seq<ClientView>) -> bool {
    forall|i: int, j: int|
        0 <= i < j < roster.len() ==> (#[trigger] roster[i]).name != (#[trigger] roster[j]).name
}

/// True when some client of `roster` has the address `ip`.
pub open spec fn has_address(roster: Seq<ClientView>, ip: Address) -> bool {
    exists|i: int| 0 <= i < roster.len() && (#[trigger] roster[i]).ip == ip
}

/// The registry as a mapping from client name to client.
pub open spec fn roster_map(roster: Seq<ClientView>) -> Map<Seq<char>, ClientView> {
    Map::new(|name: Seq<char>| has_name(roster, name), |name: Seq<char>| roster[name_index(roster, name)])
}

/// In a roster without repeated names, the client at `at` is the one that
/// its name maps to.
pub proof fn lemma_roster_map_at(roster: Seq<ClientView>, at: int)
    requires
        distinct_names(roster),
        0 <= at < roster.len(),
    ensures
        has_name(roster, roster[at].name),
        roster_map(roster)[roster[at].name] == roster[at],
{
    let found = name_index(roster, roster[at].name);
    if found < at {
        assert(roster[found].name != roster[at].name);
    } else if at < found {
        assert(roster[at].name != roster[found].name);
    }
}

/// A client with a new name, put at the end of a roster, is one more entry
/// of the mapping.
pub proof fn lemma_roster_push(roster: Seq<ClientView>, client: ClientView)
    requires
        distinct_names(roster),
        !has_name(roster, client.name),
    ensures
        distinct_names(roster.push(client)),
        roster_map(roster.push(client)) == roster_map(roster).insert(client.name, client),
{
    let after = roster.push(client);
    assert forall|i: int, j: int| 0 <= i < j < after.len() implies (#[trigger] after[i]).name != (
    #[trigger] after[j]).name by {
        assert(after[i] == roster[i]);
        if j < roster.len() {
            assert(after[j] == roster[j]);
        }
    }
    assert forall|name: Seq<char>| has_name(after, name) <==> (name == client.name || has_name(
        roster,
        name,
    )) by {
        if has_name(after, name) {
            let i = name_index(after, name);
            if i < roster.len() {
                assert(roster[i].name == name);
            }
        }
        if name == client.name {
            assert(after[roster.len() as int].name == name);
        } else if has_name(roster, name) {
            assert(after[name_index(roster, name)].name == name);
        }
    }
    assert forall|name: Seq<char>| has_name(after, name) implies #[trigger] roster_map(after)[name]
        == roster_map(roster).insert(client.name, client)[name] by {
        let i = name_index(after, name);
        lemma_roster_map_at(after, i);
        if i < roster.len() {
            assert(after[i] == roster[i]);
            lemma_roster_map_at(roster, i);
        }
    }
    assert(roster_map(after) =~= roster_map(roster).insert(client.name, client));
}

/// Taking the client at `at` out of a roster takes its name out of the
/// mapping and leaves the rest.
pub proof fn lemma_roster_remove(roster: Seq<ClientView>, at: int)
    requires
        distinct_names(roster),
        0 <= at < roster.len(),
    ensures
        distinct_names(roster.remove(at)),
        !has_name(roster.remove(at), roster[at].name),
        roster_map(roster.remove(at)) == roster_map(roster).remove(roster[at].name),
{
    let after = roster.remove(at);
    let gone = roster[at].name;
    assert forall|i: int| 0 <= i < after.len() implies #[trigger] after[i] == roster[if i < at {
        i
    } else {
        i + 1
    }] by {}
    assert forall|i: int, j: int| 0 <= i < j < after.len() implies (#[trigger] after[i]).name != (
    #[trigger] after[j]).name by {
        let p = if i < at { i } else { i + 1 };
        let q = if j < at { j } else { j + 1 };
        assert(after[i] == roster[p] && after[j] == roster[q]);
        assert(roster[p].name != roster[q].name);
    }
    assert forall|i: int| 0 <= i < after.len() implies (#[trigger] after[i]).name != gone by {
        let p = if i < at { i } else { i + 1 };
        assert(after[i] == roster[p]);
        if p < at {
            assert(roster[p].name != roster[at].name);
        } else {
            assert(roster[at].name != roster[p].name);
        }
    }
    assert forall|name: Seq<char>| has_name(after, name) <==> (name != gone && has_name(
        roster,
        name,
    )) by {
        if has_name(after, name) {
            let i = name_index(after, name);
            let p = if i < at { i } else { i + 1 };
            assert(after[i] == roster[p]);
            assert(roster[p].name == name);
        }
        if name != gone && has_name(roster, name) {
            let p = name_index(roster, name);
            let i = if p < at { p } else { p - 1 };
            assert(after[i] == roster[p]);
            assert(after[i].name == name);
        }
    }
    assert forall|name: Seq<char>| has_name(after, name) implies #[trigger] roster_map(after)[name]
        == roster_map(roster).remove(gone)[name] by {
        let i = name_index(after, name);
        let p = if i < at { i } else { i + 1 };
        assert(after[i] == roster[p]);
        lemma_roster_map_at(after, i);
        lemma_roster_map_at(roster, p);
    }
    assert(roster_map(after) =~= roster_map(roster).remove(gone));
}

/// The configuration of one server: the interface and its key pair, the
/// endpoint it binds to, the address pool, and the registry of clients, in
/// which every name occurs once.
#[derive(Clone, Debug, PartialEq, Eq)]
pub struct Manager {
    interface_name: String,
    private_key: String,
    public_key: String,
    endpoint: Endpoint,
    ip_range: IpRange,
    clients: Vec<Client>,
    wg: Wg,
}

/// The mathematical value of a configuration. The registry is a mapping:
/// the order in which the clients are kept is no part of the value.
pub struct ManagerView {
    pub interface_name: Seq<char>,
    pub private_key: Seq<char>,
    pub public_key: Seq<char>,
    pub endpoint: Endpoint,
    pub ip_range: IpRange,
    pub clients: Map<Seq<char>, ClientView>,
    pub wg: Seq<char>,
}

impl View for Manager {
    type V = ManagerView;

    closed spec fn view(&self) -> ManagerView {
        ManagerView {
            interface_name: self.interface_name@,
            private_key: self.private_key@,
            public_key: self.public_key@,
            endpoint: self.endpoint,
            ip_range: self.ip_range,
            clients: roster_map(client_views(self.clients@)),
            wg: self.wg@,
        }
    }
}

/// True when `ip` is an address of the server itself: the one it binds to,
/// or the one that its address pool is written with.
pub open spec fn is_server_address(config: ManagerView, ip: Address) -> bool {
    ip == config.endpoint.address || ip == config.ip_range.address
}

/// Why a client of the given name and address cannot join the registry, if
/// it cannot: the name is taken; or else the address lies outside the pool;
/// or else the address is the server's or a client's.
pub open spec fn refusal(
    config: ManagerView,
    roster: Seq<ClientView>,
    name: Seq<char>,
    ip: Address,
) -> Option<ManagerErrorView> {
    if has_name(roster, name) {
        Some(ManagerErrorView::ClientNameExistsError(name))
    } else if !config.ip_range.covers(ip) {
        Some(ManagerErrorView::AddressOutOfRangeError(ip))
    } else if is_server_address(config, ip) || has_address(roster, ip) {
        Some(ManagerErrorView::AddressInUseError(ip))
    } else {
        None
    }
}

/// Uniqueness of names. Whatever the address, a client whose name is in the
/// registry is refused for that reason.
pub proof fn lemma_taken_name_is_refused(
    config: ManagerView,
    roster: Seq<ClientView>,
    name: Seq<char>,
    ip: Address,
)
    requires
        has_name(roster, name),
    ensures
        refusal(config, roster, name, ip) == Some(ManagerErrorView::ClientNameExistsError(name)),
{
}

/// Validation of addresses. A client whose address lies outside the pool,
/// or is the server's own, or is that of a client in the registry, is
/// refused, whatever its name; under a new name the refusal says which of
/// these holds, the pool first.
pub proof fn lemma_bad_address_is_refused(
    config: ManagerView,
    roster: Seq<ClientView>,
    name: Seq<char>,
    ip: Address,
)
    requires
        !config.ip_range.covers(ip) || is_server_address(config, ip) || has_address(roster, ip),
    ensures
        refusal(config, roster, name, ip) is Some,
        !has_name(roster, name) && !config.ip_range.covers(ip) ==> refusal(
            config,
            roster,
            name,
            ip,
        ) == Some(ManagerErrorView::AddressOutOfRangeError(ip)),
        !has_name(roster, name) && config.ip_range.covers(ip) ==> refusal(
            config,
            roster,
            name,
            ip,
        ) == Some(ManagerErrorView::AddressInUseError(ip)),
{
}

impl Manager {
    /// The clients in the order in which the registry keeps them.
    pub closed spec fn roster(&self) -> Seq<ClientView> {
        client_views(self.clients@)
    }

    /// The invariant of a configuration: no two clients share a name, and
    /// the address pool is a well-formed range.
    pub open spec fn wf(&self) -> bool {
        &&& distinct_names(self.roster())
        &&& self@.ip_range.wf()
        &&& self@.clients == roster_map(self.roster())
    }

    /// A configuration without clients, for the interface `interface_name`
    /// with the given key pair.
    pub fn new(
        endpoint: Endpoint,
        ip_range: IpRange,
        interface_name: String,
        private_key: String,
        public_key: String,
    ) -> (manager: Manager)
        requires
            ip_range.wf(),
        ensures
            manager.wf(),
            manager.roster() == Seq::<ClientView>::empty(),
            manager@ == (ManagerView {
                interface_name: interface_name@,
                private_key: private_key@,
                public_key: public_key@,
                endpoint,
                ip_range,
                clients: Map::<Seq<char>, ClientView>::empty(),
                wg: "wg"@,
            }),
    {
        let manager = Manager {
            interface_name,
            private_key,
            public_key,
            endpoint,
            ip_range,
            clients: Vec::new(),
            wg: Wg::new(String::from_str("wg")),
        };
        assert(manager.roster() =~= Seq::<ClientView>::empty());
        assert(manager@.clients =~= Map::<Seq<char>, ClientView>::empty());
        manager
    }

    /// The position of the client called `name`, if there is one.
    fn find(&self, name: &String) -> (result: Option<usize>)
        ensures
            match result {
                Some(at) => at < self.roster().len() && self.roster()[at as int].name == name@,
                None => !has_name(self.roster(), name@),
            },
    {
        let mut i: usize = 0;
        while i < self.clients.len()
            invariant
                i <= self.clients.len(),
                forall|j: int| 0 <= j < i ==> (#[trigger] self.roster()[j]).name != name@,
            decreases self.clients.len() - i,
        {
            if self.clients[i].name == *name {
                assert(self.roster()[i as int].name == name@);
                return Some(i);
            }
            i = i + 1;
        }
        None
    }

    /// Tells whether some client has the address `ip`.
    fn holds_address(&self, ip: Address) -> (result: bool)
        ensures
            result == has_address(self.roster(), ip),
    {
        let mut i: usize = 0;
        while i < self.clients.len()
            invariant
                i <= self.clients.len(),
                forall|j: int| 0 <= j < i ==> (#[trigger] self.roster()[j]).ip != ip,
            decreases self.clients.len() - i,
        {
            if self.clients[i].ip == ip {
                assert(self.roster()[i as int].ip == ip);
                return true;
            }
            i = i + 1;
        }
        false
    }

    /// Tells whether a client of this name and address may join, and if not,
    /// why not. The registry is not changed.
    pub fn check_new_client(&self, name: &String, ip: Address) -> (result: Result<
        (),
        ManagerError,
    >)
        requires
            self.wf(),
        ensures
            match refusal(self@, self.roster(), name@, ip) {
                Some(error) => result is Err && result->Err_0@ == error,
                None => result is Ok,
            },
    {
        if self.find(name).is_some() {
            return Err(ManagerError::ClientNameExistsError(name.clone()));
        }
        if !self.ip_range.contains(ip) {
            return Err(ManagerError::AddressOutOfRangeError(ip));
        }
        if ip == self.endpoint.address || ip == self.ip_range.address || self.holds_address(ip) {
            return Err(ManagerError::AddressInUseError(ip));
        }
        Ok(())
    }

    /// Registers a client under `name` at `ip` with the key pair given, and
    /// hands out the client and its private key, which is kept nowhere. A
    /// client that may not join leaves the registry as it was.
    pub fn new_client(
        &mut self,
        name: String,
        ip: Address,
        private_key: String,
        public_key: String,
    ) -> (result: Result<(&Client, String), ManagerError>)
        requires
            old(self).wf(),
        ensures
            final(self).wf(),
            has_name(old(self).roster(), name@) ==> {
                &&& result is Err
                &&& result->Err_0@ == ManagerErrorView::ClientNameExistsError(name@)
                &&& final(self)@ == old(self)@
            },
            !old(self)@.ip_range.covers(ip) || is_server_address(old(self)@, ip) || has_address(
                old(self).roster(),
                ip,
            ) ==> result is Err && final(self)@ == old(self)@,
            match refusal(old(self)@, old(self).roster(), name@, ip) {
                Some(error) => {
                    &&& result is Err
                    &&& result->Err_0@ == error
                    &&& final(self)@ == old(self)@
                    &&& final(self).roster() == old(self).roster()
                },
                None => {
                    &&& result is Ok
                    &&& result->Ok_0.0@ == (ClientView { name: name@, public_key: public_key@, ip })
                    &&& result->Ok_0.1@ == private_key@
                    &&& final(self).roster() == old(self).roster().push(result->Ok_0.0@)
                    &&& final(self)@ == (ManagerView {
                        clients: old(self)@.clients.insert(name@, result->Ok_0.0@),
                        ..old(self)@
                    })
                },
            },
    {
        match self.check_new_client(&name, ip) {
            Err(error) => Err(error),
            Ok(()) => {
                let client = Client { name, public_key, ip };
                proof {
                    lemma_roster_push(self.roster(), client@);
                }
                self.clients.push(client);
                assert(self.roster() =~= old(self).roster().push(client@));
                let at: usize = self.clients.len() - 1;
                Ok((&self.clients[at], private_key))
            },
        }
    }

    /// Takes the client called `name` out of the registry; its address is
    /// free again. Without such a client the registry stays as it was.
    pub fn remove_client(&mut self, name: &String) -> (result: Result<(), ManagerError>)
        requires
            old(self).wf(),
        ensures
            final(self).wf(),
            !has_name(final(self).roster(), name@),
            if has_name(old(self).roster(), name@) {
                &&& result is Ok
                &&& final(self).roster() == old(self).roster().remove(
                    name_index(old(self).roster(), name@),
                )
                &&& final(self)@ == (ManagerView {
                    clients: old(self)@.clients.remove(name@),
                    ..old(self)@
                })
            } else {
                &&& result is Err
                &&& result->Err_0@ == ManagerErrorView::ClientNotFoundError(name@)
                &&& final(self)@ == old(self)@
                &&& final(self).roster() == old(self).roster()
            },
    {
        match self.find(name) {
            Some(at) => {
                proof {
                    let roster = self.roster();
                    let found = name_index(roster, name@);
                    if found < at {
                        assert(roster[found].name != roster[at as int].name);
                    } else if at < found {
                        assert(roster[at as int].name != roster[found].name);
                    }
                    lemma_roster_remove(roster, at as int);
                }
                self.clients.remove(at);
                assert(self.roster() =~= old(self).roster().remove(at as int));
                Ok(())
            },
            None => Err(ManagerError::ClientNotFoundError(name.clone())),
        }
    }

    /// The clients, in the order in which the registry keeps them. The order
    /// carries no meaning.
    pub fn clients(&self) -> (result: Vec<&Client>)
        ensures
            result.len() == self.roster().len(),
            forall|i: int| 0 <= i < result.len() ==> (#[trigger] result[i])@ == self.roster()[i],
    {
        let mut out: Vec<&Client> = Vec::new();
        let mut i: usize = 0;
        while i < self.clients.len()
            invariant
                i <= self.clients.len(),
                out.len() == i,
                forall|j: int| 0 <= j < i ==> (#[trigger] out[j])@ == self.roster()[j],
            decreases self.clients.len() - i,
        {
            out.push(&self.clients[i]);
            i = i + 1;
        }
        out
    }

    /// The endpoint that the server binds to.
    pub fn endpoint(&self) -> (endpoint: Endpoint)
        ensures
            endpoint == self@.endpoint,
    {
        self.endpoint
    }

    /// The address pool of the server.
    pub fn ip_range(&self) -> (range: IpRange)
        ensures
            range == self@.ip_range,
    {
        self.ip_range
    }

    /// The name of the interface.
    pub fn interface_name(&self) -> (name: &String)
        ensures
            name@ == self@.interface_name,
    {
        &self.interface_name
    }

    /// The private key of the server.
    pub fn private_key(&self) -> (key: &String)
        ensures
            key@ == self@.private_key,
    {
        &self.private_key
    }

    /// The public key of the server.
    pub fn public_key(&self) -> (key: &String)
        ensures
            key@ == self@.public_key,
    {
        &self.public_key
    }

    /// The handle to the `wg` program.
    pub fn wg(&self) -> (wg: &Wg)
        ensures
            wg@ == self@.wg,
    {
        &self.wg
    }
}

/// A configuration as it is stored: every field as the document holds it,
/// the address pool as CIDR text, the clients as a list.
#[derive(Clone, Debug, PartialEq, Eq)]
pub struct ConfigRecord {
    pub interface_name: String,
    pub private_key: String,
    pub public_key: String,
    pub endpoint: Endpoint,
    pub ip_range: String,
    pub clients: Vec<Client>,
    pub wg_binary_path: String,
}

/// The mathematical value of a stored configuration.
pub struct RecordView {
    pub interface_name: Seq<char>,
    pub private_key: Seq<char>,
    pub public_key: Seq<char>,
    pub endpoint: Endpoint,
    pub ip_range: Seq<char>,
    pub clients: Seq<ClientView>,
    pub wg_binary_path: Seq<char>,
}

impl View for ConfigRecord {
    type V = RecordView;

    open spec fn view(&self) -> RecordView {
        RecordView {
            interface_name: self.interface_name@,
            private_key: self.private_key@,
            public_key: self.public_key@,
            endpoint: self.endpoint,
            ip_range: self.ip_range@,
            clients: client_views(self.clients@),
            wg_binary_path: self.wg_binary_path@,
        }
    }
}

/// What loading a stored configuration gives: the configuration, or the
/// reason why the record holds none. A record holds none when its address
/// pool is no CIDR range, or else when two of its clients share a name.
pub open spec fn loaded(record: RecordView) -> Result<ManagerView, ManagerErrorView> {
    match parsed_range(record.ip_range) {
        None => Err(ManagerErrorView::SerializationError("invalid IP network syntax"@)),
        Some(range) => if !distinct_names(record.clients) {
            Err(ManagerErrorView::SerializationError("duplicate client name"@))
        } else {
            Ok(
                ManagerView {
                    interface_name: record.interface_name,
                    private_key: record.private_key,
                    public_key: record.public_key,
                    endpoint: record.endpoint,
                    ip_range: range,
                    clients: roster_map(record.clients),
                    wg: record.wg_binary_path,
                },
            )
        },
    }
}

/// What is stored for a configuration whose clients are kept in the order
/// `roster`.
pub open spec fn stored(config: ManagerView, roster: Seq<ClientView>) -> RecordView {
    RecordView {
        interface_name: config.interface_name,
        private_key: config.private_key,
        public_key: config.public_key,
        endpoint: config.endpoint,
        ip_range: range_text(config.ip_range),
        clients: roster,
        wg_binary_path: config.wg,
    }
}

/// A rearrangement of a roster without repeated names has no repeated names
/// and is the same mapping.
pub proof fn lemma_roster_rearranged(roster: Seq<ClientView>, other: Seq<ClientView>)
    requires
        distinct_names(roster),
        other.to_multiset() == roster.to_multiset(),
    ensures
        distinct_names(other),
        roster_map(other) == roster_map(roster),
{
    other.to_multiset_ensures();
    roster.to_multiset_ensures();
    assert forall|c: ClientView| other.contains(c) <==> roster.contains(c) by {
        assert(other.contains(c) <==> other.to_multiset().count(c) > 0);
        assert(roster.contains(c) <==> roster.to_multiset().count(c) > 0);
    }
    assert(roster.no_duplicates()) by {
        assert forall|i: int, j: int|
            0 <= i < roster.len() && 0 <= j < roster.len() && i != j implies roster[i]
            != roster[j] by {
            if i < j {
                assert(roster[i].name != roster[j].name);
            } else {
                assert(roster[j].name != roster[i].name);
            }
        }
    }
    roster.unique_seq_to_set();
    assert(other.to_set() =~= roster.to_set());
    other.lemma_no_dup_set_cardinality();
    assert forall|i: int, j: int| 0 <= i < j < other.len() implies (#[trigger] other[i]).name != (
    #[trigger] other[j]).name by {
        assert(other[i] != other[j]);
        assert(other.contains(other[i]) && other.contains(other[j]));
        let p = choose|p: int| 0 <= p < roster.len() && roster[p] == other[i];
        let q = choose|q: int| 0 <= q < roster.len() && roster[q] == other[j];
        if p < q {
            assert(roster[p].name != roster[q].name);
        } else {
            assert(roster[q].name != roster[p].name);
        }
    }
    assert forall|name: Seq<char>| has_name(other, name) <==> has_name(roster, name) by {
        if has_name(other, name) {
            let i = name_index(other, name);
            assert(other.contains(other[i]));
            let p = choose|p: int| 0 <= p < roster.len() && roster[p] == other[i];
            assert(roster[p].name == name);
        }
        if has_name(roster, name) {
            let p = name_index(roster, name);
            assert(roster.contains(roster[p]));
            let i = choose|i: int| 0 <= i < other.len() && other[i] == roster[p];
            assert(other[i].name == name);
        }
    }
    assert forall|name: Seq<char>| has_name(other, name) implies #[trigger] roster_map(other)[name]
        == roster_map(roster)[name] by {
        let i = name_index(other, name);
        assert(other.contains(other[i]));
        let p = choose|p: int| 0 <= p < roster.len() && roster[p] == other[i];
        lemma_roster_map_at(roster, p);
    }
    assert(roster_map(other) =~= roster_map(roster));
}

/// The order in which a record lists the clients does not matter: two
/// records that differ in that order alone load as the same configuration,
/// or both as none.
pub proof fn lemma_load_ignores_order(record: RecordView, other: RecordView)
    requires
        other.clients.to_multiset() == record.clients.to_multiset(),
        other == (RecordView { clients: other.clients, ..record }),
    ensures
        loaded(other) == loaded(record),
{
    if distinct_names(record.clients) {
        lemma_roster_rearranged(record.clients, other.clients);
    } else if distinct_names(other.clients) {
        lemma_roster_rearranged(other.clients, record.clients);
    }
}

/// Round trip. What is stored for a well-formed configuration loads as that
/// configuration, in whatever order the record lists the clients, provided
/// that the text of the address pool reads back as the pool.
pub proof fn lemma_stored_loads_back(
    config: ManagerView,
    roster: Seq<ClientView>,
    record: RecordView,
)
    requires
        distinct_names(roster),
        config.clients == roster_map(roster),
        parsed_range(range_text(config.ip_range)) == Some(config.ip_range),
        record.clients.to_multiset() == roster.to_multiset(),
        record == (RecordView { clients: record.clients, ..stored(config, roster) }),
    ensures
        loaded(record) == Ok::<ManagerView, ManagerErrorView>(config),
{
    lemma_load_ignores_order(stored(config, roster), record);
}

/// Tells whether no two of the clients share a name.
fn names_are_distinct(clients: &Vec<Client>) -> (result: bool)
    ensures
        result == distinct_names(client_views(clients@)),
{
    let ghost roster = client_views(clients@);
    let mut j: usize = 0;
    while j < clients.len()
        invariant
            j <= clients.len(),
            roster == client_views(clients@),
            forall|a: int, b: int|
                0 <= a < b < j ==> (#[trigger] roster[a]).name != (#[trigger] roster[b]).name,
        decreases clients.len() - j,
    {
        let mut i: usize = 0;
        while i < j
            invariant
                i <= j < clients.len(),
                roster == client_views(clients@),
                forall|a: int| 0 <= a < i ==> (#[trigger] roster[a]).name != roster[j as int].name,
            decreases j - i,
        {
            if clients[i].name == clients[j].name {
                assert(roster[i as int].name == roster[j as int].name);
                return false;
            }
            i = i + 1;
        }
        j = j + 1;
    }
    true
}

/// The peer that a client is on the interface: its public key, allowed the
/// one address that it has.
pub open spec fn client_peer(client: ClientView) -> PeerView {
    PeerView {
        public_key: client.public_key,
        allowed_ips: seq![(IpRange { address: client.ip, prefix_len: 32 })],
    }
}

/// The peers that a roster asks for. Should two clients hold the same key,
/// the later one decides the ranges of that key.
pub open spec fn desired_peers(roster: Seq<ClientView>) -> Seq<PeerView>
    decreases roster.len(),
{
    if roster.len() == 0 {
        Seq::<PeerView>::empty()
    } else {
        with_peer(desired_peers(roster.drop_last()), client_peer(roster.last()))
    }
}

/// The table that lists a roster: the headings, then name and public key of
/// each client.
pub open spec fn listing(roster: Seq<ClientView>) -> Seq<Seq<Seq<char>>> {
    seq![seq!["Name"@, "Pubkey"@]] + roster.map_values(
        |client: ClientView| seq![client.name, client.public_key],
    )
}

/// The state of the interface that a configuration asks for: its private
/// key, the port of its endpoint, and its clients as peers.
pub open spec fn desired_state(config: ManagerView, roster: Seq<ClientView>) -> StateView {
    StateView {
        private_key: config.private_key,
        listen_port: config.endpoint.port,
        peers: desired_peers(roster),
    }
}

impl Manager {
    /// Builds the configuration that a stored record holds.
    pub fn from_config(record: ConfigRecord) -> (result: Result<Manager, ManagerError>)
        ensures
            match loaded(record@) {
                Ok(config) => {
                    &&& result is Ok
                    &&& result->Ok_0@ == config
                    &&& result->Ok_0.roster() == record@.clients
                    &&& result->Ok_0.wf()
                },
                Err(error) => result is Err && result->Err_0@ == error,
            },
    {
        let ConfigRecord {
            interface_name,
            private_key,
            public_key,
            endpoint,
            ip_range,
            clients,
            wg_binary_path,
        } = record;
        let range = match IpRange::parse(ip_range.as_str()) {
            Ok(range) => range,
            Err(_) => {
                return Err(
                    ManagerError::SerializationError(String::from_str("invalid IP network syntax")),
                );
            },
        };
        if !names_are_distinct(&clients) {
            return Err(
                ManagerError::SerializationError(String::from_str("duplicate client name")),
            );
        }
        Ok(
            Manager {
                interface_name,
                private_key,
                public_key,
                endpoint,
                ip_range: range,
                clients,
                wg: Wg::new(wg_binary_path),
            },
        )
    }

    /// The record to store for the configuration. Loading the record gives
    /// the configuration back, field for field.
    pub fn save_config(self) -> (record: ConfigRecord)
        requires
            self.wf(),
        ensures
            record@ == stored(self@, self.roster()),
            loaded(record@) == Ok::<ManagerView, ManagerErrorView>(self@),
    {
        let Manager { interface_name, private_key, public_key, endpoint, ip_range, clients, wg } =
            self;
        ConfigRecord {
            interface_name,
            private_key,
            public_key,
            endpoint,
            ip_range: ip_range.to_text(),
            clients,
            wg_binary_path: wg.binary_path().clone(),
        }
    }

    /// The state of the interface that the configuration asks for.
    pub fn desired(&self) -> (state: InterfaceState)
        ensures
            state@ == desired_state(self@, self.roster()),
            state.wf(),
            peers_have_ranges(state@.peers),
    {
        let mut peers = PeerTable::new();
        let mut i: usize = 0;
        let ghost roster = self.roster();
        assert(roster.take(0) =~= Seq::<ClientView>::empty());
        while i < self.clients.len()
            invariant
                i <= self.clients.len(),
                roster == self.roster(),
                peers.wf(),
                peers@ == desired_peers(roster.take(i as int)),
                peers_have_ranges(peers@),
            decreases self.clients.len() - i,
        {
            let client = &self.clients[i];
            let mut allowed_ips: Vec<IpRange> = Vec::new();
            allowed_ips.push(IpRange::host(client.ip));
            let peer = Peer { public_key: client.public_key.clone(), allowed_ips };
            proof {
                assert(roster.take(i + 1).drop_last() =~= roster.take(i as int));
                assert(roster.take(i + 1).last() == client@);
                assert(peer@.allowed_ips =~= client_peer(client@).allowed_ips);
                lemma_with_peer_ranges(peers@, peer@);
            }
            peers.insert(peer);
            i = i + 1;
        }
        assert(roster.take(self.clients.len() as int) =~= roster);
        InterfaceState {
            private_key: self.private_key.clone(),
            listen_port: self.endpoint.port,
            peers,
        }
    }

    /// Computes the calls that bring the interface, seen in the state
    /// `observed`, in line with the configuration: its private key and port
    /// first, then the peers to remove, to add and to update. The
    /// configuration decides; nothing is read back from the interface into it.
    pub fn commit(&self, observed: &InterfaceState) -> (actions: Vec<Action>)
        ensures
            action_views(actions@) == steps(desired_state(self@, self.roster()), observed@),
            forall|i: int|
                0 <= i < actions.len() ==> ranges_wf(action_ranges((#[trigger] actions[i])@)),
    {
        let want = self.desired();
        let actions = reconcile(&want, observed);
        proof {
            lemma_steps_hand_on_wanted_ranges(want@, observed@);
            assert forall|i: int| 0 <= i < actions.len() implies ranges_wf(
                action_ranges((#[trigger] actions[i])@),
            ) by {
                assert(action_views(actions@)[i] == actions[i]@);
            }
        }
        actions
    }

    /// The rows of the list of clients as it is shown to the operator: the
    /// headings, then one row for each client with its name and public key.
    pub fn client_rows(&self) -> (rows: Vec<Vec<&str>>)
        ensures
            cells_of(rows@) == listing(self.roster()),
    {
        let mut rows: Vec<Vec<&str>> = Vec::new();
        let mut headings: Vec<&str> = Vec::new();
        headings.push("Name");
        headings.push("Pubkey");
        rows.push(headings);
        let ghost roster = self.roster();
        assert(cells_of(rows@) =~= seq![seq!["Name"@, "Pubkey"@]]) by {
            assert(cells_of(rows@)[0] =~= seq!["Name"@, "Pubkey"@]);
        }
        assert(roster.take(0).map_values(|client: ClientView| seq![client.name, client.public_key])
            =~= Seq::<Seq<Seq<char>>>::empty());
        let mut i: usize = 0;
        while i < self.clients.len()
            invariant
                i <= self.clients.len(),
                roster == self.roster(),
                cells_of(rows@) == listing(roster.take(i as int)),
            decreases self.clients.len() - i,
        {
            let client = &self.clients[i];
            let mut row: Vec<&str> = Vec::new();
            row.push(client.name.as_str());
            row.push(client.public_key.as_str());
            let ghost before = rows@;
            rows.push(row);
            proof {
                let cells = seq![client@.name, client@.public_key];
                assert(cells_of(rows@)[rows.len() - 1] =~= cells);
                assert(cells_of(rows@) =~= cells_of(before).push(cells));
                assert(roster.take(i + 1) =~= roster.take(i as int).push(client@));
                assert(listing(roster.take(i + 1)) =~= listing(roster.take(i as int)).push(cells));
            }
            i = i + 1;
        }
        assert(roster.take(self.clients.len() as int) =~= roster);
        rows
    }
}

} // verus!
