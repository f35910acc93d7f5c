//! Round-robin scheduling of remote provers: a public cluster shared by all
//! callers and clusters owned by individual owners.

use vstd::prelude::*;

verus! {

/// A remote prover, reached at `addr`.
#[derive(Debug, PartialEq, Eq)]
pub struct Client {
    /// The address of the prover.
    pub addr: String,
}

impl Clone for Client {
    fn clone(&self) -> (r: Self)
        ensures
            r == *self,
    {
        Client { addr: self.addr.clone() }
    }
}

impl Client {
    /// A client of the prover at `addr`.
    pub fn new(addr: &str) -> (c: Self)
        ensures
            c.addr@ == addr@,
    {
        Client { addr: addr.to_owned() }
    }

    /// The address of the prover.
    pub fn address(&self) -> (a: &str)
        ensures
            a@ == self.addr@,
    {
        self.addr.as_str()
    }
}

/// The addresses of a list of clients.
pub open spec fn addresses(clients: Seq<Client>) -> Seq<Seq<char>> {
    clients.map_values(|c: Client| c.addr@)
}

/// The views of a list of strings.
pub open spec fn strings_view(v: Seq<String>) -> Seq<Seq<char>> {
    v.map_values(|s: String| s@)
}

/// The first position in `clients` of a client at `addr`, if any.
pub open spec fn first_at(clients: Seq<Client>, addr: Seq<char>) -> Option<int>
    decreases clients.len(),
{
    if clients.len() == 0 {
        None
    } else if clients[0].addr@ == addr {
        Some(0)
    } else {
        match first_at(clients.drop_first(), addr) {
            Some(i) => Some(i + 1),
            None => None,
        }
    }
}

/// A list of provers served in turn.
#[derive(Debug)]
pub struct Cluster {
    clients: Vec<Client>,
    next: usize,
}

impl Clone for Cluster {
    fn clone(&self) -> (r: Self)
        ensures
            r.members() == self.members(),
            r.cursor() == self.cursor(),
    {
        let mut clients: Vec<Client> = Vec::new();
        let mut i: usize = 0;
        while i < self.clients.len()
            invariant
                i <= self.clients@.len(),
                clients@ == self.clients@.subrange(0, i as int),
            decreases self.clients@.len() - i,
        {
            clients.push(self.clients[i].clone());
            i = i + 1;
            assert(clients@ =~= self.clients@.subrange(0, i as int));
        }
        assert(clients@ =~= self.clients@);
        Cluster { clients, next: self.next }
    }
}

impl Default for Cluster {
    fn default() -> (c: Self)
        ensures
            c.members() == Seq::<Client>::empty(),
            c.cursor() == 0,
    {
        Cluster { clients: Vec::new(), next: 0 }
    }
}

/// The position that `rotate` serves from a cursor over `len` clients.
pub open spec fn served_index(cursor: nat, len: nat) -> nat {
    if cursor >= len {
        0
    } else {
        cursor
    }
}

/// What `rotate` does to a cluster with these members and cursor: the cluster
/// after the call (members, cursor) and the client it serves.
pub open spec fn rotation(members: Seq<Client>, cursor: nat) -> (nat, Option<Client>) {
    let i = served_index(cursor, members.len());
    (i + 1, if i < members.len() { Some(members[i as int]) } else { None })
}

impl Cluster {
    /// The clients of the cluster, in order.
    pub closed spec fn members(&self) -> Seq<Client> {
        self.clients@
    }

    /// The position of the next client to serve.
    pub closed spec fn cursor(&self) -> nat {
        self.next as nat
    }

    /// The clients of the cluster.
    pub fn clients(&self) -> (r: &Vec<Client>)
        ensures
            r@ == self.members(),
    {
        &self.clients
    }

    /// Appends a client of the prover at `client`.
    pub fn push(&mut self, client: &str)
        ensures
            final(self).members().len() == old(self).members().len() + 1,
            final(self).members().subrange(0, old(self).members().len() as int) == old(self).members(),
            final(self).members().last().addr@ == client@,
            final(self).cursor() == old(self).cursor(),
    {
        let client = Client::new(client);
        self.clients.push(client);
    }

    /// Removes and returns the first client, if any.
    pub fn pop(&mut self) -> (r: Option<Client>)
        ensures
            old(self).members().len() == 0 ==> r is None && final(self).members() == old(self).members(),
            old(self).members().len() > 0 ==> r == Some(old(self).members()[0])
                && final(self).members() == old(self).members().drop_first(),
            final(self).cursor() == old(self).cursor(),
    {
        if self.clients.len() > 0 {
            let c = self.clients.remove(0);
            assert(self.clients@ =~= old(self).clients@.drop_first());
            Some(c)
        } else {
            None
        }
    }

    /// Removes and returns the first client at `address`, if any.
    pub fn remove(&mut self, address: &str) -> (r: Option<Client>)
        ensures
            final(self).cursor() == old(self).cursor(),
            match first_at(old(self).members(), address@) {
                Some(i) => r == Some(old(self).members()[i]) && final(self).members()
                    == old(self).members().remove(i),
                None => r is None && final(self).members() == old(self).members(),
            },
    {
        let target = address.to_owned();
        let mut i: usize = 0;
        while i < self.clients.len()
            invariant
                i <= self.clients@.len(),
                self.clients@ == old(self).clients@,
                self.next == old(self).next,
                target@ == address@,
                forall|j: int| 0 <= j < i ==> self.clients@[j].addr@ != address@,
            decreases self.clients@.len() - i,
        {
            if self.clients[i].addr == target {
                proof {
                    lemma_first_at_is(self.clients@, address@, i as int);
                }
                let c = self.clients.remove(i);
                return Some(c);
            }
            i = i + 1;
        }
        proof {
            lemma_first_at_none(self.clients@, address@);
        }
        None
    }

    /// Serves the next client in turn, wrapping around to the first one, and
    /// moves the cursor past it; `None` when the cluster is empty.
    pub fn rotate(&mut self) -> (r: Option<Client>)
        ensures
            final(self).members() == old(self).members(),
            (final(self).cursor(), r) == rotation(old(self).members(), old(self).cursor()),
    {
        if self.next >= self.clients.len() {
            self.next = 0;
        }
        let client = if self.next < self.clients.len() {
            Some(self.clients[self.next].clone())
        } else {
            None
        };
        self.next = self.next + 1;
        client
    }
}

/// The clients that `k` successive calls of `rotate` serve, from a cluster
/// with these members and cursor.
pub open spec fn served(members: Seq<Client>, cursor: nat, k: nat) -> Seq<Option<Client>>
    decreases k,
{
    if k == 0 {
        Seq::empty()
    } else {
        let (c, r) = rotation(members, cursor);
        seq![r] + served(members, c, (k - 1) as nat)
    }
}

/// Rotation is round-robin: on a cluster of `n > 0` clients, the `j`-th of
/// successive calls of `rotate` serves the client `j` places after the one
/// that the first call serves, wrapping around; so `n` successive calls
/// serve every client once.
pub proof fn lemma_rotate_round_robin(members: Seq<Client>, cursor: nat, k: nat)
    requires
        members.len() > 0,
    ensures
        served(members, cursor, k).len() == k,
        forall|j: int|
            0 <= j < k ==> #[trigger] served(members, cursor, k)[j] == Some(
                members[(served_index(cursor, members.len()) + j) % (members.len() as int)],
            ),
    decreases k,
{
    let n = members.len() as int;
    let i0 = served_index(cursor, members.len()) as int;
    if k > 0 {
        let c1 = (i0 + 1) as nat;
        lemma_rotate_round_robin(members, c1, (k - 1) as nat);
        let rest = served(members, c1, (k - 1) as nat);
        let i1 = served_index(c1, members.len()) as int;
        assert forall|j: int| 0 <= j < k implies #[trigger] served(members, cursor, k)[j] == Some(
            members[(i0 + j) % n],
        ) by {
            if j == 0 {
                assert(i0 % n == i0) by (nonlinear_arith)
                    requires
                        0 <= i0 < n,
                ;
            } else {
                assert(served(members, cursor, k)[j] == rest[j - 1]);
                if i0 + 1 < n {
                    assert(i1 == i0 + 1);
                } else {
                    assert(i1 == 0);
                    vstd::arithmetic::div_mod::lemma_mod_add_multiples_vanish(j - 1, n);
                }
            }
        }
    }
}

/// A prover that `push` added can be removed again: once the addresses of a
/// cluster's clients are those of an earlier list with `addr` appended,
/// `first_at` finds a client at `addr`, so `remove(addr)` returns one.
pub proof fn lemma_pushed_prover_removable(members: Seq<Client>, before: Seq<Client>, addr: Seq<char>)
    requires
        addresses(members) == addresses(before).push(addr),
    ensures
        first_at(members, addr) is Some,
{
    let n = before.len() as int;
    assert(addresses(members).len() == members.len());
    assert(addresses(members)[n] == addr);
    assert(members[n].addr@ == addresses(members)[n]);
    lemma_first_at_some(members, addr, n);
}

/// `first_at` finds some position when a client is at `addr`.
proof fn lemma_first_at_some(clients: Seq<Client>, addr: Seq<char>, j: int)
    requires
        0 <= j < clients.len(),
        clients[j].addr@ == addr,
    ensures
        first_at(clients, addr) is Some,
    decreases j,
{
    if j > 0 && clients[0].addr@ != addr {
        assert(clients.drop_first()[j - 1] == clients[j]);
        lemma_first_at_some(clients.drop_first(), addr, j - 1);
    }
}

/// `first_at` finds a position `i` when no earlier client is at `addr`.
proof fn lemma_first_at_is(clients: Seq<Client>, addr: Seq<char>, i: int)
    requires
        0 <= i < clients.len(),
        clients[i].addr@ == addr,
        forall|j: int| 0 <= j < i ==> clients[j].addr@ != addr,
    ensures
        first_at(clients, addr) == Some(i),
    decreases i,
{
    if i > 0 {
        let rest = clients.drop_first();
        assert forall|j: int| 0 <= j < i - 1 implies rest[j].addr@ != addr by {
            assert(rest[j] == clients[j + 1]);
        }
        lemma_first_at_is(rest, addr, i - 1);
    }
}

/// `first_at` finds nothing when no client is at `addr`.
proof fn lemma_first_at_none(clients: Seq<Client>, addr: Seq<char>)
    requires
        forall|j: int| 0 <= j < clients.len() ==> clients[j].addr@ != addr,
    ensures
        first_at(clients, addr) is None,
    decreases clients.len(),
{
    if clients.len() > 0 {
        let rest = clients.drop_first();
        assert forall|j: int| 0 <= j < rest.len() implies rest[j].addr@ != addr by {
            assert(rest[j] == clients[j + 1]);
        }
        lemma_first_at_none(rest, addr);
    }
}

/// The provers of each owner, by owner.
///
/// Backed by a `hashbrown::HashMap`; its contents are `owned_clusters(self)`.
#[verifier::external_body]
pub struct OwnedClusters {
    map: hashbrown::HashMap<Vec<u8>, Cluster>,
}

/// The clusters that an `OwnedClusters` holds, by owner.
pub uninterp spec fn owned_clusters(m: OwnedClusters) -> Map<Seq<u8>, Cluster>;

impl OwnedClusters {
    /// Calls `hashbrown::HashMap::new`, which makes an empty map.
    #[verifier::external_body]
    fn new() -> (r: OwnedClusters)
        ensures
            owned_clusters(r).dom() == Set::<Seq<u8>>::empty(),
    {
        OwnedClusters { map: hashbrown::HashMap::new() }
    }

    /// Calls `hashbrown::HashMap::get`: the cluster of `owner`, if it has one.
    #[verifier::external_body]
    fn get(&self, owner: &[u8]) -> (r: Option<&Cluster>)
        ensures
            r is Some <==> owned_clusters(*self).contains_key(owner@),
            r matches Some(c) ==> *c == owned_clusters(*self)[owner@],
    {
        self.map.get(owner)
    }

    /// Calls `hashbrown::HashMap::remove`: takes out the cluster of `owner`.
    #[verifier::external_body]
    fn remove(&mut self, owner: &[u8]) -> (r: Option<Cluster>)
        ensures
            owned_clusters(*final(self)) == owned_clusters(*old(self)).remove(owner@),
            r is Some <==> owned_clusters(*old(self)).contains_key(owner@),
            r matches Some(c) ==> c == owned_clusters(*old(self))[owner@],
    {
        self.map.remove(owner)
    }

    /// Calls `hashbrown::HashMap::insert`: `owner` gets the cluster `c`.
    #[verifier::external_body]
    fn insert(&mut self, owner: Vec<u8>, c: Cluster)
        ensures
            owned_clusters(*final(self)) == owned_clusters(*old(self)).insert(owner@, c),
    {
        self.map.insert(owner, c);
    }
}

/// The addresses of a list of clients, as strings.
fn client_addresses(clients: &Vec<Client>) -> (r: Vec<String>)
    ensures
        strings_view(r@) == addresses(clients@),
{
    let mut r: Vec<String> = Vec::new();
    let mut i: usize = 0;
    while i < clients.len()
        invariant
            i <= clients@.len(),
            r@.len() == i,
            strings_view(r@) == addresses(clients@.subrange(0, i as int)),
        decreases clients@.len() - i,
    {
        let a = clients[i].addr.clone();
        let ghost prev = r@;
        r.push(a);
        i = i + 1;
        proof {
            let sub = clients@.subrange(0, i as int);
            assert forall|j: int| 0 <= j < i implies #[trigger] strings_view(r@)[j] == addresses(sub)[j] by {
                if j < i - 1 {
                    assert(r@[j] == prev[j]);
                    assert(strings_view(prev)[j] == addresses(clients@.subrange(0, i - 1))[j]);
                }
            }
            assert(strings_view(r@) =~= addresses(sub));
        }
    }
    assert(clients@.subrange(0, clients@.len() as int) =~= clients@);
    r
}

/// The view of an optional owner.
pub open spec fn owner_view(owner: Option<&[u8]>) -> Option<Seq<u8>> {
    match owner {
        Some(o) => Some(o@),
        None => None,
    }
}

/// The provers allocated to a caller.
#[derive(Debug, PartialEq, Eq)]
pub struct AllocatedProvers {
    /// Addresses of the public provers.
    pub public: Vec<String>,
    /// Addresses of the caller's own provers.
    pub owned: Vec<String>,
}

/// Why no prover could be picked.
#[derive(Debug, Clone, Copy, PartialEq, Eq)]
pub enum SchedulerError {
    /// Neither an owned nor a public prover is available.
    NoPublicClient,
}

impl SchedulerError {
    /// The message of the error.
    pub fn message(&self) -> (s: String)
        ensures
            s@ == "no available public client"@,
    {
        match self {
            SchedulerError::NoPublicClient => String::from_str("no available public client"),
        }
    }
}

/// Picks provers for requests: from the caller's own cluster when it has an
/// available one, otherwise from the public cluster.
pub struct ProverScheduler {
    public: Cluster,
    owned: OwnedClusters,
}

impl Default for ProverScheduler {
    fn default() -> (s: Self)
        ensures
            s.public_cluster().members() == Seq::<Client>::empty(),
            s.public_cluster().cursor() == 0,
            s.owned_map().dom() == Set::<Seq<u8>>::empty(),
    {
        ProverScheduler { public: Cluster::default(), owned: OwnedClusters::new() }
    }
}

impl ProverScheduler {
    /// The public cluster.
    pub closed spec fn public_cluster(&self) -> Cluster {
        self.public
    }

    /// The owned clusters, by owner.
    pub closed spec fn owned_map(&self) -> Map<Seq<u8>, Cluster> {
        owned_clusters(self.owned)
    }

    /// What rotating the cluster of `owner` gives, when it has one: the new
    /// cursor and the served client.
    pub open spec fn owned_rotation(&self, owner: Option<Seq<u8>>) -> Option<(nat, Option<Client>)> {
        match owner {
            Some(o) => if self.owned_map().contains_key(o) {
                Some(rotation(self.owned_map()[o].members(), self.owned_map()[o].cursor()))
            } else {
                None
            },
            None => None,
        }
    }

    /// `self` is `before` with the cluster of `o` moved to cursor `cursor`.
    pub open spec fn owned_cursor_moved(&self, before: &Self, o: Seq<u8>, cursor: nat) -> bool {
        &&& self.owned_map().contains_key(o)
        &&& self.owned_map()[o].members() == before.owned_map()[o].members()
        &&& self.owned_map()[o].cursor() == cursor
        &&& self.owned_map().remove(o) == before.owned_map().remove(o)
    }

    /// Picks the prover for a request of `owner`: the next one of the owner's
    /// cluster when it has one, otherwise the next public one.
    ///
    /// The owner's cluster is rotated whenever it exists, the public one only
    /// when the owner's cluster served nothing.
    pub fn get_client(&mut self, owner: Option<&[u8]>) -> (r: Result<Client, SchedulerError>)
        ensures
            match old(self).owned_rotation(owner_view(owner)) {
                Some(rot) => final(self).owned_cursor_moved(old(self), owner_view(owner)->0, rot.0),
                None => final(self).owned_map() == old(self).owned_map(),
            },
            match old(self).owned_rotation(owner_view(owner)) {
                Some((_, Some(c))) => r == Ok::<Client, SchedulerError>(c)
                    && final(self).public_cluster() == old(self).public_cluster(),
                _ => {
                    let rot = rotation(
                        old(self).public_cluster().members(),
                        old(self).public_cluster().cursor(),
                    );
                    &&& final(self).public_cluster().members() == old(self).public_cluster().members()
                    &&& final(self).public_cluster().cursor() == rot.0
                    &&& r == match rot.1 {
                        Some(c) => Ok::<Client, SchedulerError>(c),
                        None => Err(SchedulerError::NoPublicClient),
                    }
                },
            },
    {
        if let Some(o) = owner {
            if let Some(mut c) = self.owned.remove(o) {
                let served = c.rotate();
                let key = crate::backend::copy_bytes(o);
                self.owned.insert(key, c);
                proof {
                    assert(self.owned_map().remove(o@) =~= old(self).owned_map().remove(o@));
                }
                if let Some(client) = served {
                    return Ok(client);
                }
            }
        }
        match self.public.rotate() {
            Some(c) => Ok(c),
            None => Err(SchedulerError::NoPublicClient),
        }
    }

    /// The provers allocated to `owner`: the public ones and, when it has a
    /// cluster, its own.
    pub fn allocated(&self, owner: Option<&[u8]>) -> (r: AllocatedProvers)
        ensures
            strings_view(r.public@) == addresses(self.public_cluster().members()),
            match owner {
                Some(o) if self.owned_map().contains_key(o@) => strings_view(r.owned@) == addresses(
                    self.owned_map()[o@].members(),
                ),
                _ => r.owned@.len() == 0,
            },
    {
        let public = client_addresses(self.public.clients());
        let owned = match owner {
            Some(o) => match self.owned.get(o) {
                Some(c) => client_addresses(c.clients()),
                None => Vec::new(),
            },
            None => Vec::new(),
        };
        AllocatedProvers { public, owned }
    }

    /// Adds the prover at `addr` to the cluster of `owner`, creating that
    /// cluster if needed, or to the public cluster.
    pub fn push(&mut self, owner: Option<&[u8]>, addr: &str)
        ensures
            match owner {
                Some(o) => {
                    let before = if old(self).owned_map().contains_key(o@) {
                        old(self).owned_map()[o@].members()
                    } else {
                        Seq::<Client>::empty()
                    };
                    &&& final(self).owned_map().contains_key(o@)
                    &&& addresses(final(self).owned_map()[o@].members()) == addresses(before).push(addr@)
                    &&& final(self).owned_map().remove(o@) == old(self).owned_map().remove(o@)
                    &&& final(self).public_cluster() == old(self).public_cluster()
                },
                None => {
                    &&& addresses(final(self).public_cluster().members()) == addresses(
                        old(self).public_cluster().members(),
                    ).push(addr@)
                    &&& final(self).owned_map() == old(self).owned_map()
                },
            },
    {
        match owner {
            Some(o) => {
                let mut c = match self.owned.remove(o) {
                    Some(c) => c,
                    None => Cluster::default(),
                };
                let ghost before = c.members();
                c.push(addr);
                proof {
                    let after = c.members();
                    assert(addresses(after) =~= addresses(before).push(addr@)) by {
                        assert forall|i: int| 0 <= i < before.len() implies after[i] == before[i] by {
                            assert(after.subrange(0, before.len() as int)[i] == after[i]);
                        }
                    }
                }
                let key = crate::backend::copy_bytes(o);
                self.owned.insert(key, c);
                proof {
                    assert(self.owned_map().remove(o@) =~= old(self).owned_map().remove(o@));
                }
            },
            None => {
                let ghost before = self.public.members();
                self.public.push(addr);
                proof {
                    let after = self.public.members();
                    assert(addresses(after) =~= addresses(before).push(addr@)) by {
                        assert forall|i: int| 0 <= i < before.len() implies after[i] == before[i] by {
                            assert(after.subrange(0, before.len() as int)[i] == after[i]);
                        }
                    }
                }
            },
        }
    }

    /// Removes the first prover at `addr` from the cluster of `owner`, or from
    /// the public cluster, returning its address.
    pub fn remove(&mut self, owner: Option<&[u8]>, addr: &str) -> (r: Option<String>)
        ensures
            match owner {
                Some(o) => if old(self).owned_map().contains_key(o@) {
                    let c = old(self).owned_map()[o@];
                    &&& final(self).owned_map().contains_key(o@)
                    &&& final(self).owned_map().remove(o@) == old(self).owned_map().remove(o@)
                    &&& final(self).owned_map()[o@].cursor() == c.cursor()
                    &&& match first_at(c.members(), addr@) {
                        Some(i) => r matches Some(s) && s@ == addr@
                            && final(self).owned_map()[o@].members() == c.members().remove(i),
                        None => r is None && final(self).owned_map()[o@].members() == c.members(),
                    }
                    &&& final(self).public_cluster() == old(self).public_cluster()
                } else {
                    r is None && final(self).owned_map() == old(self).owned_map()
                        && final(self).public_cluster() == old(self).public_cluster()
                },
                None => {
                    let c = old(self).public_cluster();
                    &&& final(self).owned_map() == old(self).owned_map()
                    &&& final(self).public_cluster().cursor() == c.cursor()
                    &&& match first_at(c.members(), addr@) {
                        Some(i) => r matches Some(s) && s@ == addr@
                            && final(self).public_cluster().members() == c.members().remove(i),
                        None => r is None && final(self).public_cluster().members() == c.members(),
                    }
                },
            },
    {
        match owner {
            Some(o) => match self.owned.remove(o) {
                Some(mut c) => {
                    let removed = c.remove(addr);
                    proof {
                        lemma_first_at_addr(old(self).owned_map()[o@].members(), addr@);
                    }
                    let key = crate::backend::copy_bytes(o);
                    self.owned.insert(key, c);
                    proof {
                        assert(self.owned_map().remove(o@) =~= old(self).owned_map().remove(o@));
                    }
                    match removed {
                        Some(client) => Some(client.addr),
                        None => None,
                    }
                },
                None => None,
            },
            None => {
                let removed = self.public.remove(addr);
                proof {
                    lemma_first_at_addr(old(self).public_cluster().members(), addr@);
                }
                match removed {
                    Some(client) => Some(client.addr),
                    None => None,
                }
            },
        }
    }
}

/// The position that `first_at` finds holds a client at `addr`.
proof fn lemma_first_at_addr(clients: Seq<Client>, addr: Seq<char>)
    ensures
        first_at(clients, addr) matches Some(i) ==> 0 <= i < clients.len() && clients[i].addr@ == addr,
    decreases clients.len(),
{
    if clients.len() > 0 {
        lemma_first_at_addr(clients.drop_first(), addr);
    }
}

} // verus!
