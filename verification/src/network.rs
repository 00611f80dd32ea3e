use vstd::prelude::*;

verus! {

/// The network address of a peer, as the plain values that decide whether two
/// addresses are the same: the IP version, the address bits, the port and,
/// for IPv6, the flow label and scope id.
#[allow(inconsistent_fields)]
#[derive(Debug, Clone, Copy, PartialEq, Eq, Structural)]
pub enum PeerAddr {
    V4 { ip: u32, port: u16 },
    V6 { ip: u128, port: u16, flowinfo: u32, scope_id: u32 },
}

/// A client known to the server: the id it was given when its first message
/// arrived, and the address it sends from.
#[derive(Debug, Clone, Copy, PartialEq, Eq, Structural)]
pub struct Client {
    pub id: usize,
    pub socker_addr: PeerAddr,
}

/// Something that consumes messages of type `T`.
pub trait MessageHandler<T> {
    fn handle(message: T);
}

/// The server's table of clients. A client is created the first time a
/// message arrives from a new address; ids are given in order of arrival,
/// starting from zero, and an address keeps its client for good.
pub struct ClientRegistry {
    clients: Vec<Client>,
    next_available_id: usize,
}

/// No address occurs twice.
pub open spec fn all_distinct(addrs: Seq<PeerAddr>) -> bool {
    forall|i: int, j: int| 0 <= i < j < addrs.len() ==> addrs[i] != addrs[j]
}

/// What registering `addr` does to the registered addresses `addrs`, and the
/// id the client for `addr` ends up with: a known address keeps its position,
/// a new one is appended and gets the next id.
pub open spec fn registered(addrs: Seq<PeerAddr>, addr: PeerAddr) -> (Seq<PeerAddr>, int) {
    if addrs.contains(addr) {
        (addrs, addrs.index_of(addr))
    } else {
        (addrs.push(addr), addrs.len() as int)
    }
}

/// In a sequence without repetitions, the position of an element is the only
/// position that holds it.
proof fn lemma_index_of_distinct(addrs: Seq<PeerAddr>, i: int)
    requires
        all_distinct(addrs),
        0 <= i < addrs.len(),
    ensures
        addrs.index_of(addrs[i]) == i,
{
    assert(addrs.contains(addrs[i]));
    let j = addrs.index_of(addrs[i]);
    assert(0 <= j < addrs.len() && addrs[j] == addrs[i]);
}

/// Registering an address that is already registered changes nothing and
/// gives back the client it was registered with.
pub proof fn lemma_register_twice(addrs: Seq<PeerAddr>, addr: PeerAddr)
    requires
        all_distinct(addrs),
    ensures
        registered(registered(addrs, addr).0, addr) == registered(addrs, addr),
{
    let s1 = registered(addrs, addr).0;
    if !addrs.contains(addr) {
        assert(s1[addrs.len() as int] == addr);
        assert(s1.contains(addr));
        lemma_register_keeps_distinct(addrs, addr);
        lemma_index_of_distinct(s1, addrs.len() as int);
    }
}

/// Registering keeps every address at most once in the table.
pub proof fn lemma_register_keeps_distinct(addrs: Seq<PeerAddr>, addr: PeerAddr)
    requires
        all_distinct(addrs),
    ensures
        all_distinct(registered(addrs, addr).0),
{
    if !addrs.contains(addr) {
        let s1 = addrs.push(addr);
        assert forall|i: int, j: int| 0 <= i < j < s1.len() implies s1[i] != s1[j] by {
            if j == addrs.len() {
                assert(s1[i] == addrs[i]);
            }
        }
    }
}

/// Two different addresses never share a client id, and registering one
/// address leaves the id of every other registered address unchanged.
pub proof fn lemma_distinct_addresses_distinct_ids(addrs: Seq<PeerAddr>, a: PeerAddr, b: PeerAddr)
    requires
        all_distinct(addrs),
        a != b,
    ensures
        registered(addrs, a).1 != registered(registered(addrs, a).0, b).1,
        registered(registered(registered(addrs, a).0, b).0, a).1 == registered(addrs, a).1,
{
    let (s1, i) = registered(addrs, a);
    lemma_register_keeps_distinct(addrs, a);
    let (s2, j) = registered(s1, b);
    lemma_register_keeps_distinct(s1, a);
    assert(0 <= i < s1.len() && s1[i] == a);
    assert(0 <= j < s2.len() && s2[j] == b);
    if s1.contains(b) {
        assert(s2 == s1);
    } else {
        assert(s2[i] == s1[i]);
    }
    assert(s2[i] == a);
    assert(s2.contains(a));
    lemma_register_keeps_distinct(s1, b);
    lemma_index_of_distinct(s2, i);
}

impl ClientRegistry {
    /// The registered addresses in order of registration: the client with
    /// address `self@[i]` has id `i`.
    pub closed spec fn view(self) -> Seq<PeerAddr> {
        self.clients@.map_values(|c: Client| c.socker_addr)
    }

    pub closed spec fn wf(self) -> bool {
        &&& self.next_available_id == self.clients@.len()
        &&& forall|i: int| 0 <= i < self.clients@.len() ==> #[trigger] self.clients@[i].id == i
        &&& all_distinct(self.view())
    }

    /// A well-formed registry holds every address at most once.
    pub proof fn lemma_wf_distinct(self)
        requires
            self.wf(),
        ensures
            all_distinct(self.view()),
    {
    }

    /// An empty registry; the first client will get id 0.
    pub fn new() -> (r: ClientRegistry)
        ensures
            r.wf(),
            r.view() == Seq::<PeerAddr>::empty(),
    {
        let r = ClientRegistry { clients: Vec::new(), next_available_id: 0 };
        assert(r.view() =~= Seq::<PeerAddr>::empty());
        r
    }

    /// Number of registered clients.
    pub fn len(&self) -> (n: usize)
        requires
            self.wf(),
        ensures
            n == self.view().len(),
    {
        self.next_available_id
    }

    /// The client registered for `addr`, if any.
    pub fn lookup(&self, addr: PeerAddr) -> (c: Option<Client>)
        requires
            self.wf(),
        ensures
            c is None <==> !self.view().contains(addr),
            c matches Some(c) ==> c.socker_addr == addr && c.id == self.view().index_of(addr),
    {
        let mut i: usize = 0;
        while i < self.clients.len()
            invariant
                self.wf(),
                i <= self.clients@.len(),
                forall|j: int| 0 <= j < i ==> self.view()[j] != addr,
            decreases self.clients@.len() - i,
        {
            if self.clients[i].socker_addr == addr {
                proof {
                    assert(self.view()[i as int] == addr);
                    lemma_index_of_distinct(self.view(), i as int);
                    assert(self.clients@[i as int].id == i);
                }
                return Some(self.clients[i]);
            }
            i = i + 1;
        }
        None
    }

    /// The client for the address a message came from: the one already
    /// registered for it, or else a new client with the next id, which is
    /// then registered.
    pub fn register(&mut self, addr: PeerAddr) -> (c: Client)
        requires
            old(self).wf(),
            !old(self).view().contains(addr) ==> old(self).view().len() < usize::MAX,
        ensures
            final(self).wf(),
            c.socker_addr == addr,
            (final(self).view(), c.id as int) == registered(old(self).view(), addr),
    {
        match self.lookup(addr) {
            Some(c) => c,
            None => {
                let c = Client { id: self.next_available_id, socker_addr: addr };
                self.clients.push(c);
                self.next_available_id = self.next_available_id + 1;
                assert(self.view() =~= old(self).view().push(addr));
                proof {
                    lemma_register_keeps_distinct(old(self).view(), addr);
                    assert forall|i: int| 0 <= i < self.clients@.len() implies #[trigger] self.clients@[i].id == i by {
                        if i < old(self).clients@.len() {
                            assert(self.clients@[i] == old(self).clients@[i]);
                        }
                    }
                }
                c
            },
        }
    }

    /// The registered clients, in order of registration.
    pub fn clients_iter(&self) -> (cs: Vec<Client>)
        requires
            self.wf(),
        ensures
            cs@.len() == self.view().len(),
            forall|i: int| 0 <= i < cs@.len() ==> #[trigger] cs@[i] == (Client { id: i as usize, socker_addr: self.view()[i] }),
    {
        let mut cs: Vec<Client> = Vec::new();
        let mut i: usize = 0;
        while i < self.clients.len()
            invariant
                self.wf(),
                i <= self.clients@.len(),
                cs@ == self.clients@.subrange(0, i as int),
            decreases self.clients@.len() - i,
        {
            cs.push(self.clients[i]);
            i = i + 1;
            assert(cs@ =~= self.clients@.subrange(0, i as int));
        }
        assert(cs@ =~= self.clients@);
        assert forall|i: int| 0 <= i < cs@.len() implies #[trigger] cs@[i] == (Client { id: i as usize, socker_addr: self.view()[i] }) by {
            assert(self.clients@[i].id == i);
        }
        cs
    }
}

} // verus!
