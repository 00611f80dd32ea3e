use std::collections::VecDeque;
use vstd::prelude::*;

verus! {

/// Messages waiting to be sent by the server, oldest first.
pub struct MessagesToSend<T> {
    messages: VecDeque<T>,
}

impl<T> View for MessagesToSend<T> {
    type V = Seq<T>;

    closed spec fn view(&self) -> Seq<T> {
        self.messages@
    }
}

impl<T> MessagesToSend<T> {
    /// An empty queue.
    pub fn new() -> (q: Self)
        ensures
            q@ == Seq::<T>::empty(),
    {
        MessagesToSend { messages: VecDeque::new() }
    }

    /// Queues a message behind the ones already waiting.
    pub fn push(&mut self, message: T)
        ensures
            final(self)@ == old(self)@.push(message),
    {
        self.messages.push_back(message);
    }

    /// Takes every waiting message, oldest first, and leaves the queue empty.
    pub fn take_all(&mut self) -> (all: Vec<T>)
        ensures
            all@ == old(self)@,
            final(self)@ == Seq::<T>::empty(),
    {
        let mut all: Vec<T> = Vec::new();
        while self.messages.len() > 0
            invariant
                all@ + self.messages@ == old(self)@,
            decreases self.messages@.len(),
        {
            match self.messages.pop_front() {
                Some(m) => {
                    all.push(m);
                    assert(all@ + self.messages@ =~= old(self)@);
                },
                None => {},
            }
        }
        assert(all@ =~= old(self)@);
        all
    }
}

impl<T> Default for MessagesToSend<T> {
    fn default() -> (q: Self)
        ensures
            q@ == Seq::<T>::empty(),
    {
        Self::new()
    }
}

/// Messages received by the server, handled in the order they arrived.
pub struct MessagesToRead<T> {
    messages: VecDeque<T>,
}

impl<T> View for MessagesToRead<T> {
    type V = Seq<T>;

    closed spec fn view(&self) -> Seq<T> {
        self.messages@
    }
}

impl<T> MessagesToRead<T> {
    /// An empty queue.
    pub fn new() -> (q: Self)
        ensures
            q@ == Seq::<T>::empty(),
    {
        MessagesToRead { messages: VecDeque::new() }
    }

    /// Stores a received message behind the ones already waiting.
    pub fn push(&mut self, message: T)
        ensures
            final(self)@ == old(self)@.push(message),
    {
        self.messages.push_back(message);
    }

    /// The oldest waiting message, if any, which leaves the queue.
    pub fn pop(&mut self) -> (message: Option<T>)
        ensures
            old(self)@.len() == 0 ==> message is None && final(self)@ == old(self)@,
            old(self)@.len() > 0 ==> message == Some(old(self)@[0]) && final(self)@
                == old(self)@.drop_first(),
            (final(self)@, message) == read_oldest(old(self)@),
    {
        let message = self.messages.pop_front();
        proof {
            if old(self)@.len() > 0 {
                assert(self.messages@ =~= old(self)@.drop_first());
            }
        }
        message
    }
}

/// What reading the server's queue does to the waiting messages `waiting`:
/// the queue without its oldest message, and that message; nothing when the
/// queue is empty.
pub open spec fn read_oldest<T>(waiting: Seq<T>) -> (Seq<T>, Option<T>) {
    if waiting.len() == 0 {
        (waiting, None)
    } else {
        (waiting.drop_first(), Some(waiting[0]))
    }
}

/// Messages are read in the order they arrived: storing a message in an
/// empty queue and reading gives that message back and empties the queue;
/// storing a message in a queue that holds some gives the same message on
/// the next read as before, and leaves the new one last.
pub proof fn lemma_first_in_first_out<T>(q: MessagesToRead<T>, message: T)
    ensures
        q@.len() == 0 ==> read_oldest(q@.push(message)) == (Seq::<T>::empty(), Some(message)),
        q@.len() > 0 ==> read_oldest(q@.push(message)) == (read_oldest(q@).0.push(message), read_oldest(q@).1),
{
    if q@.len() == 0 {
        assert(q@.push(message).drop_first() =~= Seq::<T>::empty());
    } else {
        assert(q@.push(message).drop_first() =~= q@.drop_first().push(message));
    }
}

impl<T> Default for MessagesToRead<T> {
    fn default() -> (q: Self)
        ensures
            q@ == Seq::<T>::empty(),
    {
        Self::new()
    }
}

/// The unit that a message from client `client_id` steers: the first unit,
/// in the order given, whose controlling client is `client_id`; `None` when
/// the client has no unit yet and one must be created for it.
pub fn find_unit(unit_clients: &Vec<usize>, client_id: usize) -> (found: Option<usize>)
    ensures
        match found {
            Some(i) => {
                &&& i < unit_clients@.len()
                &&& unit_clients@[i as int] == client_id
                &&& forall|j: int| 0 <= j < i ==> unit_clients@[j] != client_id
            },
            None => forall|j: int| 0 <= j < unit_clients@.len() ==> unit_clients@[j] != client_id,
        },
{
    let mut i: usize = 0;
    while i < unit_clients.len()
        invariant
            i <= unit_clients@.len(),
            forall|j: int| 0 <= j < i ==> unit_clients@[j] != client_id,
        decreases unit_clients@.len() - i,
    {
        if unit_clients[i] == client_id {
            return Some(i);
        }
        i = i + 1;
    }
    None
}

/// What the server does with one message of a batch: steer the unit at the
/// given position, or create a unit for a client that has none.
#[derive(Debug, Clone, Copy, PartialEq, Eq, Structural)]
pub enum Dispatch {
    Steer(usize),
    Spawn,
}

/// `d` is what a message from `client_id` does when the units, listed by
/// their controlling client, are `unit_clients`: steer the first unit of that
/// client, or create one when it has none.
pub open spec fn dispatch_spec(unit_clients: Seq<usize>, client_id: usize, d: Dispatch) -> bool {
    match d {
        Dispatch::Steer(k) => {
            &&& k < unit_clients.len()
            &&& unit_clients[k as int] == client_id
            &&& forall|j: int| 0 <= j < k ==> unit_clients[j] != client_id
        },
        Dispatch::Spawn => !unit_clients.contains(client_id),
    }
}

/// Plans a batch of messages, listed by sender, against the units that exist
/// when the batch starts. Units created for the batch only appear once it is
/// over, so every message is looked up among the units present at its start.
pub fn plan_message_batch(unit_clients: &Vec<usize>, senders: &Vec<usize>) -> (plan: Vec<Dispatch>)
    ensures
        plan@.len() == senders@.len(),
        forall|i: int|
            0 <= i < senders@.len() ==> dispatch_spec(unit_clients@, senders@[i], #[trigger] plan@[i]),
        forall|i: int|
            0 <= i < senders@.len() ==> (#[trigger] plan@[i] == Dispatch::Spawn <==> !unit_clients@.contains(
                senders@[i],
            )),
        forall|i: int|
            0 <= i < senders@.len() ==> (#[trigger] plan@[i] matches Dispatch::Steer(k) ==> k
                < unit_clients@.len() && unit_clients@[k as int] == senders@[i] && forall|j: int|
                0 <= j < k ==> unit_clients@[j] != senders@[i]),
{
    let mut plan: Vec<Dispatch> = Vec::new();
    let mut i: usize = 0;
    while i < senders.len()
        invariant
            i <= senders@.len(),
            plan@.len() == i,
            forall|k: int|
                0 <= k < i ==> dispatch_spec(unit_clients@, senders@[k], #[trigger] plan@[k]),
        decreases senders@.len() - i,
    {
        let d = match find_unit(unit_clients, senders[i]) {
            Some(k) => Dispatch::Steer(k),
            None => {
                proof {
                    if unit_clients@.contains(senders@[i as int]) {
                        let j = choose|j: int| 0 <= j < unit_clients@.len() && unit_clients@[j] == senders@[i as int];
                        assert(unit_clients@[j] != senders@[i as int]);
                    }
                }
                Dispatch::Spawn
            },
        };
        plan.push(d);
        i = i + 1;
    }
    plan
}

/// The clients, among the first `upto` senders of a batch, that get a new
/// unit: those that had none when the batch started.
pub open spec fn spawned_clients(unit_clients: Seq<usize>, senders: Seq<usize>, upto: int) -> Seq<usize>
    decreases upto,
{
    if upto <= 0 {
        Seq::empty()
    } else {
        let rest = spawned_clients(unit_clients, senders, upto - 1);
        if unit_clients.contains(senders[upto - 1]) {
            rest
        } else {
            rest.push(senders[upto - 1])
        }
    }
}

/// The controlling clients of the units once a batch has been handled: the
/// units that were there, then the ones created.
pub open spec fn clients_after_batch(unit_clients: Seq<usize>, senders: Seq<usize>) -> Seq<usize> {
    unit_clients + spawned_clients(unit_clients, senders, senders.len() as int)
}

proof fn lemma_spawned_clients(unit_clients: Seq<usize>, senders: Seq<usize>, upto: int)
    requires
        0 <= upto <= senders.len(),
        forall|i: int, j: int|
            0 <= i < j < senders.len() && senders[i] == senders[j] ==> unit_clients.contains(
                senders[i],
            ),
    ensures
        spawned_clients(unit_clients, senders, upto).no_duplicates(),
        forall|x: usize|
            #![trigger spawned_clients(unit_clients, senders, upto).contains(x)]
            spawned_clients(unit_clients, senders, upto).contains(x) <==> (!unit_clients.contains(x)
                && exists|k: int| 0 <= k < upto && #[trigger] senders[k] == x),
    decreases upto,
{
    if upto > 0 {
        lemma_spawned_clients(unit_clients, senders, upto - 1);
        let rest = spawned_clients(unit_clients, senders, upto - 1);
        let x = senders[upto - 1];
        if !unit_clients.contains(x) {
            let r = rest.push(x);
            assert(!rest.contains(x)) by {
                if rest.contains(x) {
                    let k = choose|k: int| 0 <= k < upto - 1 && #[trigger] senders[k] == x;
                    assert(senders[k] == senders[upto - 1]);
                }
            }
            assert forall|a: int, b: int| 0 <= a < r.len() && 0 <= b < r.len() && a != b implies r[a] != r[b] by {
                if a == rest.len() {
                    assert(rest[b] == r[b]);
                    if r[b] == x {
                        assert(rest.contains(x));
                    }
                } else if b == rest.len() {
                    assert(rest[a] == r[a]);
                    if r[a] == x {
                        assert(rest.contains(x));
                    }
                }
            }
            assert forall|y: usize| r.contains(y) <==> (!unit_clients.contains(y) && exists|k: int|
                0 <= k < upto && #[trigger] senders[k] == y) by {
                if r.contains(y) {
                    let m = choose|m: int| 0 <= m < r.len() && r[m] == y;
                    if m < rest.len() {
                        assert(rest[m] == y);
                        assert(rest.contains(y));
                    } else {
                        assert(senders[upto - 1] == y);
                    }
                }
                if !unit_clients.contains(y) && exists|k: int| 0 <= k < upto && #[trigger] senders[k] == y {
                    let k = choose|k: int| 0 <= k < upto && #[trigger] senders[k] == y;
                    if k < upto - 1 {
                        assert(rest.contains(y));
                        let m = choose|m: int| 0 <= m < rest.len() && rest[m] == y;
                        assert(r[m] == y);
                    } else {
                        assert(r[rest.len() as int] == y);
                    }
                }
            }
        } else {
            assert forall|y: usize| rest.contains(y) <==> (!unit_clients.contains(y) && exists|k: int|
                0 <= k < upto && #[trigger] senders[k] == y) by {
                if !unit_clients.contains(y) && exists|k: int| 0 <= k < upto && #[trigger] senders[k] == y {
                    let k = choose|k: int| 0 <= k < upto && #[trigger] senders[k] == y;
                    if k == upto - 1 {
                        assert(unit_clients.contains(y));
                    }
                }
            }
        }
    }
}

/// One unit per client: when every client controls at most one unit and no
/// client without a unit sends twice in a batch, then after the batch every
/// client still controls at most one unit, every sender controls exactly
/// one, and the units belong to exactly the clients that had one or sent.
pub proof fn lemma_one_unit_per_client(unit_clients: Seq<usize>, senders: Seq<usize>)
    requires
        unit_clients.no_duplicates(),
        forall|i: int, j: int|
            0 <= i < j < senders.len() && senders[i] == senders[j] ==> unit_clients.contains(
                senders[i],
            ),
    ensures
        clients_after_batch(unit_clients, senders).no_duplicates(),
        forall|i: int|
            0 <= i < senders.len() ==> clients_after_batch(unit_clients, senders).contains(
                #[trigger] senders[i],
            ),
        forall|x: usize|
            clients_after_batch(unit_clients, senders).contains(x) <==> (unit_clients.contains(x)
                || senders.contains(x)),
{
    let sp = spawned_clients(unit_clients, senders, senders.len() as int);
    let after = clients_after_batch(unit_clients, senders);
    lemma_spawned_clients(unit_clients, senders, senders.len() as int);
    assert(after == unit_clients + sp);
    assert forall|a: int, b: int| 0 <= a < after.len() && 0 <= b < after.len() && a != b implies after[a] != after[b] by {
        let n = unit_clients.len() as int;
        if a < n && b >= n {
            assert(sp.contains(sp[b - n]));
            assert(unit_clients.contains(unit_clients[a]));
        } else if a >= n && b < n {
            assert(sp.contains(sp[a - n]));
            assert(unit_clients.contains(unit_clients[b]));
        } else if a >= n && b >= n {
            assert(sp[a - n] != sp[b - n]);
        }
    }
    assert forall|x: usize| after.contains(x) <==> (unit_clients.contains(x) || senders.contains(x)) by {
        let n = unit_clients.len() as int;
        if after.contains(x) {
            let m = choose|m: int| 0 <= m < after.len() && after[m] == x;
            if m < n {
                assert(unit_clients[m] == x);
            } else {
                assert(sp[m - n] == x);
                assert(sp.contains(x));
                let k = choose|k: int| 0 <= k < senders.len() && #[trigger] senders[k] == x;
                assert(senders.contains(x));
            }
        }
        if unit_clients.contains(x) {
            let m = choose|m: int| 0 <= m < n && unit_clients[m] == x;
            assert(after[m] == x);
        } else if senders.contains(x) {
            let k = choose|k: int| 0 <= k < senders.len() && senders[k] == x;
            assert(senders[k] == x);
            assert(sp.contains(x));
            let m = choose|m: int| 0 <= m < sp.len() && sp[m] == x;
            assert(after[n + m] == x);
        }
    }
    assert forall|i: int| 0 <= i < senders.len() implies after.contains(#[trigger] senders[i]) by {
        assert(senders.contains(senders[i]));
    }
}

} // verus!
