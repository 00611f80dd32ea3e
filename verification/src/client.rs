use std::collections::VecDeque;
use vstd::prelude::*;

verus! {

/// Connection state of a game client.
#[derive(Debug, Clone, Copy, PartialEq, Eq, Hash, Structural)]
pub enum State {
    Connect,
    On,
    Off,
}

/// What happened to the client's connection, as seen by its systems.
#[derive(Debug, Clone, Copy, PartialEq, Eq, Structural)]
pub enum NetEvent {
    /// The player asked to join a game.
    Play,
    /// A local port was bound and the server is reachable.
    Connected,
    /// No local port in the allowed range could be bound.
    ConnectFailed,
    /// Reading from the socket would block: nothing more to read this frame.
    ReceiveBlocked,
    /// Reading from the socket failed for another reason.
    ReceiveFailed,
    /// The last message of a batch could not be sent.
    SendFailed,
}

/// The state that follows `state` when `event` happens.
pub open spec fn next_state_spec(state: State, event: NetEvent) -> State {
    match event {
        NetEvent::Play => State::Connect,
        NetEvent::Connected => State::On,
        NetEvent::ConnectFailed => State::Off,
        NetEvent::ReceiveBlocked => state,
        NetEvent::ReceiveFailed => State::Off,
        NetEvent::SendFailed => State::Off,
    }
}

/// Connection state after `event`: asking to play starts connecting, a
/// successful connection turns the client on, every failure turns it off, and
/// a read that would block changes nothing.
pub fn next_state(state: State, event: NetEvent) -> (s: State)
    ensures
        s == next_state_spec(state, event),
        event == NetEvent::Play ==> s == State::Connect,
        event == NetEvent::Connected ==> s == State::On,
        (event == NetEvent::ConnectFailed || event == NetEvent::ReceiveFailed || event
            == NetEvent::SendFailed) ==> s == State::Off,
        event == NetEvent::ReceiveBlocked ==> s == state,
{
    match event {
        NetEvent::Play => State::Connect,
        NetEvent::Connected => State::On,
        NetEvent::ConnectFailed => State::Off,
        NetEvent::ReceiveBlocked => state,
        NetEvent::ReceiveFailed => State::Off,
        NetEvent::SendFailed => State::Off,
    }
}

/// Every failure of the connection turns the client off, a read that would
/// block leaves the state as it is, and only a successful connection turns
/// the client on.
pub proof fn lemma_connection_state_laws(state: State, event: NetEvent)
    ensures
        (event == NetEvent::ConnectFailed || event == NetEvent::ReceiveFailed || event
            == NetEvent::SendFailed) ==> next_state_spec(state, event) == State::Off,
        event == NetEvent::ReceiveBlocked ==> next_state_spec(state, event) == state,
        (next_state_spec(state, event) == State::On && state != State::On) ==> event
            == NetEvent::Connected,
        event == NetEvent::Play ==> next_state_spec(state, event) == State::Connect,
        event == NetEvent::Connected ==> next_state_spec(state, event) == State::On,
{
}

/// Whether a batch of sends counts as failed, given for each message whether
/// its send failed: only the outcome of the last send counts, and an empty
/// batch never fails.
pub fn send_batch_failed(failed: &Vec<bool>) -> (r: bool)
    ensures
        r == (failed@.len() > 0 && failed@.last()),
{
    let mut error = false;
    let mut i: usize = 0;
    while i < failed.len()
        invariant
            i <= failed@.len(),
            error == (i > 0 && failed@[i - 1]),
        decreases failed@.len() - i,
    {
        error = failed[i];
        i = i + 1;
    }
    error
}

/// Where a client tries to connect from and to.
pub struct ConnectInfo {
    pub remote_addr: String,
    pub base_addr: String,
    pub base_local_port: usize,
    pub port_try_amount: usize,
}

/// The character of a decimal digit.
pub open spec fn digit_char(d: nat) -> char {
    (48 + d) as char
}

/// The decimal representation of `n`, most significant digit first, without
/// leading zeros.
pub open spec fn decimal(n: nat) -> Seq<char>
    decreases n,
{
    if n < 10 {
        seq![digit_char(n)]
    } else {
        decimal(n / 10).push(digit_char(n % 10))
    }
}

/// Appends a character to the end of a string, with `String::push`.
#[verifier::external_body]
fn push_char(s: &mut String, c: char)
    ensures
        final(s)@ == old(s)@.push(c),
{
    s.push(c);
}

/// Appends the decimal representation of `n` to `s`.
fn push_decimal(s: &mut String, n: usize)
    ensures
        final(s)@ == old(s)@ + decimal(n as nat),
    decreases n,
{
    if n >= 10 {
        push_decimal(s, n / 10);
    }
    let d: u8 = (n % 10) as u8;
    let c: char = (48u8 + d) as char;
    push_char(s, c);
    proof {
        assert(c == digit_char((n % 10) as nat));
        if n >= 10 {
            assert(decimal(n as nat) == decimal((n / 10) as nat).push(digit_char((n % 10) as nat)));
        }
    }
}

/// The local address of the `i`-th attempt: the base address followed by the
/// port number `base_local_port + i`.
pub open spec fn local_address_spec(base_addr: Seq<char>, base_local_port: nat, i: nat) -> Seq<char> {
    base_addr + decimal(base_local_port + i)
}

proof fn lemma_decimal_not_empty(n: nat)
    ensures
        decimal(n).len() >= 1,
        n >= 10 ==> decimal(n).len() >= 2,
    decreases n,
{
    if n >= 10 {
        lemma_decimal_not_empty(n / 10);
    }
}

/// The number that a string of decimal digits stands for.
pub open spec fn digits_value(s: Seq<char>) -> nat
    decreases s.len(),
{
    if s.len() == 0 {
        0
    } else {
        digits_value(s.drop_last()) * 10 + ((s.last() as int) - 48) as nat
    }
}

/// The decimal form of a number is made of digits, starts with a non-zero
/// digit unless the number is zero, and reads back as that number.
pub proof fn lemma_decimal_reads_back(n: nat)
    ensures
        digits_value(decimal(n)) == n,
        forall|i: int| 0 <= i < decimal(n).len() ==> '0' <= #[trigger] decimal(n)[i] <= '9',
        n > 0 ==> decimal(n)[0] != '0',
    decreases n,
{
    if n < 10 {
        assert(decimal(n) == seq![digit_char(n)]);
        assert(decimal(n).drop_last() =~= Seq::<char>::empty());
        assert(digit_char(n) as int == 48 + n);
        assert(digits_value(decimal(n).drop_last()) == 0);
        assert(digits_value(decimal(n)) == digits_value(decimal(n).drop_last()) * 10 + ((decimal(n).last() as int) - 48) as nat);
    } else {
        lemma_decimal_reads_back(n / 10);
        let d = decimal(n);
        assert(d.drop_last() =~= decimal(n / 10));
        assert(d.last() == digit_char(n % 10));
        assert(digit_char(n % 10) as int == 48 + n % 10);
        assert(n == (n / 10) * 10 + n % 10) by (nonlinear_arith);
        assert(digits_value(d.drop_last()) == n / 10);
        assert(digits_value(d) == digits_value(d.drop_last()) * 10 + ((d.last() as int) - 48) as nat);
        assert forall|i: int| 0 <= i < d.len() implies '0' <= #[trigger] d[i] <= '9' by {
            if i < d.len() - 1 {
                assert(d[i] == decimal(n / 10)[i]);
            }
        }
        lemma_decimal_not_empty(n / 10);
        assert(d[0] == decimal(n / 10)[0]);
    }
}

/// Different numbers are written differently.
pub proof fn lemma_decimal_injective(n: nat, m: nat)
    requires
        decimal(n) == decimal(m),
    ensures
        n == m,
    decreases n,
{
    lemma_decimal_not_empty(n);
    lemma_decimal_not_empty(m);
    if n < 10 && m < 10 {
        assert(decimal(n)[0] == digit_char(n));
        assert(decimal(m)[0] == digit_char(m));
    } else if n >= 10 && m >= 10 {
        let dn = decimal(n);
        let dm = decimal(m);
        assert(dn.last() == digit_char(n % 10));
        assert(dm.last() == digit_char(m % 10));
        assert(dn.drop_last() =~= decimal(n / 10));
        assert(dm.drop_last() =~= decimal(m / 10));
        lemma_decimal_injective(n / 10, m / 10);
    }
}

/// A client never tries the same local address twice: the addresses of
/// different attempts differ.
pub proof fn lemma_local_addresses_distinct(base_addr: Seq<char>, base_local_port: nat, i: nat, j: nat)
    requires
        i != j,
    ensures
        local_address_spec(base_addr, base_local_port, i) != local_address_spec(base_addr, base_local_port, j),
{
    let a = local_address_spec(base_addr, base_local_port, i);
    let b = local_address_spec(base_addr, base_local_port, j);
    if a == b {
        assert(a.subrange(base_addr.len() as int, a.len() as int) =~= decimal(base_local_port + i));
        assert(b.subrange(base_addr.len() as int, b.len() as int) =~= decimal(base_local_port + j));
        lemma_decimal_injective(base_local_port + i, base_local_port + j);
    }
}

/// The local address of attempt `i`: the base address followed by the port
/// number `base_local_port + i`, which must be a `usize`.
pub fn local_address(info: &ConnectInfo, i: usize) -> (addr: String)
    requires
        info.base_local_port + i <= usize::MAX,
    ensures
        addr@ == local_address_spec(info.base_addr@, info.base_local_port as nat, i as nat),
        addr@.len() > info.base_addr@.len(),
        addr@.subrange(0, info.base_addr@.len() as int) == info.base_addr@,
        digits_value(addr@.subrange(info.base_addr@.len() as int, addr@.len() as int))
            == info.base_local_port + i,
{
    let mut addr = info.base_addr.clone();
    push_decimal(&mut addr, info.base_local_port + i);
    proof {
        let n = (info.base_local_port + i) as nat;
        lemma_decimal_reads_back(n);
        lemma_decimal_not_empty(n);
        assert(addr@.subrange(0, info.base_addr@.len() as int) =~= info.base_addr@);
        assert(addr@.subrange(info.base_addr@.len() as int, addr@.len() as int) =~= decimal(n));
    }
    addr
}

/// Where a connection attempt stands: try to bind the local address of
/// attempt `i`, or done, connected or not.
#[derive(Debug, Clone, Copy, PartialEq, Eq, Structural)]
pub enum ConnectStep {
    Try(usize),
    Connected,
    Failed,
}

/// The first step of connecting: the first attempt, or failure when no
/// attempt is allowed.
pub open spec fn first_connect_step_spec(port_try_amount: nat) -> ConnectStep {
    if port_try_amount == 0 {
        ConnectStep::Failed
    } else {
        ConnectStep::Try(0)
    }
}

/// The step after attempt `attempt`, given whether its bind succeeded: the
/// first success connects; after a failure the next port is tried, and when
/// none is left the client gives up.
pub open spec fn connect_step_spec(port_try_amount: nat, attempt: nat, bound: bool) -> ConnectStep {
    if bound {
        ConnectStep::Connected
    } else if attempt + 1 < port_try_amount {
        ConnectStep::Try((attempt + 1) as usize)
    } else {
        ConnectStep::Failed
    }
}

/// Every step of connecting names an allowed attempt: it starts with attempt
/// 0 when one is allowed, each failed bind moves to the next attempt only
/// while one is left, a failed last attempt gives up, and only a successful
/// bind connects.
pub proof fn lemma_connect_steps_stay_in_range(port_try_amount: nat, attempt: nat, bound: bool)
    requires
        attempt < port_try_amount <= usize::MAX,
    ensures
        first_connect_step_spec(port_try_amount) matches ConnectStep::Try(j) ==> j == 0,
        first_connect_step_spec(port_try_amount) == ConnectStep::Failed <==> port_try_amount == 0,
        connect_step_spec(port_try_amount, attempt, bound) matches ConnectStep::Try(j) ==> !bound
            && j == attempt + 1 && j < port_try_amount,
        connect_step_spec(port_try_amount, attempt, bound) == ConnectStep::Connected <==> bound,
        connect_step_spec(port_try_amount, attempt, bound) == ConnectStep::Failed <==> (!bound
            && attempt + 1 == port_try_amount),
{
}

/// How connecting starts.
pub fn first_connect_step(info: &ConnectInfo) -> (step: ConnectStep)
    ensures
        step == first_connect_step_spec(info.port_try_amount as nat),
        info.port_try_amount == 0 ==> step == ConnectStep::Failed,
        info.port_try_amount > 0 ==> step == ConnectStep::Try(0),
{
    if info.port_try_amount == 0 {
        ConnectStep::Failed
    } else {
        ConnectStep::Try(0)
    }
}

/// How connecting goes on after attempt `attempt`, given whether its bind
/// succeeded.
pub fn connect_step(info: &ConnectInfo, attempt: usize, bound: bool) -> (step: ConnectStep)
    requires
        attempt < info.port_try_amount,
    ensures
        step == connect_step_spec(info.port_try_amount as nat, attempt as nat, bound),
        bound <==> step == ConnectStep::Connected,
        step == ConnectStep::Failed <==> (!bound && attempt + 1 >= info.port_try_amount),
        step matches ConnectStep::Try(j) ==> !bound && j == attempt + 1 && j < info.port_try_amount,
{
    if bound {
        ConnectStep::Connected
    } else if attempt + 1 < info.port_try_amount {
        ConnectStep::Try(attempt + 1)
    } else {
        ConnectStep::Failed
    }
}

/// How far from the end of connecting a step is.
pub open spec fn steps_left(port_try_amount: nat, step: ConnectStep) -> nat {
    match step {
        ConnectStep::Try(i) => if i < port_try_amount {
            (port_try_amount - i) as nat
        } else {
            0
        },
        _ => 0,
    }
}

/// The attempts made from `step` on, in order, and whether the client ends
/// up connected, when the bind of attempt `i` succeeds exactly when `ok(i)`.
pub open spec fn connect_run(port_try_amount: nat, ok: spec_fn(nat) -> bool, step: ConnectStep) -> (Seq<nat>, bool)
    decreases steps_left(port_try_amount, step),
    when port_try_amount <= usize::MAX
{
    match step {
        ConnectStep::Try(i) => if i < port_try_amount {
            let next = connect_step_spec(port_try_amount, i as nat, ok(i as nat));
            let rest = connect_run(port_try_amount, ok, next);
            (seq![i as nat] + rest.0, rest.1)
        } else {
            (Seq::empty(), false)
        },
        ConnectStep::Connected => (Seq::empty(), true),
        ConnectStep::Failed => (Seq::empty(), false),
    }
}

/// The numbers from `from` up to, not including, `to`.
pub open spec fn range(from: nat, to: nat) -> Seq<nat> {
    Seq::new((to - from) as nat, |j: int| (from + j) as nat)
}

/// The first attempt from `i` on, below `port_try_amount`, whose bind
/// succeeds.
pub open spec fn first_success(port_try_amount: nat, ok: spec_fn(nat) -> bool, i: nat) -> Option<nat>
    decreases port_try_amount - i,
{
    if i >= port_try_amount {
        None
    } else if ok(i) {
        Some(i)
    } else {
        first_success(port_try_amount, ok, i + 1)
    }
}

/// `first_success` is the least succeeding attempt, or `None` when every
/// attempt fails.
pub proof fn lemma_first_success(port_try_amount: nat, ok: spec_fn(nat) -> bool, i: nat)
    ensures
        first_success(port_try_amount, ok, i) matches Some(k) ==> i <= k < port_try_amount && ok(k)
            && forall|j: nat| i <= j < k ==> !#[trigger] ok(j),
        first_success(port_try_amount, ok, i) is None ==> forall|j: nat|
            i <= j < port_try_amount ==> !#[trigger] ok(j),
    decreases port_try_amount - i,
{
    if i < port_try_amount && !ok(i) {
        lemma_first_success(port_try_amount, ok, i + 1);
    }
}

proof fn lemma_connect_run_from(port_try_amount: nat, ok: spec_fn(nat) -> bool, i: nat)
    requires
        i < port_try_amount <= usize::MAX,
    ensures
        connect_run(port_try_amount, ok, ConnectStep::Try(i as usize)) == match first_success(
            port_try_amount,
            ok,
            i,
        ) {
            Some(k) => (range(i, k + 1), true),
            None => (range(i, port_try_amount), false),
        },
    decreases port_try_amount - i,
{
    let run = connect_run(port_try_amount, ok, ConnectStep::Try(i as usize));
    if ok(i) {
        assert(connect_step_spec(port_try_amount, i, true) == ConnectStep::Connected);
        assert(connect_run(port_try_amount, ok, ConnectStep::Connected) == (Seq::<nat>::empty(), true));
        assert(run.0 =~= seq![i]);
        assert(run.1);
        assert(range(i, i + 1) =~= seq![i]);
    } else if i + 1 < port_try_amount {
        lemma_connect_run_from(port_try_amount, ok, i + 1);
        let rest = connect_run(port_try_amount, ok, ConnectStep::Try((i + 1) as usize));
        assert(run == (seq![i] + rest.0, rest.1));
        match first_success(port_try_amount, ok, i + 1) {
            Some(k) => {
                lemma_first_success(port_try_amount, ok, i + 1);
                assert(seq![i] + range(i + 1, k + 1) =~= range(i, k + 1));
            },
            None => {
                assert(seq![i] + range(i + 1, port_try_amount) =~= range(i, port_try_amount));
            },
        }
    } else {
        assert(connect_step_spec(port_try_amount, i, false) == ConnectStep::Failed);
        assert(connect_run(port_try_amount, ok, ConnectStep::Failed) == (Seq::<nat>::empty(), false));
        assert(run.0 =~= seq![i]);
        assert(!run.1);
        assert(range(i, port_try_amount) =~= seq![i]);
        assert(first_success(port_try_amount, ok, i + 1) is None);
    }
}

/// Connecting tries the local ports in order and stops at the first one that
/// can be bound: the client is then connected and on, after exactly the
/// attempts up to that one. When no port can be bound, every allowed port is
/// tried once, in order, and the client turns off.
pub proof fn lemma_connect_stops_at_first_success(port_try_amount: nat, ok: spec_fn(nat) -> bool)
    requires
        port_try_amount <= usize::MAX,
    ensures
        first_success(port_try_amount, ok, 0) matches Some(k) ==> {
            &&& k < port_try_amount && ok(k) && forall|j: nat| j < k ==> !#[trigger] ok(j)
            &&& connect_run(port_try_amount, ok, first_connect_step_spec(port_try_amount)) == (
                range(0, k + 1),
                true,
            )
            &&& next_state_spec(State::Connect, NetEvent::Connected) == State::On
        },
        first_success(port_try_amount, ok, 0) is None ==> {
            &&& forall|j: nat| j < port_try_amount ==> !#[trigger] ok(j)
            &&& connect_run(port_try_amount, ok, first_connect_step_spec(port_try_amount)) == (
                range(0, port_try_amount),
                false,
            )
            &&& next_state_spec(State::Connect, NetEvent::ConnectFailed) == State::Off
        },
{
    lemma_first_success(port_try_amount, ok, 0);
    if port_try_amount == 0 {
        assert(range(0, 0) =~= Seq::<nat>::empty());
    } else {
        lemma_connect_run_from(port_try_amount, ok, 0);
    }
}

/// Messages waiting to be sent to the server, oldest first.
pub struct MessagesToSend<T> {
    messages: VecDeque<T>,
}

impl<T> View for MessagesToSend<T> {
    type V = Seq<T>;

    closed spec fn view(&self) -> Seq<T> {
        self.messages@
    }
}

impl<T> MessagesToSend<T> {
    /// An empty queue.
    pub fn new() -> (q: Self)
        ensures
            q@ == Seq::<T>::empty(),
    {
        MessagesToSend { messages: VecDeque::new() }
    }

    /// Queues a message behind the ones already waiting.
    pub fn push(&mut self, message: T)
        ensures
            final(self)@ == old(self)@.push(message),
    {
        self.messages.push_back(message);
    }

    /// Takes every waiting message, oldest first, and leaves the queue empty.
    pub fn take_all(&mut self) -> (all: Vec<T>)
        ensures
            all@ == old(self)@,
            final(self)@ == Seq::<T>::empty(),
    {
        let mut all: Vec<T> = Vec::new();
        while self.messages.len() > 0
            invariant
                all@ + self.messages@ == old(self)@,
            decreases self.messages@.len(),
        {
            match self.messages.pop_front() {
                Some(m) => {
                    all.push(m);
                    assert(all@ + self.messages@ =~= old(self)@);
                },
                None => {},
            }
        }
        assert(all@ =~= old(self)@);
        all
    }
}

impl<T> Default for MessagesToSend<T> {
    fn default() -> (q: Self)
        ensures
            q@ == Seq::<T>::empty(),
    {
        Self::new()
    }
}

/// Messages received from the server. Only the newest one matters: reading
/// gives it and drops the others.
pub struct MessagesToRead<T> {
    messages: VecDeque<T>,
}

impl<T> View for MessagesToRead<T> {
    type V = Seq<T>;

    closed spec fn view(&self) -> Seq<T> {
        self.messages@
    }
}

impl<T> MessagesToRead<T> {
    /// An empty queue.
    pub fn new() -> (q: Self)
        ensures
            q@ == Seq::<T>::empty(),
    {
        MessagesToRead { messages: VecDeque::new() }
    }

    /// Stores a received message as the newest one.
    pub fn push(&mut self, message: T)
        ensures
            final(self)@ == old(self)@.push(message),
    {
        self.messages.push_back(message);
    }

    /// The newest message, if any; every stored message is dropped.
    pub fn pop(&mut self) -> (message: Option<T>)
        ensures
            final(self)@ == Seq::<T>::empty(),
            old(self)@.len() == 0 ==> message is None,
            old(self)@.len() > 0 ==> message == Some(old(self)@.last()),
            (final(self)@, message) == read_newest(old(self)@),
    {
        let message = self.messages.pop_back();
        self.messages.clear();
        message
    }
}

/// What reading the client's queue does to the stored messages `stored`:
/// every message is dropped, and the newest one is returned, if any.
pub open spec fn read_newest<T>(stored: Seq<T>) -> (Seq<T>, Option<T>) {
    if stored.len() == 0 {
        (Seq::empty(), None)
    } else {
        (Seq::empty(), Some(stored.last()))
    }
}

/// Reading after storing a message gives that message back and empties the
/// queue, whatever was stored before it.
pub proof fn lemma_newest_message_wins<T>(q: MessagesToRead<T>, message: T)
    ensures
        read_newest(q@.push(message)) == (Seq::<T>::empty(), Some(message)),
{
}

impl<T> Default for MessagesToRead<T> {
    fn default() -> (q: Self)
        ensures
            q@ == Seq::<T>::empty(),
    {
        Self::new()
    }
}

} // verus!
