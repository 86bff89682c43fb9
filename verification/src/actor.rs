//! The actors of the prime-counting system, as state and decisions: a
//! dispatcher that hands out ranges, counting workers that report the primes
//! of a range, and a reducer that collects them. Mailboxes, threads and the
//! polling loops live with the caller, which performs the returned packets.

use vstd::prelude::*;
use crate::packet::Packet;
use crate::sorting::{is_stable_order, lemma_stable_order_unique, stable_order, stable_order_of};
use crate::primes::{is_prime_number, trial_overflows, try_is_prime};
use crate::text::{chars_of, decimal, format_u64, lemma_parse_decimal, parse_u64, parse_u64_in, parse_u64_spec};

verus! {

/// The index of the first `,` in `s` at or after `k`, or `s.len()` if there is none.
pub open spec fn next_comma(s: Seq<char>, k: int) -> int
    decreases s.len() - k,
{
    if k < 0 || k >= s.len() {
        s.len() as int
    } else if s[k] == ',' {
        k
    } else {
        next_comma(s, k + 1)
    }
}

/// The payload of a `count range` packet for the range `from..to`: the two
/// decimal numerals joined by a comma.
pub open spec fn range_text(from: u64, to: u64) -> Seq<char> {
    decimal(from as nat) + seq![','] + decimal(to as nat)
}

/// How a worker reads a `count range` payload: the text before the first
/// comma and the text between the first comma and the next one (or the end)
/// must both parse as `u64`; with no comma, or a field that does not parse,
/// there is no range.
pub open spec fn parse_range_spec(s: Seq<char>) -> Option<(u64, u64)> {
    let i = next_comma(s, 0);
    if i >= s.len() {
        None
    } else {
        let j = next_comma(s, i + 1);
        match (parse_u64_spec(s.subrange(0, i)), parse_u64_spec(s.subrange(i + 1, j))) {
            (Some(a), Some(b)) => Some((a, b)),
            _ => None,
        }
    }
}

proof fn lemma_no_comma_then_end(s: Seq<char>, k: int)
    requires
        0 <= k <= s.len(),
        forall|i: int| k <= i < s.len() ==> s[i] != ',',
    ensures
        next_comma(s, k) == s.len(),
    decreases s.len() - k,
{
    if k < s.len() {
        lemma_no_comma_then_end(s, k + 1);
    }
}

proof fn lemma_comma_found(s: Seq<char>, k: int, p: int)
    requires
        0 <= k <= p < s.len(),
        s[p] == ',',
        forall|i: int| k <= i < p ==> s[i] != ',',
    ensures
        next_comma(s, k) == p,
    decreases p - k,
{
    if k < p {
        lemma_comma_found(s, k + 1, p);
    }
}

proof fn lemma_decimal_has_no_comma(n: nat)
    ensures
        forall|i: int| 0 <= i < decimal(n).len() ==> decimal(n)[i] != ',',
    decreases n,
{
    if n >= 10 {
        lemma_decimal_has_no_comma(n / 10);
        let s = decimal(n);
        assert forall|i: int| 0 <= i < s.len() implies s[i] != ',' by {
            if i < s.len() - 1 {
                assert(s[i] == decimal(n / 10)[i]);
            }
        }
    }
}

/// A worker reads back exactly the range that the dispatcher wrote.
pub proof fn lemma_range_text_round_trip(from: u64, to: u64)
    ensures
        parse_range_spec(range_text(from, to)) == Some((from, to)),
{
    let a = decimal(from as nat);
    let b = decimal(to as nat);
    let s = range_text(from, to);
    lemma_decimal_has_no_comma(from as nat);
    lemma_decimal_has_no_comma(to as nat);
    assert forall|i: int| 0 <= i < a.len() implies s[i] != ',' by {
        assert(s[i] == a[i]);
    }
    lemma_comma_found(s, 0, a.len() as int);
    assert forall|i: int| a.len() + 1 <= i < s.len() implies s[i] != ',' by {
        assert(s[i] == b[i - a.len() - 1]);
    }
    lemma_no_comma_then_end(s, a.len() + 1int);
    assert(s.subrange(0, a.len() as int) =~= a);
    assert(s.subrange(a.len() + 1int, s.len() as int) =~= b);
    lemma_parse_decimal(from);
    lemma_parse_decimal(to);
}

fn find_comma(chars: &Vec<char>, k: usize) -> (r: usize)
    requires
        k <= chars.len(),
    ensures
        r == next_comma(chars@, k as int),
        k <= r <= chars.len(),
{
    let mut i = k;
    while i < chars.len()
        invariant
            k <= i <= chars.len(),
            next_comma(chars@, k as int) == next_comma(chars@, i as int),
        decreases chars.len() - i,
    {
        if chars[i] == ',' {
            return i;
        }
        i = i + 1;
    }
    i
}

/// The payload of a `count range` packet, `format!("{},{}", from, to)`.
pub fn format_range(from: u64, to: u64) -> (s: String)
    ensures
        s@ == range_text(from, to),
{
    let mut text = format_u64(from);
    text.append(",");
    let tail = format_u64(to);
    text.append(tail.as_str());
    proof {
        reveal_strlit(",");
    }
    text
}

/// Reads a `count range` payload as a worker does (see [`parse_range_spec`]).
pub fn parse_range(data: &str) -> (r: Option<(u64, u64)>)
    ensures
        r == parse_range_spec(data@),
{
    let chars = chars_of(data);
    let i = find_comma(&chars, 0);
    if i >= chars.len() {
        return None;
    }
    let j = find_comma(&chars, i + 1);
    let first = parse_u64_in(&chars, 0, i);
    let second = parse_u64_in(&chars, i + 1, j);
    match (first, second) {
        (Some(a), Some(b)) => Some((a, b)),
        _ => None,
    }
}

/// The view of a packet with the given fields.
pub open spec fn mail(
    from: Seq<char>,
    to: Seq<char>,
    command: Seq<char>,
    data: Seq<char>,
) -> (Seq<char>, Seq<char>, Seq<char>, Seq<char>) {
    (from, to, command, data)
}

/// The views of a sequence of packets.
pub open spec fn mails(packets: Seq<Packet>) -> Seq<(Seq<char>, Seq<char>, Seq<char>, Seq<char>)> {
    packets.map_values(|p: Packet| p@)
}

/// The views of a sequence of strings.
pub open spec fn texts(strings: Seq<String>) -> Seq<Seq<char>> {
    strings.map_values(|s: String| s@)
}

/// The range `[lo, hi)` that a dispatcher starting at `start` with ranges of
/// `offset` numbers hands out at its `k`-th request (counting from 0): each
/// `notify` hands out the range at its `range_start` and moves `range_start` by
/// `offset`.
pub open spec fn dispatched_range(start: int, offset: int, k: int) -> (int, int) {
    (start + k * offset, start + (k + 1) * offset)
}

/// The ranges handed out one after another adjoin, and with `offset > 0` every
/// number in `[start, start + count * offset)` lies in exactly one of the first
/// `count` ranges: they are disjoint and leave no gap.
pub proof fn lemma_dispatched_ranges_tile(start: int, offset: int, count: int, n: int)
    requires
        offset > 0,
        start <= n < start + count * offset,
    ensures
        forall|k: int| #[trigger] dispatched_range(start, offset, k).1 == dispatched_range(start, offset, k + 1).0,
        exists|k: int|
            0 <= k < count && #[trigger] dispatched_range(start, offset, k).0 <= n < dispatched_range(start, offset, k).1,
        forall|j: int, k: int|
            #[trigger] dispatched_range(start, offset, j).0 <= n < dispatched_range(start, offset, j).1
                && #[trigger] dispatched_range(start, offset, k).0 <= n < dispatched_range(start, offset, k).1 ==> j == k,
{
    assert forall|k: int| #[trigger] dispatched_range(start, offset, k).1 == dispatched_range(start, offset, k + 1).0 by {
        assert((k + 1) * offset == k * offset + offset) by (nonlinear_arith);
    }
    let d = n - start;
    let k = d / offset;
    assert(k * offset <= d < (k + 1) * offset && 0 <= k < count) by (nonlinear_arith)
        requires
            offset > 0,
            0 <= d < count * offset,
            k == d / offset,
    ;
    assert(dispatched_range(start, offset, k).0 <= n < dispatched_range(start, offset, k).1);
    assert forall|j: int, i: int|
        #[trigger] dispatched_range(start, offset, j).0 <= n < dispatched_range(start, offset, j).1
            && #[trigger] dispatched_range(start, offset, i).0 <= n < dispatched_range(start, offset, i).1 implies j == i by {
        assert(j * offset <= d < (j + 1) * offset);
        assert(i * offset <= d < (i + 1) * offset);
        if j < i {
            assert((j + 1) * offset <= i * offset) by (nonlinear_arith)
                requires
                    j + 1 <= i,
                    offset > 0,
            ;
        } else if i < j {
            assert((i + 1) * offset <= j * offset) by (nonlinear_arith)
                requires
                    i + 1 <= j,
                    offset > 0,
            ;
        }
    }
}

/// What the dispatcher makes of a packet it received.
pub enum DispatcherStep {
    /// `worker ready`: the worker named by the payload waits for a range.
    WorkerReady,
    /// `done`: the reducer finished; the payload is the final result.
    Done,
    /// Any other command, which the dispatcher only reports.
    Unknown,
}

/// The dispatcher: hands out consecutive ranges of `offset` numbers, starting
/// at `range_start`, to the workers that ask for one, and stops every worker
/// it knows of when the reducer is done.
pub struct ActorDispatcher {
    pub address: String,
    pub range_start: u64,
    pub offset: u64,
    pub all_workers: Vec<String>,
}

impl ActorDispatcher {
    /// The workers registered so far, in order.
    pub open spec fn workers(&self) -> Seq<Seq<char>> {
        texts(self.all_workers@)
    }

    /// A dispatcher at `address` whose first range starts at `range_start`,
    /// with no worker registered.
    pub fn new(address: &str, range_start: u64, offset: u64) -> (d: ActorDispatcher)
        ensures
            d.address@ == address@,
            d.range_start == range_start,
            d.offset == offset,
            d.workers() == Seq::<Seq<char>>::empty(),
    {
        let d = ActorDispatcher {
            address: address.to_string(),
            range_start,
            offset,
            all_workers: Vec::new(),
        };
        assert(d.workers() =~= Seq::<Seq<char>>::empty());
        d
    }

    /// Registers a worker, to be stopped when the work is done.
    pub fn save_worker_address(&mut self, address: &str)
        ensures
            final(self).workers() == old(self).workers().push(address@),
            final(self).address == old(self).address,
            final(self).range_start == old(self).range_start,
            final(self).offset == old(self).offset,
    {
        self.all_workers.push(address.to_string());
        assert(self.workers() =~= old(self).workers().push(address@));
    }

    /// What a received packet asks of the dispatcher.
    pub fn on_packet(packet: &Packet) -> (step: DispatcherStep)
        ensures
            packet.command@ == "worker ready"@ ==> step == DispatcherStep::WorkerReady,
            packet.command@ == "done"@ ==> step == DispatcherStep::Done,
            packet.command@ != "worker ready"@ && packet.command@ != "done"@ ==> step
                == DispatcherStep::Unknown,
    {
        proof {
            reveal_strlit("worker ready");
            reveal_strlit("done");
            assert("worker ready"@.len() != "done"@.len());
        }
        if packet.command == "worker ready".to_string() {
            DispatcherStep::WorkerReady
        } else if packet.command == "done".to_string() {
            DispatcherStep::Done
        } else {
            DispatcherStep::Unknown
        }
    }

    /// Hands the next range to `worker`: a `count range` packet for
    /// `range_start..range_start + offset`, after which the next range starts
    /// where this one ends.
    pub fn notify(&mut self, worker: &str) -> (p: Packet)
        requires
            old(self).range_start + old(self).offset <= u64::MAX,
        ensures
            p@ == mail(
                old(self).address@,
                worker@,
                "count range"@,
                range_text(old(self).range_start, (old(self).range_start + old(self).offset) as u64),
            ),
            final(self).range_start == old(self).range_start + old(self).offset,
            final(self).offset == old(self).offset,
            final(self).address == old(self).address,
            final(self).workers() == old(self).workers(),
    {
        let end = self.range_start + self.offset;
        let data = format_range(self.range_start, end);
        let p = Packet::new(self.address.as_str(), worker, "count range", data.as_str());
        self.range_start = end;
        p
    }

    /// The `done` packets, with an empty payload, that stop every registered
    /// worker, in the order they registered.
    pub fn finish(&self) -> (ps: Vec<Packet>)
        ensures
            ps.len() == self.workers().len(),
            forall|k: int|
                0 <= k < ps.len() ==> #[trigger] ps@[k]@ == mail(
                    self.address@,
                    self.workers()[k],
                    "done"@,
                    ""@,
                ),
    {
        let mut ps: Vec<Packet> = Vec::new();
        let mut k: usize = 0;
        while k < self.all_workers.len()
            invariant
                k <= self.all_workers.len(),
                ps.len() == k,
                forall|i: int|
                    0 <= i < k ==> #[trigger] ps@[i]@ == mail(
                        self.address@,
                        self.workers()[i],
                        "done"@,
                        ""@,
                    ),
            decreases self.all_workers.len() - k,
        {
            let p = Packet::new(self.address.as_str(), self.all_workers[k].as_str(), "done", "");
            ps.push(p);
            k = k + 1;
        }
        ps
    }
}

/// The view of an optional string.
pub open spec fn opt_text(o: Option<String>) -> Option<Seq<char>> {
    match o {
        Some(s) => Some(s@),
        None => None,
    }
}

/// The prime numbers `lo <= n < hi`, in increasing order.
pub open spec fn primes_between(lo: int, hi: int) -> Seq<u64>
    decreases hi - lo,
{
    if hi <= lo {
        seq![]
    } else {
        let p = primes_between(lo, hi - 1);
        if is_prime_number(hi - 1) {
            p.push((hi - 1) as u64)
        } else {
            p
        }
    }
}

/// The primes reported for a range are exactly its primes, each once, in
/// increasing order.
pub proof fn lemma_primes_between_are_the_primes(lo: int, hi: int)
    requires
        0 <= lo,
        hi <= u64::MAX + 1,
    ensures
        forall|x: u64| #[trigger] primes_between(lo, hi).contains(x) <==> lo <= x < hi && is_prime_number(x as int),
        forall|a: int, b: int|
            0 <= a < b < primes_between(lo, hi).len() ==> #[trigger] primes_between(lo, hi)[a]
                < #[trigger] primes_between(lo, hi)[b],
    decreases hi - lo,
{
    if hi > lo {
        lemma_primes_between_are_the_primes(lo, hi - 1);
        let p = primes_between(lo, hi - 1);
        let q = primes_between(lo, hi);
        let top = (hi - 1) as u64;
        assert(top == hi - 1);
        assert(q == (if is_prime_number(hi - 1) { p.push(top) } else { p }));
        assert forall|a: int, b: int| 0 <= a < b < q.len() implies #[trigger] q[a] < #[trigger] q[b] by {
            if b < p.len() {
                assert(q[a] == p[a] && q[b] == p[b]);
            } else {
                assert(q[a] == p[a]);
                assert(p.contains(p[a]));
                assert(q[b] == top);
            }
        }
        assert forall|x: u64| #[trigger] q.contains(x) <==> lo <= x < hi && is_prime_number(x as int) by {
            if q.contains(x) {
                let j = choose|j: int| 0 <= j < q.len() && q[j] == x;
                if j < p.len() {
                    assert(q[j] == p[j]);
                    assert(p.contains(x));
                } else {
                    assert(x == top);
                }
            }
            if lo <= x < hi && is_prime_number(x as int) {
                if x == top {
                    assert(q[p.len() as int] == x);
                } else {
                    assert(p.contains(x));
                    let j = choose|j: int| 0 <= j < p.len() && p[j] == x;
                    assert(q[j] == x);
                }
            }
        }
    } else {
        assert forall|x: u64| #[trigger] primes_between(lo, hi).contains(x) implies false by {
            assert(primes_between(lo, hi).len() == 0);
        }
    }
}

/// No number `lo <= n < hi` makes the prime test overflow.
pub open spec fn overflow_free(lo: int, hi: int) -> bool {
    forall|n: int| lo <= n < hi ==> !trial_overflows(n)
}

/// The `prime value` packets from `worker` to `reducer` for the given primes,
/// each with the prime's decimal numeral as payload.
pub open spec fn prime_mails(
    worker: Seq<char>,
    reducer: Seq<char>,
    primes: Seq<u64>,
) -> Seq<(Seq<char>, Seq<char>, Seq<char>, Seq<char>)> {
    primes.map_values(|p: u64| mail(worker, reducer, "prime value"@, decimal(p as nat)))
}

/// What a worker makes of a packet it received.
pub enum CounterStep {
    /// `count range` with a payload that reads as the range `from..to`.
    Count(u64, u64),
    /// `count range` with a payload that does not read as a range.
    BadRange,
    /// `done`: the work is over.
    Finish,
    /// Any other command, which the worker only reports.
    Unknown,
}

/// What a worker sends for one range: the `prime value` packets, then (if the
/// range was checked to its end) its `worker ready` packet.
pub struct CountOutcome {
    pub mails: Vec<Packet>,
    /// `false` when the prime test overflowed on a number of the range; the
    /// packets are then those for the primes before that number.
    pub finished: bool,
}

/// A counting worker: tests the numbers of each range it gets for primality,
/// reports every prime to the reducer, and asks the dispatcher for more.
pub struct ActorCounter {
    pub address: String,
    pub dispatcher_address: Option<String>,
    pub reducer_address: Option<String>,
}

impl ActorCounter {
    /// A worker at `address` that knows neither its dispatcher nor its reducer.
    pub fn new(address: &str) -> (c: ActorCounter)
        ensures
            c.address@ == address@,
            c.dispatcher_address is None,
            c.reducer_address is None,
    {
        ActorCounter { address: address.to_string(), dispatcher_address: None, reducer_address: None }
    }

    /// Records where to ask for work.
    pub fn save_dispatcher_address(&mut self, address: &str)
        ensures
            opt_text(final(self).dispatcher_address) == Some(address@),
            final(self).reducer_address == old(self).reducer_address,
            final(self).address == old(self).address,
    {
        self.dispatcher_address = Some(address.to_string());
    }

    /// Records where to report primes.
    pub fn save_reducer_address(&mut self, address: &str)
        ensures
            opt_text(final(self).reducer_address) == Some(address@),
            final(self).dispatcher_address == old(self).dispatcher_address,
            final(self).address == old(self).address,
    {
        self.reducer_address = Some(address.to_string());
    }

    /// The dispatcher's address, which must have been recorded.
    pub fn get_dispatcher_address(&self) -> (a: String)
        requires
            self.dispatcher_address is Some,
        ensures
            Some(a@) == opt_text(self.dispatcher_address),
    {
        match &self.dispatcher_address {
            Some(a) => a.clone(),
            None => String::new(),
        }
    }

    /// The reducer's address, which must have been recorded.
    pub fn get_reducer_address(&self) -> (a: String)
        requires
            self.reducer_address is Some,
        ensures
            Some(a@) == opt_text(self.reducer_address),
    {
        match &self.reducer_address {
            Some(a) => a.clone(),
            None => String::new(),
        }
    }

    /// The packet that tells the dispatcher this worker waits for a range:
    /// `worker ready`, with the worker's own address as payload.
    pub fn ready(&self) -> (p: Packet)
        requires
            self.dispatcher_address is Some,
        ensures
            p@ == mail(
                self.address@,
                opt_text(self.dispatcher_address).unwrap(),
                "worker ready"@,
                self.address@,
            ),
    {
        let dispatcher = self.get_dispatcher_address();
        Packet::new(self.address.as_str(), dispatcher.as_str(), "worker ready", self.address.as_str())
    }

    /// What a received packet asks of the worker.
    pub fn on_packet(packet: &Packet) -> (step: CounterStep)
        ensures
            packet.command@ == "count range"@ ==> match parse_range_spec(packet.data@) {
                Some((a, b)) => step == CounterStep::Count(a, b),
                None => step == CounterStep::BadRange,
            },
            packet.command@ == "done"@ ==> step == CounterStep::Finish,
            packet.command@ != "count range"@ && packet.command@ != "done"@ ==> step
                == CounterStep::Unknown,
    {
        proof {
            reveal_strlit("count range");
            reveal_strlit("done");
            assert("count range"@.len() != "done"@.len());
        }
        if packet.command == "count range".to_string() {
            match parse_range(packet.data.as_str()) {
                Some((a, b)) => CounterStep::Count(a, b),
                None => CounterStep::BadRange,
            }
        } else if packet.command == "done".to_string() {
            CounterStep::Finish
        } else {
            CounterStep::Unknown
        }
    }

    /// Counts the range `from..to`: a `prime value` packet to the reducer for
    /// each prime of the range, in increasing order, then the
    /// `worker ready` packet to the dispatcher. Where the prime test overflows
    /// on a number, the packets stop before it and the outcome is not finished.
    pub fn count(&self, from: u64, to: u64) -> (out: CountOutcome)
        requires
            self.dispatcher_address is Some,
            self.reducer_address is Some,
        ensures
            out.finished ==> overflow_free(from as int, to as int) && mails(out.mails@) == prime_mails(
                self.address@,
                opt_text(self.reducer_address).unwrap(),
                primes_between(from as int, to as int),
            ).push(
                mail(
                    self.address@,
                    opt_text(self.dispatcher_address).unwrap(),
                    "worker ready"@,
                    self.address@,
                ),
            ),
            !out.finished ==> exists|stop: int|
                from <= stop < to && trial_overflows(stop) && overflow_free(from as int, stop)
                    && mails(out.mails@) == prime_mails(
                    self.address@,
                    opt_text(self.reducer_address).unwrap(),
                    primes_between(from as int, stop),
                ),
    {
        let reducer = self.get_reducer_address();
        let ghost worker = self.address@;
        let mut packets: Vec<Packet> = Vec::new();
        let mut i: u64 = from;
        while i < to
            invariant
                from <= i,
                i <= to || i == from,
                reducer@ == opt_text(self.reducer_address).unwrap(),
                worker == self.address@,
                overflow_free(from as int, i as int),
                mails(packets@) == prime_mails(worker, reducer@, primes_between(from as int, i as int)),
            decreases to - i,
        {
            let ghost before = packets@;
            match try_is_prime(i) {
                None => {
                    assert(from <= i < to && trial_overflows(i as int));
                    return CountOutcome { mails: packets, finished: false };
                },
                Some(true) => {
                    let data = format_u64(i);
                    let p = Packet::new(self.address.as_str(), reducer.as_str(), "prime value", data.as_str());
                    packets.push(p);
                    assert(mails(packets@) =~= mails(before).push(p@));
                },
                Some(false) => {},
            }
            assert(primes_between(from as int, i + 1) == (if is_prime_number(i as int) {
                primes_between(from as int, i as int).push(i)
            } else {
                primes_between(from as int, i as int)
            }));
            assert(prime_mails(worker, reducer@, primes_between(from as int, i + 1)) =~= (if is_prime_number(i as int) {
                prime_mails(worker, reducer@, primes_between(from as int, i as int)).push(
                    mail(worker, reducer@, "prime value"@, decimal(i as nat)))
            } else {
                prime_mails(worker, reducer@, primes_between(from as int, i as int))
            }));
            i = i + 1;
        }
        if from >= to {
            assert(primes_between(from as int, to as int) =~= primes_between(from as int, i as int));
        }
        let ghost before = packets@;
        packets.push(self.ready());
        assert(mails(packets@) =~= mails(before).push(packets@[packets@.len() - 1]@));
        CountOutcome { mails: packets, finished: true }
    }
}

/// The parts joined by commas, as `[..].join(",")` writes them.
pub open spec fn join_commas(parts: Seq<Seq<char>>) -> Seq<char>
    decreases parts.len(),
{
    if parts.len() == 0 {
        seq![]
    } else if parts.len() == 1 {
        parts[0]
    } else {
        join_commas(parts.drop_last()) + seq![','] + parts.last()
    }
}

/// The total length of the parts.
pub open spec fn total_len(parts: Seq<Seq<char>>) -> nat
    decreases parts.len(),
{
    if parts.len() == 0 {
        0
    } else {
        total_len(parts.drop_last()) + parts.last().len()
    }
}

/// Joining keeps every part: one more part adds a comma and that part at the
/// end, and the joined text is as long as all parts plus one comma between
/// each two neighbours.
pub proof fn lemma_join_commas_keeps_every_part(parts: Seq<Seq<char>>, x: Seq<char>)
    ensures
        parts.len() > 0 ==> join_commas(parts.push(x)) == join_commas(parts) + seq![','] + x,
        parts.len() > 0 ==> join_commas(parts).len() == total_len(parts) + parts.len() - 1,
        parts.len() == 0 ==> join_commas(parts.push(x)) == x,
    decreases parts.len(),
{
    assert(parts.push(x).drop_last() =~= parts);
    if parts.len() > 1 {
        lemma_join_commas_keeps_every_part(parts.drop_last(), parts.last());
        assert(parts.drop_last().push(parts.last()) =~= parts);
    }
    if parts.len() == 1 {
        assert(parts.drop_last() =~= Seq::<Seq<char>>::empty());
    }
}

/// The numbers that the texts denote, each as `u64` parsing reads it.
pub open spec fn numeric_keys(parts: Seq<Seq<char>>) -> Seq<u64> {
    parts.map_values(|t: Seq<char>| parse_u64_spec(t).unwrap())
}

/// The parts listed in the given order.
pub open spec fn reorder(parts: Seq<Seq<char>>, order: Seq<usize>) -> Seq<Seq<char>> {
    order.map_values(|j: usize| parts[j as int])
}

/// The reducer has no result for these payloads: there are two or more, so
/// the sort reads each as a `u64`, and one of them does not read.
pub open spec fn report_fails(parts: Seq<Seq<char>>) -> bool {
    parts.len() >= 2 && exists|i: int| 0 <= i < parts.len() && #[trigger] parse_u64_spec(parts[i]) is None
}

/// The reducer's result for these payloads: a single payload (or none) as it
/// is; else the payloads sorted by numeric value, equal values in arrival
/// order, joined by commas; no result where [`report_fails`].
pub open spec fn reducer_report(parts: Seq<Seq<char>>) -> Option<Seq<char>> {
    if parts.len() < 2 {
        Some(join_commas(parts))
    } else if report_fails(parts) {
        None
    } else {
        Some(join_commas(reorder(parts, stable_order_of(numeric_keys(parts)))))
    }
}

/// The reducer: collects the primes that workers report until it holds the
/// required number, then sends them, sorted by value, to the dispatcher.
pub struct ActorReducer {
    pub address: String,
    pub required_prime_count: u64,
    pub received_primes: Vec<String>,
    pub dispatcher_address: Option<String>,
}

impl ActorReducer {
    /// A reducer at `address` that waits for `required_prime_count` primes and
    /// does not know its dispatcher yet.
    pub fn new(address: &str, required_prime_count: u64) -> (r: ActorReducer)
        ensures
            r.address@ == address@,
            r.required_prime_count == required_prime_count,
            r.received_primes@ == Seq::<String>::empty(),
            r.dispatcher_address is None,
    {
        ActorReducer {
            address: address.to_string(),
            required_prime_count,
            received_primes: Vec::new(),
            dispatcher_address: None,
        }
    }

    /// Records where to send the result.
    pub fn save_dispatcher_address(&mut self, address: &str)
        ensures
            opt_text(final(self).dispatcher_address) == Some(address@),
            final(self).address == old(self).address,
            final(self).required_prime_count == old(self).required_prime_count,
            final(self).received_primes == old(self).received_primes,
    {
        self.dispatcher_address = Some(address.to_string());
    }

    /// The dispatcher's address, which must have been recorded.
    pub fn get_dispatcher_address(&self) -> (a: String)
        requires
            self.dispatcher_address is Some,
        ensures
            Some(a@) == opt_text(self.dispatcher_address),
    {
        match &self.dispatcher_address {
            Some(a) => a.clone(),
            None => String::new(),
        }
    }

    /// Takes a received packet: a `prime value` payload is kept, anything else
    /// is left to the caller to report as unknown.
    pub fn on_packet(&mut self, packet: &Packet) -> (accepted: bool)
        ensures
            accepted == (packet.command@ == "prime value"@),
            accepted ==> texts(final(self).received_primes@) == texts(old(self).received_primes@).push(
                packet.data@,
            ),
            !accepted ==> final(self).received_primes == old(self).received_primes,
            final(self).address == old(self).address,
            final(self).required_prime_count == old(self).required_prime_count,
            final(self).dispatcher_address == old(self).dispatcher_address,
    {
        if packet.command == "prime value".to_string() {
            let ghost before = self.received_primes@;
            self.received_primes.push(packet.data.clone());
            assert(texts(self.received_primes@) =~= texts(before).push(packet.data@));
            true
        } else {
            false
        }
    }

    /// Whether the required number of primes has arrived.
    pub fn is_complete(&self) -> (r: bool)
        ensures
            r == (self.received_primes.len() >= self.required_prime_count),
    {
        (self.received_primes.len() as u64) >= self.required_prime_count
    }

    /// The result: the received payloads sorted by numeric value (equal values
    /// in arrival order) and joined by commas (see [`reducer_report`]); `None`
    /// exactly where the sort meets a payload that does not read as a `u64`.
    pub fn report(&self) -> (r: Option<String>)
        ensures
            opt_text(r) == reducer_report(texts(self.received_primes@)),
    {
        let ghost parts = texts(self.received_primes@);
        let n = self.received_primes.len();
        if n < 2 {
            let mut order: Vec<usize> = Vec::new();
            let mut i: usize = 0;
            while i < n
                invariant
                    i <= n,
                    n < 2,
                    order@ =~= Seq::new(i as nat, |j: int| j as usize),
                decreases n - i,
            {
                order.push(i);
                i = i + 1;
            }
            assert(reorder(parts, order@) =~= parts);
            return Some(self.join_in_order(&order));
        }
        let mut keys: Vec<u64> = Vec::new();
        let mut i: usize = 0;
        while i < n
            invariant
                n == self.received_primes.len(),
                n >= 2,
                parts == texts(self.received_primes@),
                i <= n,
                keys.len() == i,
                forall|j: int| 0 <= j < i ==> parse_u64_spec(#[trigger] parts[j]) == Some(keys@[j]),
            decreases n - i,
        {
            match parse_u64(self.received_primes[i].as_str()) {
                Some(k) => keys.push(k),
                None => {
                    assert(parts[i as int] == self.received_primes@[i as int]@);
                    assert(parse_u64_spec(parts[i as int]) is None);
                    return None;
                },
            }
            i = i + 1;
        }
        assert(keys@ =~= numeric_keys(parts)) by {
            assert forall|j: int| 0 <= j < n implies keys@[j] == #[trigger] numeric_keys(parts)[j] by {
                assert(parse_u64_spec(parts[j]) == Some(keys@[j]));
            }
        }
        assert forall|j: int| 0 <= j < n implies #[trigger] parse_u64_spec(self.received_primes@[j]@) is Some by {
            assert(parse_u64_spec(parts[j]) == Some(keys@[j]));
        }
        let order = stable_order(&keys);
        Some(self.join_in_order(&order))
    }

    fn join_in_order(&self, order: &Vec<usize>) -> (s: String)
        requires
            forall|j: int| 0 <= j < order.len() ==> #[trigger] order@[j] < self.received_primes.len(),
        ensures
            s@ == join_commas(reorder(texts(self.received_primes@), order@)),
    {
        let ghost parts = reorder(texts(self.received_primes@), order@);
        let mut s = String::new();
        let mut k: usize = 0;
        while k < order.len()
            invariant
                k <= order.len(),
                parts == reorder(texts(self.received_primes@), order@),
                forall|j: int| 0 <= j < order.len() ==> #[trigger] order@[j] < self.received_primes.len(),
                s@ == join_commas(parts.subrange(0, k as int)),
            decreases order.len() - k,
        {
            let ghost before = s@;
            if k > 0 {
                s.append(",");
                proof {
                    reveal_strlit(",");
                }
            }
            s.append(self.received_primes[order[k]].as_str());
            proof {
                let next = parts.subrange(0, k + 1);
                assert(next.drop_last() =~= parts.subrange(0, k as int));
                assert(next.last() == self.received_primes@[order@[k as int] as int]@);
                if k == 0 {
                    assert(s@ =~= next[0]);
                } else {
                    assert(s@ =~= before + seq![','] + next.last());
                }
            }
            k = k + 1;
        }
        assert(parts.subrange(0, k as int) =~= parts);
        s
    }

    /// The `done` packet to the dispatcher with the result (see [`Self::report`]),
    /// or `None` where there is no result.
    pub fn finish(&self) -> (p: Option<Packet>)
        requires
            self.dispatcher_address is Some,
        ensures
            match reducer_report(texts(self.received_primes@)) {
                Some(text) => p matches Some(q) && q@ == mail(
                    self.address@,
                    opt_text(self.dispatcher_address).unwrap(),
                    "done"@,
                    text,
                ),
                None => p is None,
            },
    {
        let dispatcher = self.get_dispatcher_address();
        match self.report() {
            Some(text) => Some(Packet::new(self.address.as_str(), dispatcher.as_str(), "done", text.as_str())),
            None => None,
        }
    }
}

/// The decimal numerals of the given numbers.
pub open spec fn decimals(ns: Seq<u64>) -> Seq<Seq<char>> {
    ns.map_values(|n: u64| decimal(n as nat))
}

/// When the reducer receives the payloads of `prime value` packets for
/// increasing numbers (as one worker sends them), its result lists them in
/// that same order.
pub proof fn lemma_report_keeps_increasing_primes(ps: Seq<u64>)
    requires
        forall|a: int, b: int| 0 <= a < b < ps.len() ==> ps[a] < ps[b],
        ps.len() <= usize::MAX,
    ensures
        reducer_report(decimals(ps)) == Some(join_commas(decimals(ps))),
{
    let parts = decimals(ps);
    if ps.len() >= 2 {
        assert forall|i: int| 0 <= i < parts.len() implies #[trigger] parse_u64_spec(parts[i]) == Some(ps[i]) by {
            lemma_parse_decimal(ps[i]);
        }
        assert(!report_fails(parts));
        assert(numeric_keys(parts) =~= ps);
        let identity = Seq::new(ps.len(), |j: int| j as usize);
        assert(is_stable_order(ps, identity));
        lemma_stable_order_unique(ps, identity, stable_order_of(ps));
        assert(reorder(parts, identity) =~= parts);
    }
}

} // verus!
