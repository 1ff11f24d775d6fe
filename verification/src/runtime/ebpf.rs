//! The allow table of the network filter: keys of a prefix length and a
//! network address, looked up by longest prefix match.

use vstd::prelude::*;
use crate::addr::{quad_bits, Ipv4};
use crate::error::{is_prefix_error, MoriError};

verus! {

/// The longest prefix of an IPv4 address.
pub const MAX_PREFIX_LEN: u8 = 32;

/// The mask that keeps the top `prefix_len` bits of an address.
pub open spec fn prefix_mask(prefix_len: u32) -> u32 {
    if prefix_len == 0 {
        0u32
    } else if prefix_len >= 32 {
        0xFFFF_FFFFu32
    } else {
        0xFFFF_FFFFu32 << ((32 - prefix_len) as u32)
    }
}

/// The address `bits` with all but its top `prefix_len` bits set to zero.
pub open spec fn network_bits(bits: u32, prefix_len: u32) -> u32 {
    bits & prefix_mask(prefix_len)
}

/// A key of the allow table, as a value of specifications: a prefix length
/// and the network address, which has no bit set below the prefix.
pub type TableKey = (u32, u32);

/// The key under which `addr` with prefix length `prefix_len` is kept.
pub open spec fn key_of(addr: u32, prefix_len: u32) -> TableKey {
    (prefix_len, network_bits(addr, prefix_len))
}

/// Whether the key covers the destination `dest`: the top bits of `dest`,
/// as many as the prefix length says, are those of the key.
pub open spec fn key_matches(key: TableKey, dest: u32) -> bool {
    key.0 <= 32 && network_bits(dest, key.0) == key.1
}

/// Whether a connection to `dest` is admitted: some key of the table covers
/// it.
pub open spec fn admitted(table: Set<TableKey>, dest: u32) -> bool {
    exists|key: TableKey| #[trigger] table.contains(key) && key_matches(key, dest)
}

/// Whether `r` is what a longest-prefix lookup of `dest` gives: the prefix
/// length of the longest key that covers `dest`, or nothing where no key
/// covers it.
pub open spec fn is_longest_match(table: Set<TableKey>, dest: u32, r: Option<u32>) -> bool {
    match r {
        None => !admitted(table, dest),
        Some(p) => {
            &&& table.contains(key_of(dest, p))
            &&& p <= 32
            &&& forall|key: TableKey| #[trigger]
                table.contains(key) && key_matches(key, dest) ==> key.0 <= p
        },
    }
}

/// A key of the allow table as the kernel holds it: the prefix length and
/// the four bytes of the network address, first octet first.
#[derive(Clone, Copy, Debug, PartialEq, Eq)]
pub struct LpmKey {
    pub prefix_len: u32,
    pub data: [u8; 4],
}

impl View for LpmKey {
    type V = TableKey;

    open spec fn view(&self) -> TableKey {
        (
            self.prefix_len,
            (self.data[0] as int * 16777216 + self.data[1] as int * 65536 + self.data[2] as int
                * 256 + self.data[3] as int) as u32,
        )
    }
}

/// The address `addr` with all but its top `prefix_len` bits set to zero.
pub fn network_of(addr: Ipv4, prefix_len: u8) -> (net: Ipv4)
    requires
        prefix_len <= 32,
    ensures
        net.bits == network_bits(addr.bits, prefix_len as u32),
{
    let mask: u32 = if prefix_len == 0 {
        0
    } else if prefix_len == 32 {
        0xFFFF_FFFF
    } else {
        0xFFFF_FFFFu32 << ((32 - prefix_len) as u32)
    };
    Ipv4::from_bits(addr.to_bits() & mask)
}

/// The key under which `addr` with prefix length `prefix_len` is kept; a
/// prefix length above 32 is refused.
pub fn lpm_key(addr: Ipv4, prefix_len: u8) -> (r: Result<LpmKey, MoriError>)
    ensures
        match r {
            Ok(key) => prefix_len <= 32 && key@ == key_of(addr.bits, prefix_len as u32),
            Err(e) => prefix_len > 32 && is_prefix_error(e, addr, prefix_len),
        },
{
    if prefix_len > MAX_PREFIX_LEN {
        return Err(
            MoriError::InvalidCidrPrefix { addr, prefix_len, max_allowed: MAX_PREFIX_LEN },
        );
    }
    let net = network_of(addr, prefix_len);
    let data = net.octets();
    Ok(LpmKey { prefix_len: prefix_len as u32, data })
}

/// The verdict of the connect hook that lets a connection go on.
pub const CONNECT_ALLOW: i32 = 1;

/// The verdict of the connect hook that refuses a connection.
pub const CONNECT_DENY: i32 = 0;

/// The address itself is among those that its key covers, whatever the
/// prefix length.
pub proof fn lemma_key_covers_address(addr: u32, prefix_len: u32)
    requires
        prefix_len <= 32,
    ensures
        key_matches(key_of(addr, prefix_len), addr),
{
}

/// Setting the low bits to zero twice is setting them once: a key is the
/// key of its own network address.
pub proof fn lemma_network_bits_idempotent(addr: u32, prefix_len: u32)
    requires
        prefix_len <= 32,
    ensures
        network_bits(network_bits(addr, prefix_len), prefix_len) == network_bits(addr, prefix_len),
{
    let m = prefix_mask(prefix_len);
    assert((addr & m) & m == addr & m) by (bit_vector);
}

/// With the full prefix a key covers its own address only, and with the
/// empty prefix it covers every address.
pub proof fn lemma_prefix_extremes(addr: u32, dest: u32)
    ensures
        key_matches(key_of(addr, 32), dest) <==> dest == addr,
        key_matches(key_of(addr, 0), dest),
{
    assert(addr & 0xFFFF_FFFFu32 == addr) by (bit_vector);
    assert(dest & 0xFFFF_FFFFu32 == dest) by (bit_vector);
    assert(addr & 0u32 == 0u32) by (bit_vector);
    assert(dest & 0u32 == 0u32) by (bit_vector);
}

/// One change of the allow table.
#[derive(Clone, Copy, Debug, PartialEq, Eq, Structural)]
pub enum FilterOp {
    /// Put the key of an address and a prefix length into the table.
    Allow(Ipv4, u8),
    /// Take the key of an address and a prefix length out of the table.
    Remove(Ipv4, u8),
}

/// Whether the change names a prefix length that an address can have.
pub open spec fn op_in_range(op: FilterOp) -> bool {
    match op {
        FilterOp::Allow(_, p) => p <= 32,
        FilterOp::Remove(_, p) => p <= 32,
    }
}

/// The key that the change is about.
pub open spec fn op_key(op: FilterOp) -> TableKey {
    match op {
        FilterOp::Allow(addr, p) => key_of(addr.bits, p as u32),
        FilterOp::Remove(addr, p) => key_of(addr.bits, p as u32),
    }
}

/// The table after one change. Putting in a key that is there, and taking
/// out one that is not, leave the table as it is.
pub open spec fn apply_op(table: Set<TableKey>, op: FilterOp) -> Set<TableKey> {
    match op {
        FilterOp::Allow(_, _) => table.insert(op_key(op)),
        FilterOp::Remove(_, _) => table.remove(op_key(op)),
    }
}

/// The table after the changes, in their order.
pub open spec fn apply_ops(table: Set<TableKey>, ops: Seq<FilterOp>) -> Set<TableKey>
    decreases ops.len(),
{
    if ops.len() == 0 {
        table
    } else {
        apply_op(apply_ops(table, ops.drop_last()), ops.last())
    }
}

/// What controls the allow table of the network filter.
///
/// `table` is the set of keys that the filter holds. A call that succeeds
/// has made its change; a call that fails has left the table as it was.
/// `requests` is the record of what was asked: every call adds its change
/// to it, whatever comes of the call. `answer` is what the last call gave.
pub trait EbpfController {
    /// Whether the controller is in a state in which it can be used. A
    /// controller that does not say so is not: what is proved of the code
    /// that drives a controller holds for those that state their table.
    open spec fn valid(&self) -> bool {
        false
    }

    /// The keys that the filter holds.
    open spec fn table(&self) -> Set<TableKey> {
        Set::empty()
    }

    /// The changes that the controller was asked for, in the order in
    /// which it was asked, whether it made them or not.
    open spec fn requests(&self) -> Seq<FilterOp> {
        Seq::empty()
    }

    /// What the controller answered when it was last asked; nothing before
    /// it was first asked.
    open spec fn answer(&self) -> Option<Result<(), MoriError>> {
        None
    }

    /// Admits connections to the addresses under `addr` with prefix length
    /// `prefix_len`.
    fn allow_network(&mut self, addr: Ipv4, prefix_len: u8) -> (r: Result<(), MoriError>)
        requires
            old(self).valid(),
        ensures
            final(self).valid(),
            final(self).requests() == old(self).requests().push(FilterOp::Allow(addr, prefix_len)),
            final(self).answer() == Some(r),
            match r {
                Ok(_) => prefix_len <= 32 && final(self).table() == old(self).table().insert(
                    key_of(addr.bits, prefix_len as u32),
                ),
                Err(_) => final(self).table() == old(self).table(),
            },
    ;

    /// Takes back what `allow_network` did for the same address and prefix
    /// length. That the key is not there is no failure.
    fn remove_network(&mut self, addr: Ipv4, prefix_len: u8) -> (r: Result<(), MoriError>)
        requires
            old(self).valid(),
        ensures
            final(self).valid(),
            final(self).requests() == old(self).requests().push(FilterOp::Remove(addr, prefix_len)),
            final(self).answer() == Some(r),
            match r {
                Ok(_) => prefix_len <= 32 && final(self).table() == old(self).table().remove(
                    key_of(addr.bits, prefix_len as u32),
                ),
                Err(_) => final(self).table() == old(self).table(),
            },
    ;
}

/// Asks the controller for one change: to admit what `op` names, or to
/// take it back. The controller is asked once, for that change and no
/// other, and what it answers is what is returned.
pub fn run_op<E: EbpfController>(ebpf: &mut E, op: FilterOp) -> (r: Result<(), MoriError>)
    requires
        old(ebpf).valid(),
    ensures
        final(ebpf).valid(),
        final(ebpf).requests() == old(ebpf).requests().push(op),
        final(ebpf).answer() == Some(r),
        match r {
            Ok(_) => op_in_range(op) && final(ebpf).table() == apply_op(old(ebpf).table(), op),
            Err(_) => final(ebpf).table() == old(ebpf).table(),
        },
{
    match op {
        FilterOp::Allow(addr, p) => ebpf.allow_network(addr, p),
        FilterOp::Remove(addr, p) => ebpf.remove_network(addr, p),
    }
}

/// What a controller shows of itself: the keys that its filter holds, the
/// changes that it was asked for, and what it answered last.
pub struct FilterView {
    pub table: Set<TableKey>,
    pub requests: Seq<FilterOp>,
    pub answer: Option<Result<(), MoriError>>,
}

/// What the controller `ebpf` shows of itself.
pub open spec fn filter_view<E: EbpfController>(ebpf: E) -> FilterView {
    FilterView { table: ebpf.table(), requests: ebpf.requests(), answer: ebpf.answer() }
}

/// Whether a controller that showed `before` shows `after` once it has been
/// asked for the changes `ops`, in their order, up to the first that it
/// refused, and `r` is what came of that.
///
/// Where all was granted, the table holds every change, the controller was
/// asked for each of them and for nothing else, and `r` is `Ok`. Where a
/// change was refused, the table holds the changes before it, the
/// controller was asked for those and for the one that it refused and for
/// nothing after it, and `r` is the refusal as the controller gave it.
pub open spec fn plan_outcome(
    before: FilterView,
    after: FilterView,
    ops: Seq<FilterOp>,
    r: Result<(), MoriError>,
) -> bool {
    match r {
        Ok(_) => {
            &&& after.table == apply_ops(before.table, ops)
            &&& after.requests == before.requests + ops
            &&& after.answer == (if ops.len() > 0 {
                Some(r)
            } else {
                before.answer
            })
        },
        Err(_) => exists|k: int|
            0 <= k < ops.len() && after.table == #[trigger] apply_ops(before.table, ops.take(k))
                && after.requests == before.requests + ops.take(k + 1) && after.answer == Some(r),
    }
}

/// Asks the controller for the changes of `plan` in their order, and stops
/// at the first that it refuses. The controller is asked for nothing that
/// the plan does not hold, and a refusal is returned as the controller gave
/// it.
pub fn run_plan<E: EbpfController>(ebpf: &mut E, plan: &Vec<FilterOp>) -> (r: Result<
    (),
    MoriError,
>)
    requires
        old(ebpf).valid(),
    ensures
        final(ebpf).valid(),
        plan_outcome(filter_view(*old(ebpf)), filter_view(*final(ebpf)), plan@, r),
        r is Ok ==> forall|i: int| 0 <= i < plan@.len() ==> op_in_range(#[trigger] plan@[i]),
{
    let mut i: usize = 0;
    proof {
        assert(plan@.take(0) =~= Seq::<FilterOp>::empty());
        assert(ebpf.requests() =~= old(ebpf).requests() + plan@.take(0));
    }
    while i < plan.len()
        invariant
            i <= plan@.len(),
            ebpf.valid(),
            ebpf.table() == apply_ops(old(ebpf).table(), plan@.take(i as int)),
            ebpf.requests() == old(ebpf).requests() + plan@.take(i as int),
            ebpf.answer() == (if i > 0 {
                Some(Ok::<(), MoriError>(()))
            } else {
                old(ebpf).answer()
            }),
            forall|k: int| 0 <= k < i ==> op_in_range(#[trigger] plan@[k]),
        decreases plan@.len() - i,
    {
        proof {
            assert(plan@.take(i + 1).drop_last() =~= plan@.take(i as int));
            assert(plan@.take(i + 1).last() == plan@[i as int]);
            assert(old(ebpf).requests() + plan@.take(i + 1) =~= (old(ebpf).requests() + plan@.take(
                i as int,
            )).push(plan@[i as int]));
        }
        match run_op(ebpf, plan[i]) {
            Ok(done) => {
                proof {
                    assert(done == ());
                }
            },
            Err(e) => {
                proof {
                    let before = filter_view(*old(ebpf));
                    let after = filter_view(*ebpf);
                    assert(after.table == apply_ops(before.table, plan@.take(i as int)));
                    assert(after.requests == before.requests + plan@.take(i + 1));
                    assert(plan_outcome(before, after, plan@, Err::<(), MoriError>(e)));
                }
                return Err(e);
            },
        }
        i = i + 1;
    }
    proof {
        assert(plan@.take(i as int) =~= plan@);
    }
    Ok(())
}

/// An allow table kept in memory, with the capacity and the lookup of the
/// one in the kernel.
pub struct MemoryFilter {
    keys: Vec<(u32, u32)>,
    capacity: usize,
    asked: Ghost<Seq<FilterOp>>,
    answered: Ghost<Option<Result<(), MoriError>>>,
}

spec fn holds_key(keys: Seq<(u32, u32)>, key: TableKey) -> bool {
    exists|i: int| 0 <= i < keys.len() && #[trigger] keys[i] == key
}

impl MemoryFilter {
    /// The number of keys that the table can hold.
    pub closed spec fn limit(&self) -> nat {
        self.capacity as nat
    }

    /// The number of keys in the table.
    pub closed spec fn count(&self) -> nat {
        self.keys@.len()
    }

    /// An empty table that can hold `capacity` keys.
    pub fn new(capacity: usize) -> (f: MemoryFilter)
        ensures
            f.valid(),
            f.table() == Set::<TableKey>::empty(),
            f.requests() == Seq::<FilterOp>::empty(),
            f.answer() is None,
            f.limit() == capacity,
            f.count() == 0,
    {
        let f = MemoryFilter {
            keys: Vec::new(),
            capacity,
            asked: Ghost(Seq::empty()),
            answered: Ghost(None),
        };
        proof {
            assert(f.table() =~= Set::<TableKey>::empty());
        }
        f
    }

    /// The number of keys in the table.
    pub fn len(&self) -> (n: usize)
        ensures
            n == self.count(),
    {
        self.keys.len()
    }

    fn position(&self, key: (u32, u32)) -> (r: Option<usize>)
        ensures
            match r {
                Some(i) => i < self.keys@.len() && self.keys@[i as int] == key,
                None => !holds_key(self.keys@, key),
            },
    {
        let mut i: usize = 0;
        while i < self.keys.len()
            invariant
                i <= self.keys@.len(),
                forall|k: int| 0 <= k < i ==> #[trigger] self.keys@[k] != key,
            decreases self.keys@.len() - i,
        {
            if self.keys[i].0 == key.0 && self.keys[i].1 == key.1 {
                return Some(i);
            }
            i = i + 1;
        }
        None
    }

    /// Whether the table holds the key of `addr` with prefix length
    /// `prefix_len`.
    pub fn contains(&self, addr: Ipv4, prefix_len: u8) -> (b: bool)
        ensures
            b == (prefix_len <= 32 && self.table().contains(key_of(addr.bits, prefix_len as u32))),
    {
        if prefix_len > MAX_PREFIX_LEN {
            return false;
        }
        let net = network_of(addr, prefix_len);
        self.position((prefix_len as u32, net.bits)).is_some()
    }

    /// The prefix length of the longest key that covers `dest`.
    pub fn lookup(&self, dest: Ipv4) -> (r: Option<u32>)
        requires
            self.valid(),
        ensures
            is_longest_match(self.table(), dest.bits, r),
    {
        let mut best: Option<u32> = None;
        let mut i: usize = 0;
        while i < self.keys.len()
            invariant
                i <= self.keys@.len(),
                self.valid(),
                match best {
                    Some(p) => p <= 32 && holds_key(self.keys@, key_of(dest.bits, p)),
                    None => true,
                },
                forall|k: int|
                    0 <= k < i && key_matches(#[trigger] self.keys@[k], dest.bits) ==> best is Some
                        && self.keys@[k].0 <= best->Some_0,
            decreases self.keys@.len() - i,
        {
            let (p, net) = self.keys[i];
            if p <= 32 {
                let masked = network_of(dest, p as u8);
                if masked.bits == net {
                    let better = match best {
                        Some(b) => p > b,
                        None => true,
                    };
                    if better {
                        best = Some(p);
                        proof {
                            assert(self.keys@[i as int] == key_of(dest.bits, p));
                        }
                    }
                }
            }
            i = i + 1;
        }
        proof {
            let table = self.table();
            match best {
                Some(p) => {
                    assert forall|key: TableKey| #[trigger]
                        table.contains(key) && key_matches(key, dest.bits) implies key.0 <= p by {
                        let k = choose|k: int| 0 <= k < self.keys@.len() && #[trigger] self.keys@[k] == key;
                        assert(key_matches(self.keys@[k], dest.bits));
                    }
                },
                None => {
                    if admitted(table, dest.bits) {
                        let key = choose|key: TableKey| #[trigger]
                            table.contains(key) && key_matches(key, dest.bits);
                        let k = choose|k: int| 0 <= k < self.keys@.len() && #[trigger] self.keys@[k] == key;
                        assert(key_matches(self.keys@[k], dest.bits));
                    }
                },
            }
        }
        best
    }

    /// Whether a connection to `dest` is admitted: the lookup finds a key.
    pub fn admits(&self, dest: Ipv4) -> (b: bool)
        requires
            self.valid(),
        ensures
            b == admitted(self.table(), dest.bits),
    {
        let found = self.lookup(dest);
        proof {
            match found {
                Some(p) => {
                    assert(self.table().contains(key_of(dest.bits, p)));
                    assert(key_matches(key_of(dest.bits, p), dest.bits));
                },
                None => {},
            }
        }
        found.is_some()
    }
}

impl MemoryFilter {
    /// Puts the key of `addr` with prefix length `prefix_len` into the
    /// table.
    fn put(&mut self, addr: Ipv4, prefix_len: u8) -> (r: Result<(), MoriError>)
        requires
            old(self).valid(),
        ensures
            final(self).valid(),
            final(self).requests() == old(self).requests(),
            final(self).answer() == old(self).answer(),
            match r {
                Ok(_) => prefix_len <= 32 && final(self).table() == old(self).table().insert(
                    key_of(addr.bits, prefix_len as u32),
                ),
                Err(_) => final(self).table() == old(self).table(),
            },
            r is Ok <==> prefix_len <= 32 && (old(self).table().contains(
                key_of(addr.bits, prefix_len as u32),
            ) || old(self).count() < old(self).limit()),
            prefix_len > 32 ==> r is Err && is_prefix_error(r->Err_0, addr, prefix_len),
            prefix_len <= 32 && r is Err ==> r->Err_0 is MapUpdate,
            final(self).limit() == old(self).limit(),
            final(self).count() == old(self).count() + (if r is Ok && !old(self).table().contains(
                key_of(addr.bits, prefix_len as u32),
            ) {
                1nat
            } else {
                0nat
            }),
    {
        if prefix_len > MAX_PREFIX_LEN {
            return Err(
                MoriError::InvalidCidrPrefix { addr, prefix_len, max_allowed: MAX_PREFIX_LEN },
            );
        }
        let net = network_of(addr, prefix_len);
        let pair: (u32, u32) = (prefix_len as u32, net.bits);
        let ghost before = self.keys@;
        match self.position(pair) {
            Some(_) => {
                proof {
                    assert(self.table() =~= self.table().insert(pair));
                }
                Ok(())
            },
            None => {
                if self.keys.len() >= self.capacity {
                    return Err(MoriError::MapUpdate { cause: "allow table is full".to_string() });
                }
                self.keys.push(pair);
                proof {
                    let after = self.keys@;
                    assert(after[before.len() as int] == pair);
                    assert forall|k: TableKey| holds_key(after, k) <==> (holds_key(before, k) || k
                        == pair) by {
                        if holds_key(after, k) {
                            let i = choose|i: int| 0 <= i < after.len() && #[trigger] after[i] == k;
                            if i < before.len() {
                                assert(before[i] == k);
                            }
                        }
                        if holds_key(before, k) {
                            let i = choose|i: int| 0 <= i < before.len() && #[trigger] before[i] == k;
                            assert(after[i] == k);
                        }
                    }
                    assert(self.table() =~= old(self).table().insert(pair));
                    assert forall|i: int, j: int| 0 <= i < j < after.len() implies after[i]
                        != after[j] by {
                        if j < before.len() {
                            assert(before[i] != before[j]);
                        } else {
                            assert(before[i] == after[i]);
                        }
                    }
                }
                Ok(())
            },
        }
    }

    /// Takes the key of `addr` with prefix length `prefix_len` out of the
    /// table.
    fn take_out(&mut self, addr: Ipv4, prefix_len: u8) -> (r: Result<(), MoriError>)
        requires
            old(self).valid(),
        ensures
            final(self).valid(),
            final(self).requests() == old(self).requests(),
            final(self).answer() == old(self).answer(),
            match r {
                Ok(_) => prefix_len <= 32 && final(self).table() == old(self).table().remove(
                    key_of(addr.bits, prefix_len as u32),
                ),
                Err(_) => final(self).table() == old(self).table(),
            },
            r is Ok <==> prefix_len <= 32,
            prefix_len > 32 ==> is_prefix_error(r->Err_0, addr, prefix_len),
            final(self).limit() == old(self).limit(),
            final(self).count() == old(self).count() - (if r is Ok && old(self).table().contains(
                key_of(addr.bits, prefix_len as u32),
            ) {
                1int
            } else {
                0int
            }),
    {
        if prefix_len > MAX_PREFIX_LEN {
            return Err(
                MoriError::InvalidCidrPrefix { addr, prefix_len, max_allowed: MAX_PREFIX_LEN },
            );
        }
        let net = network_of(addr, prefix_len);
        let pair: (u32, u32) = (prefix_len as u32, net.bits);
        let ghost before = self.keys@;
        match self.position(pair) {
            Some(at) => {
                self.keys.remove(at);
                proof {
                    let after = self.keys@;
                    assert forall|i: int, j: int| 0 <= i < j < after.len() implies after[i]
                        != after[j] by {
                        let bi = if i < at { i } else { i + 1 };
                        let bj = if j < at { j } else { j + 1 };
                        assert(before[bi] != before[bj]);
                    }
                    assert forall|k: TableKey| holds_key(after, k) <==> (holds_key(before, k) && k
                        != pair) by {
                        if holds_key(after, k) {
                            let i = choose|i: int| 0 <= i < after.len() && #[trigger] after[i] == k;
                            let bi = if i < at { i } else { i + 1 };
                            assert(before[bi] == k);
                            if bi < at {
                                assert(before[bi] != before[at as int]);
                            } else {
                                assert(before[at as int] != before[bi]);
                            }
                        }
                        if holds_key(before, k) && k != pair {
                            let i = choose|i: int| 0 <= i < before.len() && #[trigger] before[i] == k;
                            if i < at {
                                assert(after[i] == k);
                            } else {
                                assert(after[i - 1] == k);
                            }
                        }
                    }
                    assert(self.table() =~= old(self).table().remove(pair));
                    assert(holds_key(before, pair));
                }
                Ok(())
            },
            None => {
                proof {
                    assert(self.table() =~= old(self).table().remove(pair));
                }
                Ok(())
            },
        }
    }
}

impl EbpfController for MemoryFilter {
    /// No key is held twice, and no more keys than the table can hold.
    closed spec fn valid(&self) -> bool {
        &&& self.keys@.len() <= self.capacity
        &&& forall|i: int, j: int| 0 <= i < j < self.keys@.len() ==> self.keys@[i] != self.keys@[j]
    }

    closed spec fn table(&self) -> Set<TableKey> {
        Set::new(|key: TableKey| holds_key(self.keys@, key))
    }

    closed spec fn requests(&self) -> Seq<FilterOp> {
        self.asked@
    }

    closed spec fn answer(&self) -> Option<Result<(), MoriError>> {
        self.answered@
    }

    /// Fails for a prefix length above 32, and for a new key where the
    /// table is full.
    fn allow_network(&mut self, addr: Ipv4, prefix_len: u8) -> (r: Result<(), MoriError>)
        ensures
            r is Ok <==> prefix_len <= 32 && (old(self).table().contains(
                key_of(addr.bits, prefix_len as u32),
            ) || old(self).count() < old(self).limit()),
            prefix_len > 32 ==> r is Err && is_prefix_error(r->Err_0, addr, prefix_len),
            prefix_len <= 32 && r is Err ==> r->Err_0 is MapUpdate,
            final(self).limit() == old(self).limit(),
            final(self).count() == old(self).count() + (if r is Ok && !old(self).table().contains(
                key_of(addr.bits, prefix_len as u32),
            ) {
                1nat
            } else {
                0nat
            }),
    {
        let r = self.put(addr, prefix_len);
        self.asked = Ghost(self.asked@.push(FilterOp::Allow(addr, prefix_len)));
        self.answered = Ghost(Some(r));
        r
    }

    /// Fails for a prefix length above 32 only.
    fn remove_network(&mut self, addr: Ipv4, prefix_len: u8) -> (r: Result<(), MoriError>)
        ensures
            r is Ok <==> prefix_len <= 32,
            prefix_len > 32 ==> is_prefix_error(r->Err_0, addr, prefix_len),
            final(self).limit() == old(self).limit(),
            final(self).count() == old(self).count() - (if r is Ok && old(self).table().contains(
                key_of(addr.bits, prefix_len as u32),
            ) {
                1int
            } else {
                0int
            }),
    {
        let r = self.take_out(addr, prefix_len);
        self.asked = Ghost(self.asked@.push(FilterOp::Remove(addr, prefix_len)));
        self.answered = Ghost(Some(r));
        r
    }
}

/// The verdict of the connect hook on a connection to the address whose
/// four bytes, first octet first, are `user_ip4`: the address is looked up
/// with the full prefix, and a key of any length that covers it admits the
/// connection. Ports are not looked at.
pub fn mori_connect4(filter: &MemoryFilter, user_ip4: [u8; 4]) -> (verdict: i32)
    requires
        filter.valid(),
    ensures
        verdict == (if admitted(
            filter.table(),
            quad_bits(user_ip4[0], user_ip4[1], user_ip4[2], user_ip4[3]) as u32,
        ) {
            1i32
        } else {
            0i32
        }),
{
    let dest = Ipv4::new(user_ip4[0], user_ip4[1], user_ip4[2], user_ip4[3]);
    if filter.admits(dest) {
        CONNECT_ALLOW
    } else {
        CONNECT_DENY
    }
}

/// Whether change `i` of `ops` puts `key` into the table and no later
/// change takes it out.
pub open spec fn allowed_at(ops: Seq<FilterOp>, key: TableKey, i: int) -> bool {
    &&& 0 <= i < ops.len()
    &&& ops[i] is Allow
    &&& op_key(ops[i]) == key
    &&& forall|j: int| i < j < ops.len() ==> !(#[trigger] ops[j] is Remove && op_key(ops[j]) == key)
}

/// Whether `key` is live after the changes `ops`: it was put in, and not
/// taken out since.
pub open spec fn live(ops: Seq<FilterOp>, key: TableKey) -> bool {
    exists|i: int| allowed_at(ops, key, i)
}

/// The table that the changes `ops` leave, made on an empty table, holds
/// exactly the live keys.
pub proof fn lemma_replay_is_live_set(ops: Seq<FilterOp>, key: TableKey)
    ensures
        apply_ops(Set::empty(), ops).contains(key) <==> live(ops, key),
    decreases ops.len(),
{
    if ops.len() == 0 {
        if live(ops, key) {
            let i = choose|i: int| allowed_at(ops, key, i);
        }
    } else {
        let rest = ops.drop_last();
        let last = ops.last();
        let n = rest.len() as int;
        lemma_replay_is_live_set(rest, key);
        if live(rest, key) {
            let i = choose|i: int| allowed_at(rest, key, i);
            if !(last is Remove && op_key(last) == key) {
                assert forall|j: int| i < j < ops.len() implies !(#[trigger] ops[j] is Remove
                    && op_key(ops[j]) == key) by {
                    if j < n {
                        assert(ops[j] == rest[j]);
                    }
                }
                assert(ops[i] == rest[i]);
                assert(allowed_at(ops, key, i));
            }
        }
        if last is Allow && op_key(last) == key {
            assert(allowed_at(ops, key, n));
        }
        if live(ops, key) {
            let i = choose|i: int| allowed_at(ops, key, i);
            if i < n {
                assert forall|j: int| i < j < rest.len() implies !(#[trigger] rest[j] is Remove
                    && op_key(rest[j]) == key) by {
                    assert(rest[j] == ops[j]);
                }
                assert(rest[i] == ops[i]);
                assert(allowed_at(rest, key, i));
                assert(!(ops[n] is Remove && op_key(ops[n]) == key));
            }
        }
    }
}

/// After any changes made on an empty table, a destination is admitted
/// exactly if the longest-prefix lookup finds a key, and exactly if a live
/// key covers it; and the key that the lookup finds is live and the longest
/// of those.
pub proof fn lemma_admit_is_longest_prefix_match(ops: Seq<FilterOp>, dest: u32, found: Option<u32>)
    requires
        is_longest_match(apply_ops(Set::empty(), ops), dest, found),
    ensures
        admitted(apply_ops(Set::empty(), ops), dest) <==> found is Some,
        admitted(apply_ops(Set::empty(), ops), dest) <==> exists|key: TableKey| #[trigger]
            live(ops, key) && key_matches(key, dest),
        found is Some ==> live(ops, key_of(dest, found->Some_0)),
        forall|key: TableKey| #[trigger]
            live(ops, key) && key_matches(key, dest) ==> found is Some && key.0 <= found->Some_0,
{
    let table = apply_ops(Set::empty(), ops);
    assert forall|key: TableKey| table.contains(key) <==> live(ops, key) by {
        lemma_replay_is_live_set(ops, key);
    }
    match found {
        Some(p) => {
            assert(table.contains(key_of(dest, p)));
            assert(key_matches(key_of(dest, p), dest));
        },
        None => {},
    }
    if admitted(table, dest) {
        let key = choose|key: TableKey| #[trigger] table.contains(key) && key_matches(key, dest);
        assert(live(ops, key) && key_matches(key, dest));
    }
    if exists|key: TableKey| #[trigger] live(ops, key) && key_matches(key, dest) {
        let key = choose|key: TableKey| #[trigger] live(ops, key) && key_matches(key, dest);
        assert(table.contains(key));
    }
    assert forall|key: TableKey| #[trigger] live(ops, key) && key_matches(key, dest) implies found is Some
        && key.0 <= found->Some_0 by {
        assert(table.contains(key));
    }
}

} // verus!
