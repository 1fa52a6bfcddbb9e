//! The kernel's bookkeeping for user-level locks and inter-process messages.
//!
//! The kernel keeps one lock table and one message channel; here each is a
//! value that the caller owns and passes to the operations.
use vstd::prelude::*;

verus! {

/// The value a user lock holds.
#[derive(Clone, Copy, Debug, PartialEq, Eq, Structural)]
pub struct Lock(pub usize);

impl Lock {
    /// The value held.
    pub fn get(&self) -> (res: usize)
        ensures
            res == self.0,
    {
        return self.0;
    }

    /// Replaces the value held.
    pub fn set(&mut self, val: usize)
        ensures
            final(self).0 == val,
    {
        self.0 = val
    }
}

/// A lock of the table, with the id it was handed out under.
#[derive(Clone, Copy, Debug, PartialEq, Eq, Structural)]
pub struct SysLock {
    lock: Lock,
    id: usize,
}

impl SysLock {
    /// The lock as its id and the value it holds.
    pub closed spec fn spec_view(self) -> (usize, usize) {
        (self.id, self.lock.0)
    }
}

/// The table of user locks, in the order they were handed out, and the
/// counter that hands out their ids.
pub struct LockTable {
    locks: Vec<SysLock>,
    count: usize,
}

/// Index of the first lock at or after `i` whose id is `id`; each lock is
/// its id and the value it holds.
pub open spec fn first_with_id(locks: Seq<(usize, usize)>, id: usize, i: int) -> Option<int>
    decreases locks.len() - i,
{
    if i < 0 || i >= locks.len() {
        None
    } else if locks[i].0 == id {
        Some(i)
    } else {
        first_with_id(locks, id, i + 1)
    }
}

/// What reading the lock `id` gives: the value of the first lock with that
/// id, or 0 where there is none.
pub open spec fn spec_lock_get(locks: Seq<(usize, usize)>, id: usize) -> usize {
    match first_with_id(locks, id, 0) {
        Some(k) => locks[k].1,
        None => 0,
    }
}

/// The locks after setting the first lock whose id is `id` to hold `val`;
/// unchanged where there is none.
pub open spec fn spec_lock_set(locks: Seq<(usize, usize)>, id: usize, val: usize) -> Seq<
    (usize, usize),
> {
    match first_with_id(locks, id, 0) {
        Some(k) => locks.update(k, (id, val)),
        None => locks,
    }
}

/// The locks after keeping only those whose id is not `id`.
pub open spec fn spec_release(locks: Seq<(usize, usize)>, id: usize) -> Seq<(usize, usize)>
    decreases locks.len(),
{
    if locks.len() == 0 {
        locks
    } else if locks.last().0 == id {
        spec_release(locks.drop_last(), id)
    } else {
        spec_release(locks.drop_last(), id).push(locks.last())
    }
}

/// Every lock has an id of its own, and every id is below the counter.
pub open spec fn ids_well_formed(locks: Seq<(usize, usize)>, count: usize) -> bool {
    &&& forall|i: int, j: int| 0 <= i < j < locks.len() ==> locks[i].0 != locks[j].0
    &&& forall|i: int| 0 <= i < locks.len() ==> locks[i].0 < count
}

impl LockTable {
    #[verifier::type_invariant]
    closed spec fn wf(self) -> bool {
        ids_well_formed(self.spec_locks(), self.count)
    }

    /// The locks, in the order they were handed out, each as its id and the
    /// value it holds.
    pub closed spec fn spec_locks(self) -> Seq<(usize, usize)> {
        self.locks@.map_values(|l: SysLock| l.spec_view())
    }

    /// The counter that ids are taken from.
    pub closed spec fn spec_count(self) -> usize {
        self.count
    }

    /// An empty table whose counter starts at 0.
    pub fn new() -> (res: Self)
        ensures
            res.spec_locks() == Seq::<(usize, usize)>::empty(),
            res.spec_count() == 0,
            ids_well_formed(res.spec_locks(), res.spec_count()),
    {
        let res = LockTable { locks: Vec::new(), count: 0 };
        assert(res.spec_locks() =~= Seq::<(usize, usize)>::empty());
        res
    }

    /// The number of locks in the table.
    pub fn len(&self) -> (res: usize)
        ensures
            res == self.spec_locks().len(),
    {
        self.locks.len()
    }
}

/// The value of the lock counter: the number of locks handed out so far.
pub fn lock_count(table: &LockTable) -> (res: usize)
    ensures
        res == table.spec_count(),
{
    table.count
}

/// Adds a lock holding 0 under the id that the counter gives, moves the
/// counter on, and returns that id. The id is new: no lock of the table has
/// it, so every lock keeps an id of its own.
pub fn lock_acquire(table: &mut LockTable) -> (res: usize)
    requires
        old(table).spec_count() < usize::MAX,
    ensures
        res == old(table).spec_count(),
        final(table).spec_count() == old(table).spec_count() + 1,
        final(table).spec_locks() == old(table).spec_locks().push((res, 0)),
        forall|k: int| 0 <= k < old(table).spec_locks().len() ==> old(table).spec_locks()[k].0 != res,
        ids_well_formed(final(table).spec_locks(), final(table).spec_count()),
{
    proof {
        use_type_invariant(&*table);
    }
    let id = lock_count(table);
    let lock = SysLock { lock: Lock(0), id };
    let mut locks: Vec<SysLock> = Vec::new();
    core::mem::swap(&mut locks, &mut table.locks);
    locks.push(lock);
    assert(locks@.map_values(|l: SysLock| l.spec_view()) =~= old(table).spec_locks().push(
        (id, 0usize),
    ));
    *table = LockTable { locks, count: id + 1 };
    id
}

/// The value of the first lock whose id is `id`, or 0 where there is none.
pub fn lock_get(table: &LockTable, id: usize) -> (res: usize)
    ensures
        res == spec_lock_get(table.spec_locks(), id),
{
    let locks = &table.locks;
    let mut i: usize = 0;
    while i < locks.len()
        invariant
            i <= locks@.len(),
            locks@ == table.locks@,
            first_with_id(table.spec_locks(), id, 0) == first_with_id(
                table.spec_locks(),
                id,
                i as int,
            ),
        decreases locks@.len() - i,
    {
        if locks[i].id == id {
            assert(first_with_id(table.spec_locks(), id, i as int) == Some(i as int));
            return locks[i].lock.get();
        }
        i = i + 1;
    }
    0
}

/// Sets the value of the first lock whose id is `id`; does nothing where
/// there is none.
pub fn lock_set(table: &mut LockTable, id: usize, val: usize)
    ensures
        final(table).spec_count() == old(table).spec_count(),
        final(table).spec_locks() == spec_lock_set(old(table).spec_locks(), id, val),
        ids_well_formed(final(table).spec_locks(), final(table).spec_count()),
{
    proof {
        use_type_invariant(&*table);
    }
    let mut i: usize = 0;
    while i < table.locks.len()
        invariant
            i <= table.locks@.len(),
            table.locks@ == old(table).locks@,
            table.count == old(table).count,
            ids_well_formed(table.spec_locks(), table.count),
            first_with_id(table.spec_locks(), id, 0) == first_with_id(
                table.spec_locks(),
                id,
                i as int,
            ),
        decreases table.locks@.len() - i,
    {
        if table.locks[i].id == id {
            assert(first_with_id(table.spec_locks(), id, i as int) == Some(i as int));
            let mut lock = table.locks[i];
            lock.lock.set(val);
            let mut locks: Vec<SysLock> = Vec::new();
            core::mem::swap(&mut locks, &mut table.locks);
            locks.set(i, lock);
            assert(locks@.map_values(|l: SysLock| l.spec_view()) =~= old(table).spec_locks().update(
                i as int,
                (id, val),
            ));
            let count = table.count;
            *table = LockTable { locks, count };
            return;
        }
        i = i + 1;
    }
}

/// Removes every lock whose id is `id`.
pub fn lock_release(table: &mut LockTable, id: usize)
    ensures
        final(table).spec_count() == old(table).spec_count(),
        final(table).spec_locks() == spec_release(old(table).spec_locks(), id),
        ids_well_formed(final(table).spec_locks(), final(table).spec_count()),
{
    proof {
        use_type_invariant(&*table);
        lemma_release_well_formed(table.spec_locks(), id, table.count);
    }
    let mut kept: Vec<SysLock> = Vec::new();
    let mut i: usize = 0;
    while i < table.locks.len()
        invariant
            i <= table.locks@.len(),
            table.locks@ == old(table).locks@,
            kept@.map_values(|l: SysLock| l.spec_view()) == spec_release(
                table.spec_locks().take(i as int),
                id,
            ),
        decreases table.locks@.len() - i,
    {
        let lock = table.locks[i];
        assert(table.spec_locks().take(i + 1).drop_last() =~= table.spec_locks().take(i as int));
        let ghost before = kept@;
        if lock.id != id {
            kept.push(lock);
            assert(kept@.map_values(|l: SysLock| l.spec_view()) =~= before.map_values(
                |l: SysLock| l.spec_view(),
            ).push(lock.spec_view()));
        }
        i = i + 1;
    }
    assert(table.spec_locks().take(i as int) =~= table.spec_locks());
    let count = table.count;
    *table = LockTable { locks: kept, count };
}


/// Releasing keeps only locks that were there.
proof fn lemma_release_from(locks: Seq<(usize, usize)>, id: usize)
    ensures
        forall|k: int|
            0 <= k < spec_release(locks, id).len() ==> locks.contains(
                #[trigger] spec_release(locks, id)[k],
            ),
    decreases locks.len(),
{
    if locks.len() > 0 {
        let init = locks.drop_last();
        lemma_release_from(init, id);
        let r = spec_release(locks, id);
        assert forall|k: int| 0 <= k < r.len() implies locks.contains(#[trigger] r[k]) by {
            if k < spec_release(init, id).len() {
                assert(r[k] == spec_release(init, id)[k]);
                let j = choose|j: int| 0 <= j < init.len() && init[j] == r[k];
                assert(locks[j] == r[k]);
            } else {
                assert(r[k] == locks.last());
                assert(locks[locks.len() - 1] == r[k]);
            }
        }
    }
}

/// Releasing keeps every lock's id its own and below the counter.
proof fn lemma_release_well_formed(locks: Seq<(usize, usize)>, id: usize, count: usize)
    requires
        ids_well_formed(locks, count),
    ensures
        ids_well_formed(spec_release(locks, id), count),
    decreases locks.len(),
{
    if locks.len() > 0 {
        let init = locks.drop_last();
        lemma_release_well_formed(init, id, count);
        lemma_release_from(init, id);
        let ri = spec_release(init, id);
        if locks.last().0 != id {
            let r = spec_release(locks, id);
            assert forall|i: int, j: int| 0 <= i < j < r.len() implies r[i].0 != r[j].0 by {
                if j == r.len() - 1 {
                    assert(init.contains(ri[i]));
                    let m = choose|m: int| 0 <= m < init.len() && init[m] == ri[i];
                    assert(locks[m] == ri[i]);
                    assert(locks[locks.len() - 1] == locks.last());
                } else {
                    assert(r[i] == ri[i] && r[j] == ri[j]);
                }
            }
            assert forall|i: int| 0 <= i < r.len() implies r[i].0 < count by {
                if i < r.len() - 1 {
                    assert(r[i] == ri[i]);
                } else {
                    assert(locks[locks.len() - 1] == locks.last());
                }
            }
        }
    }
}

/// Replacing a lock by one with the same id moves no first match.
proof fn lemma_first_same_ids(locks: Seq<(usize, usize)>, k: int, x: (usize, usize), id: usize, i: int)
    requires
        0 <= k < locks.len(),
        x.0 == locks[k].0,
    ensures
        first_with_id(locks.update(k, x), id, i) == first_with_id(locks, id, i),
    decreases locks.len() - i,
{
    if 0 <= i < locks.len() {
        lemma_first_same_ids(locks, k, x, id, i + 1);
    }
}

/// The first match in `locks.push(x)` is the first match in `locks`, else
/// the new lock where its id matches.
proof fn lemma_first_push(locks: Seq<(usize, usize)>, x: (usize, usize), id: usize, i: int)
    requires
        0 <= i <= locks.len(),
    ensures
        first_with_id(locks.push(x), id, i) == match first_with_id(locks, id, i) {
            Some(k) => Some(k),
            None => if x.0 == id {
                Some(locks.len() as int)
            } else {
                None
            },
        },
    decreases locks.len() - i,
{
    if i < locks.len() {
        assert(locks.push(x)[i] == locks[i]);
        lemma_first_push(locks, x, id, i + 1);
    } else {
        assert(locks.push(x)[i] == x);
        assert(first_with_id(locks.push(x), id, i + 1) is None);
    }
}

/// A first match points at a lock with the id asked for.
proof fn lemma_first_found(locks: Seq<(usize, usize)>, id: usize, i: int)
    ensures
        first_with_id(locks, id, i) matches Some(k) ==> 0 <= k < locks.len() && locks[k].0
            == id,
    decreases locks.len() - i,
{
    if 0 <= i < locks.len() {
        lemma_first_found(locks, id, i + 1);
    }
}

/// Reading a lock after adding `x` at the end.
proof fn lemma_get_push(locks: Seq<(usize, usize)>, x: (usize, usize), id: usize)
    ensures
        spec_lock_get(locks.push(x), id) == match first_with_id(locks, id, 0) {
            Some(k) => spec_lock_get(locks, id),
            None => if x.0 == id {
                x.1
            } else {
                0
            },
        },
        first_with_id(locks.push(x), id, 0) is Some <==> (first_with_id(locks, id, 0) is Some
            || x.0 == id),
{
    lemma_first_push(locks, x, id, 0);
    lemma_first_found(locks, id, 0);
}

/// Reading a lock right after setting it gives the value set, where a lock
/// of that id exists; where none does, setting changed nothing and reading
/// still gives 0.
pub proof fn law_get_after_set(locks: Seq<(usize, usize)>, id: usize, val: usize)
    ensures
        first_with_id(locks, id, 0) is Some ==> spec_lock_get(spec_lock_set(locks, id, val), id)
            == val,
        first_with_id(locks, id, 0) is None ==> spec_lock_set(locks, id, val) == locks
            && spec_lock_get(spec_lock_set(locks, id, val), id) == 0,
{
    lemma_first_found(locks, id, 0);
    if let Some(k) = first_with_id(locks, id, 0) {
        lemma_first_same_ids(locks, k, (id, val), id, 0);
    }
}

/// Setting changes one value and nothing else: the same locks stay, in the
/// same order and with the same ids; the first lock of the id (if any)
/// holds `val` and every other lock keeps its value. So a second set of the
/// same id finds the same lock, and reading gives the last value set.
pub proof fn law_set_changes_only_a_value(locks: Seq<(usize, usize)>, id: usize, val: usize, val2: usize)
    ensures
        spec_lock_set(locks, id, val).len() == locks.len(),
        forall|k: int|
            0 <= k < locks.len() ==> (#[trigger] spec_lock_set(locks, id, val)[k]).0 == locks[k].0,
        forall|k: int|
            0 <= k < locks.len() && locks[k].0 != id ==> #[trigger] spec_lock_set(locks, id, val)[k]
                == locks[k],
        forall|k: int|
            0 <= k < locks.len() && locks[k].0 == id && spec_lock_set(locks, id, val)[k].1 != val
                ==> #[trigger] spec_lock_set(locks, id, val)[k] == locks[k],
        (exists|k: int| 0 <= k < locks.len() && locks[k].0 == id) ==> spec_lock_get(
            spec_lock_set(spec_lock_set(locks, id, val), id, val2),
            id,
        ) == val2,
{
    lemma_first_found(locks, id, 0);
    lemma_first_none(locks, id, 0);
    if let Some(k) = first_with_id(locks, id, 0) {
        let once = spec_lock_set(locks, id, val);
        lemma_first_same_ids(locks, k, (id, val), id, 0);
        lemma_first_same_ids(once, k, (id, val2), id, 0);
        law_get_after_set(once, id, val2);
    }
}

/// Where no lock at or after `i` has the id, there is no first match.
proof fn lemma_first_none(locks: Seq<(usize, usize)>, id: usize, i: int)
    requires
        0 <= i,
    ensures
        first_with_id(locks, id, i) is None ==> forall|k: int|
            i <= k < locks.len() ==> #[trigger] locks[k].0 != id,
    decreases locks.len() - i,
{
    if i < locks.len() {
        lemma_first_none(locks, id, i + 1);
    }
}

/// Setting one lock does not change what reading another id gives.
pub proof fn law_set_keeps_others(locks: Seq<(usize, usize)>, id: usize, val: usize, other: usize)
    requires
        other != id,
    ensures
        spec_lock_get(spec_lock_set(locks, id, val), other) == spec_lock_get(locks, other),
{
    lemma_first_found(locks, id, 0);
    lemma_first_found(locks, other, 0);
    if let Some(k) = first_with_id(locks, id, 0) {
        lemma_first_same_ids(locks, k, (id, val), other, 0);
    }
}

/// Handing out a new lock changes what no read gives: the new lock holds
/// 0, which is also what reading an id without a lock gives, and it comes
/// after every lock that an earlier read could find.
pub proof fn law_acquire_keeps_reads(locks: Seq<(usize, usize)>, fresh: (usize, usize), id: usize)
    requires
        fresh.1 == 0,
    ensures
        spec_lock_get(locks.push(fresh), id) == spec_lock_get(locks, id),
{
    lemma_get_push(locks, fresh, id);
}

/// Releasing an id keeps, for every other id, both whether a lock of it
/// exists and what reading it gives.
pub proof fn law_release_keeps_others(locks: Seq<(usize, usize)>, id: usize, other: usize)
    requires
        other != id,
    ensures
        spec_lock_get(spec_release(locks, id), other) == spec_lock_get(locks, other),
        first_with_id(spec_release(locks, id), other, 0) is Some <==> first_with_id(
            locks,
            other,
            0,
        ) is Some,
    decreases locks.len(),
{
    if locks.len() > 0 {
        let init = locks.drop_last();
        let x = locks.last();
        assert(init.push(x) =~= locks);
        law_release_keeps_others(init, id, other);
        lemma_get_push(init, x, other);
        if x.0 != id {
            lemma_get_push(spec_release(init, id), x, other);
        }
    }
}

/// After releasing an id no lock of it is left, so reading it gives 0.
pub proof fn law_get_after_release(locks: Seq<(usize, usize)>, id: usize)
    ensures
        first_with_id(spec_release(locks, id), id, 0) is None,
        spec_lock_get(spec_release(locks, id), id) == 0,
    decreases locks.len(),
{
    if locks.len() > 0 {
        let init = locks.drop_last();
        let x = locks.last();
        law_get_after_release(init, id);
        if x.0 != id {
            lemma_get_push(spec_release(init, id), x, id);
        }
    }
}


/// A message waiting in the channel: `size` bytes at address `message` in
/// the sender's memory, for the process `to_pid`.
#[derive(Clone, Copy, Debug, PartialEq, Eq, Structural)]
pub struct IpcMessage {
    from_pid: usize,
    to_pid: usize,
    message: usize,
    size: usize,
}

/// The sender's and the receiver's pid, packed into one word: the sender in
/// the high 32 bits, the receiver in the low 32.
pub open spec fn spec_translate_pid(pid: usize) -> Seq<usize> {
    seq![(pid as int / 0x1_0000_0000) as usize, (pid as int % 0x1_0000_0000) as usize]
}

impl IpcMessage {
    pub closed spec fn spec_from_pid(self) -> usize {
        self.from_pid
    }

    pub closed spec fn spec_to_pid(self) -> usize {
        self.to_pid
    }

    pub closed spec fn spec_message(self) -> usize {
        self.message
    }

    pub closed spec fn spec_size(self) -> usize {
        self.size
    }

    /// A message from `from_pid` to `to_pid` of the `size` bytes at
    /// `message`.
    pub fn new(from_pid: usize, to_pid: usize, message: usize, size: usize) -> (res: Self)
        ensures
            res.spec_from_pid() == from_pid,
            res.spec_to_pid() == to_pid,
            res.spec_message() == message,
            res.spec_size() == size,
    {
        IpcMessage { from_pid, to_pid, message, size }
    }

    /// Splits a packed pid word into `[sender, receiver]`.
    pub fn translate_pid(pid: usize) -> (res: [usize; 2])
        ensures
            res@ == spec_translate_pid(pid),
    {
        let wide = pid as u64;
        assert(wide >> 32u64 == wide / 0x1_0000_0000) by (bit_vector);
        assert(wide & 0xffff_ffffu64 == wide % 0x1_0000_0000) by (bit_vector);
        let from_pid = (wide >> 32u64) as usize;
        let to_pid = (wide & 0xffff_ffffu64) as usize;
        let res = [from_pid, to_pid];
        assert(res@ =~= spec_translate_pid(pid));
        res
    }
}

/// A process's request to receive: up to `size` bytes into its memory at
/// address `buffer`.
#[derive(Clone, Copy, Debug, PartialEq, Eq, Structural)]
pub struct IpcRequest {
    pid: usize,
    buffer: usize,
    size: usize,
}

impl IpcRequest {
    pub closed spec fn spec_pid(self) -> usize {
        self.pid
    }

    pub closed spec fn spec_buffer(self) -> usize {
        self.buffer
    }

    pub closed spec fn spec_size(self) -> usize {
        self.size
    }

    /// A request of process `pid` for up to `size` bytes at `buffer`.
    pub fn new(pid: usize, buffer: usize, size: usize) -> (res: Self)
        ensures
            res.spec_pid() == pid,
            res.spec_buffer() == buffer,
            res.spec_size() == size,
    {
        IpcRequest { pid, buffer, size }
    }
}

/// The messages sent and not yet delivered, oldest first.
pub struct IpcChannel {
    messages: Vec<IpcMessage>,
}

impl IpcChannel {
    pub closed spec fn spec_messages(self) -> Seq<IpcMessage> {
        self.messages@
    }

    /// A channel with no messages.
    pub fn new() -> (res: Self)
        ensures
            res.spec_messages() == Seq::<IpcMessage>::empty(),
    {
        IpcChannel { messages: Vec::new() }
    }

    /// The number of messages in the channel.
    pub fn len(&self) -> (res: usize)
        ensures
            res == self.spec_messages().len(),
    {
        self.messages.len()
    }
}

/// Appends `message` to the channel.
pub fn add_message(channel: &mut IpcChannel, message: IpcMessage)
    ensures
        final(channel).spec_messages() == old(channel).spec_messages().push(message),
{
    channel.messages.push(message)
}

/// One copy that receiving performs: `len` bytes from address `src` in the
/// memory of `from_pid` to address `dst` in the receiver's memory.
#[derive(Clone, Copy, Debug, PartialEq, Eq, Structural)]
pub struct IpcCopy {
    pub from_pid: usize,
    pub src: usize,
    pub dst: usize,
    pub len: usize,
}

/// What receiving has done after the first `i` messages: the copies so far,
/// and where the rest of the request's buffer starts and how long it is.
///
/// A message counts when it is addressed to the request's pid and its
/// sender still has a task; it fills as much of the rest of the buffer as
/// it has bytes, and the rest of the buffer moves on by that much.
pub open spec fn receive_progress(
    messages: Seq<IpcMessage>,
    sender_alive: Seq<bool>,
    request: IpcRequest,
    i: int,
) -> (Seq<IpcCopy>, int, int)
    decreases i,
{
    if i <= 0 {
        (Seq::empty(), request.spec_buffer() as int, request.spec_size() as int)
    } else {
        let (copies, buffer, size) = receive_progress(messages, sender_alive, request, i - 1);
        let m = messages[i - 1];
        if m.spec_to_pid() == request.spec_pid() && sender_alive[i - 1] {
            let n = if size <= m.spec_size() {
                size
            } else {
                m.spec_size() as int
            };
            (
                copies.push(
                    IpcCopy {
                        from_pid: m.spec_from_pid(),
                        src: m.spec_message(),
                        dst: buffer as usize,
                        len: n as usize,
                    },
                ),
                buffer + n,
                size - n,
            )
        } else {
            (copies, buffer, size)
        }
    }
}

/// Whether a receive by `pid` delivers message `m`: it is addressed to
/// `pid` and its sender (`alive`) still has a task.
pub open spec fn delivered(m: IpcMessage, alive: bool, pid: usize) -> bool {
    m.spec_to_pid() == pid && alive
}

/// The first `i` messages that a receive by `pid` does not deliver, in
/// order, each with whether its sender has a task.
pub open spec fn undelivered(
    messages: Seq<IpcMessage>,
    sender_alive: Seq<bool>,
    pid: usize,
    i: int,
) -> Seq<(IpcMessage, bool)>
    decreases i,
{
    if i <= 0 {
        Seq::empty()
    } else if delivered(messages[i - 1], sender_alive[i - 1], pid) {
        undelivered(messages, sender_alive, pid, i - 1)
    } else {
        undelivered(messages, sender_alive, pid, i - 1).push((messages[i - 1], sender_alive[i - 1]))
    }
}

/// Receives for `request`: returns the copies to make, in the order of the
/// channel, and takes the messages it delivers out of the channel, so that
/// each message goes to one receive only. `sender_alive[i]` says whether
/// the sender of message `i` still has a task; a message whose sender has
/// none is not delivered and stays.
pub fn receive_message(
    channel: &mut IpcChannel,
    request: IpcRequest,
    sender_alive: &Vec<bool>,
) -> (res: Vec<IpcCopy>)
    requires
        sender_alive@.len() == old(channel).spec_messages().len(),
        request.spec_buffer() + request.spec_size() <= usize::MAX,
    ensures
        res@ == receive_progress(
            old(channel).spec_messages(),
            sender_alive@,
            request,
            old(channel).spec_messages().len() as int,
        ).0,
        final(channel).spec_messages() == undelivered(
            old(channel).spec_messages(),
            sender_alive@,
            request.spec_pid(),
            old(channel).spec_messages().len() as int,
        ).map_values(|e: (IpcMessage, bool)| e.0),
{
    let mut copies: Vec<IpcCopy> = Vec::new();
    let mut kept: Vec<IpcMessage> = Vec::new();
    let mut buffer = request.buffer;
    let mut size = request.size;
    let mut i: usize = 0;
    while i < channel.messages.len()
        invariant
            i <= channel.messages@.len(),
            channel.messages@ == old(channel).messages@,
            sender_alive@.len() == channel.messages@.len(),
            request.buffer + request.size <= usize::MAX,
            buffer + size == request.buffer + request.size,
            receive_progress(channel.messages@, sender_alive@, request, i as int) == (
                copies@,
                buffer as int,
                size as int,
            ),
            kept@ == undelivered(channel.messages@, sender_alive@, request.pid, i as int).map_values(
                |e: (IpcMessage, bool)| e.0,
            ),
        decreases channel.messages@.len() - i,
    {
        let message = channel.messages[i];
        let ghost before = undelivered(channel.messages@, sender_alive@, request.pid, i as int);
        if message.to_pid == request.pid && sender_alive[i] {
            let n = if size <= message.size {
                size
            } else {
                message.size
            };
            copies.push(IpcCopy { from_pid: message.from_pid, src: message.message, dst: buffer, len: n });
            buffer = buffer + n;
            size = size - n;
        } else {
            kept.push(message);
            assert(kept@ =~= before.push((message, sender_alive@[i as int])).map_values(
                |e: (IpcMessage, bool)| e.0,
            ));
        }
        i = i + 1;
    }
    channel.messages = kept;
    copies
}

/// A receive plans no copy from a channel in which it delivers nothing.
proof fn lemma_receive_nothing_deliverable(
    messages: Seq<IpcMessage>,
    sender_alive: Seq<bool>,
    request: IpcRequest,
    i: int,
)
    requires
        0 <= i <= messages.len(),
        forall|k: int|
            0 <= k < i ==> !delivered(
                #[trigger] messages[k],
                sender_alive[k],
                request.spec_pid(),
            ),
    ensures
        receive_progress(messages, sender_alive, request, i) == (
            Seq::<IpcCopy>::empty(),
            request.spec_buffer() as int,
            request.spec_size() as int,
        ),
    decreases i,
{
    if i > 0 {
        lemma_receive_nothing_deliverable(messages, sender_alive, request, i - 1);
    }
}

/// What a receive leaves holds nothing that it would deliver.
proof fn lemma_undelivered_not_deliverable(
    messages: Seq<IpcMessage>,
    sender_alive: Seq<bool>,
    pid: usize,
    i: int,
)
    requires
        0 <= i <= messages.len(),
        sender_alive.len() == messages.len(),
    ensures
        forall|k: int|
            0 <= k < undelivered(messages, sender_alive, pid, i).len() ==> !delivered(
                (#[trigger] undelivered(messages, sender_alive, pid, i)[k]).0,
                undelivered(messages, sender_alive, pid, i)[k].1,
                pid,
            ),
    decreases i,
{
    if i > 0 {
        lemma_undelivered_not_deliverable(messages, sender_alive, pid, i - 1);
        let prev = undelivered(messages, sender_alive, pid, i - 1);
        let cur = undelivered(messages, sender_alive, pid, i);
        assert forall|k: int| 0 <= k < cur.len() implies !delivered(
            (#[trigger] cur[k]).0,
            cur[k].1,
            pid,
        ) by {
            if k < prev.len() {
                assert(cur[k] == prev[k]);
            }
        }
    }
}

/// Each message goes to one receive only: right after a receive by a pid,
/// with no message sent in between and no sender's task gone or come, a
/// second receive by the same pid delivers nothing and plans no copy.
pub proof fn law_second_receive_copies_nothing(
    messages: Seq<IpcMessage>,
    sender_alive: Seq<bool>,
    first: IpcRequest,
    second: IpcRequest,
)
    requires
        sender_alive.len() == messages.len(),
        second.spec_pid() == first.spec_pid(),
    ensures
        ({
            let rest = undelivered(messages, sender_alive, first.spec_pid(), messages.len() as int);
            let rest_messages = rest.map_values(|e: (IpcMessage, bool)| e.0);
            let rest_alive = rest.map_values(|e: (IpcMessage, bool)| e.1);
            &&& receive_progress(rest_messages, rest_alive, second, rest.len() as int).0
                == Seq::<IpcCopy>::empty()
            &&& undelivered(rest_messages, rest_alive, second.spec_pid(), rest.len() as int).map_values(
                |e: (IpcMessage, bool)| e.0,
            ) == rest_messages
        }),
{
    let pid = first.spec_pid();
    let n = messages.len() as int;
    let rest = undelivered(messages, sender_alive, pid, n);
    let rest_messages = rest.map_values(|e: (IpcMessage, bool)| e.0);
    let rest_alive = rest.map_values(|e: (IpcMessage, bool)| e.1);
    lemma_undelivered_not_deliverable(messages, sender_alive, pid, n);
    assert forall|k: int| 0 <= k < rest.len() implies !delivered(
        #[trigger] rest_messages[k],
        rest_alive[k],
        pid,
    ) by {
        assert(rest_messages[k] == rest[k].0 && rest_alive[k] == rest[k].1);
    }
    lemma_receive_nothing_deliverable(rest_messages, rest_alive, second, rest.len() as int);
    lemma_undelivered_keeps_all(rest_messages, rest_alive, pid, rest.len() as int);
}

/// Where a receive delivers none of the first `i` messages, it keeps them
/// all, in order.
proof fn lemma_undelivered_keeps_all(
    messages: Seq<IpcMessage>,
    sender_alive: Seq<bool>,
    pid: usize,
    i: int,
)
    requires
        0 <= i <= messages.len(),
        i <= sender_alive.len(),
        forall|k: int|
            0 <= k < i ==> !delivered(#[trigger] messages[k], sender_alive[k], pid),
    ensures
        undelivered(messages, sender_alive, pid, i).map_values(|e: (IpcMessage, bool)| e.0)
            == messages.take(i),
    decreases i,
{
    if i > 0 {
        lemma_undelivered_keeps_all(messages, sender_alive, pid, i - 1);
        assert(!delivered(messages[i - 1], sender_alive[i - 1], pid));
        let prev = undelivered(messages, sender_alive, pid, i - 1);
        let x = (messages[i - 1], sender_alive[i - 1]);
        assert(undelivered(messages, sender_alive, pid, i) == prev.push(x));
        assert(prev.push(x).map_values(|e: (IpcMessage, bool)| e.0) =~= prev.map_values(
            |e: (IpcMessage, bool)| e.0,
        ).push(x.0));
        assert(messages.take(i) =~= messages.take(i - 1).push(messages[i - 1]));
    } else {
        assert(undelivered(messages, sender_alive, pid, i).map_values(
            |e: (IpcMessage, bool)| e.0,
        ) =~= messages.take(i));
    }
}

/// Splitting a word that packs a sender and a receiver below 2^32 each
/// gives the two back.
pub proof fn law_translate_pid_unpacks(from_pid: usize, to_pid: usize)
    requires
        from_pid < 0x1_0000_0000,
        to_pid < 0x1_0000_0000,
        from_pid * 0x1_0000_0000 + to_pid <= usize::MAX,
    ensures
        spec_translate_pid((from_pid * 0x1_0000_0000 + to_pid) as usize) == seq![from_pid, to_pid],
{
    let pid = from_pid * 0x1_0000_0000 + to_pid;
    assert(pid / 0x1_0000_0000 == from_pid && pid % 0x1_0000_0000 == to_pid) by (nonlinear_arith)
        requires
            pid == from_pid * 0x1_0000_0000 + to_pid,
            0 <= to_pid < 0x1_0000_0000,
            from_pid >= 0,
    ;
    assert(spec_translate_pid(pid as usize) =~= seq![from_pid, to_pid]);
}

/// The copies of a receive fill the request's buffer from its start, one
/// after the other, with no gap and no overlap, and never past its end:
/// after the first `i` messages, the copies so far end where the rest of
/// the buffer starts, and the rest ends where the buffer ends.
pub proof fn law_receive_fills_buffer_in_order(
    messages: Seq<IpcMessage>,
    sender_alive: Seq<bool>,
    request: IpcRequest,
    i: int,
)
    requires
        0 <= i <= messages.len(),
        sender_alive.len() == messages.len(),
        request.spec_buffer() + request.spec_size() <= usize::MAX,
    ensures
        ({
            let (copies, buffer, size) = receive_progress(messages, sender_alive, request, i);
            &&& buffer + size == request.spec_buffer() + request.spec_size()
            &&& request.spec_buffer() <= buffer
            &&& 0 <= size <= request.spec_size()
            &&& copies.len() == 0 ==> buffer == request.spec_buffer()
            &&& copies.len() > 0 ==> copies[0].dst == request.spec_buffer()
            &&& copies.len() > 0 ==> copies.last().dst + copies.last().len == buffer
            &&& forall|j: int|
                0 <= j < copies.len() - 1 ==> #[trigger] copies[j].dst + copies[j].len == copies[j
                    + 1].dst
        }),
    decreases i,
{
    if i > 0 {
        law_receive_fills_buffer_in_order(messages, sender_alive, request, i - 1);
        let (copies, buffer, size) = receive_progress(messages, sender_alive, request, i - 1);
        let (copies2, buffer2, size2) = receive_progress(messages, sender_alive, request, i);
        if copies2.len() > copies.len() {
            assert forall|j: int| 0 <= j < copies2.len() - 1 implies #[trigger] copies2[j].dst
                + copies2[j].len == copies2[j + 1].dst by {
                assert(copies2[j] == copies[j]);
                if j < copies.len() - 1 {
                    assert(copies2[j + 1] == copies[j + 1]);
                }
            }
        }
    }
}

/// Each copy of a receive comes from a message addressed to the receiver
/// whose sender has a task, starts at that message's address, and takes no
/// more bytes than the message has.
pub proof fn law_receive_copies_bounded(
    messages: Seq<IpcMessage>,
    sender_alive: Seq<bool>,
    request: IpcRequest,
    i: int,
)
    requires
        0 <= i <= messages.len(),
        sender_alive.len() == messages.len(),
        request.spec_buffer() + request.spec_size() <= usize::MAX,
    ensures
        forall|j: int|
            0 <= j < receive_progress(messages, sender_alive, request, i).0.len() ==> exists|m: int|
                0 <= m < i && messages[m].spec_to_pid() == request.spec_pid() && sender_alive[m]
                    && (#[trigger] receive_progress(messages, sender_alive, request, i).0[j]).len
                    <= messages[m].spec_size() && receive_progress(
                    messages,
                    sender_alive,
                    request,
                    i,
                ).0[j].from_pid == messages[m].spec_from_pid()
                    && receive_progress(messages, sender_alive, request, i).0[j].src
                    == messages[m].spec_message(),
    decreases i,
{
    if i > 0 {
        law_receive_copies_bounded(messages, sender_alive, request, i - 1);
        law_receive_fills_buffer_in_order(messages, sender_alive, request, i - 1);
        let prev = receive_progress(messages, sender_alive, request, i - 1).0;
        let cur = receive_progress(messages, sender_alive, request, i).0;
        assert forall|j: int| 0 <= j < cur.len() implies exists|m: int|
            0 <= m < i && messages[m].spec_to_pid() == request.spec_pid() && sender_alive[m] && (
            #[trigger] cur[j]).len <= messages[m].spec_size() && cur[j].from_pid
                == messages[m].spec_from_pid() && cur[j].src == messages[m].spec_message() by {
            if j < prev.len() {
                assert(cur[j] == prev[j]);
            } else {
                assert(cur[j].len <= messages[i - 1].spec_size());
            }
        }
    }
}


/// Messages to other processes make a receive copy nothing.
proof fn lemma_receive_none_for_pid(
    messages: Seq<IpcMessage>,
    sender_alive: Seq<bool>,
    request: IpcRequest,
    i: int,
)
    requires
        0 <= i <= messages.len(),
        forall|k: int| 0 <= k < i ==> (#[trigger] messages[k]).spec_to_pid() != request.spec_pid(),
    ensures
        receive_progress(messages, sender_alive, request, i) == (
            Seq::<IpcCopy>::empty(),
            request.spec_buffer() as int,
            request.spec_size() as int,
        ),
    decreases i,
{
    if i > 0 {
        lemma_receive_none_for_pid(messages, sender_alive, request, i - 1);
    }
}

/// Sending and then receiving: where the channel holds no other message for
/// the receiver, a receive after one message to it, from a sender that has
/// a task, makes one copy: of as many of the message's bytes as the request
/// has room for, from the message's address to the start of the buffer;
/// and it takes that message, and only that one, out of the channel.
pub proof fn law_receive_after_send(
    messages: Seq<IpcMessage>,
    sender_alive: Seq<bool>,
    request: IpcRequest,
)
    requires
        messages.len() > 0,
        sender_alive.len() == messages.len(),
        forall|k: int|
            0 <= k < messages.len() - 1 ==> (#[trigger] messages[k]).spec_to_pid()
                != request.spec_pid(),
        messages.last().spec_to_pid() == request.spec_pid(),
        sender_alive.last(),
    ensures
        receive_progress(messages, sender_alive, request, messages.len() as int).0 == seq![
            IpcCopy {
                from_pid: messages.last().spec_from_pid(),
                src: messages.last().spec_message(),
                dst: request.spec_buffer(),
                len: if request.spec_size() <= messages.last().spec_size() {
                    request.spec_size()
                } else {
                    messages.last().spec_size()
                },
            },
        ],
        undelivered(messages, sender_alive, request.spec_pid(), messages.len() as int).map_values(
            |e: (IpcMessage, bool)| e.0,
        ) == messages.drop_last(),
{
    let n = messages.len() as int;
    assert forall|k: int| 0 <= k < n - 1 implies !delivered(
        #[trigger] messages[k],
        sender_alive[k],
        request.spec_pid(),
    ) by {
        assert(messages[k].spec_to_pid() != request.spec_pid());
    }
    lemma_undelivered_keeps_all(messages, sender_alive, request.spec_pid(), n - 1);
    assert(messages.take(n - 1) =~= messages.drop_last());
    lemma_receive_none_for_pid(messages, sender_alive, request, n - 1);
    assert(messages[n - 1] == messages.last());
    assert(sender_alive[n - 1] == sender_alive.last());
    let copies = receive_progress(messages, sender_alive, request, n).0;
    assert(copies =~= seq![
        IpcCopy {
            from_pid: messages.last().spec_from_pid(),
            src: messages.last().spec_message(),
            dst: request.spec_buffer(),
            len: if request.spec_size() <= messages.last().spec_size() {
                request.spec_size()
            } else {
                messages.last().spec_size()
            },
        },
    ]);
}


/// The indices, among the first `i` messages, of those a receive by the
/// request's pid delivers (`.0`) and of those it leaves (`.1`), each in
/// increasing order, with what the receive makes of them.
proof fn lemma_receive_indices(
    messages: Seq<IpcMessage>,
    sender_alive: Seq<bool>,
    request: IpcRequest,
    i: int,
) -> (r: (Seq<int>, Seq<int>))
    requires
        0 <= i <= messages.len(),
        sender_alive.len() == messages.len(),
        request.spec_buffer() + request.spec_size() <= usize::MAX,
    ensures
        ({
            let (copies, buffer, size) = receive_progress(messages, sender_alive, request, i);
            let rest = undelivered(messages, sender_alive, request.spec_pid(), i);
            let (f, h) = r;
            &&& f.len() == copies.len()
            &&& h.len() == rest.len()
            &&& f.len() + h.len() == i
            &&& forall|j: int|
                0 <= j < f.len() ==> {
                    let m = #[trigger] f[j];
                    &&& 0 <= m < i
                    &&& messages[m].spec_to_pid() == request.spec_pid() && sender_alive[m]
                    &&& copies[j].from_pid == messages[m].spec_from_pid()
                    &&& copies[j].src == messages[m].spec_message()
                    &&& copies[j].len == if request.spec_buffer() + request.spec_size()
                        - copies[j].dst <= messages[m].spec_size() {
                        request.spec_buffer() + request.spec_size() - copies[j].dst
                    } else {
                        messages[m].spec_size() as int
                    }
                }
            &&& forall|j: int|
                0 <= j < h.len() ==> {
                    let m = #[trigger] h[j];
                    &&& 0 <= m < i
                    &&& !(messages[m].spec_to_pid() == request.spec_pid() && sender_alive[m])
                    &&& rest[j].0 == messages[m]
                }
            &&& forall|j: int| 0 <= j < f.len() - 1 ==> #[trigger] f[j] < f[j + 1]
            &&& forall|j: int| 0 <= j < h.len() - 1 ==> #[trigger] h[j] < h[j + 1]
            &&& forall|k: int|
                0 <= k < i && #[trigger] delivered(messages[k], sender_alive[k], request.spec_pid())
                    ==> f.contains(k)
            &&& forall|k: int|
                0 <= k < i && !#[trigger] delivered(messages[k], sender_alive[k], request.spec_pid())
                    ==> h.contains(k)
        }),
    decreases i,
{
    if i == 0 {
        (Seq::empty(), Seq::empty())
    } else {
        let (f0, h0) = lemma_receive_indices(messages, sender_alive, request, i - 1);
        law_receive_fills_buffer_in_order(messages, sender_alive, request, i - 1);
        let m = i - 1;
        let prev = receive_progress(messages, sender_alive, request, i - 1);
        let cur = receive_progress(messages, sender_alive, request, i);
        let rest0 = undelivered(messages, sender_alive, request.spec_pid(), i - 1);
        let rest = undelivered(messages, sender_alive, request.spec_pid(), i);
        if delivered(messages[m], sender_alive[m], request.spec_pid()) {
            let f = f0.push(m);
            assert forall|j: int| 0 <= j < f.len() - 1 implies #[trigger] f[j] < f[j + 1] by {
                if j < f0.len() - 1 {
                    assert(f[j] == f0[j] && f[j + 1] == f0[j + 1]);
                } else {
                    assert(f[j] == f0[j]);
                }
            }
            assert forall|j: int| 0 <= j < f.len() implies {
                let mm = #[trigger] f[j];
                &&& 0 <= mm < i
                &&& messages[mm].spec_to_pid() == request.spec_pid() && sender_alive[mm]
                &&& cur.0[j].from_pid == messages[mm].spec_from_pid()
                &&& cur.0[j].src == messages[mm].spec_message()
                &&& cur.0[j].len == if request.spec_buffer() + request.spec_size() - cur.0[j].dst
                    <= messages[mm].spec_size() {
                    request.spec_buffer() + request.spec_size() - cur.0[j].dst
                } else {
                    messages[mm].spec_size() as int
                }
            } by {
                if j < f0.len() {
                    assert(f[j] == f0[j]);
                    assert(cur.0[j] == prev.0[j]);
                }
            }
            assert forall|k: int|
                0 <= k < i && #[trigger] delivered(messages[k], sender_alive[k], request.spec_pid())
                    implies f.contains(k) by {
                if k < i - 1 {
                    let j = choose|j: int| 0 <= j < f0.len() && f0[j] == k;
                    assert(f[j] == k);
                } else {
                    assert(f[f.len() - 1] == k);
                }
            }
            (f, h0)
        } else {
            let h = h0.push(m);
            assert forall|j: int| 0 <= j < h.len() - 1 implies #[trigger] h[j] < h[j + 1] by {
                if j < h0.len() - 1 {
                    assert(h[j] == h0[j] && h[j + 1] == h0[j + 1]);
                } else {
                    assert(h[j] == h0[j]);
                }
            }
            assert forall|j: int| 0 <= j < h.len() implies {
                let mm = #[trigger] h[j];
                &&& 0 <= mm < i
                &&& !(messages[mm].spec_to_pid() == request.spec_pid() && sender_alive[mm])
                &&& rest[j].0 == messages[mm]
            } by {
                if j < h0.len() {
                    assert(h[j] == h0[j]);
                    assert(rest[j] == rest0[j]);
                }
            }
            assert forall|k: int|
                0 <= k < i && !#[trigger] delivered(messages[k], sender_alive[k], request.spec_pid())
                    implies h.contains(k) by {
                if k < i - 1 {
                    let j = choose|j: int| 0 <= j < h0.len() && h0[j] == k;
                    assert(h[j] == k);
                } else {
                    assert(h[h.len() - 1] == k);
                }
            }
            (f0, h)
        }
    }
}

/// Every message that a receive takes out of the channel gets its copy, and
/// every other message stays: the messages split into those addressed to
/// the pid whose sender has a task and the rest. The `j`-th copy comes from
/// the `j`-th message of the first kind (its sender and address), and takes
/// as much of it as the buffer still has room for; the channel keeps the
/// messages of the second kind, in order. Returned: the indices of the two
/// kinds, each increasing, which between them number all the messages.
pub proof fn law_receive_delivers_each_message_once(
    messages: Seq<IpcMessage>,
    sender_alive: Seq<bool>,
    request: IpcRequest,
) -> (r: (Seq<int>, Seq<int>))
    requires
        sender_alive.len() == messages.len(),
        request.spec_buffer() + request.spec_size() <= usize::MAX,
    ensures
        ({
            let n = messages.len() as int;
            let copies = receive_progress(messages, sender_alive, request, n).0;
            let kept = undelivered(messages, sender_alive, request.spec_pid(), n).map_values(
                |e: (IpcMessage, bool)| e.0,
            );
            let (f, h) = r;
            &&& f.len() == copies.len()
            &&& h.len() == kept.len()
            &&& f.len() + h.len() == n
            &&& forall|k: int|
                0 <= k < n && messages[k].spec_to_pid() == request.spec_pid() && sender_alive[k]
                    ==> f.contains(k)
            &&& forall|k: int|
                0 <= k < n && !(messages[k].spec_to_pid() == request.spec_pid() && sender_alive[k])
                    ==> h.contains(k)
            &&& forall|j: int|
                0 <= j < f.len() ==> {
                    let m = #[trigger] f[j];
                    &&& 0 <= m < n
                    &&& messages[m].spec_to_pid() == request.spec_pid() && sender_alive[m]
                    &&& copies[j].from_pid == messages[m].spec_from_pid()
                    &&& copies[j].src == messages[m].spec_message()
                    &&& copies[j].len == if request.spec_buffer() + request.spec_size()
                        - copies[j].dst <= messages[m].spec_size() {
                        request.spec_buffer() + request.spec_size() - copies[j].dst
                    } else {
                        messages[m].spec_size() as int
                    }
                }
            &&& forall|j: int|
                0 <= j < h.len() ==> {
                    let m = #[trigger] h[j];
                    &&& 0 <= m < n
                    &&& !(messages[m].spec_to_pid() == request.spec_pid() && sender_alive[m])
                    &&& kept[j] == messages[m]
                }
            &&& forall|j: int| 0 <= j < f.len() - 1 ==> #[trigger] f[j] < f[j + 1]
            &&& forall|j: int| 0 <= j < h.len() - 1 ==> #[trigger] h[j] < h[j + 1]
        }),
{
    let n = messages.len() as int;
    let (f, h) = lemma_receive_indices(messages, sender_alive, request, n);
    let rest = undelivered(messages, sender_alive, request.spec_pid(), n);
    let kept = rest.map_values(|e: (IpcMessage, bool)| e.0);
    assert forall|j: int| 0 <= j < h.len() implies #[trigger] kept[j] == messages[h[j]] by {
        assert(kept[j] == rest[j].0);
    }
    assert forall|k: int|
        0 <= k < n && messages[k].spec_to_pid() == request.spec_pid() && sender_alive[k] implies f.contains(
        k) by {
        assert(delivered(messages[k], sender_alive[k], request.spec_pid()));
    }
    assert forall|k: int|
        0 <= k < n && !(messages[k].spec_to_pid() == request.spec_pid() && sender_alive[k]) implies h.contains(
        k) by {
        assert(!delivered(messages[k], sender_alive[k], request.spec_pid()));
    }
    (f, h)
}

} // verus!
