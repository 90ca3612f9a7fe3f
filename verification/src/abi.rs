//! Fixed-layout byte images for values copied into user memory.
//!
//! `TimeVal` and `TaskInfo` cross the user/kernel boundary as raw bytes:
//! field order and sizes are part of the ABI, so the layout is pinned
//! explicitly here instead of being left to the compiler.  All fields are
//! little-endian; a word field takes 8 bytes, a counter 4.
//!
//! `TaskInfo`'s image is: 4 bytes of status code, the syscall counters (4
//! bytes each), 4 bytes of padding (zero), then 8 bytes of elapsed
//! milliseconds — 2016 bytes in all, the size user code expects.

use vstd::prelude::*;

verus! {

/// How many syscall numbers the per-task counters cover.
pub const MAX_SYSCALL_NUM: usize = 500;

/// Size of `TimeVal`'s byte image.
pub const TIME_VAL_BYTES: usize = 16;

/// Size of `TaskInfo`'s byte image: 4 + 4 * 500 + 4 + 8.
pub const TASK_INFO_BYTES: usize = 2016;

/// Microseconds per second.
pub const USEC_PER_SEC: usize = 1_000_000;

/// A task's place in its life cycle.
#[derive(Clone, Copy, PartialEq, Eq, Structural, Debug)]
pub enum TaskStatus {
    /// not yet initialized
    UnInit,
    /// ready to run
    Ready,
    /// currently running
    Running,
    /// finished
    Exited,
}

/// Seconds and microseconds, as user code reads the time.
#[derive(Clone, Copy, PartialEq, Eq, Structural, Debug)]
pub struct TimeVal {
    /// whole seconds
    pub sec: usize,
    /// microseconds below one second
    pub usec: usize,
}

/// What `sys_task_info` reports about the current task.
#[derive(Clone, Copy, PartialEq, Eq, Debug)]
pub struct TaskInfo {
    /// the task's status in its life cycle
    pub status: TaskStatus,
    /// invocation counts, indexed by syscall number
    pub syscall_times: [u32; 500],
    /// milliseconds since the task first ran
    pub time: usize,
}

/// The `n` little-endian bytes of `v`.
pub open spec fn le_bytes(v: nat, n: nat) -> Seq<u8>
    decreases n,
{
    if n == 0 {
        Seq::empty()
    } else {
        seq![(v % 256) as u8] + le_bytes(v / 256, (n - 1) as nat)
    }
}

pub proof fn lemma_le_bytes_len(v: nat, n: nat)
    ensures
        le_bytes(v, n).len() == n,
    decreases n,
{
    if n > 0 {
        lemma_le_bytes_len(v / 256, (n - 1) as nat);
    }
}

/// The numeric code a status is written as.
pub open spec fn status_num(s: TaskStatus) -> nat {
    match s {
        TaskStatus::UnInit => 0,
        TaskStatus::Ready => 1,
        TaskStatus::Running => 2,
        TaskStatus::Exited => 3,
    }
}

/// Byte image of a `TimeVal`: seconds then microseconds, 8 bytes each.
pub open spec fn time_val_bytes(tv: TimeVal) -> Seq<u8> {
    le_bytes(tv.sec as nat, 8) + le_bytes(tv.usec as nat, 8)
}

/// Byte image of the counter array: 4 bytes per counter, in order.
pub open spec fn counters_bytes(s: Seq<u32>) -> Seq<u8>
    decreases s.len(),
{
    if s.len() == 0 {
        Seq::empty()
    } else {
        le_bytes(s[0] as nat, 4) + counters_bytes(s.drop_first())
    }
}

/// Byte image of a `TaskInfo`: status code, counters, padding, elapsed
/// milliseconds.
pub open spec fn task_info_bytes(ti: TaskInfo) -> Seq<u8> {
    le_bytes(status_num(ti.status), 4) + counters_bytes(ti.syscall_times@) + le_bytes(0, 4)
        + le_bytes(ti.time as nat, 8)
}

/// The `TimeVal` that stands for `us` microseconds since boot.
pub open spec fn time_val_of(us: usize) -> TimeVal {
    TimeVal { sec: (us / USEC_PER_SEC) as usize, usec: (us % USEC_PER_SEC) as usize }
}

/// Total microseconds a `TimeVal` denotes.
pub open spec fn time_val_total(tv: TimeVal) -> nat {
    (tv.sec * (USEC_PER_SEC as int) + tv.usec) as nat
}

/// The encoding of a microsecond reading is exact: it denotes the same
/// count, and its microsecond field is below one second.
pub proof fn lemma_time_val_exact(us: usize)
    ensures
        time_val_total(time_val_of(us)) == us,
        time_val_of(us).usec < USEC_PER_SEC,
{
}

/// A later microsecond reading denotes a strictly larger `TimeVal`: two
/// readings with a sleep between them compare strictly increasing.
pub proof fn lemma_time_val_monotonic(us1: usize, us2: usize)
    requires
        us1 < us2,
    ensures
        time_val_total(time_val_of(us1)) < time_val_total(time_val_of(us2)),
{
    lemma_time_val_exact(us1);
    lemma_time_val_exact(us2);
}

/// Elapsed milliseconds never decrease over repeated readings from the
/// same task: the reported task time is monotone (and never negative,
/// being a count).
pub proof fn lemma_elapsed_ms_monotonic(start: nat, n1: nat, n2: nat)
    requires
        start <= n1 <= n2,
    ensures
        (n1 - start) / 1000 <= (n2 - start) / 1000,
{
    vstd::arithmetic::div_mod::lemma_div_is_ordered(n1 - start, n2 - start, 1000);
}

proof fn lemma_counters_bytes_push(s: Seq<u32>, c: u32)
    ensures
        counters_bytes(s.push(c)) == counters_bytes(s) + le_bytes(c as nat, 4),
    decreases s.len(),
{
    if s.len() == 0 {
        assert(s.push(c).drop_first() =~= s);
        assert(counters_bytes(s.push(c)) =~= counters_bytes(s) + le_bytes(c as nat, 4));
    } else {
        assert(s.push(c).drop_first() =~= s.drop_first().push(c));
        lemma_counters_bytes_push(s.drop_first(), c);
        assert(counters_bytes(s.push(c)) =~= counters_bytes(s) + le_bytes(c as nat, 4));
    }
}

proof fn lemma_counters_bytes_len(s: Seq<u32>)
    ensures
        counters_bytes(s).len() == 4 * s.len(),
    decreases s.len(),
{
    if s.len() > 0 {
        lemma_counters_bytes_len(s.drop_first());
        lemma_le_bytes_len(s[0] as nat, 4);
    }
}

/// Append the `n` little-endian bytes of `v`.
fn push_le_bytes(out: &mut Vec<u8>, v: u64, n: usize)
    ensures
        final(out)@ == old(out)@ + le_bytes(v as nat, n as nat),
{
    let ghost out0 = out@;
    let mut x = v;
    let mut k: usize = 0;
    while k < n
        invariant
            k <= n,
            out0 + le_bytes(v as nat, n as nat) == out@ + le_bytes(x as nat, (n - k) as nat),
        decreases n - k,
    {
        let ghost xpre = x;
        out.push((x % 256) as u8);
        x = x / 256;
        proof {
            assert(le_bytes(xpre as nat, (n - k) as nat) == seq![(xpre as nat % 256) as u8]
                + le_bytes(xpre as nat / 256, (n - k - 1) as nat));
            assert(out@ + le_bytes(x as nat, (n - k - 1) as nat) =~= out@.drop_last() + le_bytes(
                xpre as nat,
                (n - k) as nat,
            ));
        }
        k = k + 1;
    }
    proof {
        assert(out0 + le_bytes(v as nat, n as nat) =~= out@);
    }
}


/// The number a little-endian byte run denotes.
pub open spec fn nat_from_le(b: Seq<u8>) -> nat
    decreases b.len(),
{
    if b.len() == 0 {
        0
    } else {
        (b[0] + 256 * nat_from_le(b.drop_first())) as nat
    }
}

/// How many values `n` bytes can hold.
pub open spec fn pow256(n: nat) -> nat
    decreases n,
{
    if n == 0 {
        1
    } else {
        256 * pow256((n - 1) as nat)
    }
}

/// Decoding inverts encoding: the bytes of a value below the width's
/// capacity denote that value.
pub proof fn lemma_le_bytes_decode(v: nat, n: nat)
    requires
        v < pow256(n),
    ensures
        nat_from_le(le_bytes(v, n)) == v,
    decreases n,
{
    if n > 0 {
        assert(v / 256 < pow256((n - 1) as nat)) by {
            if v / 256 >= pow256((n - 1) as nat) {
                assert(v >= 256 * (v / 256));
                assert(256 * (v / 256) >= 256 * pow256((n - 1) as nat));
            }
        }
        lemma_le_bytes_decode(v / 256, (n - 1) as nat);
        assert(le_bytes(v, n).drop_first() =~= le_bytes(v / 256, (n - 1) as nat));
    }
}

/// Encoding inverts decoding: a byte run is the encoding of the number
/// it denotes.
pub proof fn lemma_le_bytes_encode(b: Seq<u8>)
    ensures
        le_bytes(nat_from_le(b), b.len()) == b,
    decreases b.len(),
{
    if b.len() > 0 {
        let rest = nat_from_le(b.drop_first());
        let v = nat_from_le(b);
        assert(v == b[0] + 256 * rest);
        assert(v % 256 == b[0] && v / 256 == rest) by {
            vstd::arithmetic::div_mod::lemma_fundamental_div_mod_converse(
                v as int,
                256,
                rest as int,
                b[0] as int,
            );
        }
        lemma_le_bytes_encode(b.drop_first());
        assert(le_bytes(v, b.len()) =~= b);
    }
}

/// A denoted value is below the run's capacity.
pub proof fn lemma_nat_from_le_bound(b: Seq<u8>)
    ensures
        nat_from_le(b) < pow256(b.len()),
    decreases b.len(),
{
    if b.len() > 0 {
        lemma_nat_from_le_bound(b.drop_first());
    }
}

/// Read the `n`-byte little-endian number at `off`.
fn read_le_u64(b: &Vec<u8>, off: usize, n: usize) -> (v: u64)
    requires
        off + n <= b@.len(),
        n <= 8,
    ensures
        v as nat == nat_from_le(b@.subrange(off as int, off + n)),
{
    proof {
        assert(pow256(0) == 1);
        assert(pow256(1) == 256);
        assert(pow256(2) == 0x1_0000);
        assert(pow256(3) == 0x100_0000);
        assert(pow256(4) == 0x1_0000_0000);
        assert(pow256(5) == 0x100_0000_0000);
        assert(pow256(6) == 0x1_0000_0000_0000);
        assert(pow256(7) == 0x100_0000_0000_0000);
        assert(pow256(8) == 0x1_0000_0000_0000_0000);
        assert forall|m: nat, m2: nat| m <= m2 <= 8 implies #[trigger] pow256(m) <= #[trigger] pow256(m2) by {
            assert(pow256(0) <= pow256(1) <= pow256(2) <= pow256(3) <= pow256(4) <= pow256(5)
                <= pow256(6) <= pow256(7) <= pow256(8));
        }
    }
    let blen = b.len();
    let mut v: u64 = 0;
    let mut k: usize = n;
    while k > 0
        invariant
            k <= n <= 8,
            off + n <= b@.len(),
            b@.len() == blen,
            v as nat == nat_from_le(b@.subrange(off + k, off + n)),
            v < pow256((n - k) as nat),
            pow256(8) == 0x1_0000_0000_0000_0000,
            forall|m: nat| m <= 8 ==> #[trigger] pow256(m) <= pow256(8),
        decreases k,
    {
        k = k - 1;
        proof {
            assert(b@.subrange(off + k, off + n).drop_first() =~= b@.subrange(
                off + k + 1,
                off + n,
            ));
            assert(pow256((n - k) as nat) == 256 * pow256((n - k - 1) as nat));
            assert(pow256((n - k) as nat) <= pow256(8));
        }
        v = v * 256 + (b[off + k] as u64);
    }
    proof {
        assert(b@.subrange(off as int, off + n) =~= b@.subrange(off + 0, off + n));
    }
    v
}

/// Rebuild a `TimeVal` from its 16-byte image: the symmetric read of the
/// value `sys_get_time` deposits.  Decoding then encoding reproduces the
/// image exactly.
pub fn time_val_from_bytes(b: &Vec<u8>) -> (tv: TimeVal)
    requires
        b@.len() == TIME_VAL_BYTES,
        nat_from_le(b@.subrange(0, 8)) <= usize::MAX,
        nat_from_le(b@.subrange(8, 16)) <= usize::MAX,
    ensures
        time_val_bytes(tv) == b@,
        tv.sec == nat_from_le(b@.subrange(0, 8)),
        tv.usec == nat_from_le(b@.subrange(8, 16)),
{
    let sec = read_le_u64(b, 0, 8);
    let usec = read_le_u64(b, 8, 8);
    let tv = TimeVal { sec: sec as usize, usec: usec as usize };
    proof {
        lemma_le_bytes_encode(b@.subrange(0, 8));
        lemma_le_bytes_encode(b@.subrange(8, 16));
        assert(time_val_bytes(tv) =~= b@);
    }
    tv
}

/// The status code as written into the byte image.
pub fn status_code(s: TaskStatus) -> (c: u32)
    ensures
        c == status_num(s),
{
    match s {
        TaskStatus::UnInit => 0,
        TaskStatus::Ready => 1,
        TaskStatus::Running => 2,
        TaskStatus::Exited => 3,
    }
}

/// Serialize a `TimeVal` to its 16-byte image.
pub fn time_val_to_bytes(tv: &TimeVal) -> (out: Vec<u8>)
    ensures
        out@ == time_val_bytes(*tv),
        out@.len() == TIME_VAL_BYTES,
{
    let mut out: Vec<u8> = Vec::new();
    push_le_bytes(&mut out, tv.sec as u64, 8);
    push_le_bytes(&mut out, tv.usec as u64, 8);
    proof {
        lemma_le_bytes_len(tv.sec as nat, 8);
        lemma_le_bytes_len(tv.usec as nat, 8);
        assert(out@ =~= time_val_bytes(*tv));
    }
    out
}

/// Serialize a `TaskInfo` to its 2016-byte image.
pub fn task_info_to_bytes(ti: &TaskInfo) -> (out: Vec<u8>)
    ensures
        out@ == task_info_bytes(*ti),
        out@.len() == TASK_INFO_BYTES,
{
    let mut out: Vec<u8> = Vec::new();
    let code = status_code(ti.status);
    push_le_bytes(&mut out, code as u64, 4);
    let ghost head = out@;
    let mut i: usize = 0;
    while i < MAX_SYSCALL_NUM
        invariant
            i <= MAX_SYSCALL_NUM,
            ti.syscall_times@.len() == MAX_SYSCALL_NUM,
            out@ == head + counters_bytes(ti.syscall_times@.take(i as int)),
        decreases MAX_SYSCALL_NUM - i,
    {
        let c = ti.syscall_times[i];
        push_le_bytes(&mut out, c as u64, 4);
        proof {
            assert(ti.syscall_times@.take(i + 1) =~= ti.syscall_times@.take(i as int).push(c));
            lemma_counters_bytes_push(ti.syscall_times@.take(i as int), c);
            assert(out@ =~= head + counters_bytes(ti.syscall_times@.take(i + 1)));
        }
        i = i + 1;
    }
    proof {
        assert(ti.syscall_times@.take(MAX_SYSCALL_NUM as int) =~= ti.syscall_times@);
    }
    push_le_bytes(&mut out, 0, 4);
    push_le_bytes(&mut out, ti.time as u64, 8);
    proof {
        assert(out@ =~= task_info_bytes(*ti));
        lemma_le_bytes_len(status_num(ti.status), 4);
        lemma_counters_bytes_len(ti.syscall_times@);
        lemma_le_bytes_len(0, 4);
        lemma_le_bytes_len(ti.time as nat, 8);
    }
    out
}

} // verus!
