//! Shortest-request-first scheduling of file requests: each request gets a
//! priority from the size of the file it asks for (smaller is served
//! sooner), lowered for requests from the university's own networks, and
//! the responders always take a request of the lowest priority.
use vstd::prelude::*;
use crate::http::matches_at;

verus! {

/// Number of bytes of a requested file that count as one unit of priority:
/// a file smaller than this many bytes is answered first.
pub const PRIORITY_UNIT_BYTES: usize = 20480;

/// The base priority of a request for a file of `file_size` bytes.
pub open spec fn base_priority_spec(file_size: usize) -> usize {
    (file_size / PRIORITY_UNIT_BYTES) as usize
}

/// The base priority of a request for a file of `file_size` bytes
/// (smaller is served sooner).
pub fn base_priority(file_size: usize) -> (p: usize)
    ensures
        p == base_priority_spec(file_size),
{
    file_size / PRIORITY_UNIT_BYTES
}

/// Law: the base priority counts the whole units of `PRIORITY_UNIT_BYTES`
/// in the file: that many units fit in it and one more does not, so a file
/// one unit larger ranks exactly one place later.
pub proof fn law_base_priority_counts_units(z: usize)
    ensures
        base_priority_spec(z) * PRIORITY_UNIT_BYTES <= z,
        z < (base_priority_spec(z) + 1) * PRIORITY_UNIT_BYTES,
        z + PRIORITY_UNIT_BYTES <= usize::MAX ==> base_priority_spec(
            (z + PRIORITY_UNIT_BYTES) as usize,
        ) == base_priority_spec(z) + 1,
{
    let u: int = PRIORITY_UNIT_BYTES as int;
    let zi: int = z as int;
    assert(zi == u * (zi / u) + zi % u && 0 <= zi % u < u) by (nonlinear_arith)
        requires
            u == 20480,
    ;
    assert(0 <= zi / u <= zi) by (nonlinear_arith)
        requires
            u == 20480,
            zi >= 0,
    ;
    assert(base_priority_spec(z) == zi / u);
    if z + PRIORITY_UNIT_BYTES <= usize::MAX {
        let w: int = zi + u;
        assert(w / u == zi / u + 1) by (nonlinear_arith)
            requires
                u == 20480,
                zi >= 0,
                w == zi + u,
        ;
        assert(0 <= w / u <= w) by (nonlinear_arith)
            requires
                u == 20480,
                w >= 0,
        ;
    }
}

/// `s` starts with `prefix`.
pub open spec fn starts_with(s: Seq<u8>, prefix: Seq<u8>) -> bool {
    prefix.len() <= s.len() && s.subrange(0, prefix.len() as int) == prefix
}

/// `128.143.`
pub open spec fn prefix_128_143() -> Seq<u8> {
    seq![49u8, 50u8, 56u8, 46u8, 49u8, 52u8, 51u8, 46u8]
}

/// `137.54.`
pub open spec fn prefix_137_54() -> Seq<u8> {
    seq![49u8, 51u8, 55u8, 46u8, 53u8, 52u8, 46u8]
}

/// `172.26.`
pub open spec fn prefix_172_26() -> Seq<u8> {
    seq![49u8, 55u8, 50u8, 46u8, 50u8, 54u8, 46u8]
}

/// `50.134.`
pub open spec fn prefix_50_134() -> Seq<u8> {
    seq![53u8, 48u8, 46u8, 49u8, 51u8, 52u8, 46u8]
}

/// An address of the university's networks, whose requests are favoured.
pub open spec fn wahoo_ip(ip: Seq<u8>) -> bool {
    starts_with(ip, prefix_128_143()) || starts_with(ip, prefix_137_54()) || starts_with(
        ip,
        prefix_172_26(),
    ) || starts_with(ip, prefix_50_134())
}

/// The university's networks as the first scheduler knew them (without
/// `172.26.`).
pub open spec fn wahoo_ip_early(ip: Seq<u8>) -> bool {
    starts_with(ip, prefix_128_143()) || starts_with(ip, prefix_137_54()) || starts_with(
        ip,
        prefix_50_134(),
    )
}

/// Whether the address `ip` is one of the university's networks as the
/// first scheduler knew them.
pub fn is_wahoo_early(ip: &[u8]) -> (b: bool)
    ensures
        b == wahoo_ip_early(ip@),
{
    let p1: Vec<u8> = vec![49u8, 50u8, 56u8, 46u8, 49u8, 52u8, 51u8, 46u8];
    let p2: Vec<u8> = vec![49u8, 51u8, 55u8, 46u8, 53u8, 52u8, 46u8];
    let p4: Vec<u8> = vec![53u8, 48u8, 46u8, 49u8, 51u8, 52u8, 46u8];
    assert(p1@ =~= prefix_128_143());
    assert(p2@ =~= prefix_137_54());
    assert(p4@ =~= prefix_50_134());
    matches_at(ip, 0, p1.as_slice()) || matches_at(ip, 0, p2.as_slice()) || matches_at(
        ip,
        0,
        p4.as_slice(),
    )
}

/// Whether the address `ip` (in dotted form) is one of the university's.
pub fn is_wahoo(ip: &[u8]) -> (b: bool)
    ensures
        b == wahoo_ip(ip@),
{
    let p1: Vec<u8> = vec![49u8, 50u8, 56u8, 46u8, 49u8, 52u8, 51u8, 46u8];
    let p2: Vec<u8> = vec![49u8, 51u8, 55u8, 46u8, 53u8, 52u8, 46u8];
    let p3: Vec<u8> = vec![49u8, 55u8, 50u8, 46u8, 50u8, 54u8, 46u8];
    let p4: Vec<u8> = vec![53u8, 48u8, 46u8, 49u8, 51u8, 52u8, 46u8];
    assert(p1@ =~= prefix_128_143());
    assert(p2@ =~= prefix_137_54());
    assert(p3@ =~= prefix_172_26());
    assert(p4@ =~= prefix_50_134());
    matches_at(ip, 0, p1.as_slice()) || matches_at(ip, 0, p2.as_slice()) || matches_at(
        ip,
        0,
        p3.as_slice(),
    ) || matches_at(ip, 0, p4.as_slice())
}

/// A request waiting for a responder: the connection `stream` to answer,
/// the file to send and its size, and the request's priority.
pub struct SchedMsg<S> {
    pub priority: usize,
    pub stream: S,
    pub file_path: Vec<u8>,
    pub file_size: usize,
}

impl<S> SchedMsg<S> {
    /// The order of the queue: `self` is less than `other` when its
    /// priority is greater, so the greatest message is one of the lowest
    /// priority.
    pub fn lt(&self, other: &SchedMsg<S>) -> (b: bool)
        ensures
            b == (self.priority > other.priority),
    {
        self.priority > other.priority
    }
}

/// Position `i` of `q` is the request to serve next: one of the lowest
/// priority, and the first to come among those.
pub open spec fn pop_choice<S>(q: Seq<SchedMsg<S>>, i: int) -> bool {
    &&& 0 <= i < q.len()
    &&& forall|j: int| 0 <= j < q.len() ==> q[i].priority <= #[trigger] q[j].priority
    &&& forall|j: int| 0 <= j < i ==> q[i].priority < #[trigger] q[j].priority
}

/// The queue of waiting requests, in the order they came.
pub struct Scheduler<S> {
    pqueue: Vec<SchedMsg<S>>,
}

impl<S> Scheduler<S> {
    /// The waiting requests, in the order they came.
    pub closed spec fn queue(&self) -> Seq<SchedMsg<S>> {
        self.pqueue@
    }

    /// An empty queue.
    pub fn new() -> (s: Scheduler<S>)
        ensures
            s.queue() == Seq::<SchedMsg<S>>::empty(),
    {
        Scheduler { pqueue: Vec::new() }
    }

    /// The number of waiting requests.
    pub fn len(&self) -> (n: usize)
        ensures
            n == self.queue().len(),
    {
        self.pqueue.len()
    }

    /// Whether the address `ip` is one of the university's.
    pub fn is_wahoo(&self, ip: &[u8]) -> (b: bool)
        ensures
            b == wahoo_ip(ip@),
    {
        is_wahoo(ip)
    }

    /// Queues `sm`, a request from the address `peer_ip`, with a priority
    /// set from the size of its file: the base priority, or for the
    /// university's networks `discount` of it.
    pub fn add_sched_msg<F: Fn(usize) -> usize>(
        &mut self,
        sm: SchedMsg<S>,
        peer_ip: &[u8],
        discount: F,
    )
        requires
            forall|p: usize| #[trigger] discount.requires((p,)),
        ensures
            final(self).queue().len() == old(self).queue().len() + 1,
            final(self).queue().drop_last() == old(self).queue(),
            final(self).queue().last().stream == sm.stream,
            final(self).queue().last().file_path == sm.file_path,
            final(self).queue().last().file_size == sm.file_size,
            wahoo_ip(peer_ip@) ==> discount.ensures(
                (base_priority_spec(sm.file_size),),
                final(self).queue().last().priority,
            ),
            !wahoo_ip(peer_ip@) ==> final(self).queue().last().priority == base_priority_spec(
                sm.file_size,
            ),
    {
        let mut sm = sm;
        let mut priority = base_priority(sm.file_size);
        if self.is_wahoo(peer_ip) {
            priority = discount(priority);
        }
        sm.priority = priority;
        self.pqueue.push(sm);
        assert(self.pqueue@.drop_last() =~= old(self).pqueue@);
    }

    /// Queues `sm`, a request from `peer_ip`, as the first scheduler did:
    /// its priority is always set, to the base priority of its file, or to
    /// `discount` of it for the university's networks (as that scheduler
    /// knew them).
    pub fn add_sched_msg_by_size<F: Fn(usize) -> usize>(
        &mut self,
        sm: SchedMsg<S>,
        peer_ip: &[u8],
        discount: F,
    )
        requires
            forall|p: usize| #[trigger] discount.requires((p,)),
        ensures
            final(self).queue().len() == old(self).queue().len() + 1,
            final(self).queue().drop_last() == old(self).queue(),
            final(self).queue().last().stream == sm.stream,
            final(self).queue().last().file_path == sm.file_path,
            final(self).queue().last().file_size == sm.file_size,
            wahoo_ip_early(peer_ip@) ==> discount.ensures(
                (base_priority_spec(sm.file_size),),
                final(self).queue().last().priority,
            ),
            !wahoo_ip_early(peer_ip@) ==> final(self).queue().last().priority
                == base_priority_spec(sm.file_size),
    {
        let mut sm = sm;
        let mut priority = base_priority(sm.file_size);
        if is_wahoo_early(peer_ip) {
            priority = discount(priority);
        }
        sm.priority = priority;
        self.pqueue.push(sm);
        assert(self.pqueue@.drop_last() =~= old(self).pqueue@);
    }

    /// Takes out a waiting request of the lowest priority (the first to
    /// come among those), or `None` when none waits.
    pub fn maybe_pop(&mut self) -> (r: Option<SchedMsg<S>>)
        ensures
            old(self).queue().len() == 0 ==> r is None && final(self).queue() == old(self).queue(),
            old(self).queue().len() > 0 ==> exists|i: int|
                #[trigger] pop_choice(old(self).queue(), i) && r == Some(old(self).queue()[i])
                    && final(self).queue() == old(self).queue().remove(i),
    {
        if self.pqueue.len() == 0 {
            return None;
        }
        let mut best: usize = 0;
        let mut k: usize = 1;
        while k < self.pqueue.len()
            invariant
                self.pqueue@ == old(self).pqueue@,
                0 <= best < k <= self.pqueue@.len(),
                forall|j: int|
                    0 <= j < k ==> self.pqueue@[best as int].priority
                        <= #[trigger] self.pqueue@[j].priority,
                forall|j: int|
                    0 <= j < best ==> self.pqueue@[best as int].priority
                        < #[trigger] self.pqueue@[j].priority,
            decreases self.pqueue@.len() - k,
        {
            if self.pqueue[k].priority < self.pqueue[best].priority {
                best = k;
            }
            k = k + 1;
        }
        let m = self.pqueue.remove(best);
        assert(pop_choice(old(self).queue(), best as int));
        Some(m)
    }
}

/// Law: requests are served in order of priority.  The request served
/// after another (with no request added between) never has a lower
/// priority.
pub proof fn law_pops_in_priority_order<S>(q: Seq<SchedMsg<S>>, i: int, j: int)
    requires
        pop_choice(q, i),
        pop_choice(q.remove(i), j),
    ensures
        q[i].priority <= q.remove(i)[j].priority,
{
    let k = if j < i { j } else { j + 1 };
    assert(q.remove(i)[j] == q[k]);
}

/// Law: a smaller file never ranks behind a larger one.  Requests from the
/// same kind of network (both given the base priority) keep the order of
/// their file sizes.
pub proof fn law_smaller_files_first(z1: usize, z2: usize)
    requires
        z1 <= z2,
    ensures
        base_priority_spec(z1) <= base_priority_spec(z2),
{
    vstd::arithmetic::div_mod::lemma_div_is_ordered(z1 as int, z2 as int, PRIORITY_UNIT_BYTES as int);
}

/// Law: the university's networks go first.  With a discount that never
/// raises a priority and keeps the order of priorities, a request from the
/// university's networks ranks no lower than any request for a file at
/// least as large, from the university (`r2`) or from elsewhere (the base
/// priority of `z2`).
pub proof fn law_wahoo_first<F: Fn(usize) -> usize>(
    discount: F,
    z1: usize,
    z2: usize,
    r1: usize,
    r2: usize,
)
    requires
        forall|p: usize, r: usize| #[trigger] discount.ensures((p,), r) ==> r <= p,
        forall|p: usize, q: usize, r: usize, t: usize|
            p <= q && #[trigger] discount.ensures((p,), r) && #[trigger] discount.ensures((q,), t)
                ==> r <= t,
        z1 <= z2,
        discount.ensures((base_priority_spec(z1),), r1),
        discount.ensures((base_priority_spec(z2),), r2),
    ensures
        r1 <= base_priority_spec(z2),
        r1 <= r2,
{
    law_smaller_files_first(z1, z2);
}

} // verus!
