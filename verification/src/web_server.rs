//! The state of the web server that queues static-file requests: its
//! address, its working directory, the visitor count, the requests waiting
//! for the file responder (the shortest file first), and the connection of
//! each waiting request, kept by the peer's name.
use vstd::prelude::*;
use crate::assoc::AssocList;
use crate::http::{decimal, default_page, RequestKind, DEFAULT_PAGE_HEAD, DEFAULT_PAGE_TAIL};
use vstd::string::StringSliceAdditionalSpecFns;

verus! {

/// A request waiting for the file responder: the peer that sent it, the
/// file it asks for and the size of that file.
pub struct HttpRequest {
    pub peer_name: Vec<u8>,
    pub path: Vec<u8>,
    pub file_size: usize,
}

/// A waiting request as a view: (peer name, path, file size).
pub open spec fn request_view(r: HttpRequest) -> (Seq<u8>, Seq<u8>, usize) {
    (r.peer_name@, r.path@, r.file_size)
}

/// Position `i` of `q` is the request the responder takes next: one for
/// the smallest file, and the first to come among those.
pub open spec fn srpt_choice(q: Seq<(Seq<u8>, Seq<u8>, usize)>, i: int) -> bool {
    &&& 0 <= i < q.len()
    &&& forall|j: int| 0 <= j < q.len() ==> q[i].2 <= #[trigger] q[j].2
    &&& forall|j: int| 0 <= j < i ==> q[i].2 < #[trigger] q[j].2
}

/// The server; `S` is the type of a connection.
pub struct WebServer<S> {
    ip: Vec<u8>,
    port: usize,
    working_directory: Vec<u8>,
    request_queue: Vec<HttpRequest>,
    stream_map: AssocList<S>,
    visitor_count: usize,
}

impl<S> WebServer<S> {
    /// The address the server listens on.
    pub closed spec fn server_ip(&self) -> Seq<u8> {
        self.ip@
    }

    /// The port the server listens on.
    pub closed spec fn server_port(&self) -> usize {
        self.port
    }

    /// The directory the server serves.
    pub closed spec fn server_dir(&self) -> Seq<u8> {
        self.working_directory@
    }

    /// The waiting requests, as (peer name, path, file size), oldest first.
    pub closed spec fn queue(&self) -> Seq<(Seq<u8>, Seq<u8>, usize)> {
        self.request_queue@.map_values(|r: HttpRequest| request_view(r))
    }

    /// The connections kept for waiting requests, by peer name.
    pub closed spec fn streams(&self) -> Map<Seq<u8>, S> {
        self.stream_map@
    }

    /// The number of connections seen.
    pub closed spec fn visitors(&self) -> nat {
        self.visitor_count as nat
    }

    pub closed spec fn wf(&self) -> bool {
        self.stream_map.wf()
    }

    /// A server for `ip`:`port` serving `working_directory`, with no
    /// visitors and nothing waiting.
    pub fn new(ip: Vec<u8>, port: usize, working_directory: Vec<u8>) -> (w: WebServer<S>)
        ensures
            w.wf(),
            w.server_ip() == ip@,
            w.server_port() == port,
            w.server_dir() == working_directory@,
            w.queue() == Seq::<(Seq<u8>, Seq<u8>, usize)>::empty(),
            w.streams() == Map::<Seq<u8>, S>::empty(),
            w.visitors() == 0,
    {
        let w = WebServer {
            ip,
            port,
            working_directory,
            request_queue: Vec::new(),
            stream_map: AssocList::new(),
            visitor_count: 0,
        };
        assert(w.queue() =~= Seq::<(Seq<u8>, Seq<u8>, usize)>::empty());
        w
    }

    /// Counts a new connection and gives the new count (which wraps around
    /// past the largest `usize`).
    pub fn visit(&mut self) -> (n: usize)
        ensures
            n == next_count(old(self).visitors()),
            final(self).visitors() == n,
            final(self).queue() == old(self).queue(),
            final(self).streams() == old(self).streams(),
            final(self).wf() == old(self).wf(),
            final(self).server_ip() == old(self).server_ip(),
            final(self).server_port() == old(self).server_port(),
            final(self).server_dir() == old(self).server_dir(),
    {
        self.visitor_count = next_visitor_count(self.visitor_count);
        self.visitor_count
    }

    /// The address the server listens on.
    pub fn ip(&self) -> (r: &Vec<u8>)
        ensures
            r@ == self.server_ip(),
    {
        &self.ip
    }

    /// The port the server listens on.
    pub fn port(&self) -> (r: usize)
        ensures
            r == self.server_port(),
    {
        self.port
    }

    /// The directory the server serves.
    pub fn working_directory(&self) -> (r: &Vec<u8>)
        ensures
            r@ == self.server_dir(),
    {
        &self.working_directory
    }

    /// The number of connections seen.
    pub fn visitor_count(&self) -> (n: usize)
        ensures
            n == self.visitors(),
    {
        self.visitor_count
    }

    /// Queues a request of `peer_name` for `path`, a file of `file_size`
    /// bytes, keeping its connection; a connection kept earlier under the
    /// same peer name is given back.
    pub fn enqueue_request(&mut self, peer_name: Vec<u8>, stream: S, path: Vec<u8>, file_size: usize) -> (r: Option<S>)
        requires
            old(self).wf(),
        ensures
            final(self).wf(),
            final(self).queue() == old(self).queue().push((peer_name@, path@, file_size)),
            final(self).streams() == old(self).streams().insert(peer_name@, stream),
            r is Some <==> old(self).streams().contains_key(peer_name@),
            r matches Some(s) ==> old(self).streams()[peer_name@] == s,
            final(self).visitors() == old(self).visitors(),
            final(self).server_ip() == old(self).server_ip(),
            final(self).server_port() == old(self).server_port(),
            final(self).server_dir() == old(self).server_dir(),
    {
        let key = peer_name.clone();
        let replaced = self.stream_map.insert(key, stream);
        self.request_queue.push(HttpRequest { peer_name, path, file_size });
        assert(self.queue() =~= old(self).queue().push((peer_name@, path@, file_size)));
        replaced
    }

    /// Takes the waiting request for the smallest file (the first to come
    /// among those), with the connection kept for its peer (`None` when no
    /// connection is kept under that name).
    pub fn next_request(&mut self) -> (r: Option<(HttpRequest, Option<S>)>)
        requires
            old(self).wf(),
        ensures
            final(self).wf(),
            final(self).visitors() == old(self).visitors(),
            final(self).server_ip() == old(self).server_ip(),
            final(self).server_port() == old(self).server_port(),
            final(self).server_dir() == old(self).server_dir(),
            old(self).queue().len() == 0 ==> r is None && final(self).queue() == old(self).queue()
                && final(self).streams() == old(self).streams(),
            r matches Some((req, _)) ==> dequeue_step(
                old(self).queue(),
                final(self).queue(),
                request_view(req),
            ),
            old(self).queue().len() > 0 ==> exists|i: int|
                #[trigger] srpt_choice(old(self).queue(), i) && (r matches Some((req, s))
                    && request_view(req) == old(self).queue()[i] && final(self).queue()
                    == old(self).queue().remove(i) && final(self).streams() == old(
                    self,
                ).streams().remove(req.peer_name@) && (s is Some <==> old(
                    self,
                ).streams().contains_key(req.peer_name@)) && (s matches Some(st) ==> old(
                    self,
                ).streams()[req.peer_name@] == st)),
    {
        if self.request_queue.len() == 0 {
            return None;
        }
        let mut best: usize = 0;
        let mut k: usize = 1;
        while k < self.request_queue.len()
            invariant
                self.request_queue@ == old(self).request_queue@,
                0 <= best < k <= self.request_queue@.len(),
                forall|j: int|
                    0 <= j < k ==> self.request_queue@[best as int].file_size
                        <= #[trigger] self.request_queue@[j].file_size,
                forall|j: int|
                    0 <= j < best ==> self.request_queue@[best as int].file_size
                        < #[trigger] self.request_queue@[j].file_size,
            decreases self.request_queue@.len() - k,
        {
            if self.request_queue[k].file_size < self.request_queue[best].file_size {
                best = k;
            }
            k = k + 1;
        }
        proof {
            let q = old(self).queue();
            assert forall|j: int| 0 <= j < q.len() implies q[best as int].2 <= #[trigger] q[j].2 by {
                assert(q[j] == request_view(self.request_queue@[j]));
            }
            assert forall|j: int| 0 <= j < best implies q[best as int].2 < #[trigger] q[j].2 by {
                assert(q[j] == request_view(self.request_queue@[j]));
            }
            assert(srpt_choice(q, best as int));
        }
        let req = self.request_queue.remove(best);
        assert(self.queue() =~= old(self).queue().remove(best as int));
        let stream = self.stream_map.remove(&req.peer_name);
        Some((req, stream))
    }
}

/// What the server does with a request once it knows how to answer it.
pub enum Reply<S> {
    /// Send these bytes (the default page) on the connection.
    Page(S, Vec<u8>),
    /// Send the requested page, read from its file, on the connection.
    DynamicPage(S),
    /// The request waits for the file responder; a connection kept earlier
    /// under the same peer name is given back.
    Queued(Option<S>),
}

impl<S> WebServer<S> {
    /// Answers a request of `peer_name` on `stream` for `path` (a file of
    /// `file_size` bytes), which `kind` says how to answer: the default page
    /// with the visitor count, the page itself, or a place in the queue.
    /// Only a file request changes the queue and the kept connections.
    pub fn answer(
        &mut self,
        peer_name: Vec<u8>,
        stream: S,
        path: Vec<u8>,
        file_size: usize,
        kind: RequestKind,
    ) -> (r: Reply<S>)
        requires
            old(self).wf(),
        ensures
            final(self).wf(),
            final(self).visitors() == old(self).visitors(),
            final(self).server_ip() == old(self).server_ip(),
            final(self).server_port() == old(self).server_port(),
            final(self).server_dir() == old(self).server_dir(),
            kind == RequestKind::DefaultPage ==> (r matches Reply::Page(s, page) && s == stream
                && page@ == DEFAULT_PAGE_HEAD.spec_bytes() + decimal(old(self).visitors())
                + DEFAULT_PAGE_TAIL.spec_bytes()),
            kind == RequestKind::DynamicPage ==> (r matches Reply::DynamicPage(s) && s == stream),
            kind != RequestKind::StaticFile ==> final(self).queue() == old(self).queue()
                && final(self).streams() == old(self).streams(),
            kind == RequestKind::StaticFile ==> (r matches Reply::Queued(replaced)
                && final(self).queue() == old(self).queue().push((peer_name@, path@, file_size))
                && final(self).streams() == old(self).streams().insert(peer_name@, stream)
                && (replaced is Some <==> old(self).streams().contains_key(peer_name@))
                && (replaced matches Some(x) ==> old(self).streams()[peer_name@] == x)),
    {
        match kind {
            RequestKind::DefaultPage => Reply::Page(stream, default_page(self.visitor_count)),
            RequestKind::DynamicPage => Reply::DynamicPage(stream),
            RequestKind::StaticFile => {
                let replaced = self.enqueue_request(peer_name, stream, path, file_size);
                Reply::Queued(replaced)
            },
        }
    }
}

/// The visitor count after one more visit from `c`: one more, wrapping to
/// 0 past the largest `usize`.
pub open spec fn next_count(c: nat) -> nat {
    if c == usize::MAX {
        0
    } else {
        c + 1
    }
}

/// The visitor count after one more visit from `c`.
pub fn next_visitor_count(c: usize) -> (n: usize)
    ensures
        n == next_count(c as nat),
{
    if c == usize::MAX {
        0
    } else {
        c + 1
    }
}

/// The visitor count after `n` visits from `c`.
pub open spec fn count_after(c: nat, n: nat) -> nat
    decreases n,
{
    if n == 0 {
        c
    } else {
        next_count(count_after(c, (n - 1) as nat))
    }
}

/// Law: every visit is counted once.  After `n` visits from the count
/// `c0`, the count is `c0 + n`, modulo one more than the largest `usize`.
pub proof fn law_visits_counted(c0: nat, n: nat)
    requires
        c0 <= usize::MAX,
    ensures
        count_after(c0, n) == (c0 + n) % (usize::MAX as nat + 1),
    decreases n,
{
    let m: int = usize::MAX as int + 1;
    if n == 0 {
        vstd::arithmetic::div_mod::lemma_small_mod(c0, m as nat);
    } else {
        law_visits_counted(c0, (n - 1) as nat);
        let x: int = c0 + n - 1;
        vstd::arithmetic::div_mod::lemma_add_mod_noop(x, 1, m);
        vstd::arithmetic::div_mod::lemma_small_mod(1, m as nat);
        let r: int = x % m;
        assert(0 <= r < m) by {
            vstd::arithmetic::div_mod::lemma_mod_bound(x, m);
        }
        if r + 1 == m {
            vstd::arithmetic::div_mod::lemma_mod_self_0(m);
        } else {
            vstd::arithmetic::div_mod::lemma_small_mod((r + 1) as nat, m as nat);
        }
    }
}

/// Law: each dequeue answers exactly one waiting request.  The request
/// taken and the requests left make up the requests that waited, none lost
/// and none twice.
pub proof fn law_dequeue_takes_one(q: Seq<(Seq<u8>, Seq<u8>, usize)>, i: int)
    requires
        srpt_choice(q, i),
    ensures
        q.remove(i).to_multiset().insert(q[i]) == q.to_multiset(),
        q.remove(i).len() + 1 == q.len(),
{
    broadcast use vstd::seq_lib::group_to_multiset_ensures;

    let a = q.take(i);
    let b = q.skip(i + 1);
    assert(q.remove(i) =~= a + b);
    assert(q =~= a + (seq![q[i]] + b));
    vstd::seq_lib::lemma_multiset_commutative(a, b);
    vstd::seq_lib::lemma_multiset_commutative(a, seq![q[i]] + b);
    vstd::seq_lib::lemma_multiset_commutative(seq![q[i]], b);
    assert(seq![q[i]].to_multiset() =~= vstd::multiset::Multiset::empty().insert(q[i])) by {
        assert(seq![q[i]] =~= Seq::<(Seq<u8>, Seq<u8>, usize)>::empty().push(q[i]));
    }
    assert(q.remove(i).to_multiset().insert(q[i]) =~= q.to_multiset());
}

/// One position is the next request to take: `srpt_choice` picks at most
/// one.
pub proof fn lemma_srpt_choice_unique(q: Seq<(Seq<u8>, Seq<u8>, usize)>, i: int, j: int)
    requires
        srpt_choice(q, i),
        srpt_choice(q, j),
    ensures
        i == j,
{
    if i < j {
        assert(q[j].2 < q[i].2);
        assert(q[j].2 >= q[j].2);
        assert(q[i].2 <= q[j].2);
    } else if j < i {
        assert(q[i].2 < q[j].2);
        assert(q[j].2 <= q[i].2);
    }
}

/// The position of the next request to take in a non-empty queue.
pub proof fn lemma_srpt_choice_exists(q: Seq<(Seq<u8>, Seq<u8>, usize)>) -> (i: int)
    requires
        q.len() > 0,
    ensures
        srpt_choice(q, i),
    decreases q.len(),
{
    if q.len() == 1 {
        0
    } else {
        let d = q.drop_last();
        let j = lemma_srpt_choice_exists(d);
        let n = q.len() - 1;
        if q[n].2 < q[j].2 {
            assert forall|k: int| 0 <= k < q.len() implies q[n].2 <= #[trigger] q[k].2 by {
                if k < n {
                    assert(d[k] == q[k]);
                    assert(d[j].2 <= d[k].2);
                }
            }
            assert forall|k: int| 0 <= k < n implies q[n].2 < #[trigger] q[k].2 by {
                assert(d[k] == q[k]);
                assert(d[j].2 <= d[k].2);
            }
            n
        } else {
            assert forall|k: int| 0 <= k < q.len() implies q[j].2 <= #[trigger] q[k].2 by {
                if k < n {
                    assert(d[k] == q[k]);
                    assert(d[j].2 <= d[k].2);
                }
            }
            assert forall|k: int| 0 <= k < j implies q[j].2 < #[trigger] q[k].2 by {
                assert(d[k] == q[k]);
                assert(d[j].2 < d[k].2);
            }
            j
        }
    }
}

/// The order in which the requests of `q` are taken when nothing more
/// comes: each time the one for the smallest file, the first to come
/// among equals.
pub open spec fn srpt_order(q: Seq<(Seq<u8>, Seq<u8>, usize)>) -> Seq<(Seq<u8>, Seq<u8>, usize)>
    decreases q.len(),
{
    let i = choose|i: int| srpt_choice(q, i);
    if q.len() > 0 && srpt_choice(q, i) {
        seq![q[i]] + srpt_order(q.remove(i))
    } else {
        Seq::empty()
    }
}

/// Taking the request at `i` leaves the rest of the order.
pub proof fn lemma_srpt_order_step(q: Seq<(Seq<u8>, Seq<u8>, usize)>, i: int)
    requires
        srpt_choice(q, i),
    ensures
        srpt_order(q) == seq![q[i]] + srpt_order(q.remove(i)),
{
    let c = choose|c: int| srpt_choice(q, c);
    lemma_srpt_choice_unique(q, i, c);
}

/// Law: draining the queue answers each request exactly once.  Taking
/// requests in their order until none is left gives every waiting request
/// once, none lost and none twice.
pub proof fn law_srpt_order_takes_each_once(q: Seq<(Seq<u8>, Seq<u8>, usize)>)
    ensures
        srpt_order(q).to_multiset() == q.to_multiset(),
        srpt_order(q).len() == q.len(),
    decreases q.len(),
{
    broadcast use vstd::seq_lib::group_to_multiset_ensures;

    if q.len() == 0 {
        assert(srpt_order(q) =~= q);
    } else {
        let i = lemma_srpt_choice_exists(q);
        lemma_srpt_order_step(q, i);
        law_srpt_order_takes_each_once(q.remove(i));
        law_dequeue_takes_one(q, i);
        let t = srpt_order(q);
        assert(t.drop_first() =~= srpt_order(q.remove(i)));
        assert(t =~= seq![q[i]] + srpt_order(q.remove(i)));
        vstd::seq_lib::lemma_multiset_commutative(seq![q[i]], srpt_order(q.remove(i)));
        assert(seq![q[i]] =~= Seq::<(Seq<u8>, Seq<u8>, usize)>::empty().push(q[i]));
        assert(seq![q[i]].to_multiset() =~= vstd::multiset::Multiset::empty().insert(q[i]));
        assert(t.to_multiset() =~= q.remove(i).to_multiset().insert(q[i]));
    }
}

/// One dequeue, as `next_request` does it: `after` is `before` without the
/// request `taken`, which is the one for the smallest file, the first to
/// come among equals.
pub open spec fn dequeue_step(
    before: Seq<(Seq<u8>, Seq<u8>, usize)>,
    after: Seq<(Seq<u8>, Seq<u8>, usize)>,
    taken: (Seq<u8>, Seq<u8>, usize),
) -> bool {
    exists|i: int| #[trigger] srpt_choice(before, i) && taken == before[i] && after == before.remove(i)
}

/// Law: a run of dequeues that empties the queue, with nothing enqueued in
/// between, takes the requests in their order, so each waiting request is
/// answered exactly once.  `queues[k]` is the queue before the `k`-th
/// dequeue, which took `taken[k]`.
pub proof fn law_dequeues_answer_each_once(
    queues: Seq<Seq<(Seq<u8>, Seq<u8>, usize)>>,
    taken: Seq<(Seq<u8>, Seq<u8>, usize)>,
)
    requires
        queues.len() == taken.len() + 1,
        queues.last().len() == 0,
        forall|k: int|
            #![trigger taken[k]]
            0 <= k < taken.len() ==> dequeue_step(queues[k], queues[k + 1], taken[k]),
    ensures
        taken == srpt_order(queues[0]),
        taken.to_multiset() == queues[0].to_multiset(),
    decreases taken.len(),
{
    if taken.len() == 0 {
        assert(srpt_order(queues[0]) =~= taken);
    } else {
        let q = queues[0];
        assert(dequeue_step(queues[0], queues[1], taken[0]));
        let i = choose|i: int|
            #[trigger] srpt_choice(q, i) && taken[0] == q[i] && queues[1] == q.remove(i);
        let qs2 = queues.drop_first();
        let t2 = taken.drop_first();
        assert forall|k: int| #![trigger t2[k]] 0 <= k < t2.len() implies dequeue_step(
            qs2[k],
            qs2[k + 1],
            t2[k],
        ) by {
            assert(dequeue_step(queues[k + 1], queues[k + 2], taken[k + 1]));
            assert(qs2[k] == queues[k + 1]);
            assert(qs2[k + 1] == queues[k + 2]);
            assert(t2[k] == taken[k + 1]);
        }
        law_dequeues_answer_each_once(qs2, t2);
        lemma_srpt_order_step(q, i);
        assert(taken =~= seq![taken[0]] + t2);
    }
    law_srpt_order_takes_each_once(queues[0]);
}

} // verus!
