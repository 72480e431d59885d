use vstd::prelude::*;

use crate::operator::eager_merge::{decide_among, merge_decision, MergeDecision, Peek};

verus! {

/// The parameters of the off-chip memory.
#[derive(Debug, Clone, Copy, PartialEq, Eq)]
pub struct HBMConfig {
    /// The bytes that one request moves.
    pub addr_offset: u64,
    /// The number of memory channels.
    pub channel_num: usize,
    /// The cycles from serving a request to its response.
    pub per_channel_latency: u64,
    /// The cycles between two requests that one channel serves.
    pub per_channel_init_interval: u64,
    /// The number of requests that one channel may have in flight.
    pub per_channel_outstanding: usize,
    /// The cycle before which no channel serves a request.
    pub per_channel_start_up_time: u64,
}

impl HBMConfig {
    /// Requests move bytes, and there is a channel to serve them.
    pub open spec fn wf(self) -> bool {
        self.addr_offset > 0 && self.channel_num > 0
    }
}

/// The channel that serves the request for `addr`.
pub open spec fn channel_of(cfg: HBMConfig, addr: u64) -> int {
    (addr as int / cfg.addr_offset as int) % (cfg.channel_num as int)
}

/// One request: the address, and the cycle at which the memory accepts it.
pub struct Request {
    pub addr: u64,
    pub time: u64,
}

/// The later of two cycles.
pub open spec fn later(a: int, b: int) -> int {
    if a >= b {
        a
    } else {
        b
    }
}

/// The cycle from which channel `ch` is free after the first `n` requests:
/// the start-up time at first, and after every request that the channel
/// serves one initiation interval after the cycle at which it serves it.
pub open spec fn next_free(cfg: HBMConfig, reqs: Seq<Request>, n: nat, ch: int) -> int
    decreases n,
{
    if n == 0 {
        cfg.per_channel_start_up_time as int
    } else {
        let prev = next_free(cfg, reqs, (n - 1) as nat, ch);
        if channel_of(cfg, reqs[n - 1].addr) == ch {
            later(reqs[n - 1].time as int, prev) + cfg.per_channel_init_interval
        } else {
            prev
        }
    }
}

/// The cycle at which request `i` is served: when it is accepted, or when
/// its channel is free if that is later.
pub open spec fn serve_time(cfg: HBMConfig, reqs: Seq<Request>, i: int) -> int {
    later(reqs[i].time as int, next_free(cfg, reqs, i as nat, channel_of(cfg, reqs[i].addr)))
}

/// The cycle at which the response to request `i` is delivered.
pub open spec fn response_time(cfg: HBMConfig, reqs: Seq<Request>, i: int) -> int {
    serve_time(cfg, reqs, i) + cfg.per_channel_latency
}

/// The number of requests among the first `n` that channel `ch` serves.
pub open spec fn hits(cfg: HBMConfig, reqs: Seq<Request>, n: nat, ch: int) -> nat
    decreases n,
{
    if n == 0 {
        0
    } else {
        hits(cfg, reqs, (n - 1) as nat, ch) + if channel_of(cfg, reqs[n - 1].addr) == ch {
            1nat
        } else {
            0nat
        }
    }
}

/// After `k` requests to a channel, the channel is not free before the
/// start-up time and `k` initiation intervals have passed.
pub proof fn lemma_next_free_bound(cfg: HBMConfig, reqs: Seq<Request>, n: nat, ch: int)
    requires
        n <= reqs.len(),
    ensures
        next_free(cfg, reqs, n, ch) >= cfg.per_channel_start_up_time + hits(cfg, reqs, n, ch)
            * cfg.per_channel_init_interval,
    decreases n,
{
    let iv = cfg.per_channel_init_interval as int;
    if n > 0 {
        lemma_next_free_bound(cfg, reqs, (n - 1) as nat, ch);
        let h = hits(cfg, reqs, (n - 1) as nat, ch) as int;
        assert((h + 1) * iv == h * iv + iv) by (nonlinear_arith);
        if channel_of(cfg, reqs[n - 1].addr) == ch {
            assert(hits(cfg, reqs, n, ch) == h + 1);
            assert(hits(cfg, reqs, n, ch) * iv == (h + 1) * iv);
        } else {
            assert(hits(cfg, reqs, n, ch) == h);
        }
    } else {
        assert(hits(cfg, reqs, n, ch) * iv == 0) by (nonlinear_arith)
            requires
                hits(cfg, reqs, n, ch) == 0,
        ;
    }
}

/// The latency bound: the response to a request that is the `k`-th that its
/// channel serves is not delivered before the start-up time, `k - 1`
/// initiation intervals and the latency have passed.
pub proof fn lemma_latency_bound(cfg: HBMConfig, reqs: Seq<Request>, i: int)
    requires
        0 <= i < reqs.len(),
    ensures
        response_time(cfg, reqs, i) >= cfg.per_channel_start_up_time + hits(
            cfg,
            reqs,
            i as nat,
            channel_of(cfg, reqs[i].addr),
        ) * cfg.per_channel_init_interval + cfg.per_channel_latency,
{
    lemma_next_free_bound(cfg, reqs, i as nat, channel_of(cfg, reqs[i].addr));
}

/// The bound is met with equality where no request comes later than its
/// channel is free: the response to the `k`-th request of a channel is
/// delivered exactly at the start-up time plus `k - 1` initiation intervals
/// plus the latency.
pub proof fn lemma_latency_exact(cfg: HBMConfig, reqs: Seq<Request>, i: int)
    requires
        0 <= i < reqs.len(),
        forall|j: int| 0 <= j < reqs.len() ==> (#[trigger] reqs[j]).time <= cfg.per_channel_start_up_time,
    ensures
        response_time(cfg, reqs, i) == cfg.per_channel_start_up_time + hits(
            cfg,
            reqs,
            i as nat,
            channel_of(cfg, reqs[i].addr),
        ) * cfg.per_channel_init_interval + cfg.per_channel_latency,
{
    lemma_next_free_exact(cfg, reqs, i as nat, channel_of(cfg, reqs[i].addr));
    lemma_next_free_bound(cfg, reqs, i as nat, channel_of(cfg, reqs[i].addr));
    assert(reqs[i].time <= cfg.per_channel_start_up_time);
    let h = hits(cfg, reqs, i as nat, channel_of(cfg, reqs[i].addr)) as int;
    let iv = cfg.per_channel_init_interval as int;
    assert(h * iv >= 0) by (nonlinear_arith)
        requires
            h >= 0,
            iv >= 0,
    ;
}

/// Where no request comes later than the start-up time, a channel is free
/// exactly `k` initiation intervals after it, `k` being the number of
/// requests that it has served.
pub proof fn lemma_next_free_exact(cfg: HBMConfig, reqs: Seq<Request>, n: nat, ch: int)
    requires
        n <= reqs.len(),
        forall|j: int| 0 <= j < reqs.len() ==> (#[trigger] reqs[j]).time <= cfg.per_channel_start_up_time,
    ensures
        next_free(cfg, reqs, n, ch) == cfg.per_channel_start_up_time + hits(cfg, reqs, n, ch)
            * cfg.per_channel_init_interval,
    decreases n,
{
    let iv = cfg.per_channel_init_interval as int;
    if n > 0 {
        lemma_next_free_exact(cfg, reqs, (n - 1) as nat, ch);
        let h = hits(cfg, reqs, (n - 1) as nat, ch) as int;
        assert((h + 1) * iv == h * iv + iv) by (nonlinear_arith);
        assert(h * iv >= 0) by (nonlinear_arith)
            requires
                h >= 0,
                iv >= 0,
        ;
        assert(reqs[n - 1].time <= cfg.per_channel_start_up_time);
        if channel_of(cfg, reqs[n - 1].addr) == ch {
            assert(hits(cfg, reqs, n, ch) == h + 1);
            assert(hits(cfg, reqs, n, ch) * iv == (h + 1) * iv);
        } else {
            assert(hits(cfg, reqs, n, ch) == h);
        }
    } else {
        assert(hits(cfg, reqs, n, ch) * iv == 0) by (nonlinear_arith)
            requires
                hits(cfg, reqs, n, ch) == 0,
        ;
    }
}

/// The channels of the off-chip memory: for every channel, the cycle from
/// which it is free.
pub struct HBMContext {
    config: HBMConfig,
    next_free: Vec<u64>,
    served: Ghost<Seq<Request>>,
}

impl HBMContext {
    /// The parameters.
    pub closed spec fn cfg(&self) -> HBMConfig {
        self.config
    }

    /// The requests served so far, in order.
    pub closed spec fn served(&self) -> Seq<Request> {
        self.served@
    }

    /// Every channel is free from the cycle that the requests served so far
    /// leave it free from.
    pub closed spec fn wf(&self) -> bool {
        &&& self.config.wf()
        &&& self.next_free.len() == self.config.channel_num
        &&& forall|ch: int|
            0 <= ch < self.next_free.len() ==> (#[trigger] self.next_free[ch]) as int == next_free(
                self.config,
                self.served@,
                self.served@.len(),
                ch,
            )
    }

    /// A memory that has served nothing. `None` for a memory without
    /// channels or without bytes per request.
    pub fn new(config: HBMConfig) -> (r: Option<Self>)
        ensures
            r.is_some() <==> config.wf(),
            r matches Some(m) ==> m.wf() && m.cfg() == config && m.served().len() == 0,
    {
        if config.addr_offset == 0 || config.channel_num == 0 {
            return None;
        }
        let mut next_free_vec: Vec<u64> = Vec::with_capacity(config.channel_num);
        let mut ch: usize = 0;
        while ch < config.channel_num
            invariant
                ch <= config.channel_num,
                next_free_vec.len() == ch,
                forall|k: int| 0 <= k < ch ==> next_free_vec[k] == config.per_channel_start_up_time,
            decreases config.channel_num - ch,
        {
            next_free_vec.push(config.per_channel_start_up_time);
            ch += 1;
        }
        Some(HBMContext { config, next_free: next_free_vec, served: Ghost(Seq::empty()) })
    }

    /// The channel that serves the request for `addr`.
    pub fn channel(&self, addr: u64) -> (ch: usize)
        requires
            self.wf(),
        ensures
            ch == channel_of(self.cfg(), addr),
            ch < self.cfg().channel_num,
    {
        let line = addr / self.config.addr_offset;
        let n = self.config.channel_num as u64;
        let ch = line % n;
        ch as usize
    }

    /// The cycle at which a request for `addr` that is accepted at `time`
    /// would be answered.
    pub open spec fn would_answer(&self, addr: u64, time: u64) -> int {
        response_time(
            self.cfg(),
            self.served().push(Request { addr, time }),
            self.served().len() as int,
        )
    }

    /// As `serve`, for any request: `None`, and nothing served, where the
    /// cycle of the response or the cycle from which the channel is free
    /// again is beyond the range of the clock.
    pub fn try_serve(&mut self, addr: u64, time: u64) -> (response: Option<u64>)
        requires
            old(self).wf(),
        ensures
            final(self).wf(),
            final(self).cfg() == old(self).cfg(),
            response.is_some() <==> old(self).would_answer(addr, time) <= u64::MAX && old(self).would_answer(
                addr,
                time,
            ) - old(self).cfg().per_channel_latency + old(self).cfg().per_channel_init_interval <= u64::MAX,
            response is None ==> final(self).served() == old(self).served(),
            response matches Some(r) ==> final(self).served() == old(self).served().push(Request { addr, time })
                && r == response_time(final(self).cfg(), final(self).served(), old(self).served().len() as int),
    {
        let ch = self.channel(addr);
        let ghost before = self.served@;
        let ghost after = before.push(Request { addr, time });
        let ghost n = before.len();
        proof {
            lemma_next_free_prefix(self.config, before, after, n, ch as int);
            assert(after[n as int].addr == addr);
        }
        let nf = self.next_free[ch];
        let serve: u64 = if time >= nf {
            time
        } else {
            nf
        };
        assert(serve == serve_time(self.config, after, n as int));
        let response = match serve.checked_add(self.config.per_channel_latency) {
            Some(r) => r,
            None => {
                return None;
            },
        };
        let free = match serve.checked_add(self.config.per_channel_init_interval) {
            Some(f) => f,
            None => {
                return None;
            },
        };
        let ghost old_free = self.next_free@;
        self.next_free.set(ch, free);
        self.served = Ghost(after);
        proof {
            assert forall|c: int| 0 <= c < self.next_free.len() implies (#[trigger] self.next_free[c]) as int
                == next_free(self.config, after, after.len(), c) by {
                lemma_next_free_prefix(self.config, before, after, n, c);
                if c != ch {
                    assert(self.next_free[c] == old_free[c]);
                }
            }
        }
        Some(response)
    }

    /// Accepts the request for `addr` at cycle `time` and returns the cycle
    /// at which its response is delivered. A read is answered with the
    /// address, a write with an acknowledgement.
    pub fn serve(&mut self, addr: u64, time: u64) -> (response: u64)
        requires
            old(self).wf(),
            old(self).would_answer(addr, time) <= u64::MAX,
            old(self).would_answer(addr, time) - old(self).cfg().per_channel_latency + old(
                self,
            ).cfg().per_channel_init_interval <= u64::MAX,
        ensures
            final(self).wf(),
            final(self).cfg() == old(self).cfg(),
            final(self).served() == old(self).served().push(Request { addr, time }),
            response == response_time(final(self).cfg(), final(self).served(), old(self).served().len() as int),
    {
        let ch = self.channel(addr);
        let ghost before = self.served@;
        let ghost after = before.push(Request { addr, time });
        let ghost n = before.len();
        proof {
            lemma_next_free_prefix(self.config, before, after, n, ch as int);
            assert(after[n as int].addr == addr);
        }
        let nf = self.next_free[ch];
        let serve: u64 = if time >= nf {
            time
        } else {
            nf
        };
        assert(serve == serve_time(self.config, after, n as int));
        let response = serve + self.config.per_channel_latency;
        let ghost old_free = self.next_free@;
        self.next_free.set(ch, serve + self.config.per_channel_init_interval);
        self.served = Ghost(after);
        proof {
            assert forall|c: int| 0 <= c < self.next_free.len() implies (#[trigger] self.next_free[c]) as int
                == next_free(self.config, after, after.len(), c) by {
                lemma_next_free_prefix(self.config, before, after, n, c);
                if c != ch {
                    assert(self.next_free[c] == old_free[c]);
                }
            }
        }
        response
    }
}

/// Requests that come later do not change when a channel was free before.
pub proof fn lemma_next_free_prefix(cfg: HBMConfig, a: Seq<Request>, b: Seq<Request>, n: nat, ch: int)
    requires
        n <= a.len(),
        a.len() <= b.len(),
        forall|k: int| 0 <= k < a.len() ==> a[k] == b[k],
    ensures
        next_free(cfg, a, n, ch) == next_free(cfg, b, n, ch),
    decreases n,
{
    if n > 0 {
        lemma_next_free_prefix(cfg, a, b, (n - 1) as nat, ch);
        assert(a[n - 1] == b[n - 1]);
    }
}

/// Which of the request streams the memory serves next at cycle `now`,
/// when the streams show `peeks`: the stream whose request came first, the
/// lowest such stream on a tie. While a stream is silent, and the earliest
/// request lies in the future, the memory waits; it finishes when every
/// stream is closed.
pub fn next_request(peeks: &Vec<Peek>, now: u64) -> (d: MergeDecision)
    ensures
        d == merge_decision(peeks@, now),
{
    decide_among(peeks, now)
}

} // verus!
