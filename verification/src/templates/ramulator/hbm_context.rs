use vstd::prelude::*;

verus! {

/// Timing parameters of the HBM model.
#[derive(Clone, Copy, Debug, PartialEq, Eq)]
pub struct HBMConfig {
    /// Number of bytes read for each request.
    pub addr_offset: u64,
    pub channel_num: usize,
    pub per_channel_latency: u64,
    pub per_channel_init_interval: u64,
    pub per_channel_outstanding: usize,
    /// Time to wait before the first request can be processed.
    pub per_channel_start_up_time: u64,
}

/// A memory request of reader or writer `id`.
#[derive(Clone, Copy, Debug, PartialEq, Eq)]
pub struct Request {
    pub is_write: bool,
    pub address: u64,
    pub id: usize,
}

impl Request {
    pub fn new(is_write: bool, address: u64, id: usize) -> (r: Self)
        ensures
            r == (Request { is_write, address, id }),
    {
        Request { is_write, address, id }
    }
}

/// What a channel receives: a request, or the end of the requests.
#[derive(Clone, Copy, Debug, PartialEq, Eq)]
pub enum RequestEnum {
    Request(Request),
    Done,
}

impl Default for RequestEnum {
    fn default() -> (r: Self)
        ensures
            r == RequestEnum::Done,
    {
        RequestEnum::Done
    }
}

/// The answer to a request.
#[derive(Clone, Copy, Debug, PartialEq, Eq)]
pub struct Response {
    pub is_write: bool,
    pub address: u64,
    pub id: usize,
}

impl Response {
    pub fn new(is_write: bool, address: u64, id: usize) -> (r: Self)
        ensures
            r == (Response { is_write, address, id }),
    {
        Response { is_write, address, id }
    }
}

/// Addresses issued together by one reader or writer.
#[derive(Clone, Debug, PartialEq, Eq)]
pub struct ParAddrs {
    pub addrs: Vec<u64>,
}

impl ParAddrs {
    pub fn new(addrs: Vec<u64>) -> (r: Self)
        ensures
            r.addrs@ == addrs@,
    {
        ParAddrs { addrs }
    }
}

/// The requests made by the address batches visible in one cycle: those of
/// the readers (in reader order, as reads) and then those of the writers
/// (in writer order, as writes), each tagged with its issuer's index.
pub open spec fn batch_requests(batches: Seq<Option<Seq<u64>>>, is_write: bool) -> Seq<Request>
    decreases batches.len(),
{
    if batches.len() == 0 {
        seq![]
    } else {
        let prev = batch_requests(batches.drop_last(), is_write);
        let id = batches.len() - 1;
        match batches.last() {
            Some(addrs) => prev + Seq::new(
                addrs.len(),
                |k: int| Request { is_write, address: addrs[k], id: id as usize },
            ),
            None => prev,
        }
    }
}

pub open spec fn batches_view(batches: Seq<Option<ParAddrs>>) -> Seq<Option<Seq<u64>>> {
    Seq::new(
        batches.len(),
        |i: int|
            match batches[i] {
                Some(p) => Some(p.addrs@),
                None => None,
            },
    )
}

fn append_batch(out: &mut Vec<Request>, addrs: &Vec<u64>, is_write: bool, id: usize)
    ensures
        final(out)@ == old(out)@ + Seq::new(addrs@.len(), |k: int| Request { is_write, address: addrs@[k], id }),
{
    let ghost o0 = out@;
    let mut k: usize = 0;
    while k < addrs.len()
        invariant
            k <= addrs.len(),
            out@ == o0 + Seq::new(k as nat, |m: int| Request { is_write, address: addrs@[m], id }),
        decreases addrs.len() - k,
    {
        out.push(Request { is_write, address: addrs[k], id });
        k = k + 1;
        assert(out@ =~= o0 + Seq::new(k as nat, |m: int| Request { is_write, address: addrs@[m], id }));
    }
}

/// Collects the requests of the address batches visible in the current
/// cycle: `reads[i]` is reader `i`'s visible batch, if any, and `writes[i]`
/// writer `i`'s.
pub fn dequeue_requests(reads: &Vec<Option<ParAddrs>>, writes: &Vec<Option<ParAddrs>>) -> (r: Vec<Request>)
    ensures
        r@ == batch_requests(batches_view(reads@), false) + batch_requests(batches_view(writes@), true),
{
    let mut out: Vec<Request> = Vec::new();
    let mut i: usize = 0;
    while i < reads.len()
        invariant
            i <= reads.len(),
            out@ == batch_requests(batches_view(reads@).take(i as int), false),
        decreases reads.len() - i,
    {
        let ghost prev = batches_view(reads@).take(i as int);
        assert(batches_view(reads@).take(i as int + 1).drop_last() =~= prev);
        match &reads[i] {
            Some(p) => append_batch(&mut out, &p.addrs, false, i),
            None => {},
        }
        i = i + 1;
    }
    assert(batches_view(reads@).take(reads@.len() as int) =~= batches_view(reads@));
    let ghost reads_part = out@;
    let mut j: usize = 0;
    while j < writes.len()
        invariant
            j <= writes.len(),
            out@ == reads_part + batch_requests(batches_view(writes@).take(j as int), true),
        decreases writes.len() - j,
    {
        let ghost prev = batches_view(writes@).take(j as int);
        assert(batches_view(writes@).take(j as int + 1).drop_last() =~= prev);
        let ghost before = out@;
        match &writes[j] {
            Some(p) => {
                append_batch(&mut out, &p.addrs, true, j);
                proof {
                    let added = Seq::new(p.addrs@.len(), |k: int| Request { is_write: true, address: p.addrs@[k], id: j });
                    assert(reads_part + (batch_requests(prev, true) + added) =~= (reads_part + batch_requests(prev, true)) + added);
                }
            },
            None => {},
        }
        j = j + 1;
    }
    assert(batches_view(writes@).take(writes@.len() as int) =~= batches_view(writes@));
    out
}

/// The channels that a cycle's requests are sent to, given the offset left
/// by the previous cycle: request `i` goes to channel
/// `(previous channel + i) mod channel_num`, starting from the offset; the
/// new offset is `(last channel + count) mod channel_num`.
pub open spec fn channel_sequence(offset: nat, count: nat, channel_num: nat) -> Seq<nat>
    decreases count,
{
    if count == 0 {
        seq![]
    } else {
        let prev = channel_sequence(offset, (count - 1) as nat, channel_num);
        let last = if count == 1 { offset } else { prev.last() };
        prev.push(((last + (count - 1)) as int % channel_num as int) as nat)
    }
}

pub open spec fn offset_after(offset: nat, count: nat, channel_num: nat) -> nat {
    let seqc = channel_sequence(offset, count, channel_num);
    let last = if count == 0 { offset } else { seqc.last() };
    ((last + count) as int % channel_num as int) as nat
}

/// Assigns a cycle's `count` requests to channels as the HBM model does;
/// returns the channel of each request and the offset for the next cycle.
pub fn assign_channels(offset: usize, count: usize, channel_num: usize) -> (r: (Vec<usize>, usize))
    requires
        channel_num > 0,
        offset < channel_num,
        channel_num + count <= usize::MAX,
    ensures
        r.0@.len() == count,
        forall|k: int| 0 <= k < count ==> r.0@[k] as nat == channel_sequence(offset as nat, count as nat, channel_num as nat)[k],
        forall|k: int| 0 <= k < count ==> #[trigger] r.0@[k] < channel_num,
        r.1 as nat == offset_after(offset as nat, count as nat, channel_num as nat),
        r.1 < channel_num,
{
    let mut chans: Vec<usize> = Vec::new();
    let mut off = offset;
    let mut i: usize = 0;
    while i < count
        invariant
            i <= count,
            channel_num > 0,
            channel_num + count <= usize::MAX,
            off < channel_num,
            chans@.len() == i,
            forall|k: int| 0 <= k < i ==> chans@[k] as nat == channel_sequence(offset as nat, i as nat, channel_num as nat)[k],
            forall|k: int| 0 <= k < i ==> #[trigger] chans@[k] < channel_num,
            channel_sequence(offset as nat, i as nat, channel_num as nat).len() == i,
            i == 0 ==> off == offset,
            i > 0 ==> off as nat == channel_sequence(offset as nat, i as nat, channel_num as nat).last(),
        decreases count - i,
    {
        let ghost prev = channel_sequence(offset as nat, i as nat, channel_num as nat);
        off = (off + i) % channel_num;
        proof {
            assert((off as int) == ((if i == 0 { offset as int } else { prev.last() as int }) + i as int) % channel_num as int);
        }
        chans.push(off);
        i = i + 1;
        proof {
            let cur = channel_sequence(offset as nat, i as nat, channel_num as nat);
            assert(cur == prev.push(((if i == 1 { offset as nat } else { prev.last() } + (i - 1)) as int % channel_num as int) as nat));
            assert forall|k: int| 0 <= k < i implies chans@[k] as nat == cur[k] by {
                if k < i - 1 {
                    assert(cur[k] == prev[k]);
                }
            }
        }
    }
    let new_off = (off + count) % channel_num;
    proof {
        let sq = channel_sequence(offset as nat, count as nat, channel_num as nat);
        let last = if count == 0 { offset as nat } else { sq.last() };
        assert(last == off as nat);
    }
    (chans, new_off)
}

/// The responses visible at tick `now` at the heads of channels `0 .. k`,
/// in channel order: a head arriving at tick `t` is visible once `t <= now`.
pub open spec fn visible_responses(heads: Seq<Option<(u64, Response)>>, now: u64, k: nat) -> Seq<Response>
    decreases k,
{
    if k == 0 {
        seq![]
    } else {
        let rest = visible_responses(heads, now, (k - 1) as nat);
        match heads[k - 1] {
            Some((t, resp)) => if t <= now { rest.push(resp) } else { rest },
            None => rest,
        }
    }
}

/// Collects the responses that the channels hand back in the current
/// cycle: `heads[i]` is the head of channel `i`'s response queue with the
/// tick at which it arrives (`None` where the queue is empty); the channels
/// whose head is taken are those whose head is visible.
pub fn dequeue_responses(heads: &Vec<Option<(u64, Response)>>, now: u64) -> (r: Vec<Response>)
    ensures
        r@ == visible_responses(heads@, now, heads@.len()),
{
    let mut out: Vec<Response> = Vec::new();
    let mut i: usize = 0;
    while i < heads.len()
        invariant
            i <= heads@.len(),
            out@ == visible_responses(heads@, now, i as nat),
        decreases heads.len() - i,
    {
        match heads[i] {
            Some((t, resp)) => {
                if t <= now {
                    out.push(resp);
                }
            },
            None => {},
        }
        i = i + 1;
    }
    out
}

/// Where a response goes: back to writer `id` for a write, to reader `id`
/// for a read.
pub fn route_response(resp: &Response) -> (r: (bool, usize))
    ensures
        r == (resp.is_write, resp.id),
{
    (resp.is_write, resp.id)
}

/// The time at which a channel answers a request it takes at time `now`:
/// after the start-up time for its first request, then after its latency.
pub fn response_time(now: u64, initial_request: bool, start_up_time: u64, latency: u64) -> (r: u64)
    requires
        now + start_up_time + latency <= u64::MAX,
    ensures
        r == now + (if initial_request { start_up_time } else { 0 }) + latency,
{
    let start = if initial_request { now + start_up_time } else { now };
    start + latency
}

/// One memory channel of the HBM model: answers each request after its
/// start-up time and latency, and takes a new request every initiation
/// interval.
pub struct HBMChannelContext {
    pub latency: u64,
    pub init_interval: u64,
    pub outstanding: usize,
    pub start_up_time: u64,
}

impl HBMChannelContext {
    pub fn new(
        per_channel_latency: u64,
        per_channel_init_interval: u64,
        per_channel_outstanding: usize,
        per_channel_start_up_time: u64,
    ) -> (r: Self)
        ensures
            r.latency == per_channel_latency,
            r.init_interval == per_channel_init_interval,
            r.outstanding == per_channel_outstanding,
            r.start_up_time == per_channel_start_up_time,
    {
        HBMChannelContext {
            latency: per_channel_latency,
            init_interval: per_channel_init_interval,
            outstanding: per_channel_outstanding,
            start_up_time: per_channel_start_up_time,
        }
    }

    /// What the channel does with what it receives at time `now`: a request
    /// is answered (the channel still counts every request as its first, so
    /// each waits the start-up time) and the channel takes its next input
    /// one initiation interval later; the end marker stops the channel.
    pub fn serve(&self, now: u64, input: RequestEnum) -> (r: Option<(u64, Response, u64)>)
        requires
            now + self.start_up_time + self.latency <= u64::MAX,
            now + self.init_interval <= u64::MAX,
        ensures
            match input {
                RequestEnum::Request(req) => r == Some((
                    (now + self.start_up_time + self.latency) as u64,
                    response_to(req),
                    (now + self.init_interval) as u64,
                )),
                RequestEnum::Done => r is None,
            },
    {
        match input {
            RequestEnum::Request(req) => {
                let t = response_time(now, true, self.start_up_time, self.latency);
                Some((t, Response::new(req.is_write, req.address, req.id), now + self.init_interval))
            },
            RequestEnum::Done => None,
        }
    }
}

/// Whether any reader or writer may still send requests, given which of
/// their address channels are closed.
pub open spec fn requests_incoming(writers_closed: Seq<bool>, readers_closed: Seq<bool>) -> bool {
    !(forall|i: int| 0 <= i < writers_closed.len() ==> writers_closed[i]) || !(forall|i: int|
        0 <= i < readers_closed.len() ==> readers_closed[i])
}

fn all_true(v: &Vec<bool>) -> (r: bool)
    ensures
        r == forall|i: int| 0 <= i < v@.len() ==> v@[i],
{
    let mut i: usize = 0;
    while i < v.len()
        invariant
            i <= v@.len(),
            forall|k: int| 0 <= k < i ==> v@[k],
        decreases v.len() - i,
    {
        if !v[i] {
            return false;
        }
        i = i + 1;
    }
    true
}

/// What happens to one response: `(is_write, id, address)` names the
/// writer or reader it goes back to and the address it answers.
pub open spec fn delivery(r: Response) -> (bool, usize, u64) {
    (r.is_write, r.id, r.address)
}

/// The response a channel gives to a request (see `HBMChannelContext::serve`).
pub open spec fn response_to(q: Request) -> Response {
    Response { is_write: q.is_write, address: q.address, id: q.id }
}

/// Law: the requests of a cycle, each served by its channel and routed
/// back, give every issuer one answer per requested address, of the
/// request's kind, in request order.
pub proof fn lemma_one_answer_per_address(reqs: Seq<Request>)
    ensures
        reqs.map_values(|q: Request| response_to(q)).map_values(|x: Response| delivery(x)) == reqs.map_values(
            |q: Request| (q.is_write, q.id, q.address),
        ),
{
    assert(reqs.map_values(|q: Request| response_to(q)).map_values(|x: Response| delivery(x)) =~= reqs.map_values(
        |q: Request| (q.is_write, q.id, q.address),
    ));
}

/// The HBM controller: spreads the requests of its readers and writers over
/// its channels and sends the responses back.
pub struct HBMContext {
    pub config: HBMConfig,
    pub num_readers: usize,
    pub num_writers: usize,
    /// The channel after which the next cycle's requests are placed.
    pub offset: usize,
}

/// What the controller does in one cycle.
pub struct HBMCycle {
    /// Responses delivered: writer (or reader) index and address.
    pub deliveries: Vec<(bool, usize, u64)>,
    /// Requests dispatched, each with the channel it goes to.
    pub dispatches: Vec<(usize, Request)>,
}

impl HBMContext {
    pub fn new(config: HBMConfig) -> (r: Self)
        ensures
            r.config == config,
            r.num_readers == 0,
            r.num_writers == 0,
            r.offset == 0,
    {
        HBMContext { config, num_readers: 0, num_writers: 0, offset: 0 }
    }

    /// Registers a reader; returns its index.
    pub fn add_reader(&mut self) -> (id: usize)
        requires
            old(self).num_readers < usize::MAX,
        ensures
            id == old(self).num_readers,
            final(self).num_readers == old(self).num_readers + 1,
            final(self).num_writers == old(self).num_writers,
            final(self).config == old(self).config,
            final(self).offset == old(self).offset,
    {
        let id = self.num_readers;
        self.num_readers = self.num_readers + 1;
        id
    }

    /// Registers a writer; returns its index.
    pub fn add_writer(&mut self) -> (id: usize)
        requires
            old(self).num_writers < usize::MAX,
        ensures
            id == old(self).num_writers,
            final(self).num_writers == old(self).num_writers + 1,
            final(self).num_readers == old(self).num_readers,
            final(self).config == old(self).config,
            final(self).offset == old(self).offset,
    {
        let id = self.num_writers;
        self.num_writers = self.num_writers + 1;
        id
    }

    /// Whether the request phase goes on: some reader or writer channel is
    /// still open.
    pub fn request_incoming(&self, writers_closed: &Vec<bool>, readers_closed: &Vec<bool>) -> (r: bool)
        ensures
            r == requests_incoming(writers_closed@, readers_closed@),
    {
        let writers_done = all_true(writers_closed);
        if !writers_done {
            return true;
        }
        !all_true(readers_closed)
    }

    /// Whether the drain phase goes on: some channel has not closed yet.
    pub fn channels_running(&self, channels_closed: &Vec<bool>) -> (r: bool)
        ensures
            r == !(forall|i: int| 0 <= i < channels_closed@.len() ==> channels_closed@[i]),
    {
        !all_true(channels_closed)
    }

    /// One cycle of the request phase: the responses visible now are sent
    /// back, and the address batches visible now (one per reader, then one
    /// per writer, if any) become requests spread over the channels.
    pub fn cycle(&mut self, responses: &Vec<Response>, reads: &Vec<Option<ParAddrs>>, writes: &Vec<Option<ParAddrs>>) -> (r:
        HBMCycle)
        requires
            old(self).config.channel_num > 0,
            old(self).offset < old(self).config.channel_num,
            old(self).config.channel_num + batch_requests(batches_view(reads@), false).len() + batch_requests(
                batches_view(writes@),
                true,
            ).len() <= usize::MAX,
        ensures
            r.deliveries@ == responses@.map_values(|x: Response| delivery(x)),
            ({
                let reqs = batch_requests(batches_view(reads@), false) + batch_requests(batches_view(writes@), true);
                let chans = channel_sequence(old(self).offset as nat, reqs.len(), old(self).config.channel_num as nat);
                &&& r.dispatches@.len() == reqs.len()
                &&& forall|k: int|
                    0 <= k < reqs.len() ==> (#[trigger] r.dispatches@[k]).1 == reqs[k] && r.dispatches@[k].0 as nat == chans[k]
                &&& final(self).offset as nat == offset_after(
                    old(self).offset as nat,
                    reqs.len(),
                    old(self).config.channel_num as nat,
                )
            }),
            final(self).offset < final(self).config.channel_num,
            final(self).config == old(self).config,
            final(self).num_readers == old(self).num_readers,
            final(self).num_writers == old(self).num_writers,
    {
        let mut deliveries: Vec<(bool, usize, u64)> = Vec::new();
        let mut i: usize = 0;
        while i < responses.len()
            invariant
                i <= responses@.len(),
                deliveries@ == responses@.take(i as int).map_values(|x: Response| delivery(x)),
            decreases responses.len() - i,
        {
            let (w, id) = route_response(&responses[i]);
            deliveries.push((w, id, responses[i].address));
            i = i + 1;
            assert(deliveries@ =~= responses@.take(i as int).map_values(|x: Response| delivery(x)));
        }
        assert(responses@.take(responses@.len() as int) =~= responses@);
        let reqs = dequeue_requests(reads, writes);
        let (chans, new_off) = assign_channels(self.offset, reqs.len(), self.config.channel_num);
        let mut dispatches: Vec<(usize, Request)> = Vec::new();
        let mut k: usize = 0;
        while k < reqs.len()
            invariant
                k <= reqs@.len(),
                chans@.len() == reqs@.len(),
                dispatches@.len() == k,
                forall|m: int| 0 <= m < k ==> (#[trigger] dispatches@[m]) == (chans@[m], reqs@[m]),
            decreases reqs.len() - k,
        {
            dispatches.push((chans[k], reqs[k]));
            k = k + 1;
        }
        self.offset = new_off;
        HBMCycle { deliveries, dispatches }
    }
}

} // verus!
