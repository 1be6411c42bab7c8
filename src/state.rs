use crate::buffer::{no_earlier, Buffer};
use crate::matching::{
    after_commit, chosen, consumed, first_failure, front_of, gate, lemma_seq_min, match_cut,
    max_front, min_back, min_front, pick, select, seq_min, sum_lens, window_end, window_start,
};
use crate::config::{Config, ConfigError};
use crate::feedback::{feedback_channel, send_feedback, Feedback};
use crate::types::Timestamped;
use crate::keys::{insert_key, key_at, key_count, key_index, key_order, new_key_set};
use indexmap::IndexSet;
use tokio::sync::watch;
use vstd::prelude::*;

verus! {

/// The keys of `s` with later repeats left out, in order of first
/// appearance.
pub open spec fn distinct(s: Seq<u64>) -> Seq<u64>
    decreases s.len(),
{
    if s.len() == 0 {
        Seq::empty()
    } else {
        let p = distinct(s.drop_last());
        if p.contains(s.last()) {
            p
        } else {
            p.push(s.last())
        }
    }
}

/// A push under a configured key hands its message back only when the
/// message is late: at or before the commit timestamp, or at or before the
/// last timestamp that its key's buffer admitted.
pub proof fn lemma_rejection_is_late<T>(s: State<T>, new: State<T>, key: u64, ts: u64, item: T, r: Result<(), T>)
    requires
        s.wf(),
        s.push_outcome(&new, key, ts, item, r),
        r is Err,
        s.key_seq().contains(key),
    ensures
        !after_commit(ts, s.commit()) || exists|k: int|
            0 <= k < s.key_seq().len() && s.key_seq()[k] == key && match #[trigger] s.bufs()[k].last() {
                Some(l) => ts <= l,
                None => false,
            },
{
    if after_commit(ts, s.commit()) {
        let k = choose|k: int| 0 <= k < s.key_seq().len() && s.key_seq()[k] == key;
        assert(s.bufs()[k].push_outcome(new.bufs()[k], ts, item, r));
    }
}

/// The internal state of a synchronizer: one buffer per key, in key
/// order, the commit timestamp and the settings.
pub struct State<T> {
    keys: IndexSet<u64>,
    buffers: Vec<Buffer<T>>,
    commit_ts: Option<u64>,
    buf_size: usize,
    window_size: u64,
    feedback_tx: Option<watch::Sender<Feedback>>,
}

impl<T> State<T> {
    /// The configured keys, in order.
    pub closed spec fn key_seq(&self) -> Seq<u64> {
        key_order(self.keys)
    }

    /// The buffers, one per key, in key order.
    pub closed spec fn bufs(&self) -> Seq<Buffer<T>> {
        self.buffers@
    }

    /// The commit timestamp: no message at or before it is admitted.
    pub closed spec fn commit(&self) -> Option<u64> {
        self.commit_ts
    }

    pub closed spec fn cap(&self) -> usize {
        self.buf_size
    }

    pub closed spec fn window(&self) -> u64 {
        self.window_size
    }

    /// Whether feedback is still being sent.
    pub closed spec fn has_sink(&self) -> bool {
        self.feedback_tx is Some
    }

    /// The timestamps held by each buffer, in key order.
    pub open spec fn stamp_lists(&self) -> Seq<Seq<u64>> {
        self.bufs().map_values(|b: Buffer<T>| b.stamps())
    }

    pub open spec fn wf(&self) -> bool {
        &&& self.key_seq().len() > 0
        &&& self.key_seq().len() == self.bufs().len()
        &&& self.key_seq().no_duplicates()
        &&& self.cap() >= 2
        &&& self.window() > 0
        &&& forall|k: int| 0 <= k < self.bufs().len() ==> #[trigger] self.bufs()[k].wf()
        &&& forall|k: int, i: int|
            0 <= k < self.bufs().len() && 0 <= i < self.bufs()[k].entries().len() ==> after_commit(
                #[trigger] self.bufs()[k].stamps()[i],
                self.commit(),
            )
    }

    /// The keys, the settings and the feedback sink are those of `other`.
    pub open spec fn same_setup(&self, other: &Self) -> bool {
        &&& self.key_seq() == other.key_seq()
        &&& self.cap() == other.cap()
        &&& self.window() == other.window()
        &&& self.has_sink() == other.has_sink()
    }

    /// What pushing `item` with timestamp `ts` under `key` onto `self`
    /// gives: `new` and the result `r`. A message at or before the commit
    /// timestamp, or under a key that is not configured, is handed back.
    pub open spec fn push_outcome(&self, new: &Self, key: u64, ts: u64, item: T, r: Result<(), T>) -> bool {
        &&& new.same_setup(self)
        &&& new.commit() == self.commit()
        &&& if !after_commit(ts, self.commit()) || !self.key_seq().contains(key) {
            &&& r == Err::<(), T>(item)
            &&& new.bufs() == self.bufs()
        } else {
            forall|k: int|
                0 <= k < self.key_seq().len() && self.key_seq()[k] == key ==> {
                    &&& self.bufs()[k].push_outcome(new.bufs()[k], ts, item, r)
                    &&& new.bufs() == self.bufs().update(k, new.bufs()[k])
                }
        }
    }

    /// What a matching attempt on `self` gives while input is live: `new`
    /// and the group `r`.
    pub open spec fn match_outcome(&self, new: &Self, r: Option<Vec<(u64, T)>>) -> bool {
        self.anchored_outcome(new, r, gate(self.stamp_lists(), self.window()))
    }

    /// What a matching attempt on `self` gives once input has ended: `new`
    /// and the group `r`.
    pub open spec fn final_match_outcome(&self, new: &Self, r: Option<Vec<(u64, T)>>) -> bool {
        self.anchored_outcome(new, r, max_front(self.stamp_lists()))
    }

    /// What a matching attempt anchored at `anchor` gives: nothing at all
    /// without an anchor.
    pub open spec fn anchored_outcome(&self, new: &Self, r: Option<Vec<(u64, T)>>, anchor: Option<u64>) -> bool {
        &&& new.same_setup(self)
        &&& new.bufs().len() == self.bufs().len()
        &&& no_earlier(self.commit(), new.commit())
        &&& match anchor {
            None => {
                &&& r is None
                &&& new.bufs() == self.bufs()
                &&& new.commit() == self.commit()
            },
            Some(inf) => {
                let ss = self.stamp_lists();
                let w = self.window();
                let c = self.commit();
                let n = ss.len();
                &&& forall|k: int|
                    0 <= k < n ==> self.bufs()[k].popped(
                        #[trigger] new.bufs()[k],
                        match_cut(ss, k, inf, w, c),
                    )
                &&& (r is Some <==> first_failure(ss, 0, inf, w, c) == n)
                &&& match r {
                    Some(g) => {
                        &&& g@.len() == n
                        &&& forall|k: int|
                            0 <= k < n ==> #[trigger] g@[k] == (
                                self.key_seq()[k],
                                self.bufs()[k].messages()[pick(ss[k], inf, w, c).unwrap()],
                            )
                        &&& new.commit() == Some(seq_min(chosen(ss, inf, w, c)))
                        &&& forall|k: int| 0 <= k < n ==> after_commit(#[trigger] chosen(ss, inf, w, c)[k], c)
                        &&& forall|j: int, k: int|
                            0 <= j < n && 0 <= k < n ==> #[trigger] chosen(ss, inf, w, c)[j]
                                <= #[trigger] chosen(ss, inf, w, c)[k] + 2 * w
                    },
                    None => new.commit() == self.commit(),
                }
            },
        }
    }

    /// What dropping the smallest front on `self` gives: `new` and the
    /// result `r`.
    pub open spec fn drop_outcome(&self, new: &Self, r: bool) -> bool {
        &&& new.same_setup(self)
        &&& new.commit() == self.commit()
        &&& new.bufs().len() == self.bufs().len()
        &&& r == min_front(self.stamp_lists()) is Some
        &&& forall|k: int|
            0 <= k < self.bufs().len() ==> self.bufs()[k].popped(
                #[trigger] new.bufs()[k],
                if r && front_of(self.stamp_lists()[k]) == min_front(self.stamp_lists()) {
                    1int
                } else {
                    0int
                },
            )
    }

    /// `new` holds what `self` holds; only the feedback sink may be gone.
    pub open spec fn same_content(&self, new: &Self) -> bool {
        &&& new.key_seq() == self.key_seq()
        &&& new.cap() == self.cap()
        &&& new.window() == self.window()
        &&& new.bufs() == self.bufs()
        &&& new.commit() == self.commit()
        &&& !self.has_sink() ==> !new.has_sink()
    }

    /// The number of messages held over all buffers.
    pub open spec fn backlog(&self) -> nat {
        sum_lens(self.stamp_lists())
    }

    /// Every buffer holds at least two messages.
    pub open spec fn all_ready(&self) -> bool {
        forall|k: int| 0 <= k < self.bufs().len() ==> #[trigger] self.bufs()[k].entries().len() >= 2
    }

    /// Every buffer holds at least `cap` messages.
    pub open spec fn all_full(&self) -> bool {
        forall|k: int| 0 <= k < self.bufs().len() ==> #[trigger] self.bufs()[k].entries().len() >= self.cap()
    }

    /// Every buffer is empty.
    pub open spec fn all_empty(&self) -> bool {
        forall|k: int| 0 <= k < self.bufs().len() ==> #[trigger] self.bufs()[k].entries().len() == 0
    }

    /// The keys whose buffers hold fewer than `cap` messages, among the
    /// first `n` keys.
    pub open spec fn open_keys(&self, n: int) -> Seq<u64>
        decreases n,
    {
        if n <= 0 {
            Seq::empty()
        } else {
            let p = self.open_keys(n - 1);
            if self.bufs()[n - 1].entries().len() < self.cap() {
                p.push(self.key_seq()[n - 1])
            } else {
                p
            }
        }
    }

    /// While no buffer has reached capacity, the open keys are all the keys.
    pub proof fn lemma_open_keys_when_none_full(&self, n: int)
        requires
            0 <= n <= self.bufs().len(),
            self.bufs().len() == self.key_seq().len(),
            forall|k: int| 0 <= k < self.bufs().len() ==> #[trigger] self.bufs()[k].entries().len() < self.cap(),
        ensures
            self.open_keys(n) == self.key_seq().take(n),
        decreases n,
    {
        if n > 0 {
            self.lemma_open_keys_when_none_full(n - 1);
            assert(self.key_seq().take(n) =~= self.key_seq().take(n - 1).push(self.key_seq()[n - 1]));
        } else {
            assert(self.key_seq().take(0) =~= Seq::<u64>::empty());
        }
    }

    /// Builds a state with an empty buffer for each distinct key, in the
    /// order given, and the channel that carries feedback.
    pub fn new(keys: &Vec<u64>, config: Config) -> (r: Result<(State<T>, watch::Receiver<Feedback>), ConfigError>)
        ensures
            r is Ok <==> config.valid() && keys@.len() > 0,
            match r {
                Ok((s, _)) => {
                    &&& config.valid()
                    &&& keys@.len() > 0
                    &&& s.wf()
                    &&& s.key_seq() == distinct(keys@)
                    &&& forall|k: int| 0 <= k < s.bufs().len() ==> #[trigger] s.bufs()[k].entries().len() == 0
                    &&& forall|k: int| 0 <= k < s.bufs().len() ==> #[trigger] s.bufs()[k].last() is None
                    &&& s.commit() == config.start_time
                    &&& s.cap() == config.buf_size
                    &&& s.window() == config.window_size
                    &&& s.has_sink()
                    &&& s.open_keys(s.bufs().len() as int) == distinct(keys@)
                },
                Err(e) => e == (if config.buf_size < 2 {
                    ConfigError::BufSizeTooSmall
                } else if config.window_size == 0 {
                    ConfigError::ZeroWindow
                } else {
                    ConfigError::NoKeys
                }),
            },
    {
        if config.buf_size < 2 {
            return Err(ConfigError::BufSizeTooSmall);
        }
        if config.window_size == 0 {
            return Err(ConfigError::ZeroWindow);
        }
        let mut set = new_key_set(keys.len());
        let mut buffers: Vec<Buffer<T>> = Vec::new();
        let mut i: usize = 0;
        while i < keys.len()
            invariant
                i <= keys@.len(),
                key_order(set) == distinct(keys@.take(i as int)),
                key_order(set).no_duplicates(),
                buffers@.len() == key_order(set).len(),
                forall|k: int| 0 <= k < buffers@.len() ==> #[trigger] buffers@[k].wf(),
                forall|k: int| 0 <= k < buffers@.len() ==> #[trigger] buffers@[k].entries().len() == 0,
                forall|k: int| 0 <= k < buffers@.len() ==> #[trigger] buffers@[k].last() is None,
            decreases keys@.len() - i,
        {
            let k = keys[i];
            proof {
                assert(keys@.take(i + 1).drop_last() =~= keys@.take(i as int));
            }
            if insert_key(&mut set, k) {
                buffers.push(Buffer::with_capacity(config.buf_size));
            }
            i = i + 1;
        }
        proof {
            assert(keys@.take(keys@.len() as int) =~= keys@);
        }
        if key_count(&set) == 0 {
            proof {
                if keys@.len() > 0 {
                    let p = distinct(keys@.drop_last());
                    if p.contains(keys@.last()) {
                        assert(p.len() > 0);
                    }
                }
            }
            return Err(ConfigError::NoKeys);
        }
        let mut s = State {
            keys: set,
            buffers,
            commit_ts: config.start_time,
            buf_size: config.buf_size,
            window_size: config.window_size,
            feedback_tx: None,
        };
        proof {
            s.lemma_open_keys_when_none_full(s.bufs().len() as int);
            assert(s.key_seq().take(s.bufs().len() as int) =~= s.key_seq());
        }
        // The channel starts out holding the feedback of the fresh state:
        // every key, no maximum timestamp, and the start time.
        let init = s.feedback();
        let (tx, rx) = feedback_channel(init);
        s.feedback_tx = Some(tx);
        proof {
            s.lemma_open_keys_when_none_full(s.bufs().len() as int);
        }
        Ok((s, rx))
    }

    /// Pushes `item`, whose timestamp is `ts`, into the buffer of `key`.
    /// A message at or before the commit timestamp, under a key that is not
    /// configured, or not after every message that its buffer admitted
    /// before, is handed back.
    pub fn push_at(&mut self, key: u64, ts: u64, item: T) -> (r: Result<(), T>)
        requires
            old(self).wf(),
        ensures
            final(self).wf(),
            old(self).push_outcome(&*final(self), key, ts, item, r),
    {
        match self.commit_ts {
            Some(c) => {
                if c >= ts {
                    return Err(item);
                }
            },
            None => {},
        }
        let k = match key_index(&self.keys, key) {
            Some(k) => k,
            None => return Err(item),
        };
        let ghost before = self.bufs();
        let r = self.buffers[k].try_push_at(ts, item);
        proof {
            assert forall|j: int|
                0 <= j < self.key_seq().len() && self.key_seq()[j] == key implies j == k by {
                if j != k {
                    assert(self.key_seq()[j] == self.key_seq()[k as int]);
                }
            }
            assert forall|j: int, i: int|
                0 <= j < self.bufs().len() && 0 <= i < self.bufs()[j].entries().len() implies after_commit(
                    #[trigger] self.bufs()[j].stamps()[i],
                    self.commit(),
                ) by {
                if j == k && r is Ok && i == before[j].entries().len() {
                    assert(self.bufs()[j].stamps()[i] == ts);
                } else if j == k && r is Ok {
                    assert(self.bufs()[j].stamps()[i] == before[j].stamps()[i]);
                }
            }
        }
        r
    }
}

impl<T> State<T> {
    /// The commit timestamp.
    pub fn commit_ts(&self) -> (r: Option<u64>)
        ensures
            r == self.commit(),
    {
        self.commit_ts
    }

    /// The buffer of the key at position `k` in key order.
    pub fn buffer(&self, k: usize) -> (r: Option<&Buffer<T>>)
        ensures
            k < self.bufs().len() ==> r == Some(&self.bufs()[k as int]),
            k >= self.bufs().len() ==> r is None,
    {
        if k < self.buffers.len() {
            Some(&self.buffers[k])
        } else {
            None
        }
    }

    /// Whether feedback is still being sent.
    pub fn feedback_active(&self) -> (r: bool)
        ensures
            r == self.has_sink(),
    {
        self.feedback_tx.is_some()
    }

    /// Whether every buffer holds at least two messages.
    pub fn is_ready(&self) -> (r: bool)
        requires
            self.wf(),
        ensures
            r == self.all_ready(),
    {
        let n = self.buffers.len();
        let mut k: usize = 0;
        while k < n
            invariant
                n == self.bufs().len(),
                k <= n,
                forall|j: int| 0 <= j < k ==> #[trigger] self.bufs()[j].entries().len() >= 2,
            decreases n - k,
        {
            if self.buffers[k].len() < 2 {
                return false;
            }
            k = k + 1;
        }
        true
    }

    /// Whether every buffer holds at least `buf_size` messages.
    pub fn is_full(&self) -> (r: bool)
        requires
            self.wf(),
        ensures
            r == self.all_full(),
    {
        let n = self.buffers.len();
        let mut k: usize = 0;
        while k < n
            invariant
                n == self.bufs().len(),
                k <= n,
                forall|j: int| 0 <= j < k ==> #[trigger] self.bufs()[j].entries().len() >= self.cap(),
            decreases n - k,
        {
            if self.buffers[k].len() < self.buf_size {
                return false;
            }
            k = k + 1;
        }
        true
    }

    /// Whether every buffer is empty.
    pub fn is_empty(&self) -> (r: bool)
        requires
            self.wf(),
        ensures
            r == self.all_empty(),
    {
        let n = self.buffers.len();
        let mut k: usize = 0;
        while k < n
            invariant
                n == self.bufs().len(),
                k <= n,
                forall|j: int| 0 <= j < k ==> #[trigger] self.bufs()[j].entries().len() == 0,
            decreases n - k,
        {
            if !self.buffers[k].is_empty() {
                return false;
            }
            k = k + 1;
        }
        true
    }

    /// The greatest front timestamp over the non-empty buffers: the
    /// earliest timestamp that the slowest key has reached.
    pub fn inf_timestamp(&self) -> (r: Option<u64>)
        requires
            self.wf(),
        ensures
            r == max_front(self.stamp_lists()),
    {
        let n = self.buffers.len();
        let mut acc: Option<u64> = None;
        let mut k: usize = 0;
        while k < n
            invariant
                n == self.bufs().len(),
                k <= n,
                acc == max_front(self.stamp_lists().take(k as int)),
            decreases n - k,
        {
            proof {
                assert(self.stamp_lists().take(k + 1).drop_last() =~= self.stamp_lists().take(k as int));
            }
            let f = self.buffers[k].front_ts();
            acc = match (acc, f) {
                (Some(x), Some(y)) => Some(if x >= y { x } else { y }),
                (Some(x), None) => Some(x),
                (None, _) => f,
            };
            k = k + 1;
        }
        proof {
            assert(self.stamp_lists().take(n as int) =~= self.stamp_lists());
        }
        acc
    }

    /// The smallest back timestamp over the non-empty buffers: the latest
    /// timestamp that every key has reached.
    pub fn sup_timestamp(&self) -> (r: Option<u64>)
        requires
            self.wf(),
        ensures
            r == min_back(self.stamp_lists()),
    {
        let n = self.buffers.len();
        let mut acc: Option<u64> = None;
        let mut k: usize = 0;
        while k < n
            invariant
                n == self.bufs().len(),
                k <= n,
                acc == min_back(self.stamp_lists().take(k as int)),
            decreases n - k,
        {
            proof {
                assert(self.stamp_lists().take(k + 1).drop_last() =~= self.stamp_lists().take(k as int));
            }
            let b = self.buffers[k].back_ts();
            acc = match (acc, b) {
                (Some(x), Some(y)) => Some(if x <= y { x } else { y }),
                (Some(x), None) => Some(x),
                (None, _) => b,
            };
            k = k + 1;
        }
        proof {
            assert(self.stamp_lists().take(n as int) =~= self.stamp_lists());
        }
        acc
    }

    /// The smallest front timestamp over the non-empty buffers.
    pub fn min_timestamp(&self) -> (r: Option<u64>)
        requires
            self.wf(),
        ensures
            r == min_front(self.stamp_lists()),
    {
        let n = self.buffers.len();
        let mut acc: Option<u64> = None;
        let mut k: usize = 0;
        while k < n
            invariant
                n == self.bufs().len(),
                k <= n,
                acc == min_front(self.stamp_lists().take(k as int)),
            decreases n - k,
        {
            proof {
                assert(self.stamp_lists().take(k + 1).drop_last() =~= self.stamp_lists().take(k as int));
            }
            let f = self.buffers[k].front_ts();
            acc = match (acc, f) {
                (Some(x), Some(y)) => Some(if x <= y { x } else { y }),
                (Some(x), None) => Some(x),
                (None, _) => f,
            };
            k = k + 1;
        }
        proof {
            assert(self.stamp_lists().take(n as int) =~= self.stamp_lists());
        }
        acc
    }

    /// Tries to form one group while input is live: a message from each
    /// key, all within `window_size` of the anchor `inf`, the greatest front
    /// timestamp. Nothing happens unless every buffer's back lies at least
    /// `window_size` beyond `inf`, so that no later message could be closer
    /// to `inf`. Then, key by key, obsolete messages are dropped and the
    /// message closest to `inf` is taken; a key with nothing in the window
    /// abandons the group, and what was taken so far stays taken. A formed
    /// group moves the commit timestamp to its smallest timestamp.
    pub fn try_match(&mut self) -> (r: Option<Vec<(u64, T)>>)
        requires
            old(self).wf(),
        ensures
            final(self).wf(),
            old(self).match_outcome(&*final(self), r),
    {
        let inf = match self.inf_timestamp() {
            Some(t) => t,
            None => return None,
        };
        let sup = match self.sup_timestamp() {
            Some(t) => t,
            None => return None,
        };
        if sup < inf || sup - inf < self.window_size {
            return None;
        }
        self.match_at(inf)
    }

    /// Tries to form one group once input has ended. No later message can
    /// bring a closer candidate, so there is no wait for the backs of the
    /// buffers: the attempt is anchored at the greatest front timestamp
    /// whenever some buffer holds a message, and goes on as in `try_match`.
    pub fn try_match_final(&mut self) -> (r: Option<Vec<(u64, T)>>)
        requires
            old(self).wf(),
        ensures
            final(self).wf(),
            old(self).final_match_outcome(&*final(self), r),
    {
        let inf = match self.inf_timestamp() {
            Some(t) => t,
            None => return None,
        };
        self.match_at(inf)
    }

    /// Forms a group anchored at `inf`, as `try_match` describes.
    fn match_at(&mut self, inf: u64) -> (r: Option<Vec<(u64, T)>>)
        requires
            old(self).wf(),
        ensures
            final(self).wf(),
            old(self).anchored_outcome(&*final(self), r, Some(inf)),
    {
        let ghost ss = old(self).stamp_lists();
        let w = self.window_size;
        let c = self.commit_ts;
        let n = self.buffers.len();
        let mut group: Vec<(u64, T)> = Vec::new();
        let mut low: u64 = u64::MAX;
        let mut k: usize = 0;
        while k < n
            invariant
                old(self).wf(),
                self.wf(),
                self.same_setup(&*old(self)),
                self.commit() == old(self).commit(),
                c == old(self).commit(),
                w == old(self).window(),
                ss == old(self).stamp_lists(),
                n == ss.len(),
                n == self.bufs().len(),
                k <= n,
                first_failure(ss, 0, inf, w, c) == first_failure(ss, k as int, inf, w, c),
                forall|j: int| k <= j < n ==> #[trigger] self.bufs()[j] == old(self).bufs()[j],
                forall|j: int|
                    0 <= j < k ==> #[trigger] pick(ss[j], inf, w, c) is Some && 0 <= pick(ss[j], inf, w, c).unwrap()
                        < ss[j].len(),
                forall|j: int|
                    0 <= j < k ==> old(self).bufs()[j].popped(
                        #[trigger] self.bufs()[j],
                        consumed(ss[j], inf, w, c),
                    ),
                group@.len() == k,
                forall|j: int|
                    0 <= j < k ==> #[trigger] group@[j] == (
                        old(self).key_seq()[j],
                        old(self).bufs()[j].messages()[pick(ss[j], inf, w, c).unwrap()],
                    ),
                forall|j: int|
                    0 <= j < k ==> window_start(inf, w) <= #[trigger] chosen(ss, inf, w, c)[j] <= window_end(inf, w),
                k > 0 ==> low == seq_min(chosen(ss, inf, w, c).take(k as int)),
            decreases n - k,
        {
            let ghost before = self.bufs();
            proof {
                assert(ss[k as int] == old(self).bufs()[k as int].stamps());
            }
            let picked = select(&mut self.buffers[k], inf, w, c);
            proof {
                assert forall|j: int, i: int|
                    0 <= j < self.bufs().len() && 0 <= i < self.bufs()[j].entries().len() implies after_commit(
                        #[trigger] self.bufs()[j].stamps()[i],
                        self.commit(),
                    ) by {
                    if j == k {
                        let cut = consumed(ss[j], inf, w, c);
                        assert(self.bufs()[j].stamps()[i] == before[j].stamps()[i + cut]);
                    }
                }
            }
            match picked {
                Some((t, m)) => {
                    let key = match key_at(&self.keys, k) {
                        Some(key) => key,
                        None => vstd::pervasive::unreached(),
                    };
                    group.push((key, m));
                    proof {
                        assert(chosen(ss, inf, w, c)[k as int] == t);
                        assert(chosen(ss, inf, w, c).take(k + 1).drop_last() =~= chosen(ss, inf, w, c).take(k as int));
                    }
                    low = if k == 0 || t < low { t } else { low };
                },
                None => {
                    proof {
                        assert(first_failure(ss, k as int, inf, w, c) == k);
                        assert forall|j: int| 0 <= j < n implies old(self).bufs()[j].popped(
                            #[trigger] self.bufs()[j],
                            match_cut(ss, j, inf, w, c),
                        ) by {
                            if j > k {
                                assert(self.bufs()[j].entries().skip(0) =~= self.bufs()[j].entries());
                            }
                        }
                    }
                    return None;
                },
            }
            k = k + 1;
        }
        proof {
            assert(chosen(ss, inf, w, c).take(n as int) =~= chosen(ss, inf, w, c));
            lemma_seq_min(chosen(ss, inf, w, c));
            assert(first_failure(ss, n as int, inf, w, c) == n);
            assert forall|j: int| 0 <= j < n implies after_commit(#[trigger] chosen(ss, inf, w, c)[j], c) by {
                assert(pick(ss[j], inf, w, c) is Some);
                let i = pick(ss[j], inf, w, c).unwrap();
                assert(ss[j] == old(self).bufs()[j].stamps());
                assert(old(self).bufs()[j].stamps()[i] == chosen(ss, inf, w, c)[j]);
            }
        }
        self.commit_ts = Some(low);
        proof {
            assert forall|j: int, i: int|
                0 <= j < self.bufs().len() && 0 <= i < self.bufs()[j].entries().len() implies after_commit(
                    #[trigger] self.bufs()[j].stamps()[i],
                    self.commit(),
                ) by {
                assert(pick(ss[j], inf, w, c) is Some);
                let p = pick(ss[j], inf, w, c).unwrap();
                let cut = consumed(ss[j], inf, w, c);
                assert(cut == p + 1);
                assert(self.bufs()[j].stamps()[i] == old(self).bufs()[j].stamps()[i + cut]);
                assert(old(self).bufs()[j].wf());
                assert(ss[j] == old(self).bufs()[j].stamps());
                assert(chosen(ss, inf, w, c)[j] == ss[j][p]);
                assert(old(self).bufs()[j].stamps()[p] < old(self).bufs()[j].stamps()[i + cut]);
                assert(low <= chosen(ss, inf, w, c)[j]);
            }
        }
        Some(group)
    }

    /// Pops the front of every buffer whose front timestamp is the smallest
    /// one. Returns whether any buffer had a message.
    pub fn drop_min(&mut self) -> (r: bool)
        requires
            old(self).wf(),
        ensures
            final(self).wf(),
            old(self).drop_outcome(&*final(self), r),
    {
        let m = match self.min_timestamp() {
            Some(m) => m,
            None => {
                proof {
                    assert forall|k: int| 0 <= k < old(self).bufs().len() implies old(self).bufs()[k].popped(
                        #[trigger] self.bufs()[k], 0int) by {
                        assert(self.bufs()[k].entries().skip(0) =~= self.bufs()[k].entries());
                    }
                }
                return false;
            },
        };
        let n = self.buffers.len();
        let mut k: usize = 0;
        while k < n
            invariant
                self.wf(),
                n == self.bufs().len(),
                n == old(self).bufs().len(),
                k <= n,
                self.same_setup(&*old(self)),
                self.commit() == old(self).commit(),
                Some(m) == min_front(old(self).stamp_lists()),
                forall|j: int| k <= j < n ==> #[trigger] self.bufs()[j] == old(self).bufs()[j],
                forall|j: int|
                    0 <= j < k ==> old(self).bufs()[j].popped(
                        #[trigger] self.bufs()[j],
                        if front_of(old(self).stamp_lists()[j]) == Some(m) {
                            1int
                        } else {
                            0int
                        },
                    ),
            decreases n - k,
        {
            let ghost before = self.bufs();
            let f = self.buffers[k].front_ts();
            let hit = match f {
                Some(t) => t == m,
                None => false,
            };
            if hit {
                let _ = self.buffers[k].pop_front();
            }
            proof {
                if !hit {
                    assert(self.bufs()[k as int].entries().skip(0) =~= self.bufs()[k as int].entries());
                }
                assert forall|j: int, i: int|
                    0 <= j < self.bufs().len() && 0 <= i < self.bufs()[j].entries().len() implies after_commit(
                        #[trigger] self.bufs()[j].stamps()[i],
                        self.commit(),
                    ) by {
                    if j == k && hit {
                        assert(self.bufs()[j].stamps()[i] == before[j].stamps()[i + 1]);
                    }
                }
            }
            k = k + 1;
        }
        true
    }

    /// The feedback for the current state: the keys whose buffers are
    /// below capacity, in key order, and the commit timestamp.
    pub fn feedback(&self) -> (r: Feedback)
        requires
            self.wf(),
        ensures
            r.accepted_keys@ == self.open_keys(self.bufs().len() as int),
            r.commit_timestamp == self.commit(),
            r.accepted_max_timestamp is None,
    {
        let n = self.buffers.len();
        let mut accepted: Vec<u64> = Vec::new();
        let mut k: usize = 0;
        while k < n
            invariant
                self.wf(),
                n == self.bufs().len(),
                k <= n,
                accepted@ == self.open_keys(k as int),
            decreases n - k,
        {
            if self.buffers[k].len() < self.buf_size {
                match key_at(&self.keys, k) {
                    Some(key) => accepted.push(key),
                    None => {},
                }
            }
            k = k + 1;
        }
        Feedback { accepted_max_timestamp: None, commit_timestamp: self.commit_ts, accepted_keys: accepted }
    }

    /// Sends the current feedback, overwriting any unread one, and returns
    /// whether it was delivered. Without a sink nothing is sent; a failed
    /// send, which means the receiver is gone, retires the sink for good,
    /// and a delivered one keeps it.
    pub fn update_feedback(&mut self) -> (r: bool)
        requires
            old(self).wf(),
        ensures
            final(self).wf(),
            old(self).same_content(&*final(self)),
            !old(self).has_sink() ==> !r,
            final(self).has_sink() == (old(self).has_sink() && r),
    {
        if self.feedback_tx.is_none() {
            return false;
        }
        let fb = self.feedback();
        let sent = match &self.feedback_tx {
            Some(tx) => send_feedback(tx, fb),
            None => false,
        };
        self.settle_send(sent);
        sent
    }

    /// Records the outcome of a send: the sink stays only if the feedback
    /// was delivered.
    pub fn settle_send(&mut self, sent: bool)
        requires
            old(self).wf(),
        ensures
            final(self).wf(),
            old(self).same_content(&*final(self)),
            final(self).has_sink() == (old(self).has_sink() && sent),
    {
        if !sent {
            self.feedback_tx = None;
        }
    }
}

impl<T: Timestamped> State<T> {
    /// Pushes `item` into the buffer of `key`; its timestamp is read once,
    /// here. See `push_at` for when the message is handed back.
    pub fn push(&mut self, key: u64, item: T) -> (r: Result<(), T>)
        requires
            old(self).wf(),
        ensures
            final(self).wf(),
            exists|ts: u64| old(self).push_outcome(&*final(self), key, ts, item, r),
    {
        let ts = item.timestamp();
        self.push_at(key, ts, item)
    }
}

} // verus!
