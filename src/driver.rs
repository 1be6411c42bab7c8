use crate::buffer::no_earlier;
use crate::config::{Config, ConfigError};
use crate::feedback::Feedback;
use crate::matching::{
    after_commit, chosen, front_of, gate, lemma_min_front, lemma_sum_lens_shrink, max_front, min_front, seq_min,
};
use crate::state::{distinct, State};
use crate::types::Timestamped;
use tokio::sync::watch;
use vstd::prelude::*;

verus! {

/// Where a synchronizer stands with its input.
#[derive(Debug, Clone, Copy, PartialEq, Eq, Structural)]
pub enum Phase {
    /// Input still comes.
    Live,
    /// Input has ended; the buffered messages are being grouped.
    Draining,
    /// No more groups will come.
    Done,
}

/// What a synchronizer asks of its caller next.
pub enum Step<T> {
    /// A group: one message per key, in key order.
    Emit(Vec<(u64, T)>),
    /// The next input message is needed, or word that input has ended.
    NeedInput,
    /// The output has ended.
    Finished,
}

/// The decisions of the synchronizer, apart from the input it reads: the
/// caller asks for the next step, feeds input when asked, and reports the
/// end of input.
pub struct Synchronizer<T> {
    state: State<T>,
    phase: Phase,
}

/// One round in which no group formed. While input is live: every buffer
/// was full, the matcher formed nothing, the smallest front was dropped and
/// feedback was sent. Once input has ended: some buffer held a message, the
/// final matcher formed nothing and the smallest front was dropped.
pub open spec fn stall_step<T>(live: bool, a: State<T>, b: State<T>) -> bool {
    if live {
        &&& a.all_ready()
        &&& a.all_full()
        &&& exists|m: State<T>, x: State<T>, d: bool|
            a.match_outcome(&m, None) && m.drop_outcome(&x, d) && x.same_content(&b)
    } else {
        &&& !a.all_empty()
        &&& exists|m: State<T>, d: bool| a.final_match_outcome(&m, None) && m.drop_outcome(&b, d)
    }
}

/// States linked by rounds in which no group formed.
pub open spec fn stall_chain<T>(live: bool, c: Seq<State<T>>) -> bool {
    &&& c.len() > 0
    &&& forall|i: int| 0 <= i < c.len() - 1 ==> stall_step(live, #[trigger] c[i], c[i + 1])
}

/// What a step from `a` gives while input is live, after the rounds in
/// which no group formed: input is asked for unless every buffer is full;
/// otherwise the matcher forms `g`, and feedback is sent.
pub open spec fn step_after_stalls_live<T>(a: State<T>, b: State<T>, r: Step<T>) -> bool {
    match r {
        Step::NeedInput => !(a.all_ready() && a.all_full()) && b == a,
        Step::Emit(g) => {
            &&& a.all_ready()
            &&& a.all_full()
            &&& exists|m: State<T>| a.match_outcome(&m, Some(g)) && m.same_content(&b)
        },
        Step::Finished => false,
    }
}

/// What a step from `a` gives once input has ended, after the rounds in
/// which no group formed: the end of output when every buffer is empty;
/// otherwise the final matcher forms `g`.
pub open spec fn step_after_stalls_draining<T>(a: State<T>, b: State<T>, r: Step<T>) -> bool {
    match r {
        Step::NeedInput => false,
        Step::Emit(g) => !a.all_empty() && a.final_match_outcome(&b, Some(g)),
        Step::Finished => a.all_empty() && b == a,
    }
}

/// The commit timestamp never moves back over a whole run: if it does
/// not move back from one state to the next, it does not from any state to
/// any later one.
pub proof fn lemma_commit_never_moves_back(cs: Seq<Option<u64>>)
    requires
        forall|i: int| 0 <= i < cs.len() - 1 ==> no_earlier(#[trigger] cs[i], cs[i + 1]),
    ensures
        forall|i: int, j: int| 0 <= i <= j < cs.len() ==> no_earlier(#[trigger] cs[i], #[trigger] cs[j]),
    decreases cs.len(),
{
    if cs.len() > 1 {
        let p = cs.drop_last();
        assert forall|i: int| 0 <= i < p.len() - 1 implies no_earlier(#[trigger] p[i], p[i + 1]) by {
            assert(p[i] == cs[i] && p[i + 1] == cs[i + 1]);
        }
        lemma_commit_never_moves_back(p);
        assert forall|i: int, j: int| 0 <= i <= j < cs.len() implies no_earlier(#[trigger] cs[i], #[trigger] cs[j]) by {
            if j < cs.len() - 1 {
                assert(p[i] == cs[i] && p[j] == cs[j]);
            } else if i < j {
                assert(p[i] == cs[i] && p[j - 1] == cs[j - 1]);
                assert(no_earlier(cs[i], cs[j - 1]));
            }
        }
    }
}

/// Of two groups formed one after the other, with the commit timestamp not
/// moving back in between, the later one commits no earlier, and each of its
/// timestamps lies after the smallest timestamp of the earlier one.
pub proof fn lemma_later_group_after_earlier<T>(
    a: State<T>,
    b: State<T>,
    g1: Vec<(u64, T)>,
    anchor1: Option<u64>,
    c: State<T>,
    d: State<T>,
    g2: Vec<(u64, T)>,
    anchor2: Option<u64>,
)
    requires
        a.anchored_outcome(&b, Some(g1), anchor1),
        no_earlier(b.commit(), c.commit()),
        c.anchored_outcome(&d, Some(g2), anchor2),
    ensures
        anchor1 is Some && anchor2 is Some,
        b.commit() == Some(seq_min(chosen(a.stamp_lists(), anchor1.unwrap(), a.window(), a.commit()))),
        no_earlier(b.commit(), d.commit()),
        forall|k: int|
            0 <= k < c.stamp_lists().len() ==> b.commit().unwrap() < #[trigger] chosen(
                c.stamp_lists(),
                anchor2.unwrap(),
                c.window(),
                c.commit(),
            )[k],
{
    let inf2 = anchor2.unwrap();
    assert forall|k: int| 0 <= k < c.stamp_lists().len() implies b.commit().unwrap() < #[trigger] chosen(
        c.stamp_lists(),
        inf2,
        c.window(),
        c.commit(),
    )[k] by {
        assert(after_commit(chosen(c.stamp_lists(), inf2, c.window(), c.commit())[k], c.commit()));
    }
}

/// A failed matching attempt followed by dropping the smallest front takes
/// at least one message away, as long as some buffer held one.
pub proof fn lemma_stall_progress<T>(st_a: State<T>, st_b: State<T>, st_c: State<T>, dropped: bool, anchor: Option<u64>)
    requires
        st_a.wf(),
        st_a.anchored_outcome(&st_b, None, anchor),
        st_b.drop_outcome(&st_c, dropped),
        exists|k: int| 0 <= k < st_a.bufs().len() && #[trigger] st_a.bufs()[k].entries().len() > 0,
    ensures
        st_c.backlog() < st_a.backlog(),
{
    let a = st_a.stamp_lists();
    let b = st_b.stamp_lists();
    let c = st_c.stamp_lists();
    assert(st_b.bufs().len() == st_a.bufs().len());
    assert forall|k: int| 0 <= k < a.len() implies #[trigger] b[k].len() <= a[k].len() by {
        assert(b[k].len() == st_b.bufs()[k].entries().len());
    }
    lemma_sum_lens_shrink(a, b);
    assert forall|k: int| 0 <= k < b.len() implies #[trigger] c[k].len() <= b[k].len() by {
        assert(c[k].len() == st_c.bufs()[k].entries().len());
    }
    lemma_sum_lens_shrink(b, c);
    if !(exists|k: int| 0 <= k < a.len() && #[trigger] b[k].len() < a[k].len()) {
        let k0 = choose|k: int| 0 <= k < st_a.bufs().len() && #[trigger] st_a.bufs()[k].entries().len() > 0;
        assert(b[k0].len() == a[k0].len());
        assert(b[k0].len() > 0);
        lemma_min_front(b);
        let k1 = choose|k: int| 0 <= k < b.len() && #[trigger] front_of(b[k]) == min_front(b);
        assert(c[k1].len() < b[k1].len());
    }
}

impl<T> Synchronizer<T> {
    pub closed spec fn state(&self) -> State<T> {
        self.state
    }

    pub closed spec fn phase(&self) -> Phase {
        self.phase
    }

    pub open spec fn wf(&self) -> bool {
        self.state().wf()
    }

    /// `g` holds one message per configured key, in key order.
    pub open spec fn complete(&self, g: Seq<(u64, T)>) -> bool {
        &&& g.len() == self.state().key_seq().len()
        &&& forall|k: int| 0 <= k < g.len() ==> (#[trigger] g[k]).0 == self.state().key_seq()[k]
    }

    /// The state: buffers, commit timestamp and settings.
    pub fn inner(&self) -> (r: &State<T>)
        ensures
            *r == self.state(),
    {
        &self.state
    }

    pub fn current_phase(&self) -> (r: Phase)
        ensures
            r == self.phase(),
    {
        self.phase
    }

    /// Runs the matcher until a group forms or input is needed. While input
    /// comes, it asks for input unless every buffer is full; when every
    /// buffer is full and no group forms, the smallest front is dropped and
    /// the matcher runs again. Once input has ended, groups are formed with
    /// `try_match_final`, with the smallest front dropped whenever none
    /// forms, until every buffer is empty.
    pub fn next_step(&mut self) -> (r: Step<T>)
        requires
            old(self).wf(),
        ensures
            final(self).wf(),
            final(self).state().key_seq() == old(self).state().key_seq(),
            final(self).state().cap() == old(self).state().cap(),
            final(self).state().window() == old(self).state().window(),
            no_earlier(old(self).state().commit(), final(self).state().commit()),
            old(self).phase() == Phase::Done ==> {
                &&& r is Finished
                &&& final(self).phase() == Phase::Done
                &&& final(self).state() == old(self).state()
            },
            old(self).phase() != Phase::Done ==> exists|c: Seq<State<T>>|
                {
                    &&& stall_chain(old(self).phase() == Phase::Live, c)
                    &&& c[0] == old(self).state()
                    &&& old(self).phase() == Phase::Live ==> step_after_stalls_live(c.last(), final(self).state(), r)
                    &&& old(self).phase() == Phase::Draining ==> step_after_stalls_draining(c.last(), final(self).state(), r)
                },
            match r {
                Step::Emit(g) => {
                    &&& old(self).phase() != Phase::Done
                    &&& final(self).phase() == old(self).phase()
                    &&& old(self).complete(g@)
                    &&& final(self).state().commit() is Some
                },
                Step::NeedInput => {
                    &&& old(self).phase() == Phase::Live
                    &&& final(self).phase() == Phase::Live
                    &&& !(final(self).state().all_ready() && final(self).state().all_full())
                },
                Step::Finished => {
                    &&& final(self).phase() == Phase::Done
                    &&& old(self).phase() != Phase::Live
                    &&& old(self).phase() == Phase::Draining ==> final(self).state().all_empty()
                },
            },
    {
        let ghost live = self.phase == Phase::Live;
        let ghost mut chain: Seq<State<T>> = seq![self.state()];
        loop
            invariant
                old(self).wf(),
                self.wf(),
                self.state().key_seq() == old(self).state().key_seq(),
                self.state().cap() == old(self).state().cap(),
                self.state().window() == old(self).state().window(),
                no_earlier(old(self).state().commit(), self.state().commit()),
                self.phase() == old(self).phase(),
                live == (old(self).phase() == Phase::Live),
                old(self).phase() == Phase::Done ==> self.state() == old(self).state(),
                stall_chain(live, chain),
                chain[0] == old(self).state(),
                chain.last() == self.state(),
            decreases self.state().backlog(),
        {
            let ghost st_a = self.state();
            match self.phase {
                Phase::Done => {
                    return Step::Finished;
                },
                Phase::Live => {
                    if !self.state.is_ready() || !self.state.is_full() {
                        proof {
                            assert(step_after_stalls_live(chain.last(), self.state(), Step::<T>::NeedInput));
                        }
                        return Step::NeedInput;
                    }
                    match self.state.try_match() {
                        Some(g) => {
                            let ghost st_b = self.state();
                            self.state.update_feedback();
                            proof {
                                assert(st_a.match_outcome(&st_b, Some(g)) && st_b.same_content(&self.state()));
                                assert(step_after_stalls_live(chain.last(), self.state(), Step::Emit(g)));
                            }
                            return Step::Emit(g);
                        },
                        None => {
                            let ghost st_b = self.state();
                            let dropped = self.state.drop_min();
                            let ghost st_c = self.state();
                            self.state.update_feedback();
                            proof {
                                assert(st_a.bufs()[0].entries().len() >= st_a.cap());
                                lemma_stall_progress(st_a, st_b, st_c, dropped, gate(st_a.stamp_lists(), st_a.window()));
                                assert(st_a.match_outcome(&st_b, None) && st_b.drop_outcome(&st_c, dropped) && st_c.same_content(&self.state()));
                                assert(stall_step(true, st_a, self.state()));
                                let old_chain = chain;
                                chain = chain.push(self.state());
                                assert forall|i: int| 0 <= i < chain.len() - 1 implies stall_step(live, #[trigger] chain[i], chain[i + 1]) by {
                                    if i < chain.len() - 2 {
                                        assert(chain[i] == old_chain[i] && chain[i + 1] == old_chain[i + 1]);
                                    }
                                }
                            }
                        },
                    }
                },
                Phase::Draining => {
                    if self.state.is_empty() {
                        self.phase = Phase::Done;
                        proof {
                            assert(step_after_stalls_draining(chain.last(), self.state(), Step::<T>::Finished));
                        }
                        return Step::Finished;
                    }
                    match self.state.try_match_final() {
                        Some(g) => {
                            proof {
                                assert(step_after_stalls_draining(chain.last(), self.state(), Step::Emit(g)));
                            }
                            return Step::Emit(g);
                        },
                        None => {
                            let ghost st_b = self.state();
                            let dropped = self.state.drop_min();
                            proof {
                                lemma_stall_progress(st_a, st_b, self.state(), dropped, max_front(st_a.stamp_lists()));
                                assert(st_a.final_match_outcome(&st_b, None) && st_b.drop_outcome(&self.state(), dropped));
                                assert(stall_step(false, st_a, self.state()));
                                let old_chain = chain;
                                chain = chain.push(self.state());
                                assert forall|i: int| 0 <= i < chain.len() - 1 implies stall_step(live, #[trigger] chain[i], chain[i + 1]) by {
                                    if i < chain.len() - 2 {
                                        assert(chain[i] == old_chain[i] && chain[i + 1] == old_chain[i + 1]);
                                    }
                                }
                            }
                        },
                    }
                },
            }
        }
    }

    /// Records that input has ended: the buffered messages are drained.
    pub fn end_input(&mut self)
        requires
            old(self).wf(),
        ensures
            final(self).wf(),
            final(self).state() == old(self).state(),
            final(self).phase() == (if old(self).phase() == Phase::Live {
                Phase::Draining
            } else {
                old(self).phase()
            }),
    {
        if self.phase == Phase::Live {
            self.phase = Phase::Draining;
        }
    }
}

impl<T: Timestamped> Synchronizer<T> {
    /// Hands over one input message, read while input is live; the message's
    /// timestamp is read once, here. It is pushed into its key's buffer; if
    /// it was admitted and every buffer already held two messages, the
    /// matcher runs. Feedback is sent either way. Outside the live phase the
    /// message is dropped.
    pub fn feed(&mut self, key: u64, item: T) -> (r: Option<Vec<(u64, T)>>)
        requires
            old(self).wf(),
        ensures
            final(self).wf(),
            final(self).phase() == old(self).phase(),
            no_earlier(old(self).state().commit(), final(self).state().commit()),
            old(self).phase() != Phase::Live ==> r is None && final(self).state() == old(self).state(),
            old(self).phase() == Phase::Live ==> exists|ts: u64, st_b: State<T>, pr: Result<(), T>, st_c: State<T>|
                {
                    &&& old(self).state().push_outcome(&st_b, key, ts, item, pr)
                    &&& st_b.wf()
                    &&& if pr is Ok && old(self).state().all_ready() {
                        st_b.match_outcome(&st_c, r)
                    } else {
                        r is None && st_c == st_b
                    }
                    &&& st_c.same_content(&final(self).state())
                },
            old(self).phase() == Phase::Live && !old(self).state().key_seq().contains(key) ==> {
                &&& r is None
                &&& final(self).state().bufs() == old(self).state().bufs()
                &&& final(self).state().commit() == old(self).state().commit()
            },
            match r {
                Some(g) => old(self).complete(g@),
                None => true,
            },
    {
        if self.phase != Phase::Live {
            return None;
        }
        let ghost st_a = self.state();
        let ready = self.state.is_ready();
        let ts = item.timestamp();
        let pushed = self.state.push_at(key, ts, item);
        let ghost pr = pushed;
        let ghost st_b = self.state();
        let r = if pushed.is_ok() && ready {
            self.state.try_match()
        } else {
            None
        };
        self.state.update_feedback();
        proof {
            assert(st_a.push_outcome(&st_b, key, ts, item, pr));
        }
        r
    }
}

/// Builds a synchronizer over the distinct `keys`, in the order given, and
/// the receiver of its feedback. The feedback starts out naming every key
/// and the configured start time.
pub fn sync<T>(keys: &Vec<u64>, config: Config) -> (r: Result<(Synchronizer<T>, watch::Receiver<Feedback>), ConfigError>)
    ensures
        r is Ok <==> config.valid() && keys@.len() > 0,
        match r {
            Ok((s, _)) => {
                &&& s.wf()
                &&& s.phase() == Phase::Live
                &&& s.state().key_seq() == distinct(keys@)
                &&& s.state().all_empty()
                &&& s.state().commit() == config.start_time
                &&& s.state().cap() == config.buf_size
                &&& s.state().window() == config.window_size
                &&& s.state().has_sink()
                &&& s.state().open_keys(s.state().bufs().len() as int) == distinct(keys@)
            },
            Err(e) => e == (if config.buf_size < 2 {
                ConfigError::BufSizeTooSmall
            } else if config.window_size == 0 {
                ConfigError::ZeroWindow
            } else {
                ConfigError::NoKeys
            }),
        },
{
    match State::new(keys, config) {
        Ok((state, rx)) => Ok((Synchronizer { state, phase: Phase::Live }, rx)),
        Err(e) => Err(e),
    }
}

} // verus!
