use crate::buffer::{strictly_increasing, Buffer};
use vstd::prelude::*;

verus! {

pub open spec fn front_of(s: Seq<u64>) -> Option<u64> {
    if s.len() > 0 {
        Some(s[0])
    } else {
        None
    }
}

pub open spec fn back_of(s: Seq<u64>) -> Option<u64> {
    if s.len() > 0 {
        Some(s.last())
    } else {
        None
    }
}

/// The larger of two optional timestamps; an unset one is left out.
pub open spec fn max_opt(a: Option<u64>, b: Option<u64>) -> Option<u64> {
    match (a, b) {
        (Some(x), Some(y)) => Some(if x >= y { x } else { y }),
        (Some(x), None) => Some(x),
        (None, _) => b,
    }
}

/// The smaller of two optional timestamps; an unset one is left out.
pub open spec fn min_opt(a: Option<u64>, b: Option<u64>) -> Option<u64> {
    match (a, b) {
        (Some(x), Some(y)) => Some(if x <= y { x } else { y }),
        (Some(x), None) => Some(x),
        (None, _) => b,
    }
}

/// The greatest front timestamp over the non-empty lists.
pub open spec fn max_front(ss: Seq<Seq<u64>>) -> Option<u64>
    decreases ss.len(),
{
    if ss.len() == 0 {
        None
    } else {
        max_opt(max_front(ss.drop_last()), front_of(ss.last()))
    }
}

/// The smallest front timestamp over the non-empty lists.
pub open spec fn min_front(ss: Seq<Seq<u64>>) -> Option<u64>
    decreases ss.len(),
{
    if ss.len() == 0 {
        None
    } else {
        min_opt(min_front(ss.drop_last()), front_of(ss.last()))
    }
}

/// The smallest back timestamp over the non-empty lists.
pub open spec fn min_back(ss: Seq<Seq<u64>>) -> Option<u64>
    decreases ss.len(),
{
    if ss.len() == 0 {
        None
    } else {
        min_opt(min_back(ss.drop_last()), back_of(ss.last()))
    }
}

/// `t` lies after the commit timestamp, if one is set.
pub open spec fn after_commit(t: u64, commit: Option<u64>) -> bool {
    match commit {
        Some(c) => c < t,
        None => true,
    }
}

/// The start of the window around `inf`: `inf - w`, or 0.
pub open spec fn window_start(inf: u64, w: u64) -> u64 {
    if inf >= w {
        (inf - w) as u64
    } else {
        0
    }
}

/// The end of the window around `inf`: `inf + w`, or the largest `u64`.
pub open spec fn window_end(inf: u64, w: u64) -> u64 {
    if inf + w <= u64::MAX {
        (inf + w) as u64
    } else {
        u64::MAX
    }
}

/// A message at `t` is obsolete for a window starting at `ws`: it lies
/// before the window, or at or before a commit timestamp that lies inside
/// it.
pub open spec fn obsolete(t: u64, ws: u64, commit: Option<u64>) -> bool {
    match commit {
        Some(c) => if c > ws {
            t <= c
        } else {
            t < ws
        },
        None => t < ws,
    }
}

/// The first position at or after `i` whose timestamp is not obsolete, or
/// the length of `s`.
pub open spec fn first_kept(s: Seq<u64>, i: int, ws: u64, commit: Option<u64>) -> int
    decreases s.len() - i,
{
    if i >= s.len() {
        s.len() as int
    } else if obsolete(s[i], ws, commit) {
        first_kept(s, i + 1, ws, commit)
    } else {
        i
    }
}

/// The distance between two timestamps.
pub open spec fn dist(a: u64, b: u64) -> int {
    if a >= b {
        a - b
    } else {
        b - a
    }
}

/// Starting at position `i`, moves right while the next timestamp is
/// within the window end `we` and strictly closer to `inf`; the position
/// where it stops.
pub open spec fn closest_from(s: Seq<u64>, i: int, inf: u64, we: u64) -> int
    decreases s.len() - i,
{
    if 0 <= i && i + 1 < s.len() && s[i + 1] <= we && dist(s[i + 1], inf) < dist(s[i], inf) {
        closest_from(s, i + 1, inf, we)
    } else {
        i
    }
}

/// The position of the message that a buffer with timestamps `s`
/// contributes to a group anchored at `inf`, or `None` when its first
/// message that is not obsolete is missing or lies past the window.
pub open spec fn pick(s: Seq<u64>, inf: u64, w: u64, commit: Option<u64>) -> Option<int> {
    let d = first_kept(s, 0, window_start(inf, w), commit);
    if d < s.len() && s[d] <= window_end(inf, w) {
        Some(closest_from(s, d, inf, window_end(inf, w)))
    } else {
        None
    }
}

/// How many messages the selection takes off the front of a buffer with
/// timestamps `s`: up to and including the pick, or the obsolete ones.
pub open spec fn consumed(s: Seq<u64>, inf: u64, w: u64, commit: Option<u64>) -> int {
    match pick(s, inf, w, commit) {
        Some(i) => i + 1,
        None => first_kept(s, 0, window_start(inf, w), commit),
    }
}

/// The first key at or after `k` whose buffer contributes nothing, or the
/// number of keys.
pub open spec fn first_failure(ss: Seq<Seq<u64>>, k: int, inf: u64, w: u64, commit: Option<u64>) -> int
    decreases ss.len() - k,
{
    if k >= ss.len() {
        ss.len() as int
    } else if pick(ss[k], inf, w, commit) is None {
        k
    } else {
        first_failure(ss, k + 1, inf, w, commit)
    }
}

/// How many messages a matching attempt anchored at `inf` takes off the
/// buffer of key `k`: keys before the first failing one give their pick,
/// the failing one loses its obsolete messages, later ones are untouched.
pub open spec fn match_cut(ss: Seq<Seq<u64>>, k: int, inf: u64, w: u64, commit: Option<u64>) -> int {
    let f = first_failure(ss, 0, inf, w, commit);
    if k < f {
        consumed(ss[k], inf, w, commit)
    } else if k == f {
        first_kept(ss[k], 0, window_start(inf, w), commit)
    } else {
        0
    }
}

/// The timestamps picked from each buffer.
pub open spec fn chosen(ss: Seq<Seq<u64>>, inf: u64, w: u64, commit: Option<u64>) -> Seq<u64> {
    Seq::new(ss.len(), |k: int| ss[k][pick(ss[k], inf, w, commit).unwrap()])
}

/// The anchor of a matching attempt: the greatest front timestamp, when
/// every buffer's back lies at least `w` beyond it.
pub open spec fn gate(ss: Seq<Seq<u64>>, w: u64) -> Option<u64> {
    match (max_front(ss), min_back(ss)) {
        (Some(i), Some(s)) => if i + w <= s {
            Some(i)
        } else {
            None
        },
        _ => None,
    }
}

/// The smallest element of a non-empty sequence.
pub open spec fn seq_min(s: Seq<u64>) -> u64
    decreases s.len(),
{
    if s.len() <= 1 {
        s[0]
    } else {
        let m = seq_min(s.drop_last());
        if m <= s.last() {
            m
        } else {
            s.last()
        }
    }
}

pub proof fn lemma_seq_min(s: Seq<u64>)
    requires
        s.len() > 0,
    ensures
        forall|i: int| 0 <= i < s.len() ==> seq_min(s) <= #[trigger] s[i],
        exists|i: int| 0 <= i < s.len() && seq_min(s) == #[trigger] s[i],
    decreases s.len(),
{
    if s.len() > 1 {
        lemma_seq_min(s.drop_last());
        let i = choose|i: int| 0 <= i < s.drop_last().len() && seq_min(s.drop_last()) == #[trigger] s.drop_last()[i];
        assert(s[i] == s.drop_last()[i]);
        assert forall|j: int| 0 <= j < s.len() implies seq_min(s) <= #[trigger] s[j] by {
            if j < s.len() - 1 {
                assert(s[j] == s.drop_last()[j]);
            }
        }
        if seq_min(s.drop_last()) <= s.last() {
            assert(seq_min(s) == s[i]);
        } else {
            assert(seq_min(s) == s[s.len() - 1]);
        }
    } else {
        assert(seq_min(s) == s[0]);
    }
}

/// The walk of `closest_from` stays within the window end and ends at a
/// position no earlier than where it started.
pub proof fn lemma_closest_from(s: Seq<u64>, i: int, inf: u64, we: u64)
    requires
        0 <= i < s.len(),
        s[i] <= we,
    ensures
        i <= closest_from(s, i, inf, we) < s.len(),
        s[closest_from(s, i, inf, we)] <= we,
    decreases s.len() - i,
{
    if i + 1 < s.len() && s[i + 1] <= we && dist(s[i + 1], inf) < dist(s[i], inf) {
        lemma_closest_from(s, i + 1, inf, we);
    }
}

/// On strictly increasing timestamps, the walk of `closest_from` ends at
/// the position closest to `inf` among those from `i` on that lie within
/// the window end, and at the earliest such position on a tie.
pub proof fn lemma_closest_from_is_closest(s: Seq<u64>, i: int, inf: u64, we: u64)
    requires
        strictly_increasing(s),
        0 <= i < s.len(),
        s[i] <= we,
    ensures
        forall|j: int|
            i <= j < s.len() && s[j] <= we ==> dist(s[closest_from(s, i, inf, we)], inf) <= dist(
                #[trigger] s[j],
                inf,
            ),
        forall|j: int|
            i <= j < closest_from(s, i, inf, we) ==> dist(s[closest_from(s, i, inf, we)], inf) < dist(
                #[trigger] s[j],
                inf,
            ),
    decreases s.len() - i,
{
    let p = closest_from(s, i, inf, we);
    if i + 1 < s.len() && s[i + 1] <= we && dist(s[i + 1], inf) < dist(s[i], inf) {
        lemma_closest_from_is_closest(s, i + 1, inf, we);
        lemma_closest_from(s, i + 1, inf, we);
    } else {
        assert forall|j: int| i <= j < s.len() && s[j] <= we implies dist(s[p], inf) <= dist(
            #[trigger] s[j],
            inf,
        ) by {
            if j > i {
                assert(s[i] < s[i + 1]);
                assert(s[i + 1] <= s[j]);
                assert(s[i + 1] > inf);
            }
        }
    }
}

/// The message that a buffer contributes is its closest one to `inf`
/// among those that are not obsolete and lie within the window, and the
/// earliest of them on a tie.
pub proof fn lemma_pick_is_closest(s: Seq<u64>, inf: u64, w: u64, commit: Option<u64>)
    requires
        strictly_increasing(s),
        pick(s, inf, w, commit) is Some,
    ensures
        ({
            let p = pick(s, inf, w, commit).unwrap();
            &&& !obsolete(s[p], window_start(inf, w), commit)
            &&& s[p] <= window_end(inf, w)
            &&& forall|j: int|
                0 <= j < s.len() && !obsolete(s[j], window_start(inf, w), commit) && s[j] <= window_end(inf, w)
                    ==> dist(s[p], inf) <= dist(#[trigger] s[j], inf)
            &&& forall|j: int|
                0 <= j < p && !obsolete(s[j], window_start(inf, w), commit) ==> dist(s[p], inf) < dist(
                    #[trigger] s[j],
                    inf,
                )
        }),
{
    let ws = window_start(inf, w);
    let we = window_end(inf, w);
    let d = first_kept(s, 0, ws, commit);
    lemma_first_kept(s, 0, ws, commit);
    lemma_closest_from(s, d, inf, we);
    lemma_closest_from_is_closest(s, d, inf, we);
    let p = closest_from(s, d, inf, we);
    assert(s[d] <= s[p]);
    assert forall|j: int| 0 <= j < s.len() && !obsolete(s[j], ws, commit) && s[j] <= we implies dist(s[p], inf)
        <= dist(#[trigger] s[j], inf) by {
        assert(j >= d);
    }
    assert forall|j: int| 0 <= j < p && !obsolete(s[j], ws, commit) implies dist(s[p], inf) < dist(
        #[trigger] s[j],
        inf,
    ) by {
        assert(j >= d);
    }
    if obsolete(s[p], ws, commit) {
        assert(false);
    }
}

/// Before the first position kept, every timestamp is obsolete; the one
/// there is not.
pub proof fn lemma_first_kept(s: Seq<u64>, i: int, ws: u64, commit: Option<u64>)
    requires
        0 <= i <= s.len(),
    ensures
        i <= first_kept(s, i, ws, commit) <= s.len(),
        forall|j: int| i <= j < first_kept(s, i, ws, commit) ==> obsolete(#[trigger] s[j], ws, commit),
        first_kept(s, i, ws, commit) < s.len() ==> !obsolete(s[first_kept(s, i, ws, commit)], ws, commit),
    decreases s.len() - i,
{
    if i < s.len() && obsolete(s[i], ws, commit) {
        lemma_first_kept(s, i + 1, ws, commit);
    }
}

/// The distance between two timestamps.
fn duration_diff(lhs: u64, rhs: u64) -> (r: u64)
    ensures
        r == dist(lhs, rhs),
{
    if lhs >= rhs {
        lhs - rhs
    } else {
        rhs - lhs
    }
}

/// Takes the message that `buf` contributes to a group anchored at `inf`
/// off its front, with its timestamp, after dropping the obsolete messages
/// before it and every message it was preferred to.
pub(crate) fn select<T>(buf: &mut Buffer<T>, inf: u64, w: u64, commit: Option<u64>) -> (r: Option<(u64, T)>)
    requires
        old(buf).wf(),
    ensures
        final(buf).wf(),
        old(buf).popped(*final(buf), consumed(old(buf).stamps(), inf, w, commit)),
        match pick(old(buf).stamps(), inf, w, commit) {
            Some(i) => {
                &&& 0 <= i < old(buf).entries().len()
                &&& r == Some((old(buf).stamps()[i], old(buf).messages()[i]))
                &&& window_start(inf, w) <= old(buf).stamps()[i] <= window_end(inf, w)
                &&& !obsolete(old(buf).stamps()[i], window_start(inf, w), commit)
            },
            None => r is None,
        },
{
    let ghost s = old(buf).stamps();
    let ws = inf.saturating_sub(w);
    let we = inf.saturating_add(w);
    let total = buf.len();
    let mut d: usize = 0;
    proof {
        assert(old(buf).entries().skip(0) =~= old(buf).entries());
    }
    let mut first: u64 = 0;
    loop
        invariant
            buf.wf(),
            old(buf).wf(),
            s == old(buf).stamps(),
            total == s.len(),
            ws == window_start(inf, w),
            d <= s.len(),
            old(buf).popped(*buf, d as int),
            first_kept(s, 0, ws, commit) == first_kept(s, d as int, ws, commit),
        ensures
            buf.wf(),
            d < s.len(),
            old(buf).popped(*buf, d as int),
            first_kept(s, 0, ws, commit) == d,
            first == s[d as int],
            !obsolete(s[d as int], ws, commit),
        decreases s.len() - d,
    {
        let t = match buf.front_ts() {
            Some(t) => t,
            None => {
                proof {
                    assert(d == s.len());
                    assert(first_kept(s, d as int, ws, commit) == s.len());
                    assert(pick(s, inf, w, commit) is None);
                }
                return None;
            },
        };
        proof {
            assert(t == s[d as int]);
        }
        let stale = match commit {
            Some(c) => if c > ws {
                t <= c
            } else {
                t < ws
            },
            None => t < ws,
        };
        if !stale {
            first = t;
            break;
        }
        let _ = buf.pop_front();
        proof {
            assert(old(buf).entries().skip(d + 1) =~= old(buf).entries().skip(d as int).skip(1));
        }
        d = d + 1;
    }
    proof {
        assert(ws == window_start(inf, w));
        assert(we == window_end(inf, w));
    }
    if first > we {
        return None;
    }
    let first_msg = match buf.pop_front() {
        Some(m) => m,
        None => vstd::pervasive::unreached(),
    };
    proof {
        assert(old(buf).entries().skip(d + 1) =~= old(buf).entries().skip(d as int).skip(1));
        lemma_closest_from(s, d as int, inf, we);
    }
    let mut best: (u64, T) = (first, first_msg);
    let mut best_dist: u64 = duration_diff(inf, first);
    let mut c: usize = d;
    loop
        invariant
            buf.wf(),
            old(buf).wf(),
            s == old(buf).stamps(),
            total == s.len(),
            ws == window_start(inf, w),
            we == window_end(inf, w),
            d <= c < s.len(),
            first_kept(s, 0, ws, commit) == d,
            ws <= s[d as int] <= we,
            !obsolete(s[d as int], ws, commit),
            old(buf).popped(*buf, c + 1),
            best == (s[c as int], old(buf).messages()[c as int]),
            best_dist == dist(s[c as int], inf),
            s[c as int] <= we,
            closest_from(s, d as int, inf, we) == closest_from(s, c as int, inf, we),
        ensures
            closest_from(s, d as int, inf, we) == c,
            old(buf).popped(*buf, c + 1),
            best == (s[c as int], old(buf).messages()[c as int]),
            d <= c < s.len(),
            s[c as int] <= we,
        decreases s.len() - c,
    {
        let t = match buf.front_ts() {
            Some(t) => t,
            None => break,
        };
        proof {
            assert(t == s[c + 1]);
        }
        let td: u64 = duration_diff(inf, t);
        if t > we || td >= best_dist {
            break;
        }
        let m = match buf.pop_front() {
            Some(m) => m,
            None => vstd::pervasive::unreached(),
        };
        proof {
            assert(old(buf).entries().skip(c + 2) =~= old(buf).entries().skip(c + 1).skip(1));
        }
        best = (t, m);
        best_dist = td;
        c = c + 1;
    }
    proof {
        assert(s[d as int] <= s[c as int]);
    }
    Some(best)
}

/// The total length of the lists.
pub open spec fn sum_lens(ss: Seq<Seq<u64>>) -> nat
    decreases ss.len(),
{
    if ss.len() == 0 {
        0
    } else {
        sum_lens(ss.drop_last()) + ss.last().len()
    }
}

/// Shortening lists shortens their total, strictly when one of them
/// shrinks.
pub proof fn lemma_sum_lens_shrink(a: Seq<Seq<u64>>, b: Seq<Seq<u64>>)
    requires
        a.len() == b.len(),
        forall|k: int| 0 <= k < a.len() ==> #[trigger] b[k].len() <= a[k].len(),
    ensures
        sum_lens(b) <= sum_lens(a),
        (exists|k: int| 0 <= k < a.len() && #[trigger] b[k].len() < a[k].len()) ==> sum_lens(b) < sum_lens(a),
    decreases a.len(),
{
    if a.len() > 0 {
        let a1 = a.drop_last();
        let b1 = b.drop_last();
        assert forall|k: int| 0 <= k < a1.len() implies #[trigger] b1[k].len() <= a1[k].len() by {
            assert(b1[k] == b[k] && a1[k] == a[k]);
        }
        lemma_sum_lens_shrink(a1, b1);
        if exists|k: int| 0 <= k < a.len() && #[trigger] b[k].len() < a[k].len() {
            let k = choose|k: int| 0 <= k < a.len() && #[trigger] b[k].len() < a[k].len();
            if k < a.len() - 1 {
                assert(b1[k] == b[k] && a1[k] == a[k]);
            }
        }
    }
}

/// The smallest front belongs to some list, and there is one as soon as a
/// list is not empty.
pub proof fn lemma_min_front(ss: Seq<Seq<u64>>)
    ensures
        (exists|k: int| 0 <= k < ss.len() && #[trigger] ss[k].len() > 0) ==> min_front(ss) is Some,
        min_front(ss) is Some ==> exists|k: int|
            0 <= k < ss.len() && #[trigger] front_of(ss[k]) == min_front(ss),
    decreases ss.len(),
{
    if ss.len() > 0 {
        let p = ss.drop_last();
        lemma_min_front(p);
        if exists|k: int| 0 <= k < ss.len() && #[trigger] ss[k].len() > 0 {
            let k = choose|k: int| 0 <= k < ss.len() && #[trigger] ss[k].len() > 0;
            if k < ss.len() - 1 {
                assert(p[k] == ss[k]);
            }
        }
        if min_front(ss) is Some {
            if min_front(p) is Some {
                let k = choose|k: int| 0 <= k < p.len() && #[trigger] front_of(p[k]) == min_front(p);
                assert(p[k] == ss[k]);
                if min_front(ss) != min_front(p) {
                    assert(front_of(ss[ss.len() - 1]) == min_front(ss));
                }
            } else {
                assert(front_of(ss[ss.len() - 1]) == min_front(ss));
            }
        }
    }
}

} // verus!
