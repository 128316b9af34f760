//! Ordering events by time: what a stable sort and a stable merge are, the laws
//! that tie them together, and the functions that carry them out.
use crate::message::Nanos;
use vstd::prelude::*;

verus! {

/// Something that happened at a known time.
pub trait Timed {
    /// When it happened, in nanoseconds.
    spec fn time(&self) -> int;
}

/// Something that can tell when it happened.
pub trait Timestamped: Timed {
    /// When it happened, in nanoseconds.
    fn time_ns(&self) -> (t: Nanos)
        ensures
            t == self.time(),
    ;
}

/// No element of `s` is earlier than one that stands before it.
pub open spec fn in_time_order<T: Timed>(s: Seq<T>) -> bool {
    forall|i: int, j: int| 0 <= i <= j < s.len() ==> s[i].time() <= s[j].time()
}

/// `s` with `x` put in behind the last element that is not later than `x`,
/// looking from the end.
pub open spec fn insert_by_time<T: Timed>(s: Seq<T>, x: T) -> Seq<T>
    decreases s.len(),
{
    if s.len() == 0 || s.last().time() <= x.time() {
        s.push(x)
    } else {
        insert_by_time(s.drop_last(), x).push(s.last())
    }
}

/// The elements of `s` in time order, those of equal time in the order they have
/// in `s`: each element in turn is put in behind all that are not later.
pub open spec fn sorted_by_time<T: Timed>(s: Seq<T>) -> Seq<T>
    decreases s.len(),
{
    if s.len() == 0 {
        s
    } else {
        insert_by_time(sorted_by_time(s.drop_last()), s.last())
    }
}

/// `a` and `b` woven into one sequence that keeps the order inside each; where an
/// element of `a` and one of `b` compete for a place, the later one goes behind,
/// and that of `b` if they are of equal time.
pub open spec fn merged_by_time<T: Timed>(a: Seq<T>, b: Seq<T>) -> Seq<T>
    decreases a.len() + b.len(),
{
    if b.len() == 0 {
        a
    } else if a.len() == 0 {
        b
    } else if a.last().time() <= b.last().time() {
        merged_by_time(a, b.drop_last()).push(b.last())
    } else {
        merged_by_time(a.drop_last(), b).push(a.last())
    }
}

/// The test that picks what happened at time `t`.
pub open spec fn happened_at<T: Timed>(t: int) -> spec_fn(T) -> bool {
    |x: T| x.time() == t
}

/// The elements of `s` that happened at time `t`, in their order.
pub open spec fn at_time<T: Timed>(s: Seq<T>, t: int) -> Seq<T> {
    s.filter(happened_at(t))
}

/// Where `x` goes when it is put into `s`: at any place that has only later
/// elements behind it and an element that is not later just before it.
pub proof fn lemma_insert_position<T: Timed>(s: Seq<T>, x: T, pos: int)
    requires
        0 <= pos <= s.len(),
        pos > 0 ==> s[pos - 1].time() <= x.time(),
        forall|j: int| pos <= j < s.len() ==> s[j].time() > x.time(),
    ensures
        insert_by_time(s, x) == s.insert(pos, x),
    decreases s.len() - pos,
{
    if pos == s.len() {
        assert(s.insert(pos, x) =~= s.push(x));
    } else {
        lemma_insert_position(s.drop_last(), x, pos);
        assert(s.drop_last().insert(pos, x).push(s.last()) =~= s.insert(pos, x));
    }
}

/// Putting an element into a sequence adds that element and nothing else, and
/// leaves a sequence in time order in time order.
pub proof fn lemma_insert_by_time<T: Timed>(s: Seq<T>, x: T)
    ensures
        insert_by_time(s, x).len() == s.len() + 1,
        insert_by_time(s, x).to_multiset() == s.to_multiset().insert(x),
        in_time_order(s) ==> in_time_order(insert_by_time(s, x)),
        forall|t: int|
            #![trigger at_time(insert_by_time(s, x), t)]
            at_time(insert_by_time(s, x), t) == if x.time() == t {
                at_time(s, t).push(x)
            } else {
                at_time(s, t)
            },
    decreases s.len(),
{
    broadcast use vstd::seq_lib::group_to_multiset_ensures;

    let r = insert_by_time(s, x);
    if s.len() == 0 || s.last().time() <= x.time() {
        assert forall|t: int| #![trigger at_time(r, t)] at_time(r, t) == if x.time() == t {
            at_time(s, t).push(x)
        } else {
            at_time(s, t)
        } by {
            s.lemma_filter_push(x, happened_at(t));
        }
    } else {
        let head = s.drop_last();
        let inner = insert_by_time(head, x);
        lemma_insert_by_time(head, x);
        assert(s =~= head.push(s.last()));
        assert(r.drop_last() =~= inner);
        assert(r.to_multiset() =~= s.to_multiset().insert(x));
        if in_time_order(s) {
            assert(in_time_order(head));
            assert forall|i: int, j: int| 0 <= i <= j < r.len() implies r[i].time() <= r[j].time() by {
                if j == r.len() - 1 {
                    if i < j {
                        // every element of `inner` is `x` or an element of `head`
                        assert(inner.to_multiset().count(inner[i]) > 0);
                        if inner[i] != x {
                            assert(head.to_multiset().count(inner[i]) > 0);
                            assert(head.contains(inner[i]));
                        }
                    }
                }
            }
        }
        assert forall|t: int| #![trigger at_time(r, t)] at_time(r, t) == if x.time() == t {
            at_time(s, t).push(x)
        } else {
            at_time(s, t)
        } by {
            assert(at_time(inner, t) == if x.time() == t {
                at_time(head, t).push(x)
            } else {
                at_time(head, t)
            });
            inner.lemma_filter_push(s.last(), happened_at(t));
            head.lemma_filter_push(s.last(), happened_at(t));
            if s.last().time() == t && x.time() == t {
                assert(false);
            }
        }
    }
}

/// Sorting by time keeps every element, brings the elements into time order, and
/// leaves those of one time in the order they had.
pub proof fn lemma_sorted_by_time<T: Timed>(s: Seq<T>)
    ensures
        sorted_by_time(s).len() == s.len(),
        sorted_by_time(s).to_multiset() == s.to_multiset(),
        in_time_order(sorted_by_time(s)),
        forall|t: int| #![trigger at_time(sorted_by_time(s), t)] at_time(sorted_by_time(s), t) == at_time(s, t),
    decreases s.len(),
{
    broadcast use vstd::seq_lib::group_to_multiset_ensures;

    if s.len() == 0 {
    } else {
        let head = s.drop_last();
        lemma_sorted_by_time(head);
        lemma_insert_by_time(sorted_by_time(head), s.last());
        assert(s =~= head.push(s.last()));
        assert forall|t: int| #![trigger at_time(sorted_by_time(s), t)] at_time(sorted_by_time(s), t) == at_time(s, t) by {
            head.lemma_filter_push(s.last(), happened_at(t));
            assert(at_time(sorted_by_time(head), t) == at_time(head, t));
        }
    }
}

/// Sorting a sequence that is in time order changes nothing.
pub proof fn lemma_sorted_is_fixed<T: Timed>(s: Seq<T>)
    requires
        in_time_order(s),
    ensures
        sorted_by_time(s) == s,
    decreases s.len(),
{
    if s.len() > 0 {
        lemma_sorted_is_fixed(s.drop_last());
        assert(s.drop_last().push(s.last()) =~= s);
    }
}

/// Merging with a sequence that holds one more element at its end is merging
/// without that element and then putting it in.
proof fn lemma_merge_then_insert<T: Timed>(a: Seq<T>, b: Seq<T>, x: T)
    requires
        in_time_order(a),
        in_time_order(b.push(x)),
    ensures
        insert_by_time(merged_by_time(a, b), x) == merged_by_time(a, b.push(x)),
    decreases a.len(),
{
    let bx = b.push(x);
    assert(bx.drop_last() =~= b);
    assert(bx.last() == x);
    if b.len() > 0 {
        assert(bx[b.len() - 1].time() <= bx[b.len() as int].time());
    }
    let m = merged_by_time(a, b);
    if a.len() == 0 {
        assert(m =~= b);
    } else if a.last().time() <= x.time() {
        assert(m.len() > 0 && m.last().time() <= x.time());
        assert(merged_by_time(a, bx) == m.push(x));
    } else {
        let head = a.drop_last();
        lemma_merge_then_insert(head, b, x);
        assert(merged_by_time(a, bx) == merged_by_time(head, bx).push(a.last()));
        if b.len() == 0 {
            assert(m == a);
            assert(merged_by_time(head, b) == head);
        } else {
            assert(m == merged_by_time(head, b).push(a.last()));
            assert(m.drop_last() =~= merged_by_time(head, b));
        }
    }
}

/// Merging two sequences that are each in time order gives what sorting the one
/// followed by the other gives.
pub proof fn lemma_merge_is_sort<T: Timed>(a: Seq<T>, b: Seq<T>)
    requires
        in_time_order(a),
        in_time_order(b),
    ensures
        merged_by_time(a, b) == sorted_by_time(a + b),
        in_time_order(merged_by_time(a, b)),
    decreases b.len(),
{
    if b.len() == 0 {
        assert(a + b =~= a);
        lemma_sorted_is_fixed(a);
    } else {
        let head = b.drop_last();
        assert((a + b).drop_last() =~= a + head);
        assert(head.push(b.last()) =~= b);
        lemma_merge_is_sort(a, head);
        lemma_merge_then_insert(a, head, b.last());
    }
    lemma_sorted_by_time(a + b);
}

/// Putting an element in and then looking at plain values is looking at plain
/// values and then putting the element in, where looking keeps the time.
proof fn lemma_insert_of_views<T: Timed, U: Timed>(s: Seq<T>, x: T, f: spec_fn(T) -> U)
    requires
        forall|y: T| (#[trigger] f(y)).time() == y.time(),
    ensures
        insert_by_time(s.map_values(f), f(x)) == insert_by_time(s, x).map_values(f),
    decreases s.len(),
{
    let fs = s.map_values(f);
    if s.len() == 0 || s.last().time() <= x.time() {
        assert(fs.push(f(x)) =~= s.push(x).map_values(f));
    } else {
        lemma_insert_of_views(s.drop_last(), x, f);
        assert(fs.drop_last() =~= s.drop_last().map_values(f));
        assert(insert_by_time(s.drop_last(), x).map_values(f).push(f(s.last()))
            =~= insert_by_time(s.drop_last(), x).push(s.last()).map_values(f));
    }
}

/// Sorting and then looking at plain values is looking at plain values and then
/// sorting, where looking keeps the time.
pub proof fn lemma_sort_of_views<T: Timed, U: Timed>(s: Seq<T>, f: spec_fn(T) -> U)
    requires
        forall|y: T| (#[trigger] f(y)).time() == y.time(),
    ensures
        sorted_by_time(s.map_values(f)) == sorted_by_time(s).map_values(f),
    decreases s.len(),
{
    let fs = s.map_values(f);
    if s.len() == 0 {
        assert(fs =~= sorted_by_time(s).map_values(f));
    } else {
        lemma_sort_of_views(s.drop_last(), f);
        assert(fs.drop_last() =~= s.drop_last().map_values(f));
        lemma_insert_of_views(sorted_by_time(s.drop_last()), s.last(), f);
    }
}

/// The elements of `v` in the opposite order.
fn reversed<T>(v: Vec<T>) -> (out: Vec<T>)
    ensures
        out@ == v@.reverse(),
{
    let ghost all = v@;
    let mut rest = v;
    let mut out: Vec<T> = Vec::new();
    while rest.len() > 0
        invariant
            rest@.len() + out@.len() == all.len(),
            rest@ == all.take(rest@.len() as int),
            forall|k: int| 0 <= k < out@.len() ==> out@[k] == all[all.len() - 1 - k],
        decreases rest@.len(),
    {
        match rest.pop() {
            Some(x) => {
                out.push(x);
            },
            None => {},
        }
    }
    assert(out@ =~= all.reverse());
    out
}

/// Sorts by time. Elements of equal time keep the order they came in.
///
/// The work grows with the number of pairs that stand in the wrong order, so a
/// sequence that is nearly in order is sorted in nearly one pass.
pub fn sort_by_time<T: Timestamped>(v: Vec<T>) -> (out: Vec<T>)
    ensures
        out@ == sorted_by_time(v@),
        out@.len() == v@.len(),
        out@.to_multiset() == v@.to_multiset(),
        in_time_order(out@),
{
    let ghost all = v@;
    let mut pending = reversed(v);
    let mut out: Vec<T> = Vec::new();
    assert(all.take(0) =~= Seq::<T>::empty());
    while pending.len() > 0
        invariant
            out@.len() + pending@.len() == all.len(),
            out@ == sorted_by_time(all.take(out@.len() as int)),
            forall|k: int| 0 <= k < pending@.len() ==> pending@[k] == all[all.len() - 1 - k],
        decreases pending@.len(),
    {
        let ghost done = out@.len() as int;
        match pending.pop() {
            Some(x) => {
                assert(x == all[done]);
                let at: Nanos = x.time_ns();
                let mut pos: usize = out.len();
                while pos > 0 && out[pos - 1].time_ns() > at
                    invariant
                        pos <= out@.len(),
                        at == x.time(),
                        forall|j: int| pos <= j < out@.len() ==> out@[j].time() > x.time(),
                    decreases pos,
                {
                    pos -= 1;
                }
                proof {
                    lemma_insert_position(out@, x, pos as int);
                    assert(all.take(done + 1).drop_last() =~= all.take(done));
                }
                out.insert(pos, x);
            },
            None => {},
        }
    }
    proof {
        assert(all.take(all.len() as int) =~= all);
        lemma_sorted_by_time(all);
    }
    out
}

/// Merges two sequences by time, keeping the order inside each and putting the
/// elements of `a` before those of `b` that have the same time.
///
/// Where both are in time order, the result is their common timeline: what
/// sorting `a` followed by `b` gives.
pub fn merge_by_time<T: Timestamped>(a: Vec<T>, b: Vec<T>) -> (out: Vec<T>)
    ensures
        out@ == merged_by_time(a@, b@),
        in_time_order(a@) && in_time_order(b@) ==> out@ == sorted_by_time(a@ + b@) && in_time_order(
            out@,
        ),
{
    let ghost whole = merged_by_time(a@, b@);
    let ghost a0 = a@;
    let ghost b0 = b@;
    let mut a = a;
    let mut b = b;
    let mut tail: Vec<T> = Vec::new();
    while a.len() > 0 || b.len() > 0
        invariant
            whole == merged_by_time(a@, b@) + tail@.reverse(),
        decreases a@.len() + b@.len(),
    {
        let ghost before = merged_by_time(a@, b@);
        let ghost behind = tail@.reverse();
        let from_b: bool = if a.len() == 0 {
            true
        } else if b.len() == 0 {
            false
        } else {
            a[a.len() - 1].time_ns() <= b[b.len() - 1].time_ns()
        };
        let taken: Option<T> = if from_b { b.pop() } else { a.pop() };
        match taken {
            Some(x) => {
                assert(before == merged_by_time(a@, b@).push(x)) by {
                    if !from_b && b@.len() == 0 {
                        assert(a@.push(x) =~= before);
                    }
                    if from_b && a@.len() == 0 {
                        assert(b@.push(x) =~= before);
                        assert(merged_by_time(a@, b@) =~= b@);
                    }
                }
                tail.push(x);
                assert(tail@.reverse() =~= seq![x] + behind);
                assert(merged_by_time(a@, b@).push(x) + behind =~= merged_by_time(a@, b@) + (seq![x]
                    + behind));
            },
            None => {},
        }
    }
    let out = reversed(tail);
    proof {
        assert(tail@.reverse().reverse() =~= tail@);
        assert(merged_by_time(a@, b@) =~= Seq::<T>::empty());
        assert(out@ =~= whole);
        if in_time_order(a0) && in_time_order(b0) {
            lemma_merge_is_sort(a0, b0);
        }
    }
    out
}

} // verus!
