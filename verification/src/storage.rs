//! The store's upkeep on load: renumbering identifiers that JavaScript cannot
//! hold, and the choice of the data file to read.

use vstd::prelude::*;
use crate::commands::MAX_SAFE_ID;
use crate::models::{AppData, Clip, Flashcard, Identifiable, Note, Question, Task, Version};

verus! {

/// Items whose identifier can be replaced.
pub trait Renumber: Identifiable + Sized {
    /// The item with identifier `id` and everything else unchanged.
    spec fn spec_with_id(self, id: u64) -> Self;

    /// The new identifier is the one given.
    proof fn lemma_with_id(self, id: u64)
        ensures
            self.spec_with_id(id).spec_id() == id,
    ;

    fn set_id(&mut self, id: u64)
        ensures
            *final(self) == old(self).spec_with_id(id),
    ;
}

impl Renumber for Note {
    open spec fn spec_with_id(self, id: u64) -> Self {
        Note { id, ..self }
    }

    proof fn lemma_with_id(self, id: u64) {
    }

    fn set_id(&mut self, id: u64) {
        self.id = id;
    }
}

impl Renumber for Clip {
    open spec fn spec_with_id(self, id: u64) -> Self {
        Clip { id, ..self }
    }

    proof fn lemma_with_id(self, id: u64) {
    }

    fn set_id(&mut self, id: u64) {
        self.id = id;
    }
}

impl Renumber for Flashcard {
    open spec fn spec_with_id(self, id: u64) -> Self {
        Flashcard { id, ..self }
    }

    proof fn lemma_with_id(self, id: u64) {
    }

    fn set_id(&mut self, id: u64) {
        self.id = id;
    }
}

impl Renumber for Task {
    open spec fn spec_with_id(self, id: u64) -> Self {
        Task { id, ..self }
    }

    proof fn lemma_with_id(self, id: u64) {
    }

    fn set_id(&mut self, id: u64) {
        self.id = id;
    }
}

/// An identifier the web side cannot hold exactly.
pub open spec fn is_large(id: u64) -> bool {
    id > MAX_SAFE_ID
}

/// 1 for a large identifier, else 0.
pub open spec fn large(id: u64) -> nat {
    if is_large(id) {
        1
    } else {
        0
    }
}

/// `x` taken modulo 2^64, as a `u64` counter that wraps around gives it.
pub open spec fn wrap(x: int) -> u64 {
    (x % 0x1_0000_0000_0000_0000) as u64
}

/// The sum of `w` over `s`.
pub open spec fn wsum<A>(s: Seq<A>, w: spec_fn(A) -> nat) -> nat
    decreases s.len(),
{
    if s.len() == 0 {
        0
    } else {
        wsum(s.drop_last(), w) + w(s.last())
    }
}

/// A prefix one longer adds the weight of the next item; no prefix weighs
/// more than the whole.
pub proof fn lemma_wsum_take<A>(s: Seq<A>, w: spec_fn(A) -> nat, k: int)
    requires
        0 <= k < s.len(),
    ensures
        wsum(s.take(k + 1), w) == wsum(s.take(k), w) + w(s[k]),
        wsum(s.take(k + 1), w) <= wsum(s, w),
    decreases s.len(),
{
    assert(s.take(k + 1).drop_last() =~= s.take(k));
    if k + 1 < s.len() {
        lemma_wsum_take(s.drop_last(), w, k);
        assert(s.drop_last().take(k + 1) =~= s.take(k + 1));
        assert(s.drop_last().take(k) =~= s.take(k));
    } else {
        assert(s.take(k + 1) =~= s);
    }
}

/// The whole sequence is its full prefix.
proof fn lemma_wsum_full<A>(s: Seq<A>, w: spec_fn(A) -> nat)
    ensures
        wsum(s.take(s.len() as int), w) == wsum(s, w),
{
    assert(s.take(s.len() as int) =~= s);
}

/// One more step of a wrapping counter.
proof fn lemma_wrap_step(x: int)
    requires
        x >= 0,
    ensures
        wrap(x + 1) == (if wrap(x) == u64::MAX { 0u64 } else { (wrap(x) + 1) as u64 }),
{
    assert(wrap(x + 1) == (if wrap(x) == u64::MAX { 0u64 } else { (wrap(x) + 1) as u64 })) by (nonlinear_arith)
        requires x >= 0;
}

/// Below 2^64 the counter does not wrap.
proof fn lemma_wrap_small(x: int)
    requires
        0 <= x <= u64::MAX,
    ensures
        wrap(x) == x,
{
    assert(wrap(x) == x) by (nonlinear_arith)
        requires 0 <= x <= u64::MAX;
}

/// The weight of an item: 1 when its identifier is large.
pub open spec fn item_weight<T: Renumber>() -> spec_fn(T) -> nat {
    |x: T| large(x.spec_id())
}

/// How many items of `s` have a large identifier.
pub open spec fn large_count<T: Renumber>(s: Seq<T>) -> nat {
    wsum(s, item_weight::<T>())
}

/// `after` is `s` with the `k`-th item whose identifier is large (counting
/// from 0) given identifier `base + k`, on a counter that wraps at 2^64, and
/// the other items unchanged.
pub open spec fn renewed_from<T: Renumber>(s: Seq<T>, after: Seq<T>, base: int) -> bool {
    &&& after.len() == s.len()
    &&& forall|k: int|
        0 <= k < s.len() ==> #[trigger] after[k] == (if is_large(s[k].spec_id()) {
            s[k].spec_with_id(wrap(base + large_count(s.take(k))))
        } else {
            s[k]
        })
}

/// When the fresh identifiers stay within `MAX_SAFE_ID`, no identifier is
/// beyond it after renumbering, and no two renumbered items share one.
pub proof fn lemma_renewed_distinct<T: Renumber>(s: Seq<T>, after: Seq<T>, base: int)
    requires
        base >= 0,
        renewed_from(s, after, base),
        base + large_count(s) <= MAX_SAFE_ID + 1,
    ensures
        forall|k: int| 0 <= k < after.len() ==> #[trigger] after[k].spec_id() <= MAX_SAFE_ID,
        forall|i: int, j: int|
            0 <= i < j < s.len() && is_large(s[i].spec_id()) && is_large(s[j].spec_id())
                ==> #[trigger] after[i].spec_id() != #[trigger] after[j].spec_id(),
{
    let w = item_weight::<T>();
    assert forall|k: int| 0 <= k < after.len() implies #[trigger] after[k].spec_id() <= MAX_SAFE_ID by {
        if is_large(s[k].spec_id()) {
            lemma_wsum_take(s, w, k);
            lemma_wrap_small(base + large_count(s.take(k)));
            s[k].lemma_with_id(wrap(base + large_count(s.take(k))));
        }
    }
    assert forall|a: int, b: int|
        0 <= a < b < s.len() && is_large(s[a].spec_id()) && is_large(s[b].spec_id())
        implies #[trigger] after[a].spec_id() != #[trigger] after[b].spec_id() by {
        lemma_wsum_take(s, w, a);
        lemma_wsum_take(s, w, b);
        lemma_wsum_take(s.take(b), w, a);
        assert(s.take(b).take(a + 1) =~= s.take(a + 1));
        assert(s.take(b).take(a) =~= s.take(a));
        lemma_wrap_small(base + large_count(s.take(a)));
        lemma_wrap_small(base + large_count(s.take(b)));
        s[a].lemma_with_id(wrap(base + large_count(s.take(a))));
        s[b].lemma_with_id(wrap(base + large_count(s.take(b))));
    }
}

/// Gives the items with a large identifier fresh identifiers from the counter
/// `next`, in order, and advances it past them.
fn renew_ids<T: Renumber>(v: &mut Vec<T>, next: &mut u64, Ghost(base): Ghost<int>) -> (any: bool)
    requires
        base >= 0,
        *old(next) == wrap(base),
    ensures
        renewed_from(old(v)@, final(v)@, base),
        *final(next) == wrap(base + large_count(old(v)@)),
        any == (large_count(old(v)@) > 0),
        base + large_count(old(v)@) <= MAX_SAFE_ID + 1 ==> {
            &&& forall|k: int| 0 <= k < final(v)@.len() ==> #[trigger] final(v)@[k].spec_id() <= MAX_SAFE_ID
            &&& forall|i: int, j: int|
                0 <= i < j < old(v)@.len() && is_large(old(v)@[i].spec_id()) && is_large(
                    old(v)@[j].spec_id(),
                ) ==> #[trigger] final(v)@[i].spec_id() != #[trigger] final(v)@[j].spec_id()
        },
{
    let ghost s0 = v@;
    let ghost w = item_weight::<T>();
    let mut i: usize = 0;
    let mut any = false;
    assert(s0.take(0) =~= Seq::<T>::empty());
    while i < v.len()
        invariant
            i <= v@.len(),
            v@.len() == s0.len(),
            s0 == old(v)@,
            base >= 0,
            w == item_weight::<T>(),
            *next == wrap(base + wsum(s0.take(i as int), w)),
            any == (wsum(s0.take(i as int), w) > 0),
            forall|k: int|
                0 <= k < i ==> #[trigger] v@[k] == (if is_large(s0[k].spec_id()) {
                    s0[k].spec_with_id(wrap(base + large_count(s0.take(k))))
                } else {
                    s0[k]
                }),
            forall|k: int| i <= k < v@.len() ==> #[trigger] v@[k] == s0[k],
        decreases v@.len() - i,
    {
        proof {
            lemma_wsum_take(s0, w, i as int);
        }
        if v[i].id() > MAX_SAFE_ID {
            let mut x = v.remove(i);
            let id = *next;
            x.set_id(id);
            *next = next.wrapping_add(1);
            any = true;
            proof {
                lemma_wrap_step(base + wsum(s0.take(i as int), w));
            }
            v.insert(i, x);
        }
        i += 1;
    }
    proof {
        lemma_wsum_full(s0, w);
        assert(renewed_from(s0, v@, base));
        if base + large_count(s0) <= MAX_SAFE_ID + 1 {
            lemma_renewed_distinct(s0, v@, base);
        }
    }
    any
}

/// How many large identifiers a version carries (its own and its question's).
pub open spec fn version_weight() -> spec_fn(Version) -> nat {
    |v: Version| large(v.id) + large(v.q_id)
}

/// `w` is the version `v` renumbered from `base`: its own identifier takes
/// `base` when large, then its question identifier the next value when large.
pub open spec fn version_renewed_from(v: Version, w: Version, base: int) -> bool {
    w == (Version {
        id: if is_large(v.id) { wrap(base) } else { v.id },
        q_id: if is_large(v.q_id) { wrap(base + large(v.id)) } else { v.q_id },
        ..v
    })
}

/// Each version of `after` is that of `vs` renumbered, counting on from `base`.
pub open spec fn versions_renewed_from(vs: Seq<Version>, after: Seq<Version>, base: int) -> bool {
    &&& after.len() == vs.len()
    &&& forall|k: int|
        0 <= k < vs.len() ==> version_renewed_from(
            vs[k],
            #[trigger] after[k],
            base + wsum(vs.take(k), version_weight()),
        )
}

/// How many large identifiers a question carries, its versions included.
pub open spec fn question_weight() -> spec_fn(Question) -> nat {
    |q: Question| large(q.id) + wsum(q.versions@, version_weight())
}

/// `b` is the question `a` renumbered from `base`: its own identifier first,
/// then those of its versions in order.
pub open spec fn question_renewed_from(a: Question, b: Question, base: int) -> bool {
    &&& b == (Question {
        id: if is_large(a.id) { wrap(base) } else { a.id },
        versions: b.versions,
        ..a
    })
    &&& versions_renewed_from(a.versions@, b.versions@, base + large(a.id))
}

/// Each question of `after` is that of `qs` renumbered, counting on from `base`.
pub open spec fn questions_renewed_from(qs: Seq<Question>, after: Seq<Question>, base: int) -> bool {
    &&& after.len() == qs.len()
    &&& forall|k: int|
        0 <= k < qs.len() ==> question_renewed_from(
            qs[k],
            #[trigger] after[k],
            base + wsum(qs.take(k), question_weight()),
        )
}

/// No identifier of the version is large.
pub open spec fn version_safe(v: Version) -> bool {
    v.id <= MAX_SAFE_ID && v.q_id <= MAX_SAFE_ID
}

/// No identifier of the question or of its versions is large.
pub open spec fn question_safe(q: Question) -> bool {
    q.id <= MAX_SAFE_ID && forall|k: int| 0 <= k < q.versions@.len() ==> version_safe(#[trigger] q.versions@[k])
}

/// Renumbers the large identifiers of the versions `vs` from the counter
/// `next`, which stands at `base`, and advances it past them.
fn renew_version_ids(vs: &mut Vec<Version>, next: &mut u64, Ghost(base): Ghost<int>) -> (any: bool)
    requires
        base >= 0,
        *old(next) == wrap(base),
    ensures
        versions_renewed_from(old(vs)@, final(vs)@, base),
        *final(next) == wrap(base + wsum(old(vs)@, version_weight())),
        any == (wsum(old(vs)@, version_weight()) > 0),
        base + wsum(old(vs)@, version_weight()) <= MAX_SAFE_ID + 1 ==> forall|k: int|
            0 <= k < final(vs)@.len() ==> version_safe(#[trigger] final(vs)@[k]),
{
    let ghost s0 = vs@;
    let ghost w = version_weight();
    let mut i: usize = 0;
    let mut any = false;
    assert(s0.take(0) =~= Seq::<Version>::empty());
    while i < vs.len()
        invariant
            i <= vs@.len(),
            vs@.len() == s0.len(),
            s0 == old(vs)@,
            base >= 0,
            w == version_weight(),
            *next == wrap(base + wsum(s0.take(i as int), w)),
            any == (wsum(s0.take(i as int), w) > 0),
            forall|k: int|
                0 <= k < i ==> version_renewed_from(s0[k], #[trigger] vs@[k], base + wsum(s0.take(k), w)),
            forall|k: int| i <= k < vs@.len() ==> #[trigger] vs@[k] == s0[k],
        decreases vs@.len() - i,
    {
        proof {
            lemma_wsum_take(s0, w, i as int);
        }
        let ghost c = base + wsum(s0.take(i as int), w);
        let large_id = vs[i].id > MAX_SAFE_ID;
        let large_q = vs[i].q_id > MAX_SAFE_ID;
        if large_id || large_q {
            any = true;
            let mut v = vs.remove(i);
            if large_id {
                v.id = *next;
                *next = next.wrapping_add(1);
                proof {
                    lemma_wrap_step(c);
                }
            }
            if large_q {
                v.q_id = *next;
                *next = next.wrapping_add(1);
                proof {
                    lemma_wrap_step(c + large(s0[i as int].id));
                }
            }
            vs.insert(i, v);
        }
        i += 1;
    }
    proof {
        lemma_wsum_full(s0, w);
        if base + wsum(s0, w) <= MAX_SAFE_ID + 1 {
            assert forall|k: int| 0 <= k < vs@.len() implies version_safe(#[trigger] vs@[k]) by {
                lemma_wsum_take(s0, w, k);
                let c = base + wsum(s0.take(k), w);
                if is_large(s0[k].id) {
                    lemma_wrap_small(c);
                }
                if is_large(s0[k].q_id) {
                    lemma_wrap_small(c + large(s0[k].id));
                }
            }
        }
    }
    any
}

/// Renumbers the large identifiers of the questions `qs`, each followed by
/// its versions, from the counter `next`, which stands at `base`, and
/// advances it past them.
fn renew_question_ids(qs: &mut Vec<Question>, next: &mut u64, Ghost(base): Ghost<int>) -> (any: bool)
    requires
        base >= 0,
        *old(next) == wrap(base),
    ensures
        questions_renewed_from(old(qs)@, final(qs)@, base),
        *final(next) == wrap(base + wsum(old(qs)@, question_weight())),
        any == (wsum(old(qs)@, question_weight()) > 0),
        base + wsum(old(qs)@, question_weight()) <= MAX_SAFE_ID + 1 ==> forall|k: int|
            0 <= k < final(qs)@.len() ==> question_safe(#[trigger] final(qs)@[k]),
{
    let ghost s0 = qs@;
    let ghost w = question_weight();
    let mut i: usize = 0;
    let mut any = false;
    assert(s0.take(0) =~= Seq::<Question>::empty());
    while i < qs.len()
        invariant
            i <= qs@.len(),
            qs@.len() == s0.len(),
            s0 == old(qs)@,
            base >= 0,
            w == question_weight(),
            *next == wrap(base + wsum(s0.take(i as int), w)),
            any == (wsum(s0.take(i as int), w) > 0),
            forall|k: int|
                0 <= k < i ==> question_renewed_from(s0[k], #[trigger] qs@[k], base + wsum(s0.take(k), w)),
            forall|k: int|
                0 <= k < i ==> (base + wsum(s0, w) <= MAX_SAFE_ID + 1 ==> question_safe(#[trigger] qs@[k])),
            forall|k: int| i <= k < qs@.len() ==> #[trigger] qs@[k] == s0[k],
        decreases qs@.len() - i,
    {
        proof {
            lemma_wsum_take(s0, w, i as int);
        }
        let ghost c = base + wsum(s0.take(i as int), w);
        let mut q = qs.remove(i);
        let ghost q0 = q;
        assert(q0 == s0[i as int]);
        if q.id > MAX_SAFE_ID {
            q.id = *next;
            *next = next.wrapping_add(1);
            any = true;
            proof {
                lemma_wrap_step(c);
            }
        }
        proof {
            assert(*next == wrap(c + large(q0.id))) by {
                if !is_large(q0.id) {
                    assert(c + large(q0.id) == c);
                }
            }
            if base + wsum(s0, w) <= MAX_SAFE_ID + 1 && is_large(q0.id) {
                lemma_wrap_small(c);
            }
        }
        let any_v = renew_version_ids(&mut q.versions, next, Ghost(c + large(q0.id)));
        any = any || any_v;
        proof {
            assert(c + large(q0.id) + wsum(q0.versions@, version_weight()) == base + wsum(s0.take(i + 1), w));
        }
        qs.insert(i, q);
        proof {
            assert(question_renewed_from(q0, q, c));
        }
        i += 1;
    }
    proof {
        lemma_wsum_full(s0, w);
    }
    any
}

/// How many large identifiers the store holds, in the order they are
/// renumbered: notes, clips, flashcards, questions (each with its versions),
/// then the tasks of each column.
pub open spec fn large_total(d: AppData) -> nat {
    large_count(d.notes@) + large_count(d.clips@) + large_count(d.flashcards@) + wsum(
        d.questions@,
        question_weight(),
    ) + large_count(d.tasks.todo@) + large_count(d.tasks.doing@) + large_count(d.tasks.done@)
}

/// No identifier in the store is large.
pub open spec fn store_safe(d: AppData) -> bool {
    &&& forall|k: int| 0 <= k < d.notes@.len() ==> #[trigger] d.notes@[k].id <= MAX_SAFE_ID
    &&& forall|k: int| 0 <= k < d.clips@.len() ==> #[trigger] d.clips@[k].id <= MAX_SAFE_ID
    &&& forall|k: int| 0 <= k < d.flashcards@.len() ==> #[trigger] d.flashcards@[k].id <= MAX_SAFE_ID
    &&& forall|k: int| 0 <= k < d.questions@.len() ==> question_safe(#[trigger] d.questions@[k])
    &&& forall|k: int| 0 <= k < d.tasks.todo@.len() ==> #[trigger] d.tasks.todo@[k].id <= MAX_SAFE_ID
    &&& forall|k: int| 0 <= k < d.tasks.doing@.len() ==> #[trigger] d.tasks.doing@[k].id <= MAX_SAFE_ID
    &&& forall|k: int| 0 <= k < d.tasks.done@.len() ==> #[trigger] d.tasks.done@[k].id <= MAX_SAFE_ID
}

/// Replaces every identifier beyond `MAX_SAFE_ID` (which the web side cannot
/// hold exactly) by a fresh one counted up from `now`, a clock reading in
/// microseconds: the large identifiers of notes, clips, flashcards, questions
/// and their versions (and the question identifiers the versions carry), and
/// tasks, in that order, take `now`, `now + 1`, ... (wrapping at 2^64).
/// Everything else stays. Tells whether any was replaced, so that the store is
/// written back. Each renewed record gets an identifier of its own; when the
/// new identifiers stay within the limit, no identifier is beyond it
/// afterwards (and `lemma_renewed_distinct` shows that no two renewed records
/// of a list then share one).
pub fn migrate_large_ids(data: &mut AppData, now: u64) -> (changed: bool)
    ensures
        ({
            let o = *old(data);
            let b1 = now + large_count(o.notes@);
            let b2 = b1 + large_count(o.clips@);
            let b3 = b2 + large_count(o.flashcards@);
            let b4 = b3 + wsum(o.questions@, question_weight());
            let b5 = b4 + large_count(o.tasks.todo@);
            let b6 = b5 + large_count(o.tasks.doing@);
            &&& renewed_from(o.notes@, final(data).notes@, now as int)
            &&& renewed_from(o.clips@, final(data).clips@, b1)
            &&& renewed_from(o.flashcards@, final(data).flashcards@, b2)
            &&& questions_renewed_from(o.questions@, final(data).questions@, b3)
            &&& renewed_from(o.tasks.todo@, final(data).tasks.todo@, b4)
            &&& renewed_from(o.tasks.doing@, final(data).tasks.doing@, b5)
            &&& renewed_from(o.tasks.done@, final(data).tasks.done@, b6)
        }),
        *final(data) == (AppData {
            notes: final(data).notes,
            clips: final(data).clips,
            flashcards: final(data).flashcards,
            questions: final(data).questions,
            tasks: final(data).tasks,
            ..*old(data)
        }),
        changed == (large_total(*old(data)) > 0),
        now + large_total(*old(data)) <= MAX_SAFE_ID + 1 ==> store_safe(*final(data)),
{
    let ghost o = *data;
    let ghost b1 = now + large_count(o.notes@);
    let ghost b2 = b1 + large_count(o.clips@);
    let ghost b3 = b2 + large_count(o.flashcards@);
    let ghost b4 = b3 + wsum(o.questions@, question_weight());
    let ghost b5 = b4 + large_count(o.tasks.todo@);
    let ghost b6 = b5 + large_count(o.tasks.doing@);
    let mut next = now;
    proof {
        lemma_wrap_small(now as int);
    }
    let c1 = renew_ids(&mut data.notes, &mut next, Ghost(now as int));
    let c2 = renew_ids(&mut data.clips, &mut next, Ghost(b1));
    let c3 = renew_ids(&mut data.flashcards, &mut next, Ghost(b2));
    let c4 = renew_question_ids(&mut data.questions, &mut next, Ghost(b3));
    let c5 = renew_ids(&mut data.tasks.todo, &mut next, Ghost(b4));
    let c6 = renew_ids(&mut data.tasks.doing, &mut next, Ghost(b5));
    let c7 = renew_ids(&mut data.tasks.done, &mut next, Ghost(b6));
    proof {
        if now + large_total(o) <= MAX_SAFE_ID + 1 {
            let d = *data;
            assert forall|k: int| 0 <= k < d.notes@.len() implies #[trigger] d.notes@[k].id <= MAX_SAFE_ID by {
                assert(d.notes@[k].spec_id() <= MAX_SAFE_ID);
            }
            assert forall|k: int| 0 <= k < d.clips@.len() implies #[trigger] d.clips@[k].id <= MAX_SAFE_ID by {
                assert(d.clips@[k].spec_id() <= MAX_SAFE_ID);
            }
            assert forall|k: int| 0 <= k < d.flashcards@.len() implies #[trigger] d.flashcards@[k].id <= MAX_SAFE_ID by {
                assert(d.flashcards@[k].spec_id() <= MAX_SAFE_ID);
            }
            assert forall|k: int| 0 <= k < d.tasks.todo@.len() implies #[trigger] d.tasks.todo@[k].id <= MAX_SAFE_ID by {
                assert(d.tasks.todo@[k].spec_id() <= MAX_SAFE_ID);
            }
            assert forall|k: int| 0 <= k < d.tasks.doing@.len() implies #[trigger] d.tasks.doing@[k].id <= MAX_SAFE_ID by {
                assert(d.tasks.doing@[k].spec_id() <= MAX_SAFE_ID);
            }
            assert forall|k: int| 0 <= k < d.tasks.done@.len() implies #[trigger] d.tasks.done@[k].id <= MAX_SAFE_ID by {
                assert(d.tasks.done@[k].spec_id() <= MAX_SAFE_ID);
            }
            assert(store_safe(d));
        }
    }
    c1 || c2 || c3 || c4 || c5 || c6 || c7
}

/// Whether the store that names `data_dir` must be read again from there: it
/// names a directory, other than the one recorded at start-up (`boot_dir`).
pub fn needs_configured_reload(boot_dir: &str, data_dir: &str) -> (r: bool)
    ensures
        r == (data_dir@ != boot_dir@ && data_dir@.len() > 0),
{
    !data_dir.is_empty() && !crate::crypto::str_eq(data_dir, boot_dir)
}

} // verus!
