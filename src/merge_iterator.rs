//! The k-way merge of sorted streams into one sorted stream in which, for a
//! key held by several sources, only the entry of the lowest-ranked source
//! appears.
use vstd::prelude::*;

use crate::key::{key_equal, key_less, key_lt, lemma_key_lt_irreflexive, lemma_key_lt_total,
    lemma_key_lt_transitive};
use crate::storage_iterator::{strictly_sorted, StorageIterator};

verus! {

/// The number of entries over all sources.
pub open spec fn total(s: Seq<Seq<(Seq<u8>, Seq<u8>)>>) -> nat
    decreases s.len(),
{
    if s.len() == 0 {
        0
    } else {
        total(s.drop_last()) + s.last().len()
    }
}

/// The head of source `i` goes out before the head of source `j`: its key is
/// smaller, or the keys are equal and `i` has the lower rank.
pub open spec fn goes_before(s: Seq<Seq<(Seq<u8>, Seq<u8>)>>, i: int, j: int) -> bool {
    key_lt(s[i][0].0, s[j][0].0) || (s[i][0].0 == s[j][0].0 && i < j)
}

/// Source `i` is not empty and its head goes out before that of every other
/// non-empty source.
pub open spec fn is_first(s: Seq<Seq<(Seq<u8>, Seq<u8>)>>, i: int) -> bool {
    &&& 0 <= i < s.len()
    &&& s[i].len() > 0
    &&& forall|j: int|
        0 <= j < s.len() && j != i && (#[trigger] s[j]).len() > 0 ==> goes_before(s, i, j)
}

/// Every source whose head has key `k` moves past it.
pub open spec fn step(s: Seq<Seq<(Seq<u8>, Seq<u8>)>>, k: Seq<u8>) -> Seq<
    Seq<(Seq<u8>, Seq<u8>)>,
> {
    Seq::new(
        s.len(),
        |i: int|
            if s[i].len() > 0 && s[i][0].0 == k {
                s[i].drop_first()
            } else {
                s[i]
            },
    )
}

/// The merged stream: the head that goes out first, then the merge of what
/// is left once every source holding that key has moved past it.
pub open spec fn merged(s: Seq<Seq<(Seq<u8>, Seq<u8>)>>) -> Seq<(Seq<u8>, Seq<u8>)>
    decreases total(s),
    via merged_decreases
{
    if exists|i: int| is_first(s, i) {
        let i = choose|i: int| is_first(s, i);
        seq![s[i][0]] + merged(step(s, s[i][0].0))
    } else {
        Seq::empty()
    }
}

#[via_fn]
proof fn merged_decreases(s: Seq<Seq<(Seq<u8>, Seq<u8>)>>) {
    if exists|i: int| is_first(s, i) {
        let i = choose|i: int| is_first(s, i);
        lemma_step_shrinks(s, s[i][0].0, i);
    }
}

proof fn lemma_step_no_growth(s: Seq<Seq<(Seq<u8>, Seq<u8>)>>, k: Seq<u8>)
    ensures
        total(step(s, k)) <= total(s),
    decreases s.len(),
{
    if s.len() > 0 {
        assert(step(s, k).drop_last() =~= step(s.drop_last(), k));
        lemma_step_no_growth(s.drop_last(), k);
    }
}

proof fn lemma_step_shrinks(s: Seq<Seq<(Seq<u8>, Seq<u8>)>>, k: Seq<u8>, i: int)
    requires
        0 <= i < s.len(),
        s[i].len() > 0,
        s[i][0].0 == k,
    ensures
        total(step(s, k)) < total(s),
    decreases s.len(),
{
    assert(step(s, k).drop_last() =~= step(s.drop_last(), k));
    if i == s.len() - 1 {
        lemma_step_no_growth(s.drop_last(), k);
    } else {
        lemma_step_shrinks(s.drop_last(), k, i);
    }
}

proof fn lemma_first_unique(s: Seq<Seq<(Seq<u8>, Seq<u8>)>>, i: int, j: int)
    requires
        is_first(s, i),
        is_first(s, j),
    ensures
        i == j,
{
    if i != j {
        lemma_key_lt_total(s[i][0].0, s[j][0].0);
        lemma_key_lt_irreflexive(s[i][0].0);
    }
}

/// The merge starts with the head of the first source, and goes on with the
/// merge of what the step leaves.
pub proof fn lemma_merged_unfold(s: Seq<Seq<(Seq<u8>, Seq<u8>)>>, c: int)
    requires
        is_first(s, c),
    ensures
        merged(s) == seq![s[c][0]] + merged(step(s, s[c][0].0)),
{
    lemma_first_unique(s, c, choose|i: int| is_first(s, i));
}

/// Sources that are all empty merge to nothing.
pub proof fn lemma_merged_empty(s: Seq<Seq<(Seq<u8>, Seq<u8>)>>)
    requires
        forall|i: int| 0 <= i < s.len() ==> (#[trigger] s[i]).len() == 0,
    ensures
        merged(s) == Seq::<(Seq<u8>, Seq<u8>)>::empty(),
{
    assert(!exists|i: int| is_first(s, i));
}

proof fn lemma_sorted_drop_first(s: Seq<(Seq<u8>, Seq<u8>)>)
    requires
        strictly_sorted(s),
        s.len() > 0,
    ensures
        strictly_sorted(s.drop_first()),
{
    assert forall|i: int, j: int| 0 <= i < j < s.len() - 1 implies key_lt(
        #[trigger] s.drop_first()[i].0,
        #[trigger] s.drop_first()[j].0,
    ) by {
        assert(s.drop_first()[i] == s[i + 1]);
        assert(s.drop_first()[j] == s[j + 1]);
    }
}

/// `s1` is `s0` in which some sources whose head has key `k` moved past it
/// and some sources were dropped.
pub open spec fn partly_stepped(
    s0: Seq<Seq<(Seq<u8>, Seq<u8>)>>,
    s1: Seq<Seq<(Seq<u8>, Seq<u8>)>>,
    k: Seq<u8>,
) -> bool {
    &&& s1.len() == s0.len()
    &&& forall|j: int|
        0 <= j < s0.len() ==> {
            ||| #[trigger] s1[j] == s0[j]
            ||| s1[j].len() == 0
            ||| (s0[j].len() > 0 && s0[j][0].0 == k && s1[j] == s0[j].drop_first())
        }
}

proof fn lemma_first_kept(
    s0: Seq<Seq<(Seq<u8>, Seq<u8>)>>,
    s1: Seq<Seq<(Seq<u8>, Seq<u8>)>>,
    c: int,
)
    requires
        is_first(s0, c),
        partly_stepped(s0, s1, s0[c][0].0),
        s1[c] == s0[c],
        forall|j: int| 0 <= j < s0.len() ==> strictly_sorted(#[trigger] s0[j]),
    ensures
        is_first(s1, c),
{
    let k = s0[c][0].0;
    assert forall|j: int| 0 <= j < s1.len() && j != c && (#[trigger] s1[j]).len() > 0 implies goes_before(
        s1,
        c,
        j,
    ) by {
        assert(s0[j].len() > 0);
        if s1[j] != s0[j] {
            assert(s1[j][0] == s0[j][1]);
            assert(key_lt(s0[j][0].0, s0[j][1].0));
        }
    }
}

/// Every entry of every source has a key above `k`.
pub open spec fn all_above(s: Seq<Seq<(Seq<u8>, Seq<u8>)>>, k: Seq<u8>) -> bool {
    forall|j: int, t: int| 0 <= j < s.len() && 0 <= t < s[j].len() ==> key_lt(k, #[trigger] s[j][t].0)
}

proof fn lemma_merged_above(s: Seq<Seq<(Seq<u8>, Seq<u8>)>>, k: Seq<u8>)
    requires
        all_above(s, k),
    ensures
        forall|t: int| 0 <= t < merged(s).len() ==> key_lt(k, #[trigger] merged(s)[t].0),
    decreases total(s),
{
    if exists|i: int| is_first(s, i) {
        let c = choose|i: int| is_first(s, i);
        let kc = s[c][0].0;
        let u = step(s, kc);
        lemma_step_shrinks(s, kc, c);
        assert forall|j: int, t: int| 0 <= j < u.len() && 0 <= t < u[j].len() implies key_lt(
            k,
            #[trigger] u[j][t].0,
        ) by {
            if s[j].len() > 0 && s[j][0].0 == kc {
                assert(u[j][t] == s[j][t + 1]);
            } else {
                assert(u[j][t] == s[j][t]);
            }
        }
        lemma_merged_above(u, k);
        lemma_merged_unfold(s, c);
        assert forall|t: int| 0 <= t < merged(s).len() implies key_lt(k, #[trigger] merged(s)[t].0) by {
            if t > 0 {
                assert(merged(s)[t] == merged(u)[t - 1]);
            }
        }
    }
}

/// Merging sources whose keys are strictly ascending gives a stream whose
/// keys are strictly ascending: it holds no key twice.
pub proof fn lemma_merged_sorted(s: Seq<Seq<(Seq<u8>, Seq<u8>)>>)
    requires
        forall|j: int| 0 <= j < s.len() ==> strictly_sorted(#[trigger] s[j]),
    ensures
        strictly_sorted(merged(s)),
    decreases total(s),
{
    if exists|i: int| is_first(s, i) {
        let c = choose|i: int| is_first(s, i);
        let kc = s[c][0].0;
        let u = step(s, kc);
        lemma_step_shrinks(s, kc, c);
        assert forall|j: int| 0 <= j < u.len() implies strictly_sorted(#[trigger] u[j]) by {
            if s[j].len() > 0 && s[j][0].0 == kc {
                lemma_sorted_drop_first(s[j]);
            }
        }
        assert forall|j: int, t: int| 0 <= j < u.len() && 0 <= t < u[j].len() implies key_lt(
            kc,
            #[trigger] u[j][t].0,
        ) by {
            if s[j].len() > 0 && s[j][0].0 == kc {
                assert(u[j][t] == s[j][t + 1]);
            } else {
                assert(u[j][t] == s[j][t]);
                assert(j != c);
                assert(goes_before(s, c, j));
                if t > 0 {
                    lemma_key_lt_total(kc, s[j][0].0);
                    lemma_key_lt_transitive(kc, s[j][0].0, s[j][t].0);
                }
            }
        }
        lemma_merged_sorted(u);
        lemma_merged_above(u, kc);
        lemma_merged_unfold(s, c);
        let m = merged(s);
        assert forall|a: int, b: int| 0 <= a < b < m.len() implies key_lt(
            #[trigger] m[a].0,
            #[trigger] m[b].0,
        ) by {
            assert(m[b] == merged(u)[b - 1]);
            if a > 0 {
                assert(m[a] == merged(u)[a - 1]);
            }
        }
    }
}

/// Merges several sorted sources. A key held by several of them comes out
/// once, with the entry of the source of lowest rank.
pub struct MergeIterator<I: StorageIterator> {
    /// One slot per source, in rank order; empty once the source is exhausted
    /// or has failed.
    iters: Vec<Option<I>>,
    /// Rank of the source that holds the current entry.
    current: Option<usize>,
    /// What is left of each source.
    sources: Ghost<Seq<Seq<(Seq<u8>, Seq<u8>)>>>,
}

impl<I: StorageIterator> MergeIterator<I> {
    /// What is left of each source, by rank; empty for an exhausted or failed one.
    pub closed spec fn sources(&self) -> Seq<Seq<(Seq<u8>, Seq<u8>)>> {
        self.sources@
    }

    /// Whether a source holds the current entry.
    pub closed spec fn has_current(&self) -> bool {
        self.current.is_some()
    }

    closed spec fn slot_ok(&self, i: int) -> bool {
        match self.iters@[i] {
            Some(it) => {
                &&& it.well_formed()
                &&& it.stream() == self.sources@[i]
                &&& self.sources@[i].len() > 0
            },
            None => self.sources@[i].len() == 0,
        }
    }

    closed spec fn slot_never_fails(&self, i: int) -> bool {
        match self.iters@[i] {
            Some(it) => it.never_fails(),
            None => true,
        }
    }

    /// No source that is left can fail.
    pub closed spec fn all_never_fail(&self) -> bool {
        forall|i: int| 0 <= i < self.iters@.len() ==> #[trigger] self.slot_never_fails(i)
    }

    closed spec fn slots_ok(&self) -> bool {
        &&& self.iters@.len() == self.sources@.len()
        &&& forall|i: int| 0 <= i < self.iters@.len() ==> #[trigger] self.slot_ok(i)
        &&& forall|i: int|
            0 <= i < self.iters@.len() ==> strictly_sorted(#[trigger] self.sources@[i])
    }

    /// The merge's invariant: each slot agrees with its source, every source
    /// is sorted, and the current source is the one whose head goes out first.
    pub closed spec fn inv(&self) -> bool {
        &&& self.slots_ok()
        &&& self.current matches Some(c) ==> is_first(self.sources@, c as int)
    }

    /// The stream of a consistent merge has strictly ascending keys, so a
    /// merge can itself be a source of another merge.
    pub proof fn lemma_stream_sorted(&self)
        requires
            self.inv(),
        ensures
            strictly_sorted(self.stream()),
    {
        if self.has_current() {
            lemma_merged_sorted(self.sources@);
        }
    }

    /// The rank of the source whose head goes out first, if any source is left.
    fn find_first(&self) -> (r: Option<usize>)
        requires
            self.slots_ok(),
        ensures
            r matches Some(c) ==> is_first(self.sources@, c as int),
            r is None ==> forall|i: int|
                0 <= i < self.sources@.len() ==> (#[trigger] self.sources@[i]).len() == 0,
    {
        let ghost s = self.sources@;
        let mut best: Option<usize> = None;
        let mut i: usize = 0;
        while i < self.iters.len()
            invariant
                self.slots_ok(),
                s == self.sources@,
                i <= s.len(),
                best matches Some(b) ==> {
                    &&& b < i
                    &&& s[b as int].len() > 0
                    &&& forall|j: int|
                        0 <= j < i && j != b && (#[trigger] s[j]).len() > 0 ==> goes_before(
                            s,
                            b as int,
                            j,
                        )
                },
                best is None ==> forall|j: int| 0 <= j < i ==> (#[trigger] s[j]).len() == 0,
            decreases self.iters@.len() - i,
        {
            assert(self.slot_ok(i as int));
            match &self.iters[i] {
                Some(it) => {
                    match best {
                        None => {
                            best = Some(i);
                        },
                        Some(b) => {
                            assert(self.slot_ok(b as int));
                            let better = match &self.iters[b] {
                                Some(bt) => key_less(it.key(), bt.key()),
                                None => false,
                            };
                            if better {
                                proof {
                                    assert forall|j: int|
                                        0 <= j < i + 1 && j != i && (#[trigger] s[j]).len()
                                            > 0 implies goes_before(s, i as int, j) by {
                                        if j != b {
                                            if key_lt(s[b as int][0].0, s[j][0].0) {
                                                lemma_key_lt_transitive(
                                                    s[i as int][0].0,
                                                    s[b as int][0].0,
                                                    s[j][0].0,
                                                );
                                            }
                                        }
                                    }
                                }
                                best = Some(i);
                            } else {
                                proof {
                                    lemma_key_lt_total(s[i as int][0].0, s[b as int][0].0);
                                }
                            }
                        },
                    }
                },
                None => {},
            }
            i = i + 1;
        }
        best
    }

    /// Creates a merge of `iters`, where a lower position means a higher
    /// priority. Sources that are already exhausted take no part.
    pub fn create(iters: Vec<Box<I>>) -> (r: Self)
        requires
            forall|i: int|
                0 <= i < iters@.len() ==> (#[trigger] iters@[i]).well_formed() && strictly_sorted(
                    iters@[i].stream(),
                ),
        ensures
            r.inv(),
            r.sources() == Seq::new(iters@.len(), |i: int| iters@[i].stream()),
            r.stream() == merged(r.sources()),
            (forall|i: int| 0 <= i < iters@.len() ==> (#[trigger] iters@[i]).never_fails())
                ==> r.never_fails(),
    {
        let n = iters.len();
        let ghost orig = iters@;
        let ghost srcs = Seq::new(orig.len(), |i: int| orig[i].stream());
        let mut slots: Vec<Option<I>> = Vec::new();
        let mut i: usize = 0;
        while i < n
            invariant
                i <= n,
                slots@.len() == i,
                forall|j: int| 0 <= j < i ==> (#[trigger] slots@[j]) is None,
            decreases n - i,
        {
            slots.push(None);
            i = i + 1;
        }
        let mut iters = iters;
        while iters.len() > 0
            invariant
                n == orig.len(),
                srcs == Seq::new(orig.len(), |i: int| orig[i].stream()),
                iters@.len() <= n,
                iters@ == orig.subrange(0, iters@.len() as int),
                slots@.len() == n,
                forall|j: int| 0 <= j < orig.len() ==> (#[trigger] orig[j]).well_formed(),
                (forall|j: int| 0 <= j < orig.len() ==> (#[trigger] orig[j]).never_fails()) ==> (
                forall|j: int|
                    0 <= j < n ==> match #[trigger] slots@[j] {
                        Some(it) => it.never_fails(),
                        None => true,
                    }),
                forall|j: int| 0 <= j < iters@.len() ==> (#[trigger] slots@[j]) is None,
                forall|j: int|
                    iters@.len() <= j < n ==> match #[trigger] slots@[j] {
                        Some(it) => it.well_formed() && it.stream() == srcs[j] && srcs[j].len()
                            > 0,
                        None => srcs[j].len() == 0,
                    },
            decreases iters@.len(),
        {
            let b = iters.pop().unwrap();
            let k = iters.len();
            let it: I = *b;
            assert(it == *orig[k as int]);
            if it.is_valid() {
                slots.set(k, Some(it));
            }
        }
        let mut r = MergeIterator { iters: slots, current: None, sources: Ghost(srcs) };
        assert(r.slots_ok()) by {
            assert forall|i: int| 0 <= i < r.iters@.len() implies #[trigger] r.slot_ok(i) by {}
        }
        let first = r.find_first();
        r.current = first;
        proof {
            if first is None {
                lemma_merged_empty(srcs);
            }
            if forall|j: int| 0 <= j < orig.len() ==> (#[trigger] orig[j]).never_fails() {
                assert forall|i: int| 0 <= i < r.iters@.len() implies #[trigger] r.slot_never_fails(
                    i,
                ) by {}
            }
        }
        r
    }
}

impl<I: StorageIterator> StorageIterator for MergeIterator<I> {
    open spec fn well_formed(&self) -> bool {
        self.inv()
    }

    open spec fn stream(&self) -> Seq<(Seq<u8>, Seq<u8>)> {
        if self.has_current() {
            merged(self.sources())
        } else {
            Seq::empty()
        }
    }

    open spec fn never_fails(&self) -> bool {
        self.all_never_fail()
    }

    fn key(&self) -> (r: &[u8]) {
        match self.current {
            Some(c) => {
                proof {
                    lemma_merged_unfold(self.sources@, c as int);
                    assert(self.slot_ok(c as int));
                }
                match &self.iters[c] {
                    Some(it) => it.key(),
                    None => &[],
                }
            },
            None => &[],
        }
    }

    fn value(&self) -> (r: &[u8]) {
        match self.current {
            Some(c) => {
                proof {
                    lemma_merged_unfold(self.sources@, c as int);
                    assert(self.slot_ok(c as int));
                }
                match &self.iters[c] {
                    Some(it) => it.value(),
                    None => &[],
                }
            },
            None => &[],
        }
    }

    fn is_valid(&self) -> (r: bool) {
        proof {
            if self.current is Some {
                lemma_merged_unfold(self.sources@, self.current.unwrap() as int);
            }
        }
        self.current.is_some()
    }

    /// Moves every other source whose head has the current key past it, then
    /// the current source, and picks the new first source. A failing source
    /// is dropped and its error returned at once.
    fn next(&mut self) -> (r: Result<(), anyhow::Error>)
        ensures
            !old(self).has_current() ==> {
                &&& r.is_ok()
                &&& final(self).sources() == old(self).sources()
                &&& !final(self).has_current()
            },
            old(self).has_current() && r.is_ok() ==> final(self).sources() == step(
                old(self).sources(),
                old(self).stream()[0].0,
            ),
            old(self).has_current() && r.is_err() ==> {
                &&& partly_stepped(old(self).sources(), final(self).sources(), old(self).stream()[0].0)
                &&& exists|j: int|
                    {
                        &&& 0 <= j < old(self).sources().len()
                        &&& old(self).sources()[j].len() > 0
                        &&& old(self).sources()[j][0].0 == old(self).stream()[0].0
                        &&& (#[trigger] final(self).sources()[j]).len() == 0
                    }
            },
    {
        let c = match self.current {
            Some(c) => c,
            None => {
                return Ok(());
            },
        };
        let ghost s0 = self.sources@;
        let ghost k = s0[c as int][0].0;
        proof {
            lemma_merged_unfold(s0, c as int);
            assert(old(self).stream()[0] == s0[c as int][0]);
        }
        let n = self.iters.len();
        let mut i: usize = 0;
        while i < n
            invariant
                n == self.iters@.len(),
                s0.len() == n,
                c < n,
                i <= n,
                self.current == Some(c),
                self.slots_ok(),
                is_first(s0, c as int),
                k == s0[c as int][0].0,
                forall|j: int| 0 <= j < n ==> strictly_sorted(#[trigger] s0[j]),
                partly_stepped(s0, self.sources@, k),
                old(self).never_fails() ==> self.all_never_fail(),
                old(self).sources@ == s0,
                old(self).current == Some(c),
                old(self).stream()[0].0 == k,
                forall|j: int|
                    0 <= j < i && j != c ==> #[trigger] self.sources@[j] == step(s0, k)[j],
                forall|j: int|
                    (i <= j < n || j == c) && 0 <= j < n ==> #[trigger] self.sources@[j]
                        == s0[j],
            decreases n - i,
        {
            if i != c {
                assert(self.slot_ok(i as int));
                assert(self.slot_ok(c as int));
                let same = match &self.iters[i] {
                    Some(it) => match &self.iters[c] {
                        Some(cur) => key_equal(it.key(), cur.key()),
                        None => false,
                    },
                    None => false,
                };
                if same {
                    let ghost pre = *self;
                    let mut slot: Option<I> = None;
                    self.iters.set_and_swap(i, &mut slot);
                    let mut it = slot.unwrap();
                    let res = it.next();
                    match res {
                        Ok(()) => {
                            proof {
                                lemma_sorted_drop_first(s0[i as int]);
                            }
                            if it.is_valid() {
                                self.iters.set(i, Some(it));
                            }
                            self.sources = Ghost(
                                self.sources@.update(i as int, s0[i as int].drop_first()),
                            );
                            assert(self.slot_ok(i as int));
                            assert forall|j: int| 0 <= j < n implies #[trigger] self.slot_ok(j) by {
                                assert(pre.slot_ok(j));
                            }
                            assert forall|j: int| 0 <= j < n && old(self).never_fails() implies #[trigger] self.slot_never_fails(j) by {
                                assert(pre.slot_never_fails(j));
                            }
                        },
                        Err(e) => {
                            self.sources = Ghost(
                                self.sources@.update(i as int, Seq::empty()),
                            );
                            proof {
                                assert forall|j: int| 0 <= j < n implies #[trigger] self.slot_ok(j) by {
                                    assert(pre.slot_ok(j));
                                }
                                lemma_first_kept(s0, self.sources@, c as int);
                                assert(self.sources()[i as int].len() == 0);
                                assert(s0[i as int][0].0 == k);
                                if old(self).never_fails() {
                                    assert(pre.slot_never_fails(i as int));
                                }
                            }
                            return Err(e);
                        },
                    }
                }
            }
            i = i + 1;
        }
        assert(self.slot_ok(c as int));
        let ghost pre = *self;
        let mut slot: Option<I> = None;
        self.iters.set_and_swap(c, &mut slot);
        let mut cur = slot.unwrap();
        match cur.next() {
            Ok(()) => {
                proof {
                    lemma_sorted_drop_first(s0[c as int]);
                }
                if cur.is_valid() {
                    self.iters.set(c, Some(cur));
                }
                self.sources = Ghost(self.sources@.update(c as int, s0[c as int].drop_first()));
                assert forall|j: int| 0 <= j < n implies #[trigger] self.slot_ok(j) by {
                    assert(pre.slot_ok(j));
                }
                assert forall|j: int| 0 <= j < n && old(self).never_fails() implies #[trigger] self.slot_never_fails(j) by {
                    assert(pre.slot_never_fails(j));
                }
            },
            Err(e) => {
                self.current = None;
                self.sources = Ghost(self.sources@.update(c as int, Seq::empty()));
                assert forall|j: int| 0 <= j < n implies #[trigger] self.slot_ok(j) by {
                    assert(pre.slot_ok(j));
                }
                proof {
                    if old(self).never_fails() {
                        assert(pre.slot_never_fails(c as int));
                    }
                    assert(self.sources()[c as int].len() == 0);
                }
                return Err(e);
            },
        }
        assert(self.sources@ =~= step(s0, k));
        let first = self.find_first();
        let ghost before = *self;
        self.current = first;
        proof {
            if first is None {
                lemma_merged_empty(self.sources@);
            }
            assert forall|j: int| 0 <= j < n implies #[trigger] self.slot_ok(j) by {
                assert(before.slot_ok(j));
            }
            assert forall|j: int| 0 <= j < n && old(self).never_fails() implies #[trigger] self.slot_never_fails(j) by {
                assert(before.slot_never_fails(j));
            }
        }
        Ok(())
    }
}

} // verus!
