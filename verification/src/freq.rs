use vstd::prelude::*;

verus! {

/// One next-token candidate under some context, with its accumulated count.
struct CountEntry {
    id: usize,
    count: usize,
}

/// All next-token counts observed after one particular context.
struct ContextEntry {
    context: Vec<usize>,
    counts: Vec<CountEntry>,
}

/// Maps each observed context (a sequence of token ids) to the counts of the
/// tokens that followed it during training.
pub struct FrequencyTable {
    entries: Vec<ContextEntry>,
}

spec fn has_id(cs: Seq<CountEntry>, id: usize) -> bool {
    exists|j: int| 0 <= j < cs.len() && cs[j].id == id
}

spec fn count_index(cs: Seq<CountEntry>, id: usize) -> int {
    choose|j: int| 0 <= j < cs.len() && cs[j].id == id
}

spec fn dist_map(cs: Seq<CountEntry>) -> Map<usize, usize> {
    Map::new(|id: usize| has_id(cs, id), |id: usize| cs[count_index(cs, id)].count)
}

spec fn has_context(entries: Seq<ContextEntry>, c: Seq<usize>) -> bool {
    exists|k: int| 0 <= k < entries.len() && entries[k].context@ == c
}

spec fn entry_index(entries: Seq<ContextEntry>, c: Seq<usize>) -> int {
    choose|k: int| 0 <= k < entries.len() && entries[k].context@ == c
}

spec fn table_view(entries: Seq<ContextEntry>) -> Map<Seq<usize>, Map<usize, usize>> {
    Map::new(
        |c: Seq<usize>| has_context(entries, c),
        |c: Seq<usize>| dist_map(entries[entry_index(entries, c)].counts@),
    )
}

spec fn counts_wf(cs: Seq<CountEntry>) -> bool {
    &&& forall|i: int, j: int| 0 <= i < j < cs.len() ==> cs[i].id != cs[j].id
    &&& forall|i: int| 0 <= i < cs.len() ==> (#[trigger] cs[i]).count >= 1
    &&& cs.len() >= 1
}

spec fn entries_wf(entries: Seq<ContextEntry>) -> bool {
    &&& forall|i: int, j: int|
        0 <= i < j < entries.len() ==> entries[i].context@ != entries[j].context@
    &&& forall|k: int|
        0 <= k < entries.len() ==> (#[trigger] entries[k]).context@.len() >= 1 && counts_wf(
            entries[k].counts@,
        )
}

impl View for FrequencyTable {
    type V = Map<Seq<usize>, Map<usize, usize>>;

    closed spec fn view(&self) -> Map<Seq<usize>, Map<usize, usize>> {
        table_view(self.entries@)
    }
}

/// A count stored in the table; zero stands for "never observed".
pub open spec fn spec_count(m: Map<Seq<usize>, Map<usize, usize>>, c: Seq<usize>, id: usize) -> usize {
    if m.contains_key(c) && m[c].contains_key(id) {
        m[c][id]
    } else {
        0
    }
}

/// A count one observation later; counts stop growing at the machine limit.
pub open spec fn bump(n: usize) -> usize {
    if n == usize::MAX {
        n
    } else {
        (n + 1) as usize
    }
}

/// The table after one observation of `id` following the context `c`: the
/// count of `id` under `c` rises by one, starting from zero when either the
/// context or the candidate is new.
pub open spec fn spec_record(
    m: Map<Seq<usize>, Map<usize, usize>>,
    c: Seq<usize>,
    id: usize,
) -> Map<Seq<usize>, Map<usize, usize>> {
    let dist = if m.contains_key(c) {
        m[c]
    } else {
        Map::<usize, usize>::empty()
    };
    let prev = if dist.contains_key(id) {
        dist[id]
    } else {
        0usize
    };
    m.insert(c, dist.insert(id, bump(prev)))
}

proof fn lemma_entry_lookup(entries: Seq<ContextEntry>, k: int)
    requires
        entries_wf(entries),
        0 <= k < entries.len(),
    ensures
        has_context(entries, entries[k].context@),
        entry_index(entries, entries[k].context@) == k,
{
    let c = entries[k].context@;
    assert(has_context(entries, c));
    let k2 = entry_index(entries, c);
    if k2 != k {
        assert(entries[k2].context@ == c);
        if k2 < k {
            assert(entries[k2].context@ != entries[k].context@);
        } else {
            assert(entries[k].context@ != entries[k2].context@);
        }
    }
}

proof fn lemma_count_lookup(cs: Seq<CountEntry>, j: int)
    requires
        counts_wf(cs),
        0 <= j < cs.len(),
    ensures
        has_id(cs, cs[j].id),
        count_index(cs, cs[j].id) == j,
        dist_map(cs).contains_key(cs[j].id),
        dist_map(cs)[cs[j].id] == cs[j].count,
{
    let id = cs[j].id;
    assert(has_id(cs, id));
    let j2 = count_index(cs, id);
    if j2 != j {
        if j2 < j {
            assert(cs[j2].id != cs[j].id);
        } else {
            assert(cs[j].id != cs[j2].id);
        }
    }
}

/// Compares two id sequences for equality.
fn ids_eq(a: &Vec<usize>, b: &Vec<usize>) -> (r: bool)
    ensures
        r == (a@ == b@),
{
    if a.len() != b.len() {
        proof {
            assert(a@ != b@);
        }
        return false;
    }
    let n = a.len();
    let mut i: usize = 0;
    while i < n
        invariant
            i <= n,
            n == a@.len() == b@.len(),
            forall|m: int| 0 <= m < i ==> a@[m] == b@[m],
        decreases n - i,
    {
        if a[i] != b[i] {
            proof {
                assert(a@[i as int] != b@[i as int]);
            }
            return false;
        }
        i = i + 1;
    }
    proof {
        assert(a@ =~= b@);
    }
    true
}

/// Copies an id sequence.
fn copy_ids(a: &Vec<usize>) -> (r: Vec<usize>)
    ensures
        r@ == a@,
{
    let mut r: Vec<usize> = Vec::new();
    let n = a.len();
    let mut i: usize = 0;
    while i < n
        invariant
            i <= n,
            n == a@.len(),
            r@ == a@.take(i as int),
        decreases n - i,
    {
        r.push(a[i]);
        proof {
            assert(r@ =~= a@.take(i + 1));
        }
        i = i + 1;
    }
    proof {
        assert(a@.take(n as int) =~= a@);
    }
    r
}

impl FrequencyTable {
    pub closed spec fn wf(&self) -> bool {
        entries_wf(self.entries@)
    }

    /// An empty table: nothing has been observed.
    pub fn new() -> (t: FrequencyTable)
        ensures
            t.wf(),
            t@ == Map::<Seq<usize>, Map<usize, usize>>::empty(),
    {
        let t = FrequencyTable { entries: Vec::new() };
        proof {
            assert(t@ =~= Map::<Seq<usize>, Map<usize, usize>>::empty());
        }
        t
    }

    fn find_entry(&self, context: &Vec<usize>) -> (r: Option<usize>)
        ensures
            match r {
                Some(k) => k < self.entries@.len() && self.entries@[k as int].context@
                    == context@,
                None => !has_context(self.entries@, context@),
            },
    {
        let n = self.entries.len();
        let mut i: usize = 0;
        while i < n
            invariant
                i <= n,
                n == self.entries@.len(),
                forall|m: int| 0 <= m < i ==> self.entries@[m].context@ != context@,
            decreases n - i,
        {
            if ids_eq(&self.entries[i].context, context) {
                return Some(i);
            }
            i = i + 1;
        }
        None
    }

    fn find_count(counts: &Vec<CountEntry>, id: usize) -> (r: Option<usize>)
        ensures
            match r {
                Some(j) => j < counts@.len() && counts@[j as int].id == id,
                None => !has_id(counts@, id),
            },
    {
        let n = counts.len();
        let mut i: usize = 0;
        while i < n
            invariant
                i <= n,
                n == counts@.len(),
                forall|m: int| 0 <= m < i ==> counts@[m].id != id,
            decreases n - i,
        {
            if counts[i].id == id {
                return Some(i);
            }
            i = i + 1;
        }
        None
    }

    /// Accumulates one observation: `next` was seen immediately after
    /// `context`. Counts only ever grow; a new pair starts at one.
    pub fn record(&mut self, context: &Vec<usize>, next: usize)
        requires
            old(self).wf(),
            context@.len() >= 1,
        ensures
            final(self).wf(),
            final(self)@ == spec_record(old(self)@, context@, next),
    {
        let found = self.find_entry(context);
        match found {
            None => {
                let mut counts: Vec<CountEntry> = Vec::new();
                counts.push(CountEntry { id: next, count: 1 });
                let ctx = copy_ids(context);
                self.entries.push(ContextEntry { context: ctx, counts });
                proof {
                    assert(self.entries@.take(old(self).entries@.len() as int) =~= old(
                        self,
                    ).entries@);
                    lemma_record_new_context(old(self).entries@, self.entries@, context@, next);
                }
            },
            Some(k) => {
                let j_found = Self::find_count(&self.entries[k].counts, next);
                match j_found {
                    None => {
                        self.entries[k].counts.push(CountEntry { id: next, count: 1 });
                        proof {
                            assert(self.entries@ =~= old(self).entries@.update(
                                k as int,
                                self.entries@[k as int],
                            ));
                            lemma_record_new_id(
                                old(self).entries@,
                                self.entries@,
                                k as int,
                                context@,
                                next,
                            );
                        }
                    },
                    Some(j) => {
                        let c0 = self.entries[k].counts[j].count;
                        if c0 < usize::MAX {
                            self.entries[k].counts[j].count = c0 + 1;
                            proof {
                                assert(self.entries@ =~= old(self).entries@.update(
                                    k as int,
                                    self.entries@[k as int],
                                ));
                                assert(self.entries@[k as int].counts@ =~= old(
                                    self,
                                ).entries@[k as int].counts@.update(
                                    j as int,
                                    self.entries@[k as int].counts@[j as int],
                                ));
                                lemma_record_bump(
                                    old(self).entries@,
                                    self.entries@,
                                    k as int,
                                    j as int,
                                    context@,
                                    next,
                                );
                            }
                        } else {
                            proof {
                                lemma_record_saturated(
                                    self.entries@,
                                    k as int,
                                    j as int,
                                    context@,
                                    next,
                                );
                            }
                        }
                    },
                }
            },
        }
    }
}

proof fn lemma_record_new_context(
    pre: Seq<ContextEntry>,
    post: Seq<ContextEntry>,
    c: Seq<usize>,
    id: usize,
)
    requires
        entries_wf(pre),
        !has_context(pre, c),
        c.len() >= 1,
        post.len() == pre.len() + 1,
        post.take(pre.len() as int) == pre,
        post.last().context@ == c,
        post.last().counts@.len() == 1,
        post.last().counts@[0].id == id,
        post.last().counts@[0].count == 1,
    ensures
        entries_wf(post),
        table_view(post) == spec_record(table_view(pre), c, id),
{
    let n = pre.len() as int;
    assert(forall|m: int| 0 <= m < n ==> post[m] == pre[m]);
    assert(counts_wf(post.last().counts@));
    assert(entries_wf(post));
    let lhs = table_view(post);
    let rhs = spec_record(table_view(pre), c, id);
    assert(!table_view(pre).contains_key(c));
    assert forall|c2: Seq<usize>| lhs.contains_key(c2) <==> rhs.contains_key(c2) by {
        if has_context(post, c2) {
            let k = entry_index(post, c2);
            lemma_entry_lookup(post, k);
            if k < n {
                assert(pre[k].context@ == c2);
                assert(has_context(pre, c2));
            } else {
                assert(c2 == c);
            }
        }
        if c2 != c && has_context(pre, c2) {
            let k = entry_index(pre, c2);
            lemma_entry_lookup(pre, k);
            assert(post[k].context@ == c2);
            assert(has_context(post, c2));
        }
        if c2 == c {
            assert(post[n].context@ == c);
            assert(has_context(post, c2));
        }
    }
    assert forall|c2: Seq<usize>| lhs.contains_key(c2) implies lhs[c2] == rhs[c2] by {
        if c2 == c {
            lemma_entry_lookup(post, n);
            let cs = post[n].counts@;
            let d = dist_map(cs);
            let d2 = Map::<usize, usize>::empty().insert(id, 1usize);
            assert forall|x: usize| d.contains_key(x) <==> d2.contains_key(x) by {
                if has_id(cs, x) {
                    let j = count_index(cs, x);
                    lemma_count_lookup(cs, j);
                    assert(j == 0);
                }
                if x == id {
                    assert(cs[0].id == x);
                    assert(has_id(cs, x));
                }
            }
            assert forall|x: usize| d.contains_key(x) implies d[x] == d2[x] by {
                lemma_count_lookup(cs, 0);
                assert(count_index(cs, x) == 0);
            }
            assert(d =~= d2);
        } else {
            let k = entry_index(post, c2);
            lemma_entry_lookup(post, k);
            assert(k < n);
            lemma_entry_lookup(pre, k);
            assert(lhs[c2] == dist_map(post[k].counts@));
            assert(rhs[c2] == dist_map(pre[k].counts@));
        }
    }
    assert(lhs =~= rhs);
}

proof fn lemma_record_new_id(
    pre: Seq<ContextEntry>,
    post: Seq<ContextEntry>,
    k: int,
    c: Seq<usize>,
    id: usize,
)
    requires
        entries_wf(pre),
        0 <= k < pre.len(),
        pre[k].context@ == c,
        !has_id(pre[k].counts@, id),
        post == pre.update(k, post[k]),
        post[k].context@ == c,
        post[k].counts@ == pre[k].counts@.push(CountEntry { id, count: 1usize }),
    ensures
        entries_wf(post),
        table_view(post) == spec_record(table_view(pre), c, id),
{
    let cs = pre[k].counts@;
    let cs2 = post[k].counts@;
    let m = cs.len() as int;
    assert(forall|i: int| 0 <= i < m ==> cs2[i] == cs[i]);
    assert(counts_wf(cs2)) by {
        assert forall|i: int, j: int| 0 <= i < j < cs2.len() implies cs2[i].id != cs2[j].id by {
            if j == m {
                assert(cs[i].id != id) by {
                    if cs[i].id == id {
                        assert(has_id(cs, id));
                    }
                }
            }
        }
    }
    assert(entries_wf(post));
    lemma_entry_lookup(pre, k);
    lemma_entry_lookup(post, k);
    let lhs = table_view(post);
    let rhs = spec_record(table_view(pre), c, id);
    assert(table_view(pre).contains_key(c));
    assert(table_view(pre)[c] == dist_map(cs));
    assert(!dist_map(cs).contains_key(id));
    assert forall|c2: Seq<usize>| lhs.contains_key(c2) <==> rhs.contains_key(c2) by {
        if has_context(post, c2) {
            let k2 = entry_index(post, c2);
            lemma_entry_lookup(post, k2);
            assert(pre[k2].context@ == c2 || k2 == k);
            assert(has_context(pre, c2));
        }
        if has_context(pre, c2) {
            let k2 = entry_index(pre, c2);
            lemma_entry_lookup(pre, k2);
            assert(post[k2].context@ == c2);
            assert(has_context(post, c2));
        }
    }
    assert forall|c2: Seq<usize>| lhs.contains_key(c2) implies lhs[c2] == rhs[c2] by {
        let k2 = entry_index(post, c2);
        lemma_entry_lookup(post, k2);
        if c2 == c {
            assert(k2 == k) by {
                lemma_entry_lookup(pre, k);
                if k2 != k {
                    assert(pre[k2].context@ == c2);
                    lemma_entry_lookup(pre, k2);
                }
            }
            let d = dist_map(cs2);
            let d2 = dist_map(cs).insert(id, 1usize);
            assert forall|x: usize| d.contains_key(x) <==> d2.contains_key(x) by {
                if has_id(cs2, x) {
                    let j = count_index(cs2, x);
                    lemma_count_lookup(cs2, j);
                    if j < m {
                        assert(cs[j].id == x);
                        assert(has_id(cs, x));
                    } else {
                        assert(x == id);
                    }
                }
                if x == id {
                    assert(cs2[m].id == x);
                    assert(has_id(cs2, x));
                }
                if x != id && has_id(cs, x) {
                    let j = count_index(cs, x);
                    lemma_count_lookup(cs, j);
                    assert(cs2[j].id == x);
                    assert(has_id(cs2, x));
                }
            }
            assert forall|x: usize| d.contains_key(x) implies d[x] == d2[x] by {
                let j = count_index(cs2, x);
                lemma_count_lookup(cs2, j);
                if x == id {
                    lemma_count_lookup(cs2, m);
                    assert(j == m);
                } else {
                    assert(j < m);
                    lemma_count_lookup(cs, j);
                }
            }
            assert(d =~= d2);
        } else {
            assert(k2 != k);
            lemma_entry_lookup(pre, k2);
            assert(lhs[c2] == dist_map(post[k2].counts@));
            assert(rhs[c2] == dist_map(pre[k2].counts@));
        }
    }
    assert(lhs =~= rhs);
}

proof fn lemma_record_bump(
    pre: Seq<ContextEntry>,
    post: Seq<ContextEntry>,
    k: int,
    j: int,
    c: Seq<usize>,
    id: usize,
)
    requires
        entries_wf(pre),
        0 <= k < pre.len(),
        pre[k].context@ == c,
        0 <= j < pre[k].counts@.len(),
        pre[k].counts@[j].id == id,
        pre[k].counts@[j].count < usize::MAX,
        post == pre.update(k, post[k]),
        post[k].context@ == c,
        post[k].counts@ == pre[k].counts@.update(j, post[k].counts@[j]),
        post[k].counts@[j].id == id,
        post[k].counts@[j].count == pre[k].counts@[j].count + 1,
    ensures
        entries_wf(post),
        table_view(post) == spec_record(table_view(pre), c, id),
{
    let cs = pre[k].counts@;
    let cs2 = post[k].counts@;
    assert(forall|i: int| 0 <= i < cs.len() && i != j ==> cs2[i] == cs[i]);
    assert(counts_wf(cs2));
    assert(entries_wf(post));
    lemma_entry_lookup(pre, k);
    lemma_entry_lookup(post, k);
    lemma_count_lookup(cs, j);
    let prev = cs[j].count;
    let lhs = table_view(post);
    let rhs = spec_record(table_view(pre), c, id);
    assert(table_view(pre)[c] == dist_map(cs));
    assert(dist_map(cs)[id] == prev);
    assert forall|c2: Seq<usize>| lhs.contains_key(c2) <==> rhs.contains_key(c2) by {
        if has_context(post, c2) {
            let k2 = entry_index(post, c2);
            lemma_entry_lookup(post, k2);
            assert(pre[k2].context@ == c2 || k2 == k);
            assert(has_context(pre, c2));
        }
        if has_context(pre, c2) {
            let k2 = entry_index(pre, c2);
            lemma_entry_lookup(pre, k2);
            assert(post[k2].context@ == c2);
            assert(has_context(post, c2));
        }
    }
    assert forall|c2: Seq<usize>| lhs.contains_key(c2) implies lhs[c2] == rhs[c2] by {
        let k2 = entry_index(post, c2);
        lemma_entry_lookup(post, k2);
        if c2 == c {
            assert(k2 == k) by {
                if k2 != k {
                    assert(pre[k2].context@ == c2);
                    lemma_entry_lookup(pre, k2);
                }
            }
            let d = dist_map(cs2);
            let d2 = dist_map(cs).insert(id, bump(prev));
            assert forall|x: usize| d.contains_key(x) <==> d2.contains_key(x) by {
                if has_id(cs2, x) {
                    let j2 = count_index(cs2, x);
                    lemma_count_lookup(cs2, j2);
                    assert(cs[j2].id == x || j2 == j);
                    assert(has_id(cs, x));
                }
                if has_id(cs, x) {
                    let j2 = count_index(cs, x);
                    lemma_count_lookup(cs, j2);
                    assert(cs2[j2].id == x);
                    assert(has_id(cs2, x));
                }
            }
            assert forall|x: usize| d.contains_key(x) implies d[x] == d2[x] by {
                let j2 = count_index(cs2, x);
                lemma_count_lookup(cs2, j2);
                if x == id {
                    lemma_count_lookup(cs2, j);
                    assert(j2 == j);
                } else {
                    assert(j2 != j);
                    lemma_count_lookup(cs, j2);
                }
            }
            assert(d =~= d2);
        } else {
            assert(k2 != k);
            lemma_entry_lookup(pre, k2);
            assert(lhs[c2] == dist_map(post[k2].counts@));
            assert(rhs[c2] == dist_map(pre[k2].counts@));
        }
    }
    assert(lhs =~= rhs);
}

/// The sum of all counts in a distribution.
spec fn total_of(cs: Seq<CountEntry>) -> int
    decreases cs.len(),
{
    if cs.len() == 0 {
        0
    } else {
        cs[0].count + total_of(cs.drop_first())
    }
}

proof fn lemma_total_snoc(cs: Seq<CountEntry>, i: int)
    requires
        0 <= i < cs.len(),
    ensures
        total_of(cs.take(i + 1)) == total_of(cs.take(i)) + cs[i].count,
    decreases i,
{
    if i == 0 {
        assert(cs.take(1).drop_first() =~= cs.take(0));
        assert(cs.take(0).len() == 0);
        assert(cs.take(1)[0] == cs[0]);
    } else {
        lemma_total_snoc(cs.drop_first(), i - 1);
        assert(cs.take(i + 1).drop_first() =~= cs.drop_first().take(i));
        assert(cs.take(i).drop_first() =~= cs.drop_first().take(i - 1));
        assert(cs.take(i + 1)[0] == cs[0]);
        assert(cs.take(i)[0] == cs[0]);
        assert(cs.drop_first()[i - 1] == cs[i]);
    }
}

proof fn lemma_total_lower(cs: Seq<CountEntry>)
    requires
        forall|i: int| 0 <= i < cs.len() ==> (#[trigger] cs[i]).count >= 1,
    ensures
        total_of(cs) >= cs.len(),
    decreases cs.len(),
{
    if cs.len() != 0 {
        assert(forall|i: int|
            0 <= i < cs.drop_first().len() ==> (#[trigger] cs.drop_first()[i]) == cs[i + 1]);
        lemma_total_lower(cs.drop_first());
    }
}

/// The candidate that a draw of `r` selects: candidates own disjoint spans of
/// `[0, total)` sized by their counts, and the span holding `r` wins.
spec fn spec_pick(cs: Seq<CountEntry>, r: int) -> usize
    decreases cs.len(),
{
    if cs.len() == 0 {
        0
    } else if r < cs[0].count {
        cs[0].id
    } else {
        spec_pick(cs.drop_first(), r - cs[0].count)
    }
}

proof fn lemma_pick_has(cs: Seq<CountEntry>, r: int)
    requires
        0 <= r < total_of(cs),
    ensures
        has_id(cs, spec_pick(cs, r)),
    decreases cs.len(),
{
    if r < cs[0].count {
        assert(cs[0].id == spec_pick(cs, r));
    } else {
        lemma_pick_has(cs.drop_first(), r - cs[0].count);
        let id = spec_pick(cs.drop_first(), r - cs[0].count);
        let j = choose|j: int| 0 <= j < cs.drop_first().len() && cs.drop_first()[j].id == id;
        assert(cs[j + 1].id == id);
    }
}

fn dist_total(counts: &Vec<CountEntry>) -> (t: u128)
    ensures
        t == total_of(counts@),
{
    let n = counts.len();
    let mut t: u128 = 0;
    let mut i: usize = 0;
    proof {
        assert(counts@.take(0) =~= Seq::<CountEntry>::empty());
    }
    while i < n
        invariant
            i <= n,
            n == counts@.len(),
            t == total_of(counts@.take(i as int)),
            t <= (i as u128) * (usize::MAX as u128),
        decreases n - i,
    {
        let c = counts[i].count;
        proof {
            lemma_total_snoc(counts@, i as int);
            assert(t + c <= ((i + 1) as u128) * (usize::MAX as u128)) by (nonlinear_arith)
                requires
                    t <= (i as u128) * (usize::MAX as u128),
                    c <= usize::MAX,
            ;
            assert(((i + 1) as u128) * (usize::MAX as u128) < u128::MAX) by (nonlinear_arith)
                requires
                    0 <= i,
                    i + 1 <= u64::MAX,
                    usize::MAX as u128 <= u64::MAX as u128,
            ;
        }
        t = t + (c as u128);
        i = i + 1;
    }
    proof {
        assert(counts@.take(n as int) =~= counts@);
    }
    t
}

fn pick_weighted(counts: &Vec<CountEntry>, r: u128) -> (id: usize)
    requires
        r < total_of(counts@),
    ensures
        id == spec_pick(counts@, r as int),
{
    let n = counts.len();
    let mut i: usize = 0;
    let mut rem: u128 = r;
    proof {
        assert(counts@.skip(0) =~= counts@);
    }
    loop
        invariant
            i <= n,
            n == counts@.len(),
            rem < total_of(counts@.skip(i as int)),
            spec_pick(counts@, r as int) == spec_pick(counts@.skip(i as int), rem as int),
        decreases n - i,
    {
        proof {
            if i == n {
                assert(counts@.skip(n as int) =~= Seq::<CountEntry>::empty());
                assert(false);
            }
            assert(counts@.skip(i as int)[0] == counts@[i as int]);
            assert(counts@.skip(i as int).drop_first() =~= counts@.skip(i as int + 1));
        }
        let c = counts[i].count;
        if rem < c as u128 {
            return counts[i].id;
        }
        rem = rem - c as u128;
        i = i + 1;
    }
}

/// The candidate a draw of `r` selects under context `c`; meaningful only
/// when the table holds `c`.
pub closed spec fn sample_val(t: FrequencyTable, c: Seq<usize>, r: u128) -> usize {
    let cs = t.entries@[entry_index(t.entries@, c)].counts@;
    if total_of(cs) >= 1 {
        spec_pick(cs, r as int % total_of(cs))
    } else {
        0
    }
}

impl FrequencyTable {
    /// Whether `context` has any recorded continuation.
    pub fn contains_context(&self, context: &Vec<usize>) -> (b: bool)
        ensures
            b == self@.contains_key(context@),
    {
        match self.find_entry(context) {
            Some(_) => true,
            None => false,
        }
    }

    /// The recorded count of `next` directly after `context`; zero when that
    /// pair was never observed.
    pub fn count_for(&self, context: &Vec<usize>, next: usize) -> (c: usize)
        requires
            self.wf(),
        ensures
            c == spec_count(self@, context@, next),
    {
        match self.find_entry(context) {
            None => 0,
            Some(k) => {
                proof {
                    lemma_entry_lookup(self.entries@, k as int);
                }
                match Self::find_count(&self.entries[k].counts, next) {
                    None => 0,
                    Some(j) => {
                        proof {
                            lemma_count_lookup(self.entries@[k as int].counts@, j as int);
                        }
                        self.entries[k].counts[j].count
                    },
                }
            },
        }
    }

    /// Deterministic frequency-weighted selection: the caller supplies the
    /// draw `r`. `None` exactly when `context` was never observed; otherwise
    /// the selected candidate is one with a recorded (positive) count.
    pub fn sample_with(&self, context: &Vec<usize>, r: u128) -> (o: Option<usize>)
        requires
            self.wf(),
        ensures
            o == (if self@.contains_key(context@) {
                Some(sample_val(*self, context@, r))
            } else {
                None::<usize>
            }),
            o matches Some(id) ==> self@[context@].contains_key(id),
    {
        match self.find_entry(context) {
            None => None,
            Some(k) => {
                proof {
                    lemma_entry_lookup(self.entries@, k as int);
                }
                let total = dist_total(&self.entries[k].counts);
                proof {
                    lemma_total_lower(self.entries@[k as int].counts@);
                }
                let rm = r % total;
                let id = pick_weighted(&self.entries[k].counts, rm);
                proof {
                    lemma_pick_has(self.entries@[k as int].counts@, rm as int);
                }
                Some(id)
            },
        }
    }

    /// Frequency-weighted random draw of a continuation of `context`: each
    /// candidate is selected with weight equal to its recorded count. `None`
    /// exactly when the context was never observed.
    pub fn sample(&self, context: &Vec<usize>) -> (o: Option<usize>)
        requires
            self.wf(),
        ensures
            (o is Some) == self@.contains_key(context@),
            o matches Some(id) ==> self@[context@].contains_key(id),
    {
        match self.find_entry(context) {
            None => None,
            Some(k) => {
                proof {
                    lemma_entry_lookup(self.entries@, k as int);
                }
                let total = dist_total(&self.entries[k].counts);
                proof {
                    lemma_total_lower(self.entries@[k as int].counts@);
                }
                let r = crate::rng::random_below(total);
                let id = pick_weighted(&self.entries[k].counts, r);
                proof {
                    lemma_pick_has(self.entries@[k as int].counts@, r as int);
                }
                Some(id)
            },
        }
    }
}

proof fn lemma_record_saturated(
    entries: Seq<ContextEntry>,
    k: int,
    j: int,
    c: Seq<usize>,
    id: usize,
)
    requires
        entries_wf(entries),
        0 <= k < entries.len(),
        entries[k].context@ == c,
        0 <= j < entries[k].counts@.len(),
        entries[k].counts@[j].id == id,
        entries[k].counts@[j].count == usize::MAX,
    ensures
        table_view(entries) == spec_record(table_view(entries), c, id),
{
    let m = table_view(entries);
    lemma_entry_lookup(entries, k);
    lemma_count_lookup(entries[k].counts@, j);
    assert(m.contains_key(c));
    assert(m[c].contains_key(id));
    assert(m[c][id] == usize::MAX);
    assert(m[c].insert(id, bump(usize::MAX)) =~= m[c]);
    assert(m.insert(c, m[c]) =~= m);
    assert(spec_record(m, c, id) == m.insert(c, m[c].insert(id, bump(usize::MAX))));
}

} // verus!
