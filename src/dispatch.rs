use vstd::prelude::*;

verus! {

/// The entries of `s` whose flag in `keep` is set, in their order.
pub open spec fn kept<A>(s: Seq<A>, keep: Seq<bool>) -> Seq<A>
    decreases s.len(),
{
    if s.len() == 0 {
        Seq::empty()
    } else {
        let init = kept(s.drop_last(), keep);
        if keep[s.len() - 1] {
            init.push(s.last())
        } else {
            init
        }
    }
}

proof fn lemma_kept_step<A>(s: Seq<A>, keep: Seq<bool>, k: int)
    requires
        0 <= k < s.len(),
    ensures
        kept(s.take(k + 1), keep) == if keep[k] {
            kept(s.take(k), keep).push(s[k])
        } else {
            kept(s.take(k), keep)
        },
{
    assert(s.take(k + 1).drop_last() =~= s.take(k));
}

proof fn lemma_remove_no_duplicates<A>(s: Seq<A>, i: int)
    requires
        s.no_duplicates(),
        0 <= i < s.len(),
    ensures
        s.remove(i).no_duplicates(),
{
    let r = s.remove(i);
    assert forall|a: int, b: int| 0 <= a < r.len() && 0 <= b < r.len() && a != b implies r[a]
        != r[b] by {
        let a2 = if a < i { a } else { a + 1 };
        let b2 = if b < i { b } else { b + 1 };
        assert(r[a] == s[a2] && r[b] == s[b2]);
    }
}

/// The live workers, at most one per source identifier, in the order in
/// which they were installed. It owns the worker handles.
pub struct DispatchTable<W> {
    ids: Vec<String>,
    workers: Vec<W>,
}

impl<W> View for DispatchTable<W> {
    type V = Seq<Seq<char>>;

    /// The source identifiers of the entries.
    closed spec fn view(&self) -> Seq<Seq<char>> {
        self.ids@.map_values(|s: String| s@)
    }
}

impl<W> DispatchTable<W> {
    /// The worker handles of the entries, aligned with the identifiers.
    pub closed spec fn workers(&self) -> Seq<W> {
        self.workers@
    }

    /// Each entry has one worker, and no source has two entries.
    pub closed spec fn wf(&self) -> bool {
        &&& self.ids@.len() == self.workers@.len()
        &&& self@.no_duplicates()
    }

    /// A well-formed table has one worker per entry and at most one entry
    /// for each source.
    pub proof fn lemma_one_entry_per_source(&self)
        requires
            self.wf(),
        ensures
            self@.len() == self.workers().len(),
            self@.no_duplicates(),
    {
    }

    pub fn new() -> (r: Self)
        ensures
            r.wf(),
            r@ == Seq::<Seq<char>>::empty(),
            r.workers() == Seq::<W>::empty(),
    {
        let r = DispatchTable { ids: Vec::new(), workers: Vec::new() };
        assert(r@ =~= Seq::<Seq<char>>::empty());
        r
    }

    /// The number of entries.
    pub fn len(&self) -> (r: usize)
        requires
            self.wf(),
        ensures
            r == self@.len(),
    {
        self.ids.len()
    }

    /// The index of the entry for `id`, if there is one.
    pub fn position(&self, id: &String) -> (r: Option<usize>)
        requires
            self.wf(),
        ensures
            match r {
                None => !self@.contains(id@),
                Some(i) => i < self@.len() && self@[i as int] == id@,
            },
    {
        let mut k: usize = 0;
        while k < self.ids.len()
            invariant
                k <= self.ids@.len(),
                self@ == self.ids@.map_values(|s: String| s@),
                forall|j: int| 0 <= j < k ==> self@[j] != id@,
            decreases self.ids@.len() - k,
        {
            if self.ids[k] == *id {
                return Some(k);
            }
            k = k + 1;
        }
        None
    }

    /// The worker of entry `i`.
    pub fn worker(&self, i: usize) -> (r: &W)
        requires
            self.wf(),
            i < self@.len(),
        ensures
            *r == self.workers()[i as int],
    {
        &self.workers[i]
    }

    /// Adds an entry for `id` holding `worker`, unless `id` already has one:
    /// then the table is left as it was and `worker` is handed back.
    pub fn install(&mut self, id: String, worker: W) -> (r: Result<usize, W>)
        requires
            old(self).wf(),
        ensures
            final(self).wf(),
            old(self)@.contains(id@) ==> r == Err::<usize, W>(worker) && final(self)@ == old(
                self,
            )@ && final(self).workers() == old(self).workers(),
            !old(self)@.contains(id@) ==> r == Ok::<usize, W>(old(self)@.len() as usize)
                && final(self)@ == old(self)@.push(id@) && final(self).workers() == old(
                self,
            ).workers().push(worker),
    {
        match self.position(&id) {
            Some(_) => Err(worker),
            None => {
                let ghost before = self@;
                let n = self.ids.len();
                self.ids.push(id);
                self.workers.push(worker);
                assert(self@ =~= before.push(id@));
                assert forall|a: int, b: int|
                    0 <= a < self@.len() && 0 <= b < self@.len() && a != b implies self@[a]
                    != self@[b] by {
                    if a == n as int {
                        assert(before[b] == self@[b]);
                    } else if b == n as int {
                        assert(before[a] == self@[a]);
                    }
                }
                Ok(n)
            },
        }
    }

    /// Removes every entry whose flag in `running` is false, keeping the
    /// others in their order; `running[i]` is what the worker of entry `i`
    /// reported when asked whether it still runs.
    pub fn reap(&mut self, running: &Vec<bool>)
        requires
            old(self).wf(),
            running@.len() == old(self)@.len(),
        ensures
            final(self).wf(),
            final(self)@ == kept(old(self)@, running@),
            final(self).workers() == kept(old(self).workers(), running@),
    {
        let ghost ids0 = self@;
        let ghost ws0 = self.workers@;
        let ghost n = ids0.len();
        let mut i: usize = 0;
        let mut k: usize = 0;
        assert(ids0.take(0) =~= Seq::<Seq<char>>::empty());
        assert(ws0.take(0) =~= Seq::<W>::empty());
        assert(self@ =~= kept(ids0.take(0), running@) + ids0.skip(0));
        assert(self.workers@ =~= kept(ws0.take(0), running@) + ws0.skip(0));
        while k < running.len()
            invariant
                running@.len() == n,
                ids0.len() == n,
                ws0.len() == n,
                k <= n,
                self.ids@.len() == self.workers@.len(),
                self@.no_duplicates(),
                self@ == kept(ids0.take(k as int), running@) + ids0.skip(k as int),
                self.workers@ == kept(ws0.take(k as int), running@) + ws0.skip(k as int),
                i == kept(ids0.take(k as int), running@).len(),
                i == kept(ws0.take(k as int), running@).len(),
            decreases n - k,
        {
            let ghost ids_k = self@;
            assert(self@.len() == self.ids@.len());
            let len = self.ids.len();
            assert(i < len);
            proof {
                lemma_kept_step(ids0, running@, k as int);
                lemma_kept_step(ws0, running@, k as int);
            }
            if running[k] {
                assert(kept(ids0.take(k + 1), running@) + ids0.skip(k + 1) =~= kept(
                    ids0.take(k as int),
                    running@,
                ) + ids0.skip(k as int));
                assert(kept(ws0.take(k + 1), running@) + ws0.skip(k + 1) =~= kept(
                    ws0.take(k as int),
                    running@,
                ) + ws0.skip(k as int));
                i = i + 1;
            } else {
                self.ids.remove(i);
                self.workers.remove(i);
                proof {
                    lemma_remove_no_duplicates(ids_k, i as int);
                }
                assert(self@ =~= ids_k.remove(i as int));
                assert(self@ =~= kept(ids0.take(k + 1), running@) + ids0.skip(k + 1));
                assert(self.workers@ =~= kept(ws0.take(k + 1), running@) + ws0.skip(k + 1));
            }
            k = k + 1;
        }
        assert(ids0.take(n as int) =~= ids0);
        assert(ws0.take(n as int) =~= ws0);
        assert(self@ =~= kept(ids0, running@));
        assert(self.workers@ =~= kept(ws0, running@));
    }
}

} // verus!

verus! {

proof fn lemma_kept_members<A>(s: Seq<A>, keep: Seq<bool>)
    requires
        s.len() <= keep.len(),
    ensures
        forall|x: A|
            #[trigger] kept(s, keep).contains(x) <==> exists|j: int|
                0 <= j < s.len() && keep[j] && s[j] == x,
    decreases s.len(),
{
    if s.len() > 0 {
        let init = s.drop_last();
        let last = s.len() - 1;
        let ki = kept(init, keep);
        let ks = kept(s, keep);
        lemma_kept_members(init, keep);
        assert(ks == if keep[last] { ki.push(s[last]) } else { ki });
        assert forall|x: A| #[trigger] ks.contains(x) <==> exists|j: int|
            0 <= j < s.len() && keep[j] && s[j] == x by {
            if ks.contains(x) {
                let i = choose|i: int| 0 <= i < ks.len() && ks[i] == x;
                if i < ki.len() {
                    assert(ki[i] == x);
                    assert(ki.contains(x));
                    let j = choose|j: int| 0 <= j < init.len() && keep[j] && init[j] == x;
                    assert(s[j] == x);
                } else {
                    assert(keep[last] && s[last] == x);
                }
            }
            if exists|j: int| 0 <= j < s.len() && keep[j] && s[j] == x {
                let j = choose|j: int| 0 <= j < s.len() && keep[j] && s[j] == x;
                if j < last {
                    assert(init[j] == x);
                    assert(ki.contains(x));
                    let i = choose|i: int| 0 <= i < ki.len() && ki[i] == x;
                    assert(ks[i] == x);
                } else {
                    assert(ks[ki.len() as int] == x);
                }
            }
        }
    }
}

/// Reaping removes an entry if and only if its worker reported that it no
/// longer runs: an entry whose worker still runs stays, whatever the number
/// of reaps, and no other stays.
pub proof fn lemma_reap_exact(ids: Seq<Seq<char>>, running: Seq<bool>)
    requires
        ids.no_duplicates(),
        running.len() == ids.len(),
    ensures
        forall|k: int|
            0 <= k < ids.len() ==> (kept(ids, running).contains(#[trigger] ids[k]) <==> running[k]),
{
    lemma_kept_members(ids, running);
    assert forall|k: int| 0 <= k < ids.len() implies (kept(ids, running).contains(
        #[trigger] ids[k],
    ) <==> running[k]) by {
        if kept(ids, running).contains(ids[k]) {
            let j = choose|j: int| 0 <= j < ids.len() && running[j] && ids[j] == ids[k];
            assert(j == k);
        }
    }
}

} // verus!
