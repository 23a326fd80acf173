//! The wrong-answer ledger: per question identity, how many misses are still
//! owed a correct answer, and the question's last text.

use vstd::prelude::*;

verus! {

/// One record of the ledger.
pub struct LedgerEntry {
    pub identity: String,
    pub miss_count: u64,
    pub last_question_text: String,
}

/// The ledger: at most one entry per identity.
pub struct Ledger {
    pub entries: Vec<LedgerEntry>,
}

/// No two entries share an identity.
pub open spec fn ids_distinct(es: Seq<LedgerEntry>) -> bool {
    forall|i: int, j: int|
        0 <= i < es.len() && 0 <= j < es.len() && i != j ==> (#[trigger] es[i]).identity@
            != (#[trigger] es[j]).identity@
}

pub open spec fn has_id(es: Seq<LedgerEntry>, k: Seq<char>) -> bool {
    exists|i: int| 0 <= i < es.len() && (#[trigger] es[i]).identity@ == k
}

/// The entries as a map from identity to (miss count, last question text).
pub open spec fn entries_map(es: Seq<LedgerEntry>) -> Map<Seq<char>, (nat, Seq<char>)> {
    Map::new(
        |k: Seq<char>| has_id(es, k),
        |k: Seq<char>|
            {
                let i = choose|i: int| 0 <= i < es.len() && (#[trigger] es[i]).identity@ == k;
                (es[i].miss_count as nat, es[i].last_question_text@)
            },
    )
}

/// The entries of `m` that are still owed a correct answer.
pub open spec fn owed(m: Map<Seq<char>, (nat, Seq<char>)>) -> Map<Seq<char>, (nat, Seq<char>)> {
    Map::new(|k: Seq<char>| m.contains_key(k) && m[k].0 > 0, |k: Seq<char>| m[k])
}

/// The miss count that `m` records for `id`; none recorded counts as zero.
pub open spec fn count_in(m: Map<Seq<char>, (nat, Seq<char>)>, id: Seq<char>) -> nat {
    if m.contains_key(id) {
        m[id].0
    } else {
        0
    }
}

/// The miss count after one more answer: a correct one takes one off but
/// never goes below zero, a wrong one adds one (saturating at the type's
/// largest value).
pub open spec fn next_count(c: nat, correct: bool) -> nat {
    if correct {
        if c > 0 {
            (c - 1) as nat
        } else {
            0
        }
    } else if c < u64::MAX {
        c + 1
    } else {
        c
    }
}

pub proof fn lemma_entries_map_index(es: Seq<LedgerEntry>, i: int)
    requires
        ids_distinct(es),
        0 <= i < es.len(),
    ensures
        entries_map(es).contains_key(es[i].identity@),
        entries_map(es)[es[i].identity@] == (es[i].miss_count as nat, es[i].last_question_text@),
{
    let k = es[i].identity@;
    assert(has_id(es, k));
    let j = choose|j: int| 0 <= j < es.len() && (#[trigger] es[j]).identity@ == k;
    assert(j == i);
}

proof fn lemma_map_update(es: Seq<LedgerEntry>, i: int, e: LedgerEntry)
    requires
        ids_distinct(es),
        0 <= i < es.len(),
        e.identity@ == es[i].identity@,
    ensures
        ids_distinct(es.update(i, e)),
        entries_map(es.update(i, e)) == entries_map(es).insert(
            e.identity@,
            (e.miss_count as nat, e.last_question_text@),
        ),
{
    let ns = es.update(i, e);
    let k = e.identity@;
    let v = (e.miss_count as nat, e.last_question_text@);
    assert forall|a: int, b: int|
        0 <= a < ns.len() && 0 <= b < ns.len() && a != b implies (#[trigger] ns[a]).identity@
        != (#[trigger] ns[b]).identity@ by {
        assert(es[a].identity@ != es[b].identity@);
    }
    let m = entries_map(es).insert(k, v);
    assert forall|q: Seq<char>| #[trigger] entries_map(ns).contains_key(q) == m.contains_key(q) by {
        if has_id(ns, q) {
            let j = choose|j: int| 0 <= j < ns.len() && (#[trigger] ns[j]).identity@ == q;
            assert(es[j].identity@ == q);
            assert(has_id(es, q));
        }
        if has_id(es, q) {
            let j = choose|j: int| 0 <= j < es.len() && (#[trigger] es[j]).identity@ == q;
            assert(ns[j].identity@ == q);
        }
    }
    assert forall|q: Seq<char>| entries_map(ns).contains_key(q) implies #[trigger] entries_map(
        ns,
    )[q] == m[q] by {
        let j = choose|j: int| 0 <= j < ns.len() && (#[trigger] ns[j]).identity@ == q;
        lemma_entries_map_index(ns, j);
        if j != i {
            assert(es[j] == ns[j]);
            lemma_entries_map_index(es, j);
        }
    }
    assert(entries_map(ns) =~= m);
}

proof fn lemma_map_push(es: Seq<LedgerEntry>, e: LedgerEntry)
    requires
        ids_distinct(es),
        !entries_map(es).contains_key(e.identity@),
    ensures
        ids_distinct(es.push(e)),
        entries_map(es.push(e)) == entries_map(es).insert(
            e.identity@,
            (e.miss_count as nat, e.last_question_text@),
        ),
{
    let ns = es.push(e);
    let k = e.identity@;
    let v = (e.miss_count as nat, e.last_question_text@);
    assert forall|a: int, b: int|
        0 <= a < ns.len() && 0 <= b < ns.len() && a != b implies (#[trigger] ns[a]).identity@
        != (#[trigger] ns[b]).identity@ by {
        if a < es.len() && b < es.len() {
            assert(es[a].identity@ != es[b].identity@);
        } else if a < es.len() {
            assert(es[a] == ns[a]);
            assert(has_id(es, ns[a].identity@));
        } else {
            assert(es[b] == ns[b]);
            assert(has_id(es, ns[b].identity@));
        }
    }
    let m = entries_map(es).insert(k, v);
    assert forall|q: Seq<char>| #[trigger] entries_map(ns).contains_key(q) == m.contains_key(q) by {
        if has_id(ns, q) {
            let j = choose|j: int| 0 <= j < ns.len() && (#[trigger] ns[j]).identity@ == q;
            if j < es.len() {
                assert(es[j] == ns[j]);
                assert(has_id(es, q));
            }
        }
        if has_id(es, q) {
            let j = choose|j: int| 0 <= j < es.len() && (#[trigger] es[j]).identity@ == q;
            assert(ns[j] == es[j]);
        }
        if q == k {
            assert(ns[es.len() as int].identity@ == k);
        }
    }
    assert forall|q: Seq<char>| entries_map(ns).contains_key(q) implies #[trigger] entries_map(
        ns,
    )[q] == m[q] by {
        let j = choose|j: int| 0 <= j < ns.len() && (#[trigger] ns[j]).identity@ == q;
        lemma_entries_map_index(ns, j);
        if j < es.len() {
            assert(es[j] == ns[j]);
            lemma_entries_map_index(es, j);
        }
    }
    assert(entries_map(ns) =~= m);
}

/// The first entry, and the map of the others.
pub proof fn lemma_entries_map_first(es: Seq<LedgerEntry>)
    requires
        ids_distinct(es),
        es.len() > 0,
    ensures
        ids_distinct(es.drop_first()),
        !entries_map(es.drop_first()).contains_key(es[0].identity@),
        entries_map(es) == entries_map(es.drop_first()).insert(
            es[0].identity@,
            (es[0].miss_count as nat, es[0].last_question_text@),
        ),
{
    let rest = es.drop_first();
    let k0 = es[0].identity@;
    let v0 = (es[0].miss_count as nat, es[0].last_question_text@);
    assert forall|a: int, b: int|
        0 <= a < rest.len() && 0 <= b < rest.len() && a != b implies (#[trigger] rest[a]).identity@
        != (#[trigger] rest[b]).identity@ by {
        assert(es[a + 1].identity@ != es[b + 1].identity@);
    }
    if has_id(rest, k0) {
        let j = choose|j: int| 0 <= j < rest.len() && (#[trigger] rest[j]).identity@ == k0;
        assert(es[j + 1].identity@ != es[0].identity@);
    }
    let m = entries_map(rest).insert(k0, v0);
    assert forall|q: Seq<char>| #[trigger] entries_map(es).contains_key(q) == m.contains_key(q) by {
        if has_id(es, q) && q != k0 {
            let j = choose|j: int| 0 <= j < es.len() && (#[trigger] es[j]).identity@ == q;
            assert(rest[j - 1] == es[j]);
            assert(has_id(rest, q));
        }
        if has_id(rest, q) {
            let j = choose|j: int| 0 <= j < rest.len() && (#[trigger] rest[j]).identity@ == q;
            assert(es[j + 1] == rest[j]);
        }
        if q == k0 {
            assert(es[0].identity@ == k0);
        }
    }
    assert forall|q: Seq<char>| entries_map(es).contains_key(q) implies #[trigger] entries_map(
        es,
    )[q] == m[q] by {
        let j = choose|j: int| 0 <= j < es.len() && (#[trigger] es[j]).identity@ == q;
        lemma_entries_map_index(es, j);
        if j > 0 {
            assert(rest[j - 1] == es[j]);
            lemma_entries_map_index(rest, j - 1);
        }
    }
    assert(entries_map(es) =~= m);
}

/// The miss count after `k` answers in a row to one question, all correct
/// or all wrong, starting from `c`.
pub open spec fn after_answers(c: nat, correct: bool, k: nat) -> nat
    decreases k,
{
    if k == 0 {
        c
    } else {
        next_count(after_answers(c, correct, (k - 1) as nat), correct)
    }
}

/// Repeated correct answers take off one miss each and never go below
/// zero; repeated wrong answers add one each, without bound within the
/// count's range.
pub proof fn lemma_repeated_answers(c: nat, k: nat)
    ensures
        after_answers(c, true, k) == (if c >= k {
            (c - k) as nat
        } else {
            0
        }),
        c + k <= u64::MAX ==> after_answers(c, false, k) == c + k,
    decreases k,
{
    if k > 0 {
        lemma_repeated_answers(c, (k - 1) as nat);
    }
}

impl View for Ledger {
    type V = Map<Seq<char>, (nat, Seq<char>)>;

    open spec fn view(&self) -> Map<Seq<char>, (nat, Seq<char>)> {
        entries_map(self.entries@)
    }
}

impl Ledger {
    pub open spec fn wf(&self) -> bool {
        ids_distinct(self.entries@)
    }

    /// An empty ledger.
    pub fn new() -> (r: Ledger)
        ensures
            r.wf(),
            r@ == Map::<Seq<char>, (nat, Seq<char>)>::empty(),
    {
        let r = Ledger { entries: Vec::new() };
        assert(r@ =~= Map::<Seq<char>, (nat, Seq<char>)>::empty());
        r
    }

    /// The position of the entry for `id`, if there is one.
    fn find(&self, id: &String) -> (r: Option<usize>)
        requires
            self.wf(),
        ensures
            match r {
                Some(i) => i < self.entries@.len() && self.entries@[i as int].identity@ == id@,
                None => !self@.contains_key(id@),
            },
    {
        let mut i: usize = 0;
        while i < self.entries.len()
            invariant
                i <= self.entries@.len(),
                forall|j: int| 0 <= j < i ==> (#[trigger] self.entries@[j]).identity@ != id@,
            decreases self.entries@.len() - i,
        {
            if self.entries[i].identity == *id {
                return Some(i);
            }
            i = i + 1;
        }
        None
    }

    /// The entry recorded for `id`, if any.
    pub fn entry(&self, id: &String) -> (r: Option<&LedgerEntry>)
        requires
            self.wf(),
        ensures
            match r {
                Some(e) => self@.contains_key(id@) && e.identity@ == id@ && self@[id@] == (
                    e.miss_count as nat,
                    e.last_question_text@,
                ),
                None => !self@.contains_key(id@),
            },
    {
        match self.find(id) {
            Some(i) => {
                proof {
                    lemma_entries_map_index(self.entries@, i as int);
                }
                Some(&self.entries[i])
            },
            None => None,
        }
    }

    /// The outstanding miss count of `id`; zero where the ledger has no entry.
    pub fn miss_count(&self, id: &String) -> (r: u64)
        requires
            self.wf(),
        ensures
            r as nat == count_in(self@, id@),
    {
        match self.entry(id) {
            Some(e) => e.miss_count,
            None => 0,
        }
    }

    /// Sets the entry for `id`, replacing any entry it had.
    pub fn insert(&mut self, id: String, miss_count: u64, text: String)
        requires
            old(self).wf(),
        ensures
            final(self).wf(),
            final(self)@ == old(self)@.insert(id@, (miss_count as nat, text@)),
    {
        let ghost old_es = self.entries@;
        match self.find(&id) {
            Some(i) => {
                let e = LedgerEntry { identity: id, miss_count, last_question_text: text };
                proof {
                    lemma_map_update(old_es, i as int, e);
                }
                self.entries.set(i, e);
            },
            None => {
                let e = LedgerEntry { identity: id, miss_count, last_question_text: text };
                proof {
                    lemma_map_push(old_es, e);
                }
                self.entries.push(e);
            },
        }
    }

    /// Records one answer to the question `identity`: a correct answer takes
    /// one miss off (never below zero), a wrong one adds one; either way the
    /// entry exists afterwards and holds `question_text`.
    pub fn record_result(&mut self, identity: String, question_text: String, correct: bool)
        requires
            old(self).wf(),
        ensures
            final(self).wf(),
            final(self)@ == old(self)@.insert(
                identity@,
                (next_count(count_in(old(self)@, identity@), correct), question_text@),
            ),
    {
        let c = self.miss_count(&identity);
        let n = if correct {
            if c > 0 {
                c - 1
            } else {
                0
            }
        } else if c < u64::MAX {
            c + 1
        } else {
            c
        };
        self.insert(identity, n, question_text);
    }
}

} // verus!
