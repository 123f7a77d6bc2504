//! The advisories that Packagist returns, and the planning of the requests.
use crate::text::{
    lemma_increasing_same_set_equal, lemma_lex_total, lemma_lex_transitive, lex_lt, str_before,
    str_eq,
};
use vstd::prelude::*;

verus! {

/// A source of an advisory, as Packagist reports it.
#[derive(Debug)]
pub struct WireSource {
    pub name: String,
    pub remote_id: String,
}

/// An advisory, as Packagist reports it.
#[derive(Debug)]
pub struct WireAdvisory {
    pub advisory_id: String,
    pub package_name: String,
    pub title: String,
    pub link: Option<String>,
    pub cve: Option<String>,
    pub affected_versions: String,
    pub sources: Option<Vec<WireSource>>,
    pub severity: Option<String>,
}

/// The advisories of one package.
#[derive(Debug)]
pub struct PackageAdvisories {
    pub name: String,
    pub advisories: Vec<WireAdvisory>,
}

/// The advisories that Packagist returned, by package name. A name that is
/// present with no advisories is known to be clean; a name that is absent
/// has no advisory data.
#[derive(Debug)]
pub struct AdvisoryResponse {
    entries: Vec<PackageAdvisories>,
}

/// The map from package name to advisories that a list of entries holds;
/// where a name occurs twice, the first entry stands.
pub open spec fn entries_map(s: Seq<PackageAdvisories>) -> Map<Seq<char>, Seq<WireAdvisory>> {
    Map::new(
        |k: Seq<char>| exists|i: int| 0 <= i < s.len() && #[trigger] s[i].name@ == k,
        |k: Seq<char>| s[first_entry(s, k)].advisories@,
    )
}

/// The index of the first entry named `k`.
pub open spec fn first_entry(s: Seq<PackageAdvisories>, k: Seq<char>) -> int {
    choose|i: int|
        0 <= i < s.len() && s[i].name@ == k && forall|j: int| 0 <= j < i ==> #[trigger] s[j].name@ != k
}

/// No two entries share a name.
pub open spec fn names_distinct(s: Seq<PackageAdvisories>) -> bool {
    forall|i: int, j: int| 0 <= i < j < s.len() ==> #[trigger] s[i].name@ != #[trigger] s[j].name@
}

proof fn lemma_entry_lookup(s: Seq<PackageAdvisories>, i: int)
    requires
        names_distinct(s),
        0 <= i < s.len(),
    ensures
        entries_map(s).contains_key(s[i].name@),
        entries_map(s)[s[i].name@] == s[i].advisories@,
{
    let k = s[i].name@;
    assert(0 <= i < s.len() && s[i].name@ == k && forall|j: int| 0 <= j < i ==> #[trigger] s[j].name@ != k);
    let f = first_entry(s, k);
    if f != i {
        assert(s[f].name@ == k);
    }
}

impl View for AdvisoryResponse {
    type V = Map<Seq<char>, Seq<WireAdvisory>>;

    closed spec fn view(&self) -> Map<Seq<char>, Seq<WireAdvisory>> {
        entries_map(self.entries@)
    }
}

impl AdvisoryResponse {
    /// The response holds each package name once.
    pub closed spec fn wf(&self) -> bool {
        names_distinct(self.entries@)
    }

    /// A response with no package.
    pub fn new() -> (r: AdvisoryResponse)
        ensures
            r.wf(),
            r@ == Map::<Seq<char>, Seq<WireAdvisory>>::empty(),
    {
        let r = AdvisoryResponse { entries: Vec::new() };
        assert(r@ =~= Map::<Seq<char>, Seq<WireAdvisory>>::empty());
        r
    }

    fn find(&self, name: &str) -> (r: Option<usize>)
        requires
            self.wf(),
        ensures
            r is None <==> !self@.contains_key(name@),
            r matches Some(i) ==> i < self.entries@.len() && self.entries@[i as int].name@ == name@,
    {
        let mut i: usize = 0;
        while i < self.entries.len()
            invariant
                i <= self.entries@.len(),
                forall|j: int| 0 <= j < i ==> #[trigger] self.entries@[j].name@ != name@,
            decreases self.entries.len() - i,
        {
            if crate::text::str_eq(self.entries[i].name.as_str(), name) {
                return Some(i);
            }
            i = i + 1;
        }
        None
    }

    /// The advisories for `name`, if the response holds the name.
    pub fn get(&self, name: &str) -> (r: Option<&Vec<WireAdvisory>>)
        requires
            self.wf(),
        ensures
            r is Some <==> self@.contains_key(name@),
            r matches Some(v) ==> v@ == self@[name@],
    {
        match self.find(name) {
            Some(i) => {
                proof {
                    lemma_entry_lookup(self.entries@, i as int);
                }
                Some(&self.entries[i].advisories)
            },
            None => None,
        }
    }

    /// Sets the advisories of `name`, replacing those it had.
    pub fn insert(&mut self, name: String, advisories: Vec<WireAdvisory>)
        requires
            old(self).wf(),
        ensures
            final(self).wf(),
            final(self)@ == old(self)@.insert(name@, advisories@),
    {
        let ghost old_map = self@;
        let ghost key = name@;
        let ghost vals = advisories@;
        match self.find(name.as_str()) {
            Some(i) => {
                let ghost s0 = self.entries@;
                let _ = self.entries.remove(i);
                self.entries.insert(i, PackageAdvisories { name, advisories });
                proof {
                    let s1 = self.entries@;
                    assert(s1 =~= s0.update(i as int, s1[i as int]));
                    assert(names_distinct(s1)) by {
                        assert forall|a: int, b: int| 0 <= a < b < s1.len() implies #[trigger] s1[a].name@ != #[trigger] s1[b].name@ by {
                            if a != i && b != i {
                                assert(s1[a] == s0[a] && s1[b] == s0[b]);
                            } else if a == i {
                                assert(s1[b] == s0[b]);
                            } else {
                                assert(s1[a] == s0[a]);
                            }
                        }
                    }
                    assert forall|k: Seq<char>| #![auto] entries_map(s1).contains_key(k) == old_map.insert(key, vals).contains_key(k) by {
                        if old_map.contains_key(k) && k != key {
                            let j = choose|j: int| 0 <= j < s0.len() && #[trigger] s0[j].name@ == k;
                            assert(s1[j] == s0[j]);
                        }
                        if entries_map(s1).contains_key(k) && k != key {
                            let j = choose|j: int| 0 <= j < s1.len() && #[trigger] s1[j].name@ == k;
                            assert(s1[j] == s0[j]);
                        }
                        assert(s1[i as int].name@ == key);
                    }
                    assert forall|k: Seq<char>| #![auto] entries_map(s1).contains_key(k) implies entries_map(s1)[k] == old_map.insert(key, vals)[k] by {
                        let j = choose|j: int| 0 <= j < s1.len() && #[trigger] s1[j].name@ == k;
                        lemma_entry_lookup(s1, j);
                        if j != i {
                            assert(s1[j] == s0[j]);
                            lemma_entry_lookup(s0, j);
                        }
                    }
                    assert(entries_map(s1) =~= old_map.insert(key, vals));
                }
            },
            None => {
                let ghost s0 = self.entries@;
                self.entries.push(PackageAdvisories { name, advisories });
                proof {
                    let s1 = self.entries@;
                    let n = s0.len() as int;
                    assert(names_distinct(s1)) by {
                        assert forall|a: int, b: int| 0 <= a < b < s1.len() implies #[trigger] s1[a].name@ != #[trigger] s1[b].name@ by {
                            assert(s1[a] == s0[a]);
                            if b < n {
                                assert(s1[b] == s0[b]);
                            } else {
                                assert(!(0 <= a < s0.len() && s0[a].name@ == key));
                            }
                        }
                    }
                    assert forall|k: Seq<char>| #![auto] entries_map(s1).contains_key(k) == old_map.insert(key, vals).contains_key(k) by {
                        if old_map.contains_key(k) {
                            let j = choose|j: int| 0 <= j < s0.len() && #[trigger] s0[j].name@ == k;
                            assert(s1[j] == s0[j]);
                        }
                        if entries_map(s1).contains_key(k) && k != key {
                            let j = choose|j: int| 0 <= j < s1.len() && #[trigger] s1[j].name@ == k;
                            assert(s1[j] == s0[j]);
                        }
                        assert(s1[n].name@ == key);
                    }
                    assert forall|k: Seq<char>| #![auto] entries_map(s1).contains_key(k) implies entries_map(s1)[k] == old_map.insert(key, vals)[k] by {
                        let j = choose|j: int| 0 <= j < s1.len() && #[trigger] s1[j].name@ == k;
                        lemma_entry_lookup(s1, j);
                        if j != n {
                            assert(s1[j] == s0[j]);
                            lemma_entry_lookup(s0, j);
                        }
                    }
                    assert(entries_map(s1) =~= old_map.insert(key, vals));
                }
            },
        }
    }
}


/// The advisories of `k` in `m`, none when `m` does not hold `k`.
pub open spec fn advisories_or_none(m: Map<Seq<char>, Seq<WireAdvisory>>, k: Seq<char>) -> Seq<WireAdvisory> {
    if m.contains_key(k) {
        m[k]
    } else {
        Seq::empty()
    }
}

/// The union of two responses: a name that both hold has the advisories of
/// `a` followed by those of `b`.
pub open spec fn merged(a: Map<Seq<char>, Seq<WireAdvisory>>, b: Map<Seq<char>, Seq<WireAdvisory>>) -> Map<Seq<char>, Seq<WireAdvisory>> {
    Map::new(
        |k: Seq<char>| a.contains_key(k) || b.contains_key(k),
        |k: Seq<char>| advisories_or_none(a, k) + advisories_or_none(b, k),
    )
}

impl AdvisoryResponse {
    /// Removes `name` from the response and hands back its advisories.
    fn take_advisories(&mut self, name: &str) -> (r: Vec<WireAdvisory>)
        requires
            old(self).wf(),
        ensures
            final(self).wf(),
            r@ == advisories_or_none(old(self)@, name@),
            final(self)@ == old(self)@.remove(name@),
    {
        let ghost old_map = self@;
        match self.find(name) {
            Some(i) => {
                let ghost s0 = self.entries@;
                proof {
                    lemma_entry_lookup(s0, i as int);
                }
                let entry = self.entries.remove(i);
                proof {
                    let s1 = self.entries@;
                    assert(s1 =~= s0.remove(i as int));
                    assert(names_distinct(s1)) by {
                        assert forall|a: int, b: int| 0 <= a < b < s1.len() implies #[trigger] s1[a].name@ != #[trigger] s1[b].name@ by {
                            let a0 = if a < i { a } else { a + 1 };
                            let b0 = if b < i { b } else { b + 1 };
                            assert(s1[a] == s0[a0] && s1[b] == s0[b0]);
                        }
                    }
                    assert forall|k: Seq<char>| #![auto] entries_map(s1).contains_key(k) == old_map.remove(name@).contains_key(k) by {
                        if old_map.contains_key(k) && k != name@ {
                            let j = choose|j: int| 0 <= j < s0.len() && #[trigger] s0[j].name@ == k;
                            if j < i {
                                assert(s1[j] == s0[j]);
                            } else {
                                assert(j != i);
                                assert(s1[j - 1] == s0[j]);
                            }
                        }
                        if entries_map(s1).contains_key(k) {
                            let j = choose|j: int| 0 <= j < s1.len() && #[trigger] s1[j].name@ == k;
                            let j0 = if j < i { j } else { j + 1 };
                            assert(s1[j] == s0[j0]);
                            assert(s0[i as int].name@ == name@);
                        }
                    }
                    assert forall|k: Seq<char>| #![auto] entries_map(s1).contains_key(k) implies entries_map(s1)[k] == old_map.remove(name@)[k] by {
                        let j = choose|j: int| 0 <= j < s1.len() && #[trigger] s1[j].name@ == k;
                        lemma_entry_lookup(s1, j);
                        let j0 = if j < i { j } else { j + 1 };
                        assert(s1[j] == s0[j0]);
                        lemma_entry_lookup(s0, j0);
                    }
                    assert(entries_map(s1) =~= old_map.remove(name@));
                }
                entry.advisories
            },
            None => {
                assert(old_map.remove(name@) =~= old_map);
                Vec::new()
            },
        }
    }

    /// Adds the advisories of `other`: a name that both hold keeps its own
    /// advisories followed by those of `other`.
    pub fn merge(&mut self, other: AdvisoryResponse)
        requires
            old(self).wf(),
            other.wf(),
        ensures
            final(self).wf(),
            final(self)@ == merged(old(self)@, other@),
    {
        let ghost start = self@;
        let ghost oe = other.entries@;
        let mut rest = other.entries;
        let ghost mut done: int = 0;
        assert(merged(start, entries_map(oe.take(0))) =~= start);
        while rest.len() > 0
            invariant
                self.wf(),
                names_distinct(oe),
                0 <= done <= oe.len(),
                rest@ == oe.skip(done),
                self@ == merged(start, entries_map(oe.take(done))),
            decreases rest.len(),
        {
            let ghost r0 = rest@;
            assert(r0[0] == oe[done]);
            let entry = rest.remove(0);
            let name = entry.name;
            let mut advisories = entry.advisories;
            let ghost prev = self@;
            let ghost added = advisories@;
            let mut combined = self.take_advisories(name.as_str());
            combined.append(&mut advisories);
            self.insert(name, combined);
            proof {
                let k = oe[done].name@;
                let pre = entries_map(oe.take(done));
                let post = entries_map(oe.take(done + 1));
                assert(!pre.contains_key(k)) by {
                    if pre.contains_key(k) {
                        let j = choose|j: int| 0 <= j < oe.take(done).len() && #[trigger] oe.take(done)[j].name@ == k;
                        assert(oe[j].name@ != oe[done].name@);
                    }
                }
                assert(names_distinct(oe.take(done + 1))) by {
                    assert forall|a: int, b: int| 0 <= a < b < oe.take(done + 1).len() implies #[trigger] oe.take(done + 1)[a].name@ != #[trigger] oe.take(done + 1)[b].name@ by {
                        assert(oe.take(done + 1)[a] == oe[a] && oe.take(done + 1)[b] == oe[b]);
                    }
                }
                lemma_entry_lookup(oe.take(done + 1), done);
                assert forall|k2: Seq<char>| #![auto] post.contains_key(k2) == (pre.contains_key(k2) || k2 == k) by {
                    if post.contains_key(k2) {
                        let j = choose|j: int| 0 <= j < oe.take(done + 1).len() && #[trigger] oe.take(done + 1)[j].name@ == k2;
                        if j < done {
                            assert(oe.take(done)[j] == oe.take(done + 1)[j]);
                        }
                    }
                    if pre.contains_key(k2) {
                        let j = choose|j: int| 0 <= j < oe.take(done).len() && #[trigger] oe.take(done)[j].name@ == k2;
                        assert(oe.take(done)[j] == oe.take(done + 1)[j]);
                    }
                }
                assert forall|k2: Seq<char>| #![auto] pre.contains_key(k2) implies post[k2] == pre[k2] by {
                    let j = choose|j: int| 0 <= j < oe.take(done).len() && #[trigger] oe.take(done)[j].name@ == k2;
                    assert(names_distinct(oe.take(done))) by {
                        assert forall|a: int, b: int| 0 <= a < b < oe.take(done).len() implies #[trigger] oe.take(done)[a].name@ != #[trigger] oe.take(done)[b].name@ by {
                            assert(oe.take(done)[a] == oe[a] && oe.take(done)[b] == oe[b]);
                        }
                    }
                    lemma_entry_lookup(oe.take(done), j);
                    assert(oe.take(done)[j] == oe.take(done + 1)[j]);
                    lemma_entry_lookup(oe.take(done + 1), j);
                }
                assert(self@ =~= merged(start, post));
                assert(rest@ =~= oe.skip(done + 1));
                done = done + 1;
            }
        }
        assert(oe.take(done) =~= oe);
    }
}

/// Law: merging loses no advisory: a name is in the merge when either side
/// holds it, and its advisories are those of `a` (none if `a` lacks the
/// name) followed by all those of `b`, so that their number is the sum.
pub proof fn law_merge_keeps_every_advisory(
    a: Map<Seq<char>, Seq<WireAdvisory>>,
    b: Map<Seq<char>, Seq<WireAdvisory>>,
    k: Seq<char>,
)
    ensures
        merged(a, b).contains_key(k) <==> a.contains_key(k) || b.contains_key(k),
        merged(a, b).contains_key(k) ==> {
            let la = if a.contains_key(k) { a[k].len() } else { 0 };
            let lb = if b.contains_key(k) { b[k].len() } else { 0 };
            &&& merged(a, b)[k].len() == la + lb
            &&& a.contains_key(k) ==> merged(a, b)[k].subrange(0, la as int) == a[k]
            &&& b.contains_key(k) ==> merged(a, b)[k].subrange(la as int, (la + lb) as int) == b[k]
        },
{
    if merged(a, b).contains_key(k) {
        let m = merged(a, b)[k];
        let la = if a.contains_key(k) { a[k].len() } else { 0 };
        if a.contains_key(k) {
            assert(m.subrange(0, la as int) =~= a[k]);
        }
        if b.contains_key(k) {
            assert(m.subrange(la as int, m.len() as int) =~= b[k]);
        }
    }
}

/// Package names per request.
pub const BATCH_SIZE: usize = 15;

/// Attempts per request, the first one included.
pub const MAX_ATTEMPTS: u32 = 3;

/// The concatenation of the batches.
pub open spec fn concat(batches: Seq<Seq<Seq<char>>>) -> Seq<Seq<char>>
    decreases batches.len(),
{
    if batches.len() == 0 {
        Seq::empty()
    } else {
        concat(batches.drop_last()) + batches.last()
    }
}

/// `batches` asks for each of `names` once: the names in increasing order,
/// cut into batches of [`BATCH_SIZE`], the last one possibly shorter.
pub open spec fn batch_plan(batches: Seq<Seq<Seq<char>>>, names: Seq<Seq<char>>) -> bool {
    &&& forall|a: int, b: int| 0 <= a < b < concat(batches).len() ==> lex_lt(#[trigger] concat(batches)[a], #[trigger] concat(batches)[b])
    &&& concat(batches).to_set() == names.to_set()
    &&& forall|i: int| 0 <= i < batches.len() ==> 0 < #[trigger] batches[i].len() <= BATCH_SIZE
    &&& forall|i: int| 0 <= i < batches.len() - 1 ==> #[trigger] batches[i].len() == BATCH_SIZE
}

/// Every batch is full but the last, which holds at least one name.
pub open spec fn batch_shape(batches: Seq<Seq<Seq<char>>>) -> bool {
    &&& forall|i: int| 0 <= i < batches.len() ==> 0 < #[trigger] batches[i].len() <= BATCH_SIZE
    &&& forall|i: int| 0 <= i < batches.len() - 1 ==> #[trigger] batches[i].len() == BATCH_SIZE
}

/// Where each batch lies in the concatenation.
proof fn lemma_batch_layout(p: Seq<Seq<Seq<char>>>)
    requires
        batch_shape(p),
    ensures
        p.len() == 0 ==> concat(p).len() == 0,
        p.len() > 0 ==> concat(p).len() == BATCH_SIZE * (p.len() - 1) + p.last().len(),
        forall|i: int| 0 <= i < p.len() ==> concat(p).subrange(BATCH_SIZE * i, BATCH_SIZE * i + p[i].len()) == #[trigger] p[i],
    decreases p.len(),
{
    if p.len() > 0 {
        let q = p.drop_last();
        assert(batch_shape(q)) by {
            assert forall|i: int| 0 <= i < q.len() implies 0 < #[trigger] q[i].len() <= BATCH_SIZE by {
                assert(q[i] == p[i]);
            }
            assert forall|i: int| 0 <= i < q.len() - 1 implies #[trigger] q[i].len() == BATCH_SIZE by {
                assert(q[i] == p[i]);
            }
        }
        lemma_batch_layout(q);
        let cq = concat(q);
        assert(concat(p) == cq + p.last());
        assert(cq.len() == BATCH_SIZE * q.len()) by {
            if q.len() > 0 {
                assert(q.last() == p[q.len() - 1]);
            }
        }
        assert forall|i: int| 0 <= i < p.len() implies concat(p).subrange(BATCH_SIZE * i, BATCH_SIZE * i + p[i].len()) == #[trigger] p[i] by {
            if i < q.len() {
                assert(q[i] == p[i]);
                assert(BATCH_SIZE * i + p[i].len() <= BATCH_SIZE * q.len());
                assert(concat(p).subrange(BATCH_SIZE * i, BATCH_SIZE * i + p[i].len()) =~= cq.subrange(BATCH_SIZE * i, BATCH_SIZE * i + p[i].len()));
            } else {
                assert(concat(p).subrange(BATCH_SIZE * i, BATCH_SIZE * i + p[i].len()) =~= p.last());
            }
        }
    }
}

/// Law: the requests depend only on which names are asked for, not on
/// their order or repetition: two plans for lists that hold the same
/// names are the same batches.
pub proof fn law_plan_depends_on_name_set(
    p1: Seq<Seq<Seq<char>>>,
    p2: Seq<Seq<Seq<char>>>,
    names1: Seq<Seq<char>>,
    names2: Seq<Seq<char>>,
)
    requires
        batch_plan(p1, names1),
        batch_plan(p2, names2),
        names1.to_set() == names2.to_set(),
    ensures
        p1 == p2,
{
    lemma_increasing_same_set_equal(concat(p1), concat(p2));
    assert(batch_shape(p1));
    assert(batch_shape(p2));
    lemma_batch_layout(p1);
    lemma_batch_layout(p2);
    let c = concat(p1);
    if p1.len() == 0 || p2.len() == 0 {
        if p1.len() > 0 {
            assert(p1.last().len() > 0);
        }
        if p2.len() > 0 {
            assert(p2.last().len() > 0);
        }
        assert(p1 =~= p2);
    } else {
        assert(p1.last().len() > 0 && p1.last().len() <= BATCH_SIZE);
        assert(p2.last().len() > 0 && p2.last().len() <= BATCH_SIZE);
        assert(p1.len() == p2.len());
        let n = p1.len();
        assert forall|i: int| 0 <= i < n implies p1[i] == p2[i] by {
            if i < n - 1 {
                assert(p1[i].len() == BATCH_SIZE && p2[i].len() == BATCH_SIZE);
            } else {
                assert(p1[i] == p1.last() && p2[i] == p2.last());
            }
            assert(c.subrange(BATCH_SIZE * i, BATCH_SIZE * i + p1[i].len()) == p1[i]);
            assert(c.subrange(BATCH_SIZE * i, BATCH_SIZE * i + p2[i].len()) == p2[i]);
        }
        assert(p1 =~= p2);
    }
}

/// The text views of a list of strings.
pub open spec fn name_views(s: Seq<String>) -> Seq<Seq<char>> {
    s.map_values(|x: String| x@)
}

/// The distinct names, in increasing order.
fn sorted_distinct(names: &[String]) -> (r: Vec<String>)
    ensures
        forall|a: int, b: int| 0 <= a < b < r@.len() ==> lex_lt(#[trigger] r@[a]@, #[trigger] r@[b]@),
        name_views(r@).to_set() == name_views(names@).to_set(),
{
    let mut out: Vec<String> = Vec::new();
    for i in 0..names.len()
        invariant
            forall|a: int, b: int| 0 <= a < b < out@.len() ==> lex_lt(#[trigger] out@[a]@, #[trigger] out@[b]@),
            name_views(out@).to_set() == name_views(names@.take(i as int)).to_set(),
    {
        let x = &names[i];
        let mut k: usize = 0;
        while k < out.len() && str_before(out[k].as_str(), x.as_str())
            invariant
                k <= out@.len(),
                forall|a: int| 0 <= a < k ==> lex_lt(#[trigger] out@[a]@, x@),
            decreases out.len() - k,
        {
            k = k + 1;
        }
        let ghost ov = name_views(out@);
        assert(name_views(names@.take(i + 1)) =~= name_views(names@.take(i as int)).push(x@));
        proof {
            name_views(names@.take(i as int)).lemma_push_to_set_commute(x@);
        }
        if k < out.len() && str_eq(out[k].as_str(), x.as_str()) {
            assert(ov[k as int] == x@);
            assert(ov.to_set().insert(x@) =~= ov.to_set());
        } else {
            proof {
                if k < out@.len() {
                    lemma_lex_total(out@[k as int]@, x@);
                }
            }
            let ghost o0 = out@;
            assert(k < o0.len() ==> lex_lt(x@, o0[k as int]@));
            out.insert(k, x.clone());
            proof {
                let o1 = out@;
                assert(o1 =~= o0.insert(k as int, o1[k as int]));
                assert forall|a: int, b: int| 0 <= a < b < o1.len() implies lex_lt(#[trigger] o1[a]@, #[trigger] o1[b]@) by {
                    if b < k {
                        assert(o1[a] == o0[a] && o1[b] == o0[b]);
                    } else if b == k {
                        assert(o1[a] == o0[a]);
                    } else if a == k {
                        assert(o1[b] == o0[b - 1]);
                        if b - 1 > k {
                            lemma_lex_transitive(x@, o0[k as int]@, o0[b - 1]@);
                        }
                    } else if a < k {
                        assert(o1[a] == o0[a] && o1[b] == o0[b - 1]);
                        if b - 1 >= k {
                            if b - 1 > k {
                                lemma_lex_transitive(x@, o0[k as int]@, o0[b - 1]@);
                            }
                            lemma_lex_transitive(o0[a]@, x@, o0[b - 1]@);
                        }
                    } else {
                        assert(o1[a] == o0[a - 1] && o1[b] == o0[b - 1]);
                    }
                }
                assert(name_views(o1) =~= ov.insert(k as int, x@));
                assert(name_views(o1).to_set() =~= ov.to_set().insert(x@)) by {
                    assert forall|y: Seq<char>| name_views(o1).contains(y) <==> ov.to_set().insert(x@).contains(y) by {
                        if name_views(o1).contains(y) {
                            let m = choose|m: int| 0 <= m < name_views(o1).len() && name_views(o1)[m] == y;
                            if m < k {
                                assert(ov[m] == y);
                            } else if m > k {
                                assert(ov[m - 1] == y);
                            }
                        }
                        if ov.contains(y) {
                            let m = choose|m: int| 0 <= m < ov.len() && ov[m] == y;
                            if m < k {
                                assert(name_views(o1)[m] == y);
                            } else {
                                assert(name_views(o1)[m + 1] == y);
                            }
                        }
                        if y == x@ {
                            assert(name_views(o1)[k as int] == y);
                        }
                    }
                }
            }
        }
    }
    assert(names@.take(names@.len() as int) =~= names@);
    out
}

/// Plans the requests for `names`: each distinct name once, in increasing
/// order, in batches of [`BATCH_SIZE`] names.
pub fn plan_batches(names: &[String]) -> (r: Vec<Vec<String>>)
    ensures
        batch_plan(r@.map_values(|b: Vec<String>| name_views(b@)), name_views(names@)),
{
    let unique = sorted_distinct(names);
    let ghost u = name_views(unique@);
    let mut batches: Vec<Vec<String>> = Vec::new();
    let mut current: Vec<String> = Vec::new();
    for i in 0..unique.len()
        invariant
            u == name_views(unique@),
            concat(batches@.map_values(|b: Vec<String>| name_views(b@))) + name_views(current@) == u.take(i as int),
            current@.len() < BATCH_SIZE,
            forall|j: int| 0 <= j < batches@.len() ==> #[trigger] batches@[j]@.len() == BATCH_SIZE,
    {
        let ghost bv = batches@.map_values(|b: Vec<String>| name_views(b@));
        let ghost cv = name_views(current@);
        current.push(unique[i].clone());
        assert(name_views(current@) =~= cv.push(u[i as int]));
        assert(u.take(i + 1) =~= u.take(i as int).push(u[i as int]));
        if current.len() == BATCH_SIZE {
            let full = current;
            current = Vec::new();
            let ghost fv = name_views(full@);
            batches.push(full);
            assert(batches@.map_values(|b: Vec<String>| name_views(b@)) =~= bv.push(fv));
            assert(bv.push(fv).drop_last() =~= bv);
            assert(name_views(current@) =~= Seq::<Seq<char>>::empty());
        }
    }
    let ghost bv = batches@.map_values(|b: Vec<String>| name_views(b@));
    let ghost cv = name_views(current@);
    if current.len() > 0 {
        batches.push(current);
        assert(batches@.map_values(|b: Vec<String>| name_views(b@)) =~= bv.push(cv));
        assert(bv.push(cv).drop_last() =~= bv);
    } else {
        assert(cv =~= Seq::<Seq<char>>::empty());
        assert(concat(bv) + cv =~= concat(bv));
    }
    assert(u.take(u.len() as int) =~= u);
    proof {
        let fin = batches@.map_values(|b: Vec<String>| name_views(b@));
        assert(concat(fin) == u);
        assert forall|j: int| 0 <= j < fin.len() implies 0 < #[trigger] fin[j].len() <= BATCH_SIZE by {
            assert(fin[j] == name_views(batches@[j]@));
        }
        assert forall|j: int| 0 <= j < fin.len() - 1 implies #[trigger] fin[j].len() == BATCH_SIZE by {
            assert(fin[j] == name_views(batches@[j]@));
        }
        assert forall|a: int, b: int| 0 <= a < b < concat(fin).len() implies lex_lt(#[trigger] concat(fin)[a], #[trigger] concat(fin)[b]) by {
            assert(u[a] == unique@[a]@ && u[b] == unique@[b]@);
        }
    }
    batches
}

/// What a request for one batch came back with.
#[derive(Debug, Clone, Copy, PartialEq, Eq, Structural)]
pub enum FetchOutcome {
    /// An answer with this HTTP status.
    Status(u16),
    /// No answer: the connection failed or timed out.
    TransportFailure,
}

/// What to do after a request.
#[derive(Debug, Clone, Copy, PartialEq, Eq, Structural)]
pub enum FetchStep {
    /// Decode the answer.
    Accept,
    /// Send the request again after waiting this many seconds.
    Retry { delay_secs: u64 },
    /// Give up with the error of this attempt.
    Fail,
}

/// Statuses that are worth another attempt.
pub open spec fn is_transient_status(status: u16) -> bool {
    status == 429 || status == 502 || status == 503 || status == 504
}

/// Seconds to wait after attempt `attempt` before the next: doubling from 2.
pub open spec fn backoff_secs(attempt: nat) -> nat
    decreases attempt,
{
    if attempt == 0 {
        1
    } else {
        2 * backoff_secs((attempt - 1) as nat)
    }
}

/// Decides what follows attempt number `attempt` (counted from 1) of a
/// request: a success status is accepted; a transient status or a failed
/// connection is retried while attempts remain, after a delay that doubles
/// from 2 seconds; anything else fails.
pub fn next_fetch_step(outcome: FetchOutcome, attempt: u32) -> (r: FetchStep)
    ensures
        r == (match outcome {
            FetchOutcome::Status(s) => if 200 <= s <= 299 {
                FetchStep::Accept
            } else if is_transient_status(s) && attempt < MAX_ATTEMPTS {
                FetchStep::Retry { delay_secs: backoff_secs(attempt as nat) as u64 }
            } else {
                FetchStep::Fail
            },
            FetchOutcome::TransportFailure => if attempt < MAX_ATTEMPTS {
                FetchStep::Retry { delay_secs: backoff_secs(attempt as nat) as u64 }
            } else {
                FetchStep::Fail
            },
        }),
{
    let retryable = match outcome {
        FetchOutcome::Status(s) => {
            if 200 <= s && s <= 299 {
                return FetchStep::Accept;
            }
            s == 429 || s == 502 || s == 503 || s == 504
        },
        FetchOutcome::TransportFailure => true,
    };
    if retryable && attempt < MAX_ATTEMPTS {
        proof {
            reveal_with_fuel(backoff_secs, 3);
        }
        let delay: u64 = if attempt == 0 {
            1
        } else if attempt == 1 {
            2
        } else {
            4
        };
        FetchStep::Retry { delay_secs: delay }
    } else {
        FetchStep::Fail
    }
}

} // verus!
