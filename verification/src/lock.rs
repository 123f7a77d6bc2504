//! The packages of a Composer lock file.
use crate::error::Error;
use crate::order::{SortOrder, lemma_stable_sorted_sorted_permutation, sort_stable, stable_sorted, views};
use crate::text::{
    lemma_increasing_same_set_equal, lemma_lex_irreflexive, lemma_lex_total, lemma_lex_transitive,
    lex_lt, lowercase, str_before, str_eq, str_to_lowercase, str_trim, strictly_increasing, trimmed,
};
use vstd::prelude::*;

verus! {

/// The part of `composer.lock` that the audit reads.
#[derive(Debug)]
pub struct ComposerLock {
    pub packages: Vec<LockPackage>,
    pub packages_dev: Vec<LockPackage>,
}

/// A package entry of `composer.lock`, as written there.
#[derive(Debug)]
pub struct LockPackage {
    pub name: String,
    pub version: String,
}

/// An installed package after normalization: lowercased trimmed name,
/// trimmed version.
#[derive(Debug, Clone, PartialEq, Eq)]
pub struct LockedPackage {
    pub name: String,
    pub version: String,
}


impl View for LockedPackage {
    type V = (Seq<char>, Seq<char>);

    open spec fn view(&self) -> (Seq<char>, Seq<char>) {
        (self.name@, self.version@)
    }
}

impl SortOrder for LockedPackage {
    open spec fn before(a: (Seq<char>, Seq<char>), b: (Seq<char>, Seq<char>)) -> bool {
        lex_lt(a.0, b.0)
    }

    proof fn lemma_before_asymmetric(a: (Seq<char>, Seq<char>), b: (Seq<char>, Seq<char>)) {
        lemma_lex_total(a.0, b.0);
    }

    proof fn lemma_before_transitive(
        a: (Seq<char>, Seq<char>),
        b: (Seq<char>, Seq<char>),
        c: (Seq<char>, Seq<char>),
    ) {
        lemma_lex_transitive(a.0, b.0, c.0);
    }

    fn precedes(&self, other: &Self) -> (r: bool) {
        str_before(self.name.as_str(), other.name.as_str())
    }
}

/// All entries of the lock file: `packages`, then `packages-dev`.
pub open spec fn lock_entries(lock: ComposerLock) -> Seq<LockPackage> {
    lock.packages@ + lock.packages_dev@
}

/// The name under which an entry is audited: trimmed and lowercased.
pub open spec fn entry_name(p: LockPackage) -> Seq<char> {
    lowercase(trimmed(p.name@))
}

/// The version under which an entry is audited: trimmed.
pub open spec fn entry_version(p: LockPackage) -> Seq<char> {
    trimmed(p.version@)
}

/// Entry `j` has an empty name or version.
pub open spec fn entry_empty(e: Seq<LockPackage>, j: int) -> bool {
    entry_name(e[j]).len() == 0 || entry_version(e[j]).len() == 0
}

/// Entry `j` names a package that an earlier entry locks at another version.
pub open spec fn entry_conflicts(e: Seq<LockPackage>, j: int) -> bool {
    exists|i: int|
        0 <= i < j && entry_name(#[trigger] e[i]) == entry_name(e[j]) && entry_version(e[i])
            != entry_version(e[j])
}

/// Entry `j` is rejected.
pub open spec fn entry_rejected(e: Seq<LockPackage>, j: int) -> bool {
    entry_empty(e, j) || entry_conflicts(e, j)
}

/// `err` is the error that rejecting entry `j` of `e` gives, for the lock
/// file at `path`.
pub open spec fn rejection_error(err: Error, e: Seq<LockPackage>, j: int, path: Seq<char>) -> bool {
    if entry_empty(e, j) {
        err matches Error::LockEmptyIdentity { path: p } && p@ == path
    } else {
        &&& err matches Error::LockConflict { path: p, package, first, second }
        &&& p@ == path
        &&& package@ == entry_name(e[j])
        &&& second@ == entry_version(e[j])
        &&& exists|i: int|
            0 <= i < j && entry_name(#[trigger] e[i]) == entry_name(e[j]) && entry_version(e[i])
                == first@
    }
}

/// Package `k` of `seen` comes from one of the first `j` entries.
pub open spec fn drawn_from(seen: Seq<LockedPackage>, e: Seq<LockPackage>, j: int, k: int) -> bool {
    exists|i: int|
        0 <= i < j && entry_name(#[trigger] e[i]) == seen[k].name@ && entry_version(e[i]) == seen[k].version@
}

/// Entry `i` of `e` is among the packages of `seen`.
pub open spec fn covered_by(seen: Seq<LockedPackage>, e: Seq<LockPackage>, i: int) -> bool {
    exists|k: int|
        0 <= k < seen.len() && (#[trigger] seen[k]).name@ == entry_name(e[i]) && seen[k].version@ == entry_version(e[i])
}

/// The packages found so far: one per audited name among the first `j`
/// entries, at the version of those entries, each name once.
spec fn seen_inv(seen: Seq<LockedPackage>, e: Seq<LockPackage>, j: int) -> bool {
    &&& forall|a: int, b: int| 0 <= a < b < seen.len() ==> #[trigger] seen[a].name@ != #[trigger] seen[b].name@
    &&& forall|k: int| 0 <= k < seen.len() ==> #[trigger] drawn_from(seen, e, j, k)
    &&& forall|i: int| 0 <= i < j ==> #[trigger] covered_by(seen, e, i)
    &&& forall|i: int| 0 <= i < j ==> !#[trigger] entry_rejected(e, i)
}

proof fn lemma_seen_same_version(seen: Seq<LockedPackage>, e: Seq<LockPackage>, j: int, k: int)
    requires
        0 <= j < e.len(),
        seen_inv(seen, e, j),
        !entry_empty(e, j),
        0 <= k < seen.len(),
        seen[k].name@ == entry_name(e[j]),
        seen[k].version@ == entry_version(e[j]),
    ensures
        !entry_rejected(e, j),
        seen_inv(seen, e, j + 1),
{
    assert forall|c: int| 0 <= c < j && entry_name(#[trigger] e[c]) == entry_name(e[j]) implies entry_version(e[c]) == entry_version(e[j]) by {
        assert(covered_by(seen, e, c));
        let kc = choose|kc: int|
            0 <= kc < seen.len() && (#[trigger] seen[kc]).name@ == entry_name(e[c]) && seen[kc].version@ == entry_version(e[c]);
        if kc != k {
            if kc < k {
                assert(seen[kc].name@ != seen[k].name@);
            } else {
                assert(seen[k].name@ != seen[kc].name@);
            }
        }
    }
    assert(!entry_rejected(e, j));
    assert forall|k2: int| 0 <= k2 < seen.len() implies #[trigger] drawn_from(seen, e, j + 1, k2) by {
        assert(drawn_from(seen, e, j, k2));
        let i2 = choose|i2: int|
            0 <= i2 < j && entry_name(#[trigger] e[i2]) == seen[k2].name@ && entry_version(e[i2]) == seen[k2].version@;
        assert(0 <= i2 < j + 1);
    }
    assert forall|i2: int| 0 <= i2 < j + 1 implies #[trigger] covered_by(seen, e, i2) by {
        if i2 == j {
            assert(seen[k].name@ == entry_name(e[j]));
        }
    }
    assert forall|i2: int| 0 <= i2 < j + 1 implies !#[trigger] entry_rejected(e, i2) by {}
}

proof fn lemma_seen_conflict(seen: Seq<LockedPackage>, e: Seq<LockPackage>, j: int, k: int)
    requires
        0 <= j < e.len(),
        seen_inv(seen, e, j),
        0 <= k < seen.len(),
        seen[k].name@ == entry_name(e[j]),
        seen[k].version@ != entry_version(e[j]),
    ensures
        entry_conflicts(e, j),
        exists|i: int| 0 <= i < j && entry_name(#[trigger] e[i]) == entry_name(e[j]) && entry_version(e[i]) == seen[k].version@,
{
    assert(drawn_from(seen, e, j, k));
    let i = choose|i: int|
        0 <= i < j && entry_name(#[trigger] e[i]) == seen[k].name@ && entry_version(e[i]) == seen[k].version@;
    assert(entry_name(e[i]) == entry_name(e[j]));
}

proof fn lemma_seen_new(s0: Seq<LockedPackage>, s1: Seq<LockedPackage>, e: Seq<LockPackage>, j: int)
    requires
        0 <= j < e.len(),
        seen_inv(s0, e, j),
        !entry_empty(e, j),
        forall|m: int| 0 <= m < s0.len() ==> #[trigger] s0[m].name@ != entry_name(e[j]),
        s1.len() == s0.len() + 1,
        forall|m: int| 0 <= m < s0.len() ==> s1[m] == s0[m],
        s1[s0.len() as int].name@ == entry_name(e[j]),
        s1[s0.len() as int].version@ == entry_version(e[j]),
    ensures
        !entry_rejected(e, j),
        seen_inv(s1, e, j + 1),
{
    let n = s0.len() as int;
    assert(!entry_conflicts(e, j)) by {
        if entry_conflicts(e, j) {
            let c = choose|c: int|
                0 <= c < j && entry_name(#[trigger] e[c]) == entry_name(e[j]) && entry_version(e[c]) != entry_version(e[j]);
            assert(covered_by(s0, e, c));
            let kc = choose|kc: int|
                0 <= kc < s0.len() && (#[trigger] s0[kc]).name@ == entry_name(e[c]) && s0[kc].version@ == entry_version(e[c]);
            assert(s0[kc].name@ != entry_name(e[j]));
        }
    }
    assert forall|a: int, b: int| 0 <= a < b < s1.len() implies #[trigger] s1[a].name@ != #[trigger] s1[b].name@ by {
        assert(s1[a] == s0[a]);
        if b < n {
            assert(s1[b] == s0[b]);
        }
    }
    assert forall|k2: int| 0 <= k2 < s1.len() implies #[trigger] drawn_from(s1, e, j + 1, k2) by {
        if k2 < n {
            assert(s1[k2] == s0[k2]);
            assert(drawn_from(s0, e, j, k2));
            let i2 = choose|i2: int|
                0 <= i2 < j && entry_name(#[trigger] e[i2]) == s0[k2].name@ && entry_version(e[i2]) == s0[k2].version@;
            assert(0 <= i2 < j + 1);
        } else {
            assert(entry_name(e[j]) == s1[k2].name@);
        }
    }
    assert forall|i2: int| 0 <= i2 < j + 1 implies #[trigger] covered_by(s1, e, i2) by {
        if i2 < j {
            assert(covered_by(s0, e, i2));
            let k3 = choose|k3: int|
                0 <= k3 < s0.len() && (#[trigger] s0[k3]).name@ == entry_name(e[i2]) && s0[k3].version@ == entry_version(e[i2]);
            assert(s1[k3] == s0[k3]);
        } else {
            assert(s1[n].name@ == entry_name(e[i2]));
        }
    }
    assert forall|i2: int| 0 <= i2 < j + 1 implies !#[trigger] entry_rejected(e, i2) by {}
}

fn find_named(seen: &Vec<LockedPackage>, name: &str) -> (r: Option<usize>)
    ensures
        r matches Some(k) ==> k < seen@.len() && seen@[k as int].name@ == name@,
        r is None ==> forall|m: int| 0 <= m < seen@.len() ==> #[trigger] seen@[m].name@ != name@,
{
    let mut k: usize = 0;
    while k < seen.len()
        invariant
            k <= seen@.len(),
            forall|m: int| 0 <= m < k ==> #[trigger] seen@[m].name@ != name@,
        decreases seen.len() - k,
    {
        if str_eq(seen[k].name.as_str(), name) {
            return Some(k);
        }
        k = k + 1;
    }
    None
}

/// Takes entry `j` of `e` into the packages seen so far, or rejects it.
fn take_entry(
    seen: &mut Vec<LockedPackage>,
    p: &LockPackage,
    path: &str,
    Ghost(e): Ghost<Seq<LockPackage>>,
    Ghost(j): Ghost<int>,
) -> (r: Result<(), Error>)
    requires
        0 <= j < e.len(),
        e[j] == *p,
        seen_inv(old(seen)@, e, j),
    ensures
        r is Ok <==> !entry_rejected(e, j),
        r is Ok ==> seen_inv(final(seen)@, e, j + 1),
        r matches Err(err) ==> rejection_error(err, e, j, path@),
{
    let name = str_to_lowercase(str_trim(p.name.as_str()));
    let version = str_trim(p.version.as_str()).to_owned();
    if name.as_str().is_empty() || version.as_str().is_empty() {
        return Err(Error::LockEmptyIdentity { path: path.to_owned() });
    }
    let found = find_named(seen, name.as_str());
    if let Some(k) = found {
        if !str_eq(seen[k].version.as_str(), version.as_str()) {
            proof {
                lemma_seen_conflict(seen@, e, j, k as int);
            }
            let first = seen[k].version.clone();
            return Err(Error::LockConflict { path: path.to_owned(), package: name, first, second: version });
        }
        proof {
            lemma_seen_same_version(seen@, e, j, k as int);
        }
        return Ok(());
    }
    let ghost s0 = seen@;
    seen.push(LockedPackage { name, version });
    proof {
        lemma_seen_new(s0, seen@, e, j);
    }
    Ok(())
}


/// `v` holds the packages of the entries `e`: each audited name once, at
/// its version, in increasing order of name.
pub open spec fn normalized_packages(v: Seq<LockedPackage>, e: Seq<LockPackage>) -> bool {
    &&& forall|a: int, b: int| 0 <= a < b < v.len() ==> lex_lt(#[trigger] v[a].name@, #[trigger] v[b].name@)
    &&& forall|k: int| 0 <= k < v.len() ==> #[trigger] drawn_from(v, e, e.len() as int, k)
    &&& forall|i: int| 0 <= i < e.len() ==> #[trigger] covered_by(v, e, i)
}

proof fn lemma_sorted_packages(seen: Seq<LockedPackage>, v: Seq<LockedPackage>, e: Seq<LockPackage>)
    requires
        seen_inv(seen, e, e.len() as int),
        views(v) == stable_sorted::<LockedPackage>(views(seen)),
    ensures
        normalized_packages(v, e),
{
    broadcast use vstd::seq_lib::group_to_multiset_ensures;

    let sv = views(seen);
    let vv = views(v);
    lemma_stable_sorted_sorted_permutation::<LockedPackage>(sv);
    assert(vv.len() == sv.len()) by {
        assert(vv.to_multiset().len() == sv.to_multiset().len());
    }
    assert(sv.no_duplicates()) by {
        assert forall|a: int, b: int| 0 <= a < sv.len() && 0 <= b < sv.len() && a != b implies sv[a] != sv[b] by {
            if a < b {
                assert(seen[a].name@ != seen[b].name@);
            } else {
                assert(seen[b].name@ != seen[a].name@);
            }
        }
    }
    sv.lemma_multiset_has_no_duplicates();
    vv.lemma_multiset_has_no_duplicates_conv();
    // every element of v is an element of seen
    assert forall|k: int| #![trigger vv[k]] 0 <= k < v.len() implies exists|m: int| 0 <= m < seen.len() && #[trigger] sv[m] == vv[k] by {
        assert(vv.contains(vv[k]));
        assert(vv.to_multiset().count(vv[k]) > 0);
        assert(sv.to_multiset().count(vv[k]) > 0);
        assert(sv.contains(vv[k]));
    }
    assert forall|m: int| #![trigger sv[m]] 0 <= m < seen.len() implies exists|k: int| 0 <= k < v.len() && #[trigger] vv[k] == sv[m] by {
        assert(sv.contains(sv[m]));
        assert(sv.to_multiset().count(sv[m]) > 0);
        assert(vv.to_multiset().count(sv[m]) > 0);
        assert(vv.contains(sv[m]));
    }
    assert forall|a: int, b: int| 0 <= a < b < v.len() implies lex_lt(#[trigger] v[a].name@, #[trigger] v[b].name@) by {
        assert(vv[a] == (v[a].name@, v[a].version@));
        assert(vv[b] == (v[b].name@, v[b].version@));
        assert(!lex_lt(vv[b].0, vv[a].0));
        let ma = choose|m: int| 0 <= m < seen.len() && #[trigger] sv[m] == vv[a];
        let mb = choose|m: int| 0 <= m < seen.len() && #[trigger] sv[m] == vv[b];
        assert(vv[a] != vv[b]);
        if v[a].name@ == v[b].name@ {
            assert(ma != mb);
            if ma < mb {
                assert(seen[ma].name@ != seen[mb].name@);
            } else {
                assert(seen[mb].name@ != seen[ma].name@);
            }
        }
        lemma_lex_total(v[a].name@, v[b].name@);
    }
    assert forall|k: int| 0 <= k < v.len() implies #[trigger] drawn_from(v, e, e.len() as int, k) by {
        assert(vv[k] == (v[k].name@, v[k].version@));
        let m = choose|m: int| 0 <= m < seen.len() && #[trigger] sv[m] == vv[k];
        assert(drawn_from(seen, e, e.len() as int, m));
        assert(sv[m] == (seen[m].name@, seen[m].version@));
    }
    assert forall|i: int| 0 <= i < e.len() implies #[trigger] covered_by(v, e, i) by {
        assert(covered_by(seen, e, i));
        let m = choose|m: int| 0 <= m < seen.len() && (#[trigger] seen[m]).name@ == entry_name(e[i]) && seen[m].version@ == entry_version(e[i]);
        assert(sv[m] == (seen[m].name@, seen[m].version@));
        let k = choose|k: int| 0 <= k < v.len() && #[trigger] vv[k] == sv[m];
        assert(vv[k] == (v[k].name@, v[k].version@));
    }
}

/// The names of a list of packages.
pub open spec fn package_names(v: Seq<LockedPackage>) -> Seq<Seq<char>> {
    v.map_values(|p: LockedPackage| p.name@)
}

proof fn lemma_names_from_entries(v1: Seq<LockedPackage>, e1: Seq<LockPackage>, v2: Seq<LockedPackage>, e2: Seq<LockPackage>)
    requires
        normalized_packages(v1, e1),
        normalized_packages(v2, e2),
        e1.to_set() == e2.to_set(),
    ensures
        forall|x: Seq<char>| package_names(v1).to_set().contains(x) ==> package_names(v2).to_set().contains(x),
{
    assert forall|x: Seq<char>| package_names(v1).to_set().contains(x) implies package_names(v2).to_set().contains(x) by {
        let k = choose|k: int| 0 <= k < package_names(v1).len() && package_names(v1)[k] == x;
        assert(v1[k].name@ == x);
        assert(drawn_from(v1, e1, e1.len() as int, k));
        let i = choose|i: int| 0 <= i < e1.len() && entry_name(#[trigger] e1[i]) == v1[k].name@ && entry_version(e1[i]) == v1[k].version@;
        assert(e1.to_set().contains(e1[i]));
        assert(e2.to_set().contains(e1[i]));
        let i2 = choose|i2: int| 0 <= i2 < e2.len() && e2[i2] == e1[i];
        assert(e2[i2] == e1[i]);
        assert(covered_by(v2, e2, i2));
        let k2 = choose|k2: int| 0 <= k2 < v2.len() && (#[trigger] v2[k2]).name@ == entry_name(e2[i2]) && v2[k2].version@ == entry_version(e2[i2]);
        assert(package_names(v2)[k2] == x);
    }
}

/// Law: the installed packages depend only on which entries the lock file
/// holds, not on their order or on which section lists them.
pub proof fn law_normalized_independent_of_entry_order(
    v1: Seq<LockedPackage>,
    e1: Seq<LockPackage>,
    v2: Seq<LockedPackage>,
    e2: Seq<LockPackage>,
)
    requires
        normalized_packages(v1, e1),
        normalized_packages(v2, e2),
        e1.to_set() == e2.to_set(),
    ensures
        views(v1) == views(v2),
{
    let n1 = package_names(v1);
    let n2 = package_names(v2);
    lemma_names_from_entries(v1, e1, v2, e2);
    lemma_names_from_entries(v2, e2, v1, e1);
    assert(strictly_increasing(n1)) by {
        assert forall|a: int, b: int| 0 <= a < b < n1.len() implies lex_lt(#[trigger] n1[a], #[trigger] n1[b]) by {
            assert(n1[a] == v1[a].name@ && n1[b] == v1[b].name@);
        }
    }
    assert(strictly_increasing(n2)) by {
        assert forall|a: int, b: int| 0 <= a < b < n2.len() implies lex_lt(#[trigger] n2[a], #[trigger] n2[b]) by {
            assert(n2[a] == v2[a].name@ && n2[b] == v2[b].name@);
        }
    }
    assert(n1.to_set() =~= n2.to_set());
    lemma_increasing_same_set_equal(n1, n2);
    assert(v1.len() == n1.len() && v2.len() == n2.len());
    assert forall|k: int| 0 <= k < v1.len() implies views(v1)[k] == views(v2)[k] by {
        assert(n1[k] == v1[k].name@ && n2[k] == v2[k].name@);
        assert(drawn_from(v1, e1, e1.len() as int, k));
        let i = choose|i: int| 0 <= i < e1.len() && entry_name(#[trigger] e1[i]) == v1[k].name@ && entry_version(e1[i]) == v1[k].version@;
        assert(e1.to_set().contains(e1[i]));
        let i2 = choose|i2: int| 0 <= i2 < e2.len() && e2[i2] == e1[i];
        assert(e2[i2] == e1[i]);
        assert(covered_by(v2, e2, i2));
        let k2 = choose|k2: int| 0 <= k2 < v2.len() && (#[trigger] v2[k2]).name@ == entry_name(e2[i2]) && v2[k2].version@ == entry_version(e2[i2]);
        if k2 != k {
            lemma_lex_irreflexive(v2[k].name@);
            if k2 < k {
                assert(lex_lt(v2[k2].name@, v2[k].name@));
            } else {
                assert(lex_lt(v2[k].name@, v2[k2].name@));
            }
        }
        assert(views(v1)[k] == (v1[k].name@, v1[k].version@));
        assert(views(v2)[k] == (v2[k].name@, v2[k].version@));
    }
    assert(views(v1) =~= views(v2));
}

/// Merges `packages` and `packages-dev` into the list of installed
/// packages: names are trimmed and lowercased, versions trimmed, a package
/// listed twice at one version is kept once, and the list is sorted by
/// name. An entry with an empty name or version, or a package listed at two
/// versions, rejects the lock file at the first such entry.
pub fn normalize(lock: &ComposerLock, path: &str) -> (r: Result<Vec<LockedPackage>, Error>)
    ensures
        r is Ok <==> forall|j: int| 0 <= j < lock_entries(*lock).len() ==> !entry_rejected(lock_entries(*lock), j),
        r matches Ok(v) ==> normalized_packages(v@, lock_entries(*lock)),
        r matches Err(err) ==> exists|j: int|
            0 <= j < lock_entries(*lock).len() && entry_rejected(lock_entries(*lock), j) && (forall|i: int|
                0 <= i < j ==> !entry_rejected(lock_entries(*lock), i)) && rejection_error(err, lock_entries(*lock), j, path@),
{
    let ghost e = lock_entries(*lock);
    let mut seen: Vec<LockedPackage> = Vec::new();
    let n1 = lock.packages.len();
    for i in 0..n1
        invariant
            e == lock_entries(*lock),
            n1 == lock.packages@.len(),
            seen_inv(seen@, e, i as int),
    {
        assert(e[i as int] == lock.packages@[i as int]);
        match take_entry(&mut seen, &lock.packages[i], path, Ghost(e), Ghost(i as int)) {
            Ok(()) => {},
            Err(err) => {
                return Err(err);
            },
        }
    }
    let n2 = lock.packages_dev.len();
    for i in 0..n2
        invariant
            e == lock_entries(*lock),
            n1 == lock.packages@.len(),
            n2 == lock.packages_dev@.len(),
            seen_inv(seen@, e, n1 + i),
    {
        assert(e[n1 + i] == lock.packages_dev@[i as int]);
        match take_entry(&mut seen, &lock.packages_dev[i], path, Ghost(e), Ghost(n1 + i)) {
            Ok(()) => {},
            Err(err) => {
                return Err(err);
            },
        }
    }
    let ghost unsorted = seen@;
    let sorted = sort_stable(seen);
    proof {
        lemma_sorted_packages(unsorted, sorted@, e);
    }
    Ok(sorted)
}

} // verus!
