//! The pack registry: an immutable, ordered collection of packs, deduplicated
//! by name and sorted so that more specific (longer-named) packs come first,
//! with file-to-pack ownership resolution.
use vstd::prelude::*;

use itertools::Itertools;

use crate::Pack;
use crate::util::{dir_prefix, is_dir_prefix, lex_le, lex_lt, parent_dir, parent_of, str_cmp};

verus! {

/// Registry order: descending name length, ties broken alphabetically.
pub open spec fn registry_le(a: Pack, b: Pack) -> bool {
    ||| a.name@.len() > b.name@.len()
    ||| (a.name@.len() == b.name@.len() && lex_le(a.name@, b.name@))
}

/// Three-way comparison of two packs in registry order.
fn registry_cmp(a: &Pack, b: &Pack) -> (r: core::cmp::Ordering)
    ensures
        r != core::cmp::Ordering::Greater ==> registry_le(*a, *b),
        r != core::cmp::Ordering::Less ==> registry_le(*b, *a),
{
    let alen = a.name.as_str().unicode_len();
    let blen = b.name.as_str().unicode_len();
    if alen > blen {
        core::cmp::Ordering::Less
    } else if alen < blen {
        core::cmp::Ordering::Greater
    } else {
        proof {
            crate::util::lemma_lex_trichotomy(a.name@, b.name@);
        }
        str_cmp(a.name.as_str(), b.name.as_str())
    }
}

/// Relies on `itertools::Itertools::sorted_by`: a stable comparator sort that
/// returns the same elements, here ordered by `registry_cmp`, whose contract
/// decides `registry_le`.
#[verifier::external_body]
fn sorted_by_registry_order(v: Vec<Pack>) -> (r: Vec<Pack>)
    ensures
        r@.to_multiset() == v@.to_multiset(),
        r@.len() == v@.len(),
        forall|i: int, j: int| 0 <= i < j < r@.len() ==> registry_le(r@[i], r@[j]),
{
    v.into_iter().sorted_by(|a, b| registry_cmp(a, b)).collect()
}

/// Some pack in `s` is named `name`.
pub open spec fn has_pack_named(s: Seq<Pack>, name: Seq<char>) -> bool {
    exists|i: int| 0 <= i < s.len() && #[trigger] s[i].name@ == name
}

/// The last pack in `s` named `name`; meaningful only when one exists.
pub open spec fn last_pack_named(s: Seq<Pack>, name: Seq<char>) -> Pack
    decreases s.len(),
{
    if s.len() == 0 {
        arbitrary()
    } else if s.last().name@ == name {
        s.last()
    } else {
        last_pack_named(s.drop_last(), name)
    }
}

/// `p`'s root directory (the directory of its manifest) contains `path`.
pub open spec fn owns_file(p: Pack, path: Seq<char>) -> bool {
    dir_prefix(parent_of(p.yml@), path)
}

/// The name of the first pack in `packs` whose root contains `path`.
pub open spec fn spec_for_file(packs: Seq<Pack>, path: Seq<char>) -> Option<Seq<char>>
    decreases packs.len(),
{
    if packs.len() == 0 {
        None
    } else if owns_file(packs.first(), path) {
        Some(packs.first().name@)
    } else {
        spec_for_file(packs.drop_first(), path)
    }
}

/// The registry: deduplicated by name, held in registry order.
pub struct PackSet {
    pub packs: Vec<Pack>,
}

impl PackSet {
    /// The registry invariant: registry order, no two packs share a name.
    pub open spec fn wf(&self) -> bool {
        &&& forall|i: int, j: int|
            0 <= i < j < self.packs@.len() ==> registry_le(self.packs@[i], self.packs@[j])
        &&& forall|i: int, j: int|
            0 <= i < j < self.packs@.len() ==> self.packs@[i].name@ != self.packs@[j].name@
    }

    /// Builds the registry from manifests in load order: packs sharing a name
    /// collapse into one entry carrying the fields of the last occurrence, and
    /// the result is sorted by descending name length, ties alphabetical.
    pub fn build(packs: Vec<Pack>) -> (r: PackSet)
        ensures
            r.wf(),
            forall|name: Seq<char>|
                #[trigger] has_pack_named(r.packs@, name) == has_pack_named(packs@, name),
            forall|k: int|
                0 <= k < r.packs@.len() ==> r.packs@[k] == last_pack_named(
                    packs@,
                    r.packs@[k].name@,
                ),
    {
        let ghost orig = packs@;
        let mut rest = packs;
        let mut acc: Vec<Pack> = Vec::new();
        let n = rest.len();
        let mut i: usize = 0;
        proof {
            assert(orig.subrange(0, 0) =~= Seq::<Pack>::empty());
            assert(rest@ =~= orig.subrange(0, n as int));
        }
        while i < n
            invariant
                0 <= i <= n,
                n == orig.len(),
                rest@ == orig.subrange(i as int, n as int),
                forall|a: int, b: int|
                    0 <= a < b < acc@.len() ==> acc@[a].name@ != acc@[b].name@,
                forall|name: Seq<char>|
                    #[trigger] has_pack_named(acc@, name) == has_pack_named(
                        orig.subrange(0, i as int),
                        name,
                    ),
                forall|k: int|
                    0 <= k < acc@.len() ==> acc@[k] == last_pack_named(
                        orig.subrange(0, i as int),
                        acc@[k].name@,
                    ),
            decreases n - i,
        {
            let pack = rest.remove(0);
            proof {
                assert(pack == orig.subrange(i as int, n as int)[0]);
                assert(pack == orig[i as int]);
                assert(rest@ =~= orig.subrange(i as int + 1, n as int));
            }
            let m = acc.len();
            let mut j: usize = 0;
            let mut found: bool = false;
            while j < m && !found
                invariant
                    0 <= j <= m,
                    m == acc@.len(),
                    found ==> j < m && acc@[j as int].name@ == pack.name@,
                    !found ==> forall|k: int| 0 <= k < j ==> acc@[k].name@ != pack.name@,
                decreases m - j + (if found { 0int } else { 1int }),
            {
                if acc[j].name.eq(&pack.name) {
                    found = true;
                } else {
                    j = j + 1;
                }
            }
            let ghost old_acc = acc@;
            let ghost prev = orig.subrange(0, i as int);
            let ghost cur = orig.subrange(0, i as int + 1);
            proof {
                assert(cur.drop_last() =~= prev);
                assert(cur.last() == orig[i as int]);
            }
            if found {
                acc.set(j, pack);
            } else {
                acc.push(pack);
            }
            proof {
                assert forall|name: Seq<char>| #[trigger] has_pack_named(acc@, name)
                    == has_pack_named(cur, name) by {
                    if has_pack_named(acc@, name) {
                        let k = choose|k: int|
                            0 <= k < acc@.len() && #[trigger] acc@[k].name@ == name;
                        if k < old_acc.len() && acc@[k] == old_acc[k] {
                            assert(has_pack_named(old_acc, name));
                            assert(has_pack_named(prev, name));
                            let w = choose|w: int|
                                0 <= w < prev.len() && #[trigger] prev[w].name@ == name;
                            assert(cur[w].name@ == name);
                        } else {
                            assert(acc@[k] == orig[i as int]);
                            assert(cur[i as int].name@ == name);
                        }
                    }
                    if has_pack_named(cur, name) {
                        let w = choose|w: int| 0 <= w < cur.len() && #[trigger] cur[w].name@ == name;
                        if w < i {
                            assert(prev[w].name@ == name);
                            assert(has_pack_named(prev, name));
                            assert(has_pack_named(old_acc, name));
                            let k = choose|k: int|
                                0 <= k < old_acc.len() && #[trigger] old_acc[k].name@ == name;
                            if found && k == j {
                                assert(old_acc[j as int].name@ == pack.name@);
                                assert(pack.name@ == name);
                                assert(acc@[j as int].name@ == name);
                            } else {
                                assert(acc@[k] == old_acc[k]);
                                assert(acc@[k].name@ == name);
                            }
                        } else {
                            if found {
                                assert(acc@[j as int].name@ == name);
                            } else {
                                assert(acc@[old_acc.len() as int].name@ == name);
                            }
                        }
                    }
                }
                assert forall|k: int| 0 <= k < acc@.len() implies acc@[k] == last_pack_named(
                    cur,
                    acc@[k].name@,
                ) by {
                    if found && k == j {
                        assert(acc@[k] == orig[i as int]);
                        assert(last_pack_named(cur, acc@[k].name@) == cur.last());
                    } else if !found && k == old_acc.len() {
                        assert(acc@[k] == orig[i as int]);
                        assert(last_pack_named(cur, acc@[k].name@) == cur.last());
                    } else {
                        assert(acc@[k] == old_acc[k]);
                        assert(old_acc[k] == last_pack_named(prev, old_acc[k].name@));
                        if found {
                            assert(acc@[k].name@ != acc@[j as int].name@);
                            assert(acc@[j as int] == orig[i as int]);
                        } else {
                            assert(!has_pack_named(old_acc, orig[i as int].name@));
                            assert(acc@[k].name@ != orig[i as int].name@) by {
                                if acc@[k].name@ == orig[i as int].name@ {
                                    assert(old_acc[k].name@ == orig[i as int].name@);
                                    assert(has_pack_named(old_acc, orig[i as int].name@));
                                }
                            }
                        }
                        assert(cur.last().name@ != acc@[k].name@);
                        assert(last_pack_named(cur, acc@[k].name@) == last_pack_named(
                            prev,
                            acc@[k].name@,
                        ));
                    }
                }
            }
            i = i + 1;
        }
        proof {
            assert(orig.subrange(0, n as int) =~= orig);
        }
        let ghost deduped = acc@;
        let sorted = sorted_by_registry_order(acc);
        proof {
            broadcast use vstd::seq_lib::group_to_multiset_ensures;

            assert(deduped.no_duplicates()) by {
                assert forall|a: int, b: int|
                    0 <= a < deduped.len() && 0 <= b < deduped.len() && a != b implies deduped[a]
                    != deduped[b] by {
                    if deduped[a] == deduped[b] {
                        assert(deduped[a].name@ == deduped[b].name@);
                    }
                }
            }
            deduped.lemma_multiset_has_no_duplicates();
            assert(forall|x: Pack|
                sorted@.to_multiset().contains(x) ==> sorted@.to_multiset().count(x) == 1);
            sorted@.lemma_multiset_has_no_duplicates_conv();
            assert forall|a: int, b: int|
                0 <= a < b < sorted@.len() implies sorted@[a].name@ != sorted@[b].name@ by {
                if sorted@[a].name@ == sorted@[b].name@ {
                    assert(sorted@[a] != sorted@[b]);
                    assert(sorted@.contains(sorted@[a]));
                    assert(sorted@.contains(sorted@[b]));
                    assert(sorted@.to_multiset().count(sorted@[a]) > 0);
                    assert(sorted@.to_multiset().count(sorted@[b]) > 0);
                    assert(deduped.contains(sorted@[a]));
                    assert(deduped.contains(sorted@[b]));
                    let a2 = choose|k: int| 0 <= k < deduped.len() && deduped[k] == sorted@[a];
                    let b2 = choose|k: int| 0 <= k < deduped.len() && deduped[k] == sorted@[b];
                    assert(deduped[a2].name@ == deduped[b2].name@);
                    assert(a2 == b2);
                }
            }
            assert forall|name: Seq<char>| #[trigger] has_pack_named(sorted@, name)
                == has_pack_named(orig, name) by {
                if has_pack_named(sorted@, name) {
                    let k = choose|k: int|
                        0 <= k < sorted@.len() && #[trigger] sorted@[k].name@ == name;
                    assert(sorted@.contains(sorted@[k]));
                    assert(sorted@.to_multiset().count(sorted@[k]) > 0);
                    assert(deduped.contains(sorted@[k]));
                    let k2 = choose|w: int| 0 <= w < deduped.len() && deduped[w] == sorted@[k];
                    assert(deduped[k2].name@ == name);
                    assert(has_pack_named(deduped, name));
                }
                if has_pack_named(orig, name) {
                    assert(has_pack_named(deduped, name));
                    let k = choose|k: int|
                        0 <= k < deduped.len() && #[trigger] deduped[k].name@ == name;
                    assert(deduped.contains(deduped[k]));
                    assert(deduped.to_multiset().count(deduped[k]) > 0);
                    assert(sorted@.contains(deduped[k]));
                    let k2 = choose|w: int| 0 <= w < sorted@.len() && sorted@[w] == deduped[k];
                    assert(sorted@[k2].name@ == name);
                    assert(has_pack_named(sorted@, name));
                }
            }
            assert forall|k: int| 0 <= k < sorted@.len() implies sorted@[k] == last_pack_named(
                orig,
                sorted@[k].name@,
            ) by {
                assert(sorted@.contains(sorted@[k]));
                assert(sorted@.to_multiset().count(sorted@[k]) > 0);
                assert(deduped.contains(sorted@[k]));
                let k2 = choose|w: int| 0 <= w < deduped.len() && deduped[w] == sorted@[k];
                assert(deduped[k2] == last_pack_named(orig, deduped[k2].name@));
            }
        }
        PackSet { packs: sorted }
    }

    /// Ownership resolution: the name of the first pack, in registry order,
    /// whose root directory contains `absolute_file_path`; `None` when no
    /// pack's root does.
    pub fn for_file(&self, absolute_file_path: &str) -> (r: Option<String>)
        ensures
            match r {
                Some(name) => spec_for_file(self.packs@, absolute_file_path@) == Some(name@),
                None => spec_for_file(self.packs@, absolute_file_path@) is None,
            },
    {
        let n = self.packs.len();
        let mut i: usize = 0;
        proof {
            assert(self.packs@.skip(0) =~= self.packs@);
        }
        while i < n
            invariant
                0 <= i <= n,
                n == self.packs@.len(),
                spec_for_file(self.packs@.skip(i as int), absolute_file_path@) == spec_for_file(
                    self.packs@,
                    absolute_file_path@,
                ),
            decreases n - i,
        {
            let pack = &self.packs[i];
            let root = parent_dir(pack.yml.as_str());
            proof {
                assert(self.packs@.skip(i as int).first() == self.packs@[i as int]);
            }
            if is_dir_prefix(root.as_str(), absolute_file_path) {
                return Some(pack.name.clone());
            }
            proof {
                assert(self.packs@.skip(i as int).drop_first() =~= self.packs@.skip(i as int + 1));
            }
            i = i + 1;
        }
        proof {
            assert(self.packs@.skip(n as int) =~= Seq::<Pack>::empty());
        }
        None
    }

    /// Index lookup of a pack by name. Callers only pass names previously
    /// obtained from the registry, so the name must be present.
    pub fn for_pack(&self, pack_name: &str) -> (r: &Pack)
        requires
            has_pack_named(self.packs@, pack_name@),
        ensures
            r.name@ == pack_name@,
            self.packs@.contains(*r),
    {
        let n = self.packs.len();
        let mut i: usize = 0;
        while i < n
            invariant
                0 <= i <= n,
                n == self.packs@.len(),
                forall|k: int| 0 <= k < i ==> self.packs@[k].name@ != pack_name@,
            decreases n - i,
        {
            if matches!(
                str_cmp(self.packs[i].name.as_str(), pack_name),
                core::cmp::Ordering::Equal
            ) {
                return &self.packs[i];
            }
            i = i + 1;
        }
        proof {
            let w = choose|w: int|
                0 <= w < self.packs@.len() && #[trigger] self.packs@[w].name@ == pack_name@;
            assert(false);
        }
        vstd::pervasive::unreached()
    }
}

/// If no pack's root contains `path`, resolution reports no owner, and the
/// other way round.
pub proof fn lemma_for_file_none(packs: Seq<Pack>, path: Seq<char>)
    ensures
        (spec_for_file(packs, path) is None) == (forall|i: int|
            0 <= i < packs.len() ==> !owns_file(#[trigger] packs[i], path)),
    decreases packs.len(),
{
    if packs.len() > 0 {
        lemma_for_file_none(packs.drop_first(), path);
        if !owns_file(packs.first(), path) {
            assert forall|i: int|
                0 <= i < packs.len() && (forall|j: int|
                    0 <= j < packs.drop_first().len() ==> !owns_file(
                        #[trigger] packs.drop_first()[j],
                        path,
                    )) implies !owns_file(#[trigger] packs[i], path) by {
                if i > 0 {
                    assert(packs.drop_first()[i - 1] == packs[i]);
                }
            }
            assert forall|j: int|
                0 <= j < packs.drop_first().len() && (forall|i: int|
                    0 <= i < packs.len() ==> !owns_file(#[trigger] packs[i], path)) implies !owns_file(
                #[trigger] packs.drop_first()[j],
                path,
            ) by {
                assert(packs.drop_first()[j] == packs[j + 1]);
            }
        }
    }
}

/// When resolution names an owner, some pack with that name owns the file and
/// every earlier pack in registry order does not.
pub proof fn lemma_for_file_first_match(packs: Seq<Pack>, path: Seq<char>, name: Seq<char>)
    requires
        spec_for_file(packs, path) == Some(name),
    ensures
        exists|i: int|
            {
                &&& 0 <= i < packs.len()
                &&& #[trigger] packs[i].name@ == name
                &&& owns_file(packs[i], path)
                &&& forall|j: int| 0 <= j < i ==> !owns_file(#[trigger] packs[j], path)
            },
    decreases packs.len(),
{
    if packs.len() > 0 {
        if owns_file(packs.first(), path) {
            let i = 0int;
            assert(packs[i].name@ == name && owns_file(packs[i], path) && forall|j: int|
                0 <= j < i ==> !owns_file(#[trigger] packs[j], path));
        } else {
            lemma_for_file_first_match(packs.drop_first(), path, name);
            let i0 = choose|i: int|
                {
                    &&& 0 <= i < packs.drop_first().len()
                    &&& #[trigger] packs.drop_first()[i].name@ == name
                    &&& owns_file(packs.drop_first()[i], path)
                    &&& forall|j: int|
                        0 <= j < i ==> !owns_file(#[trigger] packs.drop_first()[j], path)
                };
            let i = i0 + 1;
            assert(packs[i] == packs.drop_first()[i0]);
            assert forall|j: int| 0 <= j < i implies !owns_file(#[trigger] packs[j], path) by {
                if j > 0 {
                    assert(packs.drop_first()[j - 1] == packs[j]);
                }
            }
            assert(packs[i].name@ == name && owns_file(packs[i], path) && forall|j: int|
                0 <= j < i ==> !owns_file(#[trigger] packs[j], path));
        }
    }
}

/// A nested pack shadows its ancestors: in a well-formed registry the owner
/// returned for a file has maximal name length among all packs whose root
/// contains that file, so a file under `packs/foo/bar` never resolves to
/// `packs/foo`.
pub proof fn lemma_for_file_most_specific(ps: PackSet, path: Seq<char>, name: Seq<char>)
    requires
        ps.wf(),
        spec_for_file(ps.packs@, path) == Some(name),
    ensures
        forall|j: int|
            0 <= j < ps.packs@.len() && owns_file(#[trigger] ps.packs@[j], path)
                ==> ps.packs@[j].name@.len() <= name.len(),
{
    lemma_for_file_first_match(ps.packs@, path, name);
    let i = choose|i: int|
        {
            &&& 0 <= i < ps.packs@.len()
            &&& #[trigger] ps.packs@[i].name@ == name
            &&& owns_file(ps.packs@[i], path)
            &&& forall|j: int| 0 <= j < i ==> !owns_file(#[trigger] ps.packs@[j], path)
        };
    assert forall|j: int|
        0 <= j < ps.packs@.len() && owns_file(#[trigger] ps.packs@[j], path) implies ps.packs@[j].name@.len()
        <= name.len() by {
        if j < i {
            assert(!owns_file(ps.packs@[j], path));
        } else if j > i {
            assert(registry_le(ps.packs@[i], ps.packs@[j]));
        }
    }
}

} // verus!
