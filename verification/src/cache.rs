//! The content cache: maps a file's identity (absolute path plus a content
//! fingerprint) to its previously extracted raw usages, so unchanged files are
//! never re-extracted. Entries are independent per file.
use vstd::prelude::*;

use crate::reference_extractor::{
    spec_all_references, ProcessedFileV, UnresolvedReference, UnresolvedReferenceV,
};
use crate::util::str_cmp;
use crate::Pack;

verus! {

/// One entry per file: absolute path, content fingerprint, extracted usages.
pub struct ContentCache {
    pub entries: Vec<(String, u64, Vec<UnresolvedReference>)>,
}

/// The views of a list of raw usages, element by element.
pub open spec fn urefs_view(v: Seq<UnresolvedReference>) -> Seq<UnresolvedReferenceV> {
    Seq::new(v.len(), |j: int| v[j]@)
}

/// The cache as a sequence of (path, fingerprint, usages) triples.
pub open spec fn cache_view(entries: Seq<(String, u64, Vec<UnresolvedReference>)>) -> Seq<
    (Seq<char>, u64, Seq<UnresolvedReferenceV>),
> {
    Seq::new(entries.len(), |i: int| (entries[i].0@, entries[i].1, urefs_view(entries[i].2@)))
}

/// What a lookup of `path` at fingerprint `fp` yields: the usages of the
/// first entry for that path, provided its fingerprint matches.
pub open spec fn lookup_spec(
    m: Seq<(Seq<char>, u64, Seq<UnresolvedReferenceV>)>,
    path: Seq<char>,
    fp: u64,
) -> Option<Seq<UnresolvedReferenceV>>
    decreases m.len(),
{
    if m.len() == 0 {
        Option::None
    } else if m.first().0 == path {
        if m.first().1 == fp {
            Option::Some(m.first().2)
        } else {
            Option::None
        }
    } else {
        lookup_spec(m.drop_first(), path, fp)
    }
}

/// The cache after storing `(path, fp, refs)`: the first entry for `path` is
/// replaced, or a new entry is appended when none exists.
pub open spec fn cache_upsert(
    m: Seq<(Seq<char>, u64, Seq<UnresolvedReferenceV>)>,
    path: Seq<char>,
    fp: u64,
    refs: Seq<UnresolvedReferenceV>,
) -> Seq<(Seq<char>, u64, Seq<UnresolvedReferenceV>)>
    decreases m.len(),
{
    if m.len() == 0 {
        seq![(path, fp, refs)]
    } else if m.first().0 == path {
        seq![(path, fp, refs)] + m.drop_first()
    } else {
        seq![m.first()] + cache_upsert(m.drop_first(), path, fp, refs)
    }
}

/// A store is visible to a lookup of the same path and fingerprint.
pub proof fn lemma_lookup_after_store(
    m: Seq<(Seq<char>, u64, Seq<UnresolvedReferenceV>)>,
    path: Seq<char>,
    fp: u64,
    refs: Seq<UnresolvedReferenceV>,
)
    ensures
        lookup_spec(cache_upsert(m, path, fp, refs), path, fp) == Some(refs),
    decreases m.len(),
{
    if m.len() == 0 {
        let m2 = cache_upsert(m, path, fp, refs);
        assert(m2.first() == (path, fp, refs));
    } else if m.first().0 == path {
        let m2 = cache_upsert(m, path, fp, refs);
        assert(m2.first() == (path, fp, refs));
    } else {
        lemma_lookup_after_store(m.drop_first(), path, fp, refs);
        let m2 = cache_upsert(m, path, fp, refs);
        assert(m2.first() == m.first());
        assert(m2.drop_first() =~= cache_upsert(m.drop_first(), path, fp, refs));
    }
}

/// Population for one file never touches another's entry: a store for one
/// path leaves lookups of every other path unchanged.
pub proof fn lemma_store_independent(
    m: Seq<(Seq<char>, u64, Seq<UnresolvedReferenceV>)>,
    path: Seq<char>,
    fp: u64,
    refs: Seq<UnresolvedReferenceV>,
    other: Seq<char>,
    other_fp: u64,
)
    requires
        other != path,
    ensures
        lookup_spec(cache_upsert(m, path, fp, refs), other, other_fp) == lookup_spec(
            m,
            other,
            other_fp,
        ),
    decreases m.len(),
{
    let m2 = cache_upsert(m, path, fp, refs);
    if m.len() == 0 {
        assert(m2 == seq![(path, fp, refs)]);
        assert(m2.first().0 != other);
        assert(m2.drop_first() =~= Seq::<(Seq<char>, u64, Seq<UnresolvedReferenceV>)>::empty());
        assert(lookup_spec(m2, other, other_fp) == lookup_spec(m2.drop_first(), other, other_fp));
        assert(lookup_spec(m2.drop_first(), other, other_fp) is None);
        assert(lookup_spec(m, other, other_fp) is None);
    } else if m.first().0 == path {
        assert(m2 == seq![(path, fp, refs)] + m.drop_first());
        assert(m2.first() == (path, fp, refs));
        assert(m2.first().0 != other);
        assert(m2.drop_first() =~= m.drop_first());
        assert(lookup_spec(m2, other, other_fp) == lookup_spec(m.drop_first(), other, other_fp));
        assert(m.first().0 != other);
        assert(lookup_spec(m, other, other_fp) == lookup_spec(m.drop_first(), other, other_fp));
    } else {
        lemma_store_independent(m.drop_first(), path, fp, refs, other, other_fp);
        assert(m2 == seq![m.first()] + cache_upsert(m.drop_first(), path, fp, refs));
        assert(m2.first() == m.first());
        assert(m2.drop_first() =~= cache_upsert(m.drop_first(), path, fp, refs));
        if m.first().0 == other {
            assert(lookup_spec(m2, other, other_fp) == lookup_spec(m, other, other_fp));
        } else {
            assert(lookup_spec(m2, other, other_fp) == lookup_spec(m2.drop_first(), other, other_fp));
            assert(lookup_spec(m, other, other_fp) == lookup_spec(m.drop_first(), other, other_fp));
        }
    }
}

impl ContentCache {
    pub open spec fn view_spec(&self) -> Seq<(Seq<char>, u64, Seq<UnresolvedReferenceV>)> {
        cache_view(self.entries@)
    }

    /// An empty cache: every lookup misses.
    pub fn new() -> (r: ContentCache)
        ensures
            r.view_spec() =~= Seq::<(Seq<char>, u64, Seq<UnresolvedReferenceV>)>::empty(),
    {
        ContentCache { entries: Vec::new() }
    }

    /// Looks up `path` at fingerprint `fp`: the index of its entry on a hit,
    /// so the stored usages can be read in place.
    pub fn lookup(&self, path: &str, fp: u64) -> (r: Option<usize>)
        ensures
            match r {
                Some(i) => {
                    &&& i < self.entries@.len()
                    &&& self.entries@[i as int].0@ == path@
                    &&& self.entries@[i as int].1 == fp
                    &&& lookup_spec(self.view_spec(), path@, fp) == Some(
                        self.view_spec()[i as int].2,
                    )
                },
                None => lookup_spec(self.view_spec(), path@, fp) is None,
            },
    {
        let n = self.entries.len();
        let mut i: usize = 0;
        proof {
            assert(self.view_spec().skip(0) =~= self.view_spec());
        }
        while i < n
            invariant
                0 <= i <= n,
                n == self.entries@.len(),
                lookup_spec(self.view_spec().skip(i as int), path@, fp) == lookup_spec(
                    self.view_spec(),
                    path@,
                    fp,
                ),
            decreases n - i,
        {
            proof {
                assert(self.view_spec().skip(i as int).first() == self.view_spec()[i as int]);
                assert(self.view_spec().skip(i as int).drop_first() =~= self.view_spec().skip(
                    i as int + 1,
                ));
            }
            if matches!(str_cmp(self.entries[i].0.as_str(), path), core::cmp::Ordering::Equal) {
                if self.entries[i].1 == fp {
                    return Some(i);
                } else {
                    return None;
                }
            }
            i = i + 1;
        }
        proof {
            assert(self.view_spec().skip(n as int) =~= Seq::<
                (Seq<char>, u64, Seq<UnresolvedReferenceV>),
            >::empty());
        }
        None
    }

    /// Stores the extraction result for `path` at fingerprint `fp`, replacing
    /// any earlier entry for that path.
    pub fn store(&mut self, path: String, fp: u64, refs: Vec<UnresolvedReference>)
        ensures
            final(self).view_spec() == cache_upsert(
                old(self).view_spec(),
                path@,
                fp,
                urefs_view(refs@),
            ),
    {
        let ghost rv = urefs_view(refs@);
        let ghost pv = path@;
        let entry = (path, fp, refs);
        let ghost esnap = entry;
        proof {
            assert(esnap.0@ == pv);
            assert(esnap.1 == fp);
            assert(urefs_view(esnap.2@) == rv);
        }
        let n = self.entries.len();
        let mut i: usize = 0;
        let mut found: bool = false;
        while i < n && !found
            invariant
                0 <= i <= n,
                n == self.entries@.len(),
                entry == esnap,
                esnap.0@ == pv,
                found ==> i < n && self.entries@[i as int].0@ == pv,
                forall|k: int| 0 <= k < i ==> self.entries@[k].0@ != pv,
            decreases n - i + (if found { 0int } else { 1int }),
        {
            if matches!(
                str_cmp(self.entries[i].0.as_str(), entry.0.as_str()),
                core::cmp::Ordering::Equal
            ) {
                found = true;
            } else {
                i = i + 1;
            }
        }
        let ghost old_view = self.view_spec();
        let ghost old_entries = self.entries@;
        if found {
            self.entries.set(i, entry);
            proof {
                lemma_upsert_mid(old_view, pv, fp, rv, i as int);
                assert(self.entries@ == old_entries.update(i as int, esnap));
                assert(self.view_spec() =~= old_view.update(i as int, (pv, fp, rv))) by {
                    assert forall|k: int|
                        0 <= k < self.view_spec().len() implies #[trigger] self.view_spec()[k]
                        == old_view.update(i as int, (pv, fp, rv))[k] by {
                        if k == i {
                            assert(self.entries@[k] == esnap);
                            assert(self.view_spec()[k].2 == urefs_view(esnap.2@));
                        } else {
                            assert(self.entries@[k] == old_entries[k]);
                            assert(self.view_spec()[k].2 == old_view[k].2);
                        }
                    }
                }
            }
        } else {
            self.entries.push(entry);
            proof {
                lemma_upsert_end(old_view, pv, fp, rv);
                assert(self.entries@ == old_entries.push(esnap));
                assert(self.view_spec() =~= old_view.push((pv, fp, rv))) by {
                    assert forall|k: int|
                        0 <= k < self.view_spec().len() implies #[trigger] self.view_spec()[k]
                        == old_view.push((pv, fp, rv))[k] by {
                        if k == old_entries.len() {
                            assert(self.entries@[k] == esnap);
                            assert(self.view_spec()[k].2 == urefs_view(esnap.2@));
                        } else {
                            assert(self.entries@[k] == old_entries[k]);
                            assert(self.view_spec()[k].2 == old_view[k].2);
                        }
                    }
                }
            }
        }
    }
}

/// Replacing the first matching entry realizes `cache_upsert`.
proof fn lemma_upsert_mid(
    m: Seq<(Seq<char>, u64, Seq<UnresolvedReferenceV>)>,
    path: Seq<char>,
    fp: u64,
    refs: Seq<UnresolvedReferenceV>,
    i: int,
)
    requires
        0 <= i < m.len(),
        m[i].0 == path,
        forall|k: int| 0 <= k < i ==> m[k].0 != path,
    ensures
        cache_upsert(m, path, fp, refs) == m.update(i, (path, fp, refs)),
    decreases i,
{
    if i == 0 {
        assert(cache_upsert(m, path, fp, refs) =~= m.update(0, (path, fp, refs)));
    } else {
        assert(m.first().0 != path);
        assert forall|k: int| 0 <= k < i - 1 implies m.drop_first()[k].0 != path by {
            assert(m.drop_first()[k] == m[k + 1]);
        }
        assert(m.drop_first()[i - 1] == m[i]);
        lemma_upsert_mid(m.drop_first(), path, fp, refs, i - 1);
        assert(cache_upsert(m, path, fp, refs) == seq![m.first()] + m.drop_first().update(
            i - 1,
            (path, fp, refs),
        ));
        assert(seq![m.first()] + m.drop_first().update(i - 1, (path, fp, refs)) =~= m.update(
            i,
            (path, fp, refs),
        ));
    }
}

/// Appending a fresh entry realizes `cache_upsert` when the path is new.
proof fn lemma_upsert_end(
    m: Seq<(Seq<char>, u64, Seq<UnresolvedReferenceV>)>,
    path: Seq<char>,
    fp: u64,
    refs: Seq<UnresolvedReferenceV>,
)
    requires
        forall|k: int| 0 <= k < m.len() ==> m[k].0 != path,
    ensures
        cache_upsert(m, path, fp, refs) == m.push((path, fp, refs)),
    decreases m.len(),
{
    if m.len() == 0 {
        assert(cache_upsert(m, path, fp, refs) =~= m.push((path, fp, refs)));
    } else {
        assert(m.first().0 != path);
        assert forall|k: int| 0 <= k < m.drop_first().len() implies m.drop_first()[k].0 != path by {
            assert(m.drop_first()[k] == m[k + 1]);
        }
        lemma_upsert_end(m.drop_first(), path, fp, refs);
        assert(seq![m.first()] + m.drop_first().push((path, fp, refs)) =~= m.push(
            (path, fp, refs),
        ));
    }
}

/// With a warm cache, a run over an unchanged file set equals the cold run:
/// if every entry hit at a file's path and current fingerprint stores exactly
/// the usages extraction yields for that file, then serving files from the
/// cache yields the same references as extracting them all afresh.
pub proof fn lemma_warm_cache_equivalence(
    cache: Seq<(Seq<char>, u64, Seq<UnresolvedReferenceV>)>,
    files: Seq<ProcessedFileV>,
    fps: Seq<u64>,
    root: Seq<char>,
    packs: Seq<Pack>,
    defs: Seq<(Seq<char>, Seq<char>)>,
)
    requires
        fps.len() == files.len(),
        forall|i: int|
            0 <= i < files.len() ==> match lookup_spec(
                cache,
                (#[trigger] files[i]).absolute_path,
                fps[i],
            ) {
                Option::Some(rs) => rs == files[i].unresolved_references,
                Option::None => true,
            },
    ensures
        spec_all_references(
            Seq::new(
                files.len(),
                |i: int|
                    ProcessedFileV {
                        absolute_path: files[i].absolute_path,
                        unresolved_references: match lookup_spec(
                            cache,
                            files[i].absolute_path,
                            fps[i],
                        ) {
                            Option::Some(rs) => rs,
                            Option::None => files[i].unresolved_references,
                        },
                    },
            ),
            root,
            packs,
            defs,
        ) == spec_all_references(files, root, packs, defs),
{
    let served = Seq::new(
        files.len(),
        |i: int|
            ProcessedFileV {
                absolute_path: files[i].absolute_path,
                unresolved_references: match lookup_spec(cache, files[i].absolute_path, fps[i]) {
                    Option::Some(rs) => rs,
                    Option::None => files[i].unresolved_references,
                },
            },
    );
    assert(served =~= files);
}

} // verus!
