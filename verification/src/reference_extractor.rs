//! The reference-resolution pipeline: turning each processed file's raw
//! symbol usages into fully resolved references, with pack ownership attached,
//! plus the package-name helpers used by the delegated extraction path.
use vstd::prelude::*;

use crate::pack_set::{spec_for_file, PackSet};
use crate::resolver::{files_for, resolve_spec, ConstantResolver};
use crate::util::{contains_seq, dir_prefix, is_dir_prefix, lex_le, str_contains, str_cmp};
use crate::SourceLocation;
use crate::Pack;

verus! {

/// A raw symbol usage found in one file: the literal name, the enclosing
/// namespace nesting at the usage site, and the source position.
#[derive(Debug, Clone)]
pub struct UnresolvedReference {
    pub name: String,
    pub namespace_path: Vec<String>,
    pub location: SourceLocation,
}

/// Spec-level image of an [`UnresolvedReference`].
pub ghost struct UnresolvedReferenceV {
    pub name: Seq<char>,
    pub namespace_path: Seq<Seq<char>>,
    pub location: SourceLocation,
}

impl View for UnresolvedReference {
    type V = UnresolvedReferenceV;

    open spec fn view(&self) -> UnresolvedReferenceV {
        UnresolvedReferenceV {
            name: self.name@,
            namespace_path: self.namespace_path.deep_view(),
            location: self.location,
        }
    }
}

/// A file's absolute path with its extracted raw usages; immutable once
/// produced, and the unit the content cache stores.
#[derive(Debug, Clone)]
pub struct ProcessedFile {
    pub absolute_path: String,
    pub unresolved_references: Vec<UnresolvedReference>,
}

/// Spec-level image of a [`ProcessedFile`].
pub ghost struct ProcessedFileV {
    pub absolute_path: Seq<char>,
    pub unresolved_references: Seq<UnresolvedReferenceV>,
}

impl View for ProcessedFile {
    type V = ProcessedFileV;

    open spec fn view(&self) -> ProcessedFileV {
        ProcessedFileV {
            absolute_path: self.absolute_path@,
            unresolved_references: Seq::new(
                self.unresolved_references@.len(),
                |i: int| self.unresolved_references@[i]@,
            ),
        }
    }
}

impl DeepView for ProcessedFile {
    type V = ProcessedFileV;

    open spec fn deep_view(&self) -> ProcessedFileV {
        self.view()
    }
}

/// A fully resolved reference: the qualified constant, where it is defined
/// (absent when unresolvable), and where it is used.
#[derive(Debug, Clone)]
pub struct Reference {
    pub constant_name: String,
    pub defining_pack_name: Option<String>,
    pub relative_defining_file: Option<String>,
    pub referencing_pack_name: String,
    pub relative_referencing_file: String,
    pub source_location: SourceLocation,
}

/// Spec-level image of a [`Reference`].
pub ghost struct ReferenceV {
    pub constant_name: Seq<char>,
    pub defining_pack_name: Option<Seq<char>>,
    pub relative_defining_file: Option<Seq<char>>,
    pub referencing_pack_name: Seq<char>,
    pub relative_referencing_file: Seq<char>,
    pub source_location: SourceLocation,
}

/// The view of an optional string.
pub open spec fn opt_view(o: Option<String>) -> Option<Seq<char>> {
    match o {
        Option::None => Option::None,
        Option::Some(s) => Option::Some(s@),
    }
}

impl View for Reference {
    type V = ReferenceV;

    open spec fn view(&self) -> ReferenceV {
        ReferenceV {
            constant_name: self.constant_name@,
            defining_pack_name: opt_view(self.defining_pack_name),
            relative_defining_file: opt_view(self.relative_defining_file),
            referencing_pack_name: self.referencing_pack_name@,
            relative_referencing_file: self.relative_referencing_file@,
            source_location: self.source_location,
        }
    }
}

/// The views of a list of references, element by element.
pub open spec fn refs_view(v: Seq<Reference>) -> Seq<ReferenceV> {
    Seq::new(v.len(), |i: int| v[i]@)
}

/// `p` made relative to the directory `root`: the part after `root/` when
/// `root` properly contains `p`, otherwise `p` unchanged.
pub open spec fn relative_to(root: Seq<char>, p: Seq<char>) -> Seq<char> {
    if root.len() > 0 && root.len() < p.len() && p.subrange(0, root.len() as int) == root && p[root.len() as int]
        == '/' {
        p.skip(root.len() as int + 1)
    } else {
        p
    }
}

/// Computes `relative_to`.
pub fn relative_of(root: &str, p: &str) -> (r: String)
    ensures
        r@ == relative_to(root@, p@),
{
    let rlen = root.unicode_len();
    let plen = p.unicode_len();
    if rlen > 0 && plen > rlen && is_dir_prefix(root, p) {
        proof {
            assert(p@ != root@) by {
                assert(p@.len() != root@.len());
            }
        }
        let sub = p.substring_char(rlen + 1, plen);
        let r = sub.to_owned();
        proof {
            assert(p@.subrange(rlen as int + 1, plen as int) =~= p@.skip(rlen as int + 1));
        }
        r
    } else {
        proof {
            if !(rlen > 0 && plen > rlen) {
            } else {
                assert(!dir_prefix(root@, p@));
                if p@.subrange(0, root@.len() as int) == root@ && p@[root@.len() as int] == '/' {
                    assert(dir_prefix(root@, p@));
                }
            }
        }
        let r = p.to_owned();
        r
    }
}

/// The references one raw usage expands to: one per defining file of the
/// innermost resolution, or a single unresolved record with no defining pack.
pub open spec fn refs_of_uref(
    u: UnresolvedReferenceV,
    abs_file: Seq<char>,
    referencing: Seq<char>,
    root: Seq<char>,
    packs: Seq<Pack>,
    defs: Seq<(Seq<char>, Seq<char>)>,
) -> Seq<ReferenceV> {
    match resolve_spec(defs, u.namespace_path, u.name) {
        Option::None => seq![
            ReferenceV {
                constant_name: u.name,
                defining_pack_name: Option::None,
                relative_defining_file: Option::None,
                referencing_pack_name: referencing,
                relative_referencing_file: relative_to(root, abs_file),
                source_location: u.location,
            },
        ],
        Option::Some(fq) => Seq::new(
            files_for(defs, fq).len(),
            |i: int|
                ReferenceV {
                    constant_name: fq,
                    defining_pack_name: spec_for_file(packs, files_for(defs, fq)[i]),
                    relative_defining_file: Option::Some(relative_to(root, files_for(defs, fq)[i])),
                    referencing_pack_name: referencing,
                    relative_referencing_file: relative_to(root, abs_file),
                    source_location: u.location,
                },
        ),
    }
}

/// The references of a prefix of one file's usages, in order.
pub open spec fn refs_of_urefs(
    us: Seq<UnresolvedReferenceV>,
    abs_file: Seq<char>,
    referencing: Seq<char>,
    root: Seq<char>,
    packs: Seq<Pack>,
    defs: Seq<(Seq<char>, Seq<char>)>,
) -> Seq<ReferenceV>
    decreases us.len(),
{
    if us.len() == 0 {
        Seq::empty()
    } else {
        refs_of_urefs(us.drop_last(), abs_file, referencing, root, packs, defs) + refs_of_uref(
            us.last(),
            abs_file,
            referencing,
            root,
            packs,
            defs,
        )
    }
}

/// The references of one processed file: empty when no pack owns the file.
pub open spec fn refs_of_file(
    f: ProcessedFileV,
    root: Seq<char>,
    packs: Seq<Pack>,
    defs: Seq<(Seq<char>, Seq<char>)>,
) -> Seq<ReferenceV> {
    match spec_for_file(packs, f.absolute_path) {
        Option::None => Seq::empty(),
        Option::Some(referencing) => refs_of_urefs(
            f.unresolved_references,
            f.absolute_path,
            referencing,
            root,
            packs,
            defs,
        ),
    }
}

/// The references of a whole run, file by file in input order.
pub open spec fn spec_all_references(
    files: Seq<ProcessedFileV>,
    root: Seq<char>,
    packs: Seq<Pack>,
    defs: Seq<(Seq<char>, Seq<char>)>,
) -> Seq<ReferenceV>
    decreases files.len(),
{
    if files.len() == 0 {
        Seq::empty()
    } else {
        spec_all_references(files.drop_last(), root, packs, defs) + refs_of_file(
            files.last(),
            root,
            packs,
            defs,
        )
    }
}

/// Resolves every raw usage of one processed file. Usages of a file no pack
/// owns yield nothing; an unresolvable usage yields a reference without a
/// defining pack, never an error.
pub fn references_for_file(
    file: &ProcessedFile,
    absolute_root: &str,
    pack_set: &PackSet,
    resolver: &ConstantResolver,
) -> (r: Vec<Reference>)
    ensures
        refs_view(r@) == refs_of_file(file@, absolute_root@, pack_set.packs@, resolver.defs_view()),
{
    let mut out: Vec<Reference> = Vec::new();
    let referencing = match pack_set.for_file(file.absolute_path.as_str()) {
        None => {
            proof {
                assert(refs_view(out@) =~= refs_of_file(
                    file@,
                    absolute_root@,
                    pack_set.packs@,
                    resolver.defs_view(),
                ));
            }
            return out;
        },
        Some(n) => n,
    };
    let rel_file = relative_of(absolute_root, file.absolute_path.as_str());
    let n = file.unresolved_references.len();
    let ghost urefs = file@.unresolved_references;
    let mut i: usize = 0;
    proof {
        assert(refs_view(out@) =~= refs_of_urefs(
            urefs.take(0),
            file@.absolute_path,
            referencing@,
            absolute_root@,
            pack_set.packs@,
            resolver.defs_view(),
        ));
    }
    while i < n
        invariant
            0 <= i <= n,
            n == file.unresolved_references@.len(),
            urefs == file@.unresolved_references,
            rel_file@ == relative_to(absolute_root@, file@.absolute_path),
            spec_for_file(pack_set.packs@, file@.absolute_path) == Some(referencing@),
            refs_view(out@) == refs_of_urefs(
                urefs.take(i as int),
                file@.absolute_path,
                referencing@,
                absolute_root@,
                pack_set.packs@,
                resolver.defs_view(),
            ),
        decreases n - i,
    {
        let u = &file.unresolved_references[i];
        let ghost base = refs_view(out@);
        proof {
            assert(urefs[i as int] == u@);
            assert(urefs.take(i as int + 1).drop_last() =~= urefs.take(i as int));
            assert(urefs.take(i as int + 1).last() == u@);
        }
        match resolver.resolve(u.name.as_str(), &u.namespace_path) {
            None => {
                let id = Reference {
                    constant_name: u.name.clone(),
                    defining_pack_name: None,
                    relative_defining_file: None,
                    referencing_pack_name: referencing.clone(),
                    relative_referencing_file: rel_file.clone(),
                    source_location: u.location,
                };
                proof {
                    assert(refs_view(out@.push(id)) =~= base.push(id@));
                    assert(base.push(id@) =~= base + refs_of_uref(
                        u@,
                        file@.absolute_path,
                        referencing@,
                        absolute_root@,
                        pack_set.packs@,
                        resolver.defs_view(),
                    ));
                }
                out.push(id);
            },
            Some(hit) => {
                let (fq, files) = hit;
                let m = files.len();
                let ghost one = refs_of_uref(
                    u@,
                    file@.absolute_path,
                    referencing@,
                    absolute_root@,
                    pack_set.packs@,
                    resolver.defs_view(),
                );
                let mut j: usize = 0;
                proof {
                    assert(one.subrange(0, 0) =~= Seq::<ReferenceV>::empty());
                    assert(refs_view(out@) =~= base + one.subrange(0, 0));
                }
                while j < m
                    invariant
                        0 <= j <= m,
                        m == files@.len(),
                        files.deep_view() == files_for(resolver.defs_view(), fq@),
                        resolve_spec(resolver.defs_view(), u@.namespace_path, u@.name) == Some(fq@),
                        one == refs_of_uref(
                            u@,
                            file@.absolute_path,
                            referencing@,
                            absolute_root@,
                            pack_set.packs@,
                            resolver.defs_view(),
                        ),
                        one.len() == m,
                        rel_file@ == relative_to(absolute_root@, file@.absolute_path),
                        refs_view(out@) == base + one.subrange(0, j as int),
                    decreases m - j,
                {
                    let df = &files[j];
                    proof {
                        assert(files.deep_view()[j as int] == df@);
                    }
                    let dp = pack_set.for_file(df.as_str());
                    let rel_def = relative_of(absolute_root, df.as_str());
                    let id = Reference {
                        constant_name: fq.clone(),
                        defining_pack_name: dp,
                        relative_defining_file: Some(rel_def),
                        referencing_pack_name: referencing.clone(),
                        relative_referencing_file: rel_file.clone(),
                        source_location: u.location,
                    };
                    proof {
                        assert(id@ == one[j as int]);
                        assert(refs_view(out@.push(id)) =~= refs_view(out@).push(id@));
                        assert(one.subrange(0, j as int + 1) =~= one.subrange(0, j as int).push(
                            one[j as int],
                        ));
                    }
                    out.push(id);
                    j = j + 1;
                }
                proof {
                    assert(one.subrange(0, m as int) =~= one);
                }
            },
        }
        i = i + 1;
    }
    proof {
        assert(urefs.take(n as int) =~= urefs);
    }
    out
}

/// The whole pipeline on already-processed files: resolves every usage of
/// every file against the resolver and the registry, concatenating per-file
/// results in input order. Failure-free by construction: files without an
/// owning pack contribute nothing and unresolvable usages stay unresolved.
pub fn get_all_references(
    absolute_root: &str,
    pack_set: &PackSet,
    resolver: &ConstantResolver,
    processed_files: &Vec<ProcessedFile>,
) -> (r: Vec<Reference>)
    ensures
        refs_view(r@) == spec_all_references(
            processed_files.deep_view(),
            absolute_root@,
            pack_set.packs@,
            resolver.defs_view(),
        ),
{
    let mut out: Vec<Reference> = Vec::new();
    let n = processed_files.len();
    let ghost fv = processed_files.deep_view();
    let mut i: usize = 0;
    proof {
        assert(refs_view(out@) =~= spec_all_references(
            fv.take(0),
            absolute_root@,
            pack_set.packs@,
            resolver.defs_view(),
        ));
    }
    while i < n
        invariant
            0 <= i <= n,
            n == processed_files@.len(),
            fv == processed_files.deep_view(),
            refs_view(out@) == spec_all_references(
                fv.take(i as int),
                absolute_root@,
                pack_set.packs@,
                resolver.defs_view(),
            ),
        decreases n - i,
    {
        let ghost base = refs_view(out@);
        let mut refs = references_for_file(
            &processed_files[i],
            absolute_root,
            pack_set,
            resolver,
        );
        proof {
            assert(fv[i as int] == processed_files@[i as int]@);
            assert(fv.take(i as int + 1).drop_last() =~= fv.take(i as int));
            assert(fv.take(i as int + 1).last() == fv[i as int]);
        }
        let ghost added = refs_view(refs@);
        proof {
            assert(refs_view(out@ + refs@) =~= base + added);
        }
        out.append(&mut refs);
        i = i + 1;
    }
    proof {
        assert(fv.take(n as int) =~= fv);
    }
    out
}


/// The names of the registry's packs, in registry order.
pub open spec fn pack_names_of(packs: Seq<Pack>) -> Seq<Seq<char>> {
    Seq::new(packs.len(), |i: int| packs[i].name@)
}

/// Relies on `<[String]>::sort`: an ascending, stable sort; the ordering of
/// `String` is lexicographic by character.
#[verifier::external_body]
fn sort_strings(v: &mut Vec<String>)
    ensures
        final(v)@.len() == old(v)@.len(),
        final(v).deep_view().to_multiset() == old(v).deep_view().to_multiset(),
        forall|i: int, j: int|
            0 <= i < j < final(v)@.len() ==> lex_le(
                final(v).deep_view()[i],
                final(v).deep_view()[j],
            ),
{
    v.sort();
}

/// The result of scanning sorted pack names against a file path, carrying the
/// best (longest, contained-as-substring) name found so far; the scan stops
/// at the first non-containing name after a containing one.
pub open spec fn find_fold(
    names: Seq<Seq<char>>,
    path: Seq<char>,
    best: Seq<char>,
    containing: bool,
) -> Seq<char>
    decreases names.len(),
{
    if names.len() == 0 {
        best
    } else if contains_seq(path, names.first()) {
        find_fold(
            names.drop_first(),
            path,
            if names.first().len() > best.len() {
                names.first()
            } else {
                best
            },
            true,
        )
    } else if containing {
        best
    } else {
        find_fold(names.drop_first(), path, best, false)
    }
}

/// The sorted pack names used by the delegated extraction path to attach
/// pack names to references by substring containment.
pub struct PackageNames {
    pub names: Vec<String>,
}

/// The extra fields attached to one reference by the injected callback:
/// the referencing and (when a defining file is known) defining pack names.
pub struct ExtraReferenceFields {
    pub referencing_pack_name: Option<String>,
    pub defining_pack_name: Option<String>,
}

impl PackageNames {
    /// Collects the registry's pack names and sorts them ascending.
    pub fn new(pack_set: &PackSet) -> (r: PackageNames)
        ensures
            r.names.deep_view().to_multiset() == pack_names_of(pack_set.packs@).to_multiset(),
            forall|i: int, j: int|
                0 <= i < j < r.names@.len() ==> lex_le(
                    r.names.deep_view()[i],
                    r.names.deep_view()[j],
                ),
    {
        let mut names: Vec<String> = Vec::new();
        let n = pack_set.packs.len();
        let mut i: usize = 0;
        proof {
            assert(names.deep_view() =~= pack_names_of(pack_set.packs@.take(0)));
        }
        while i < n
            invariant
                0 <= i <= n,
                n == pack_set.packs@.len(),
                names.deep_view() == pack_names_of(pack_set.packs@.take(i as int)),
            decreases n - i,
        {
            let ghost old_deep = names.deep_view();
            let nm = pack_set.packs[i].name.clone();
            names.push(nm);
            proof {
                assert(names.deep_view() =~= old_deep.push(pack_set.packs@[i as int].name@));
                assert(names.deep_view() =~= pack_names_of(pack_set.packs@.take(i as int + 1)));
            }
            i = i + 1;
        }
        proof {
            assert(pack_set.packs@.take(n as int) =~= pack_set.packs@);
        }
        sort_strings(&mut names);
        PackageNames { names }
    }

    /// The name attached to a file by the delegated path: the longest sorted
    /// pack name contained in the path as a substring, scanning in order and
    /// stopping at the first non-containing name once one contained; `"."`
    /// when no name is contained.
    pub fn find_pack_name(&self, file_path: &str) -> (r: Option<String>)
        ensures
            r matches Some(s) && s@ == find_fold(
                self.names.deep_view(),
                file_path@,
                seq!['.'],
                false,
            ),
    {
        let mut best = String::from_str(".");
        let mut containing: bool = false;
        proof {
            reveal_strlit(".");
            assert(best@ =~= seq!['.']);
            assert(self.names.deep_view().skip(0) =~= self.names.deep_view());
        }
        let n = self.names.len();
        let mut i: usize = 0;
        while i < n
            invariant
                0 <= i <= n,
                n == self.names@.len(),
                find_fold(
                    self.names.deep_view().skip(i as int),
                    file_path@,
                    best@,
                    containing,
                ) == find_fold(self.names.deep_view(), file_path@, seq!['.'], false),
            decreases n - i,
        {
            let pn = &self.names[i];
            proof {
                assert(self.names.deep_view().skip(i as int).first() == pn@);
                assert(self.names.deep_view().skip(i as int).drop_first()
                    =~= self.names.deep_view().skip(i as int + 1));
            }
            if str_contains(file_path, pn.as_str()) {
                if pn.as_str().unicode_len() > best.as_str().unicode_len() {
                    best = pn.clone();
                }
                containing = true;
            } else {
                if containing {
                    return Some(best);
                }
            }
            i = i + 1;
        }
        proof {
            assert(self.names.deep_view().skip(n as int) =~= Seq::<Seq<char>>::empty());
        }
        Some(best)
    }

    /// The injected per-reference callback's fields: pack names looked up by
    /// `find_pack_name` for the referencing and optional defining file.
    pub fn extra_reference_fields(
        &self,
        relative_referencing_file: &str,
        relative_defining_file: Option<&str>,
    ) -> (r: ExtraReferenceFields)
        ensures
            r.referencing_pack_name matches Some(s) && s@ == find_fold(
                self.names.deep_view(),
                relative_referencing_file@,
                seq!['.'],
                false,
            ),
            match relative_defining_file {
                Option::Some(df) => r.defining_pack_name matches Some(s) && s@ == find_fold(
                    self.names.deep_view(),
                    df@,
                    seq!['.'],
                    false,
                ),
                Option::None => r.defining_pack_name is None,
            },
    {
        let referencing_pack_name = self.find_pack_name(relative_referencing_file);
        let defining_pack_name = match relative_defining_file {
            Some(df) => self.find_pack_name(df),
            None => None,
        };
        ExtraReferenceFields { referencing_pack_name, defining_pack_name }
    }
}


/// The pairs of a list of string pairs, element by element.
pub open spec fn pairs_view(v: Seq<(String, String)>) -> Seq<(Seq<char>, Seq<char>)> {
    Seq::new(v.len(), |i: int| (v[i].0@, v[i].1@))
}

/// An association list after binding `k` to `v`: the first entry keyed `k`
/// is replaced, or a new entry is appended when none exists.
pub open spec fn upsert(
    m: Seq<(Seq<char>, Seq<char>)>,
    k: Seq<char>,
    v: Seq<char>,
) -> Seq<(Seq<char>, Seq<char>)>
    decreases m.len(),
{
    if m.len() == 0 {
        seq![(k, v)]
    } else if m.first().0 == k {
        seq![(k, v)] + m.drop_first()
    } else {
        seq![m.first()] + upsert(m.drop_first(), k, v)
    }
}

/// Replacing the first matching entry realizes `upsert`.
proof fn lemma_pair_upsert_mid(m: Seq<(Seq<char>, Seq<char>)>, k: Seq<char>, v: Seq<char>, j: int)
    requires
        0 <= j < m.len(),
        m[j].0 == k,
        forall|t: int| 0 <= t < j ==> m[t].0 != k,
    ensures
        upsert(m, k, v) == m.update(j, (k, v)),
    decreases j,
{
    if j == 0 {
        assert(upsert(m, k, v) =~= m.update(0, (k, v)));
    } else {
        assert(m.first().0 != k);
        assert forall|t: int| 0 <= t < j - 1 implies m.drop_first()[t].0 != k by {
            assert(m.drop_first()[t] == m[t + 1]);
        }
        assert(m.drop_first()[j - 1] == m[j]);
        lemma_pair_upsert_mid(m.drop_first(), k, v, j - 1);
        assert(seq![m.first()] + m.drop_first().update(j - 1, (k, v)) =~= m.update(j, (k, v)));
    }
}

/// Appending a fresh entry realizes `upsert` when the key is new.
proof fn lemma_pair_upsert_end(m: Seq<(Seq<char>, Seq<char>)>, k: Seq<char>, v: Seq<char>)
    requires
        forall|t: int| 0 <= t < m.len() ==> m[t].0 != k,
    ensures
        upsert(m, k, v) == m.push((k, v)),
    decreases m.len(),
{
    if m.len() == 0 {
        assert(upsert(m, k, v) =~= m.push((k, v)));
    } else {
        assert(m.first().0 != k);
        assert forall|t: int| 0 <= t < m.drop_first().len() implies m.drop_first()[t].0 != k by {
            assert(m.drop_first()[t] == m[t + 1]);
        }
        lemma_pair_upsert_end(m.drop_first(), k, v);
        assert(seq![m.first()] + m.drop_first().push((k, v)) =~= m.push((k, v)));
    }
}

/// Binds `key` to `val` in the map, replacing an earlier binding of the key.
fn upsert_entry(map: &mut Vec<(String, String)>, key: String, val: String)
    ensures
        pairs_view(final(map)@) == upsert(pairs_view(old(map)@), key@, val@),
{
    let ghost kv = key@;
    let ghost vv = val@;
    let entry = (key, val);
    let ghost esnap = entry;
    proof {
        assert(esnap.0@ == kv);
        assert(esnap.1@ == vv);
    }
    let n = map.len();
    let mut i: usize = 0;
    let mut found: bool = false;
    while i < n && !found
        invariant
            0 <= i <= n,
            n == map@.len(),
            entry == esnap,
            esnap.0@ == kv,
            found ==> i < n && map@[i as int].0@ == kv,
            forall|t: int| 0 <= t < i ==> map@[t].0@ != kv,
        decreases n - i + (if found { 0int } else { 1int }),
    {
        if matches!(str_cmp(map[i].0.as_str(), entry.0.as_str()), core::cmp::Ordering::Equal) {
            found = true;
        } else {
            i = i + 1;
        }
    }
    let ghost old_view = pairs_view(map@);
    let ghost old_entries = map@;
    if found {
        map.set(i, entry);
        proof {
            lemma_pair_upsert_mid(old_view, kv, vv, i as int);
            assert(map@ == old_entries.update(i as int, esnap));
            assert(pairs_view(map@) =~= old_view.update(i as int, (kv, vv))) by {
                assert forall|t: int|
                    0 <= t < pairs_view(map@).len() implies #[trigger] pairs_view(map@)[t]
                    == old_view.update(i as int, (kv, vv))[t] by {
                    if t == i {
                        assert(map@[t] == esnap);
                    } else {
                        assert(map@[t] == old_entries[t]);
                    }
                }
            }
        }
    } else {
        map.push(entry);
        proof {
            lemma_pair_upsert_end(old_view, kv, vv);
            assert(map@ == old_entries.push(esnap));
            assert(pairs_view(map@) =~= old_view.push((kv, vv))) by {
                assert forall|t: int|
                    0 <= t < pairs_view(map@).len() implies #[trigger] pairs_view(map@)[t]
                    == old_view.push((kv, vv))[t] by {
                    if t == old_entries.len() {
                        assert(map@[t] == esnap);
                    } else {
                        assert(map@[t] == old_entries[t]);
                    }
                }
            }
        }
    }
}

/// A custom autoload root's namespace: `::Object` stands for the global
/// namespace and becomes the empty prefix.
pub open spec fn normalize_ns(ns: Seq<char>) -> Seq<char> {
    if ns == "::Object"@ {
        Seq::empty()
    } else {
        ns
    }
}

/// The autoload map of the packs' default roots alone, each bound to the
/// global (empty) namespace prefix, in order.
pub open spec fn autoload_defaults(defaults: Seq<Seq<char>>) -> Seq<(Seq<char>, Seq<char>)>
    decreases defaults.len(),
{
    if defaults.len() == 0 {
        Seq::empty()
    } else {
        upsert(autoload_defaults(defaults.drop_last()), defaults.last(), Seq::empty())
    }
}

/// The full autoload map: the default roots first, then the configured
/// custom roots, later bindings replacing earlier ones for the same path.
pub open spec fn autoload_map(
    defaults: Seq<Seq<char>>,
    customs: Seq<(Seq<char>, Seq<char>)>,
) -> Seq<(Seq<char>, Seq<char>)>
    decreases customs.len(),
{
    if customs.len() == 0 {
        autoload_defaults(defaults)
    } else {
        upsert(
            autoload_map(defaults, customs.drop_last()),
            customs.last().0,
            normalize_ns(customs.last().1),
        )
    }
}

/// Builds the map from autoload directory to namespace prefix: every pack
/// default root maps to the global namespace, and every configured custom
/// root (already expanded to concrete directories) maps to its namespace,
/// with `::Object` standing for the global namespace.
pub fn autoload_paths_from_config(
    default_roots: Vec<String>,
    custom_roots: Vec<(String, String)>,
) -> (r: Vec<(String, String)>)
    ensures
        pairs_view(r@) == autoload_map(default_roots.deep_view(), pairs_view(custom_roots@)),
{
    let ghost dv = default_roots.deep_view();
    let ghost cv = pairs_view(custom_roots@);
    let mut map: Vec<(String, String)> = Vec::new();
    let mut defaults = default_roots;
    let n = defaults.len();
    let mut i: usize = 0;
    proof {
        assert(pairs_view(map@) =~= autoload_defaults(dv.take(0)));
        assert(defaults.deep_view() =~= dv.take(0).add(dv.skip(0)));
    }
    while i < n
        invariant
            0 <= i <= n,
            n == dv.len(),
            defaults@.len() == n - i,
            forall|t: int| 0 <= t < n - i ==> defaults@[t]@ == dv[i + t],
            pairs_view(map@) == autoload_defaults(dv.take(i as int)),
        decreases n - i,
    {
        let d = defaults.remove(0);
        proof {
            assert(d@ == dv[i as int]);
            assert(dv.take(i as int + 1).drop_last() =~= dv.take(i as int));
            assert(dv.take(i as int + 1).last() == dv[i as int]);
        }
        let empty_ns = String::new();
        upsert_entry(&mut map, d, empty_ns);
        i = i + 1;
    }
    proof {
        assert(dv.take(n as int) =~= dv);
    }
    let mut customs = custom_roots;
    let m = customs.len();
    let mut j: usize = 0;
    proof {
        assert(cv.take(0) =~= Seq::<(Seq<char>, Seq<char>)>::empty());
        assert(autoload_map(dv, cv.take(0)) == autoload_defaults(dv));
    }
    while j < m
        invariant
            0 <= j <= m,
            m == cv.len(),
            customs@.len() == m - j,
            forall|t: int|
                0 <= t < m - j ==> (customs@[t].0@ == cv[j + t].0 && customs@[t].1@ == cv[j
                    + t].1),
            pairs_view(map@) == autoload_map(dv, cv.take(j as int)),
        decreases m - j,
    {
        let c = customs.remove(0);
        let (path, ns) = c;
        proof {
            reveal_strlit("::Object");
            assert(path@ == cv[j as int].0);
            assert(ns@ == cv[j as int].1);
            assert(cv.take(j as int + 1).drop_last() =~= cv.take(j as int));
            assert(cv.take(j as int + 1).last() == cv[j as int]);
        }
        let ns2 = if matches!(str_cmp(ns.as_str(), "::Object"), core::cmp::Ordering::Equal) {
            let e = String::new();
            e
        } else {
            ns
        };
        proof {
            assert(ns2@ == normalize_ns(cv[j as int].1));
        }
        upsert_entry(&mut map, path, ns2);
        j = j + 1;
    }
    proof {
        assert(cv.take(m as int) =~= cv);
    }
    map
}

/// One reference as handed back by the delegated extraction capability,
/// with the injected callback's extra fields already split out.
#[derive(Debug, Clone)]
pub struct ExtractedReference {
    pub constant_name: String,
    pub relative_defining_file: Option<String>,
    pub relative_referencing_file: String,
    pub source_location: SourceLocation,
    pub referencing_pack_name: Option<String>,
    pub defining_pack_name: Option<String>,
}

/// Spec-level image of an [`ExtractedReference`].
pub ghost struct ExtractedReferenceV {
    pub constant_name: Seq<char>,
    pub relative_defining_file: Option<Seq<char>>,
    pub relative_referencing_file: Seq<char>,
    pub source_location: SourceLocation,
    pub referencing_pack_name: Option<Seq<char>>,
    pub defining_pack_name: Option<Seq<char>>,
}

impl View for ExtractedReference {
    type V = ExtractedReferenceV;

    open spec fn view(&self) -> ExtractedReferenceV {
        ExtractedReferenceV {
            constant_name: self.constant_name@,
            relative_defining_file: opt_view(self.relative_defining_file),
            relative_referencing_file: self.relative_referencing_file@,
            source_location: self.source_location,
            referencing_pack_name: opt_view(self.referencing_pack_name),
            defining_pack_name: opt_view(self.defining_pack_name),
        }
    }
}

impl DeepView for ExtractedReference {
    type V = ExtractedReferenceV;

    open spec fn deep_view(&self) -> ExtractedReferenceV {
        self.view()
    }
}

/// The references kept from a delegated extraction: one per extracted record
/// that carries a referencing pack name; the others are dropped.
pub open spec fn refs_from_extraction(es: Seq<ExtractedReferenceV>) -> Seq<ReferenceV>
    decreases es.len(),
{
    if es.len() == 0 {
        Seq::empty()
    } else {
        refs_from_extraction(es.drop_last()) + (match es.last().referencing_pack_name {
            Option::None => Seq::empty(),
            Option::Some(rp) => seq![
                ReferenceV {
                    constant_name: es.last().constant_name,
                    defining_pack_name: es.last().defining_pack_name,
                    relative_defining_file: es.last().relative_defining_file,
                    referencing_pack_name: rp,
                    relative_referencing_file: es.last().relative_referencing_file,
                    source_location: es.last().source_location,
                },
            ],
        })
    }
}

/// Assembles references from a delegated extraction's records: records
/// without a referencing pack name are dropped, every other record becomes
/// one reference carrying the callback-attached pack names.
pub fn get_all_references_new(extracted: Vec<ExtractedReference>) -> (r: Vec<Reference>)
    ensures
        refs_view(r@) == refs_from_extraction(extracted.deep_view()),
{
    let ghost ev = extracted.deep_view();
    let mut out: Vec<Reference> = Vec::new();
    let mut rest = extracted;
    let n = rest.len();
    let mut i: usize = 0;
    proof {
        assert(refs_view(out@) =~= refs_from_extraction(ev.take(0)));
    }
    while i < n
        invariant
            0 <= i <= n,
            n == ev.len(),
            rest@.len() == n - i,
            forall|t: int| 0 <= t < n - i ==> rest@[t]@ == ev[i + t],
            refs_view(out@) == refs_from_extraction(ev.take(i as int)),
        decreases n - i,
    {
        let e = rest.remove(0);
        let ghost esv = e@;
        proof {
            assert(esv == ev[i as int]);
            assert(ev.take(i as int + 1).drop_last() =~= ev.take(i as int));
            assert(ev.take(i as int + 1).last() == ev[i as int]);
        }
        match e.referencing_pack_name {
            None => {
                proof {
                    assert(refs_view(out@) =~= refs_view(out@) + Seq::<ReferenceV>::empty());
                }
            },
            Some(rp) => {
                let id = Reference {
                    constant_name: e.constant_name,
                    defining_pack_name: e.defining_pack_name,
                    relative_defining_file: e.relative_defining_file,
                    referencing_pack_name: rp,
                    relative_referencing_file: e.relative_referencing_file,
                    source_location: e.source_location,
                };
                let ghost base = refs_view(out@);
                proof {
                    assert(id@ == ReferenceV {
                        constant_name: esv.constant_name,
                        defining_pack_name: esv.defining_pack_name,
                        relative_defining_file: esv.relative_defining_file,
                        referencing_pack_name: esv.referencing_pack_name->0,
                        relative_referencing_file: esv.relative_referencing_file,
                        source_location: esv.source_location,
                    });
                }
                out.push(id);
                proof {
                    assert(refs_view(out@) =~= base.push(id@));
                }
            },
        }
        i = i + 1;
    }
    proof {
        assert(ev.take(n as int) =~= ev);
    }
    out
}

} // verus!
