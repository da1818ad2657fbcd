//! Constant resolution: mapping a referenced name plus its enclosing
//! namespace nesting to a fully qualified name and its defining files,
//! searching from the innermost enclosing namespace outward.
use vstd::prelude::*;

use crate::reference_extractor::{pairs_view, relative_of, relative_to};
use crate::util::{dir_prefix, is_dir_prefix, str_cmp};

verus! {

/// The `::`-prefixed fully qualified prefix of a namespace nesting:
/// `[]` gives `::`, `[Foo, Bar]` gives `::Foo::Bar::`.
pub open spec fn fq_prefix(ns: Seq<Seq<char>>) -> Seq<char>
    decreases ns.len(),
{
    if ns.len() == 0 {
        seq![':', ':']
    } else {
        fq_prefix(ns.drop_last()) + ns.last() + seq![':', ':']
    }
}

/// The fully qualified name of `name` inside the nesting `ns`.
pub open spec fn fq_name(ns: Seq<Seq<char>>, name: Seq<char>) -> Seq<char> {
    fq_prefix(ns) + name
}

/// The defining files recorded for `fq` in `defs`, in index order.
pub open spec fn files_for(defs: Seq<(Seq<char>, Seq<char>)>, fq: Seq<char>) -> Seq<Seq<char>>
    decreases defs.len(),
{
    if defs.len() == 0 {
        Seq::empty()
    } else {
        files_for(defs.drop_last(), fq) + (if defs.last().0 == fq {
            seq![defs.last().1]
        } else {
            Seq::empty()
        })
    }
}

/// The innermost-out search: the fully qualified name formed at the deepest
/// nesting level at most `lvl` for which `defs` records a definition.
pub open spec fn resolve_from(
    defs: Seq<(Seq<char>, Seq<char>)>,
    ns: Seq<Seq<char>>,
    name: Seq<char>,
    lvl: nat,
) -> Option<Seq<char>>
    decreases lvl,
{
    let fq = fq_name(ns.take(lvl as int), name);
    if files_for(defs, fq).len() > 0 {
        Some(fq)
    } else if lvl == 0 {
        None
    } else {
        resolve_from(defs, ns, name, (lvl - 1) as nat)
    }
}

/// What resolution yields for `name` nested in `ns`: the innermost hit.
pub open spec fn resolve_spec(
    defs: Seq<(Seq<char>, Seq<char>)>,
    ns: Seq<Seq<char>>,
    name: Seq<char>,
) -> Option<Seq<char>> {
    resolve_from(defs, ns, name, ns.len())
}

/// Maps fully qualified constant names to the files defining them. Both
/// resolution strategies produce one: the definition-based strategy indexes
/// definitions observed in extracted files, the convention-based strategy
/// indexes the expected name of every file under the autoload roots.
pub struct ConstantResolver {
    pub definitions: Vec<(String, String)>,
}

impl ConstantResolver {
    /// The index as a sequence of (fully qualified name, defining file) pairs.
    pub open spec fn defs_view(&self) -> Seq<(Seq<char>, Seq<char>)> {
        Seq::new(
            self.definitions@.len(),
            |i: int| (self.definitions@[i].0@, self.definitions@[i].1@),
        )
    }

    /// Builds a resolver directly from (constant, defining file) pairs.
    pub fn from_definitions(definitions: Vec<(String, String)>) -> (r: ConstantResolver)
        ensures
            r.definitions == definitions,
    {
        ConstantResolver { definitions }
    }

    /// Every defining file recorded for the fully qualified name `fq`.
    fn files_for_exec(&self, fq: &str) -> (r: Vec<String>)
        ensures
            r.deep_view() == files_for(self.defs_view(), fq@),
    {
        let mut r: Vec<String> = Vec::new();
        let n = self.definitions.len();
        let mut i: usize = 0;
        proof {
            assert(self.defs_view().take(0) =~= Seq::<(Seq<char>, Seq<char>)>::empty());
            assert(r.deep_view() =~= files_for(self.defs_view().take(0), fq@));
        }
        while i < n
            invariant
                0 <= i <= n,
                n == self.definitions@.len(),
                r.deep_view() == files_for(self.defs_view().take(i as int), fq@),
            decreases n - i,
        {
            let entry = &self.definitions[i];
            let ghost pre = files_for(self.defs_view().take(i as int), fq@);
            proof {
                assert(self.defs_view().take(i as int + 1).drop_last() =~= self.defs_view().take(
                    i as int,
                ));
                assert(self.defs_view().take(i as int + 1).last() == (entry.0@, entry.1@));
            }
            if matches!(str_cmp(entry.0.as_str(), fq), core::cmp::Ordering::Equal) {
                let f = entry.1.clone();
                let ghost old_deep = r.deep_view();
                proof {
                    assert(old_deep.push(f@) =~= files_for(
                        self.defs_view().take(i as int + 1),
                        fq@,
                    ));
                }
                r.push(f);
                proof {
                    assert(r.deep_view() =~= old_deep.push(f@));
                }
            } else {
                proof {
                    assert(files_for(self.defs_view().take(i as int + 1), fq@) =~= pre);
                }
            }
            i = i + 1;
        }
        proof {
            assert(self.defs_view().take(n as int) =~= self.defs_view());
        }
        r
    }

    /// The fully qualified name of `name` under the first `lvl` levels of
    /// `namespace_path`.
    fn fq_at(&self, namespace_path: &Vec<String>, lvl: usize, name: &str) -> (r: String)
        requires
            lvl <= namespace_path@.len(),
        ensures
            r@ == fq_name(namespace_path.deep_view().take(lvl as int), name@),
    {
        let mut s = String::from_str("::");
        proof {
            reveal_strlit("::");
            assert(s@ =~= seq![':', ':']);
            assert(namespace_path.deep_view().take(0) =~= Seq::<Seq<char>>::empty());
        }
        let mut k: usize = 0;
        while k < lvl
            invariant
                0 <= k <= lvl,
                lvl <= namespace_path@.len(),
                s@ == fq_prefix(namespace_path.deep_view().take(k as int)),
            decreases lvl - k,
        {
            proof {
                reveal_strlit("::");
                let dv = namespace_path.deep_view();
                assert(dv.take(k as int + 1).drop_last() =~= dv.take(k as int));
                assert(dv.take(k as int + 1).last() == dv[k as int]);
                assert(dv[k as int] == namespace_path@[k as int]@);
                assert("::"@ =~= seq![':', ':']);
            }
            s.append(namespace_path[k].as_str());
            s.append("::");
            k = k + 1;
        }
        let r = s.concat(name);
        r
    }

    /// Resolution: searches from the innermost enclosing namespace outward and
    /// stops at the first level where a definition is found; reports the
    /// fully qualified name it formed there with every file defining it, or
    /// `None` when no level yields a definition.
    pub fn resolve(&self, name: &str, namespace_path: &Vec<String>) -> (r: Option<
        (String, Vec<String>),
    >)
        ensures
            match r {
                Some(hit) => {
                    &&& resolve_spec(self.defs_view(), namespace_path.deep_view(), name@) == Some(
                        hit.0@,
                    )
                    &&& hit.1.deep_view() == files_for(self.defs_view(), hit.0@)
                    &&& hit.1@.len() > 0
                },
                None => resolve_spec(self.defs_view(), namespace_path.deep_view(), name@) is None,
            },
    {
        let n = namespace_path.len();
        let mut lvl: usize = n;
        loop
            invariant
                0 <= lvl <= n,
                n == namespace_path@.len(),
                forall|l2: nat|
                    lvl < l2 <= n ==> resolve_from(
                        self.defs_view(),
                        namespace_path.deep_view(),
                        name@,
                        l2,
                    ) == resolve_from(self.defs_view(), namespace_path.deep_view(), name@, lvl as nat),
            decreases lvl,
        {
            let fq = self.fq_at(namespace_path, lvl, name);
            let files = self.files_for_exec(fq.as_str());
            if files.len() > 0 {
                proof {
                    assert(files.deep_view().len() == files@.len());
                    assert(resolve_from(
                        self.defs_view(),
                        namespace_path.deep_view(),
                        name@,
                        lvl as nat,
                    ) == Some(fq@));
                }
                return Some((fq, files));
            }
            if lvl == 0 {
                proof {
                    assert(files.deep_view().len() == files@.len());
                    assert(resolve_from(
                        self.defs_view(),
                        namespace_path.deep_view(),
                        name@,
                        0,
                    ) is None);
                }
                return None;
            }
            proof {
                assert(files.deep_view().len() == files@.len());
                assert(resolve_from(
                    self.defs_view(),
                    namespace_path.deep_view(),
                    name@,
                    lvl as nat,
                ) == resolve_from(
                    self.defs_view(),
                    namespace_path.deep_view(),
                    name@,
                    (lvl - 1) as nat,
                ));
            }
            lvl = lvl - 1;
        }
    }
}


/// The uppercased form of an ASCII lowercase letter; other characters stay.
pub open spec fn upper_char(c: char) -> char {
    if 'a' <= c && c <= 'z' {
        ((c as u8) - 32) as char
    } else {
        c
    }
}

/// The one-character string of the uppercased ASCII letter `c`.
fn upper_str(c: char) -> (r: &'static str)
    requires
        'a' <= c && c <= 'z',
    ensures
        r@ == seq![upper_char(c)],
{
    let r: &'static str = match c {
        'a' => "A",
        'b' => "B",
        'c' => "C",
        'd' => "D",
        'e' => "E",
        'f' => "F",
        'g' => "G",
        'h' => "H",
        'i' => "I",
        'j' => "J",
        'k' => "K",
        'l' => "L",
        'm' => "M",
        'n' => "N",
        'o' => "O",
        'p' => "P",
        'q' => "Q",
        'r' => "R",
        's' => "S",
        't' => "T",
        'u' => "U",
        'v' => "V",
        'w' => "W",
        'x' => "X",
        'y' => "Y",
        _ => "Z",
    };
    proof {
        reveal_strlit("A");
        reveal_strlit("B");
        reveal_strlit("C");
        reveal_strlit("D");
        reveal_strlit("E");
        reveal_strlit("F");
        reveal_strlit("G");
        reveal_strlit("H");
        reveal_strlit("I");
        reveal_strlit("J");
        reveal_strlit("K");
        reveal_strlit("L");
        reveal_strlit("M");
        reveal_strlit("N");
        reveal_strlit("O");
        reveal_strlit("P");
        reveal_strlit("Q");
        reveal_strlit("R");
        reveal_strlit("S");
        reveal_strlit("T");
        reveal_strlit("U");
        reveal_strlit("V");
        reveal_strlit("W");
        reveal_strlit("X");
        reveal_strlit("Y");
        reveal_strlit("Z");
        assert(r@ =~= seq![upper_char(c)]);
    }
    r
}

/// The camelized constant path of a relative file path without extension:
/// `/` becomes `::`, `_` is dropped, and the letter starting each word or
/// path segment is uppercased.
pub open spec fn camelize(s: Seq<char>, boundary: bool) -> Seq<char>
    decreases s.len(),
{
    if s.len() == 0 {
        Seq::empty()
    } else if s.first() == '/' {
        seq![':', ':'] + camelize(s.drop_first(), true)
    } else if s.first() == '_' {
        camelize(s.drop_first(), true)
    } else if boundary {
        seq![upper_char(s.first())] + camelize(s.drop_first(), false)
    } else {
        seq![s.first()] + camelize(s.drop_first(), false)
    }
}

/// Computes `camelize` on the characters of `s` from index `i` on.
fn camelize_exec(s: &str, i: usize, boundary: bool) -> (r: String)
    requires
        i <= s@.len(),
    ensures
        r@ == camelize(s@.skip(i as int), boundary),
    decreases s@.len() - i,
{
    let n = s.unicode_len();
    if i == n {
        let r = String::new();
        proof {
            assert(s@.skip(i as int) =~= Seq::<char>::empty());
        }
        r
    } else {
        let c = s.get_char(i);
        proof {
            assert(s@.skip(i as int).first() == s@[i as int]);
            assert(s@.skip(i as int).drop_first() =~= s@.skip(i as int + 1));
        }
        if c == '/' {
            let rest = camelize_exec(s, i + 1, true);
            let mut r = String::from_str("::");
            proof {
                reveal_strlit("::");
                assert("::"@ =~= seq![':', ':']);
            }
            r.append(rest.as_str());
            r
        } else if c == '_' {
            let r = camelize_exec(s, i + 1, true);
            r
        } else if boundary && 'a' <= c && c <= 'z' {
            let rest = camelize_exec(s, i + 1, false);
            let mut r = upper_str(c).to_owned();
            r.append(rest.as_str());
            r
        } else {
            let rest = camelize_exec(s, i + 1, false);
            let mut r = s.substring_char(i, i + 1).to_owned();
            proof {
                assert(s@.subrange(i as int, i as int + 1) =~= seq![s@[i as int]]);
                if boundary {
                    assert(upper_char(s@[i as int]) == s@[i as int]);
                }
            }
            r.append(rest.as_str());
            r
        }
    }
}

/// A relative path with a `.rb` extension removed.
pub open spec fn strip_rb(rel: Seq<char>) -> Seq<char> {
    if rel.len() >= 3 && rel.skip(rel.len() - 3) == seq!['.', 'r', 'b'] {
        rel.take(rel.len() - 3)
    } else {
        rel
    }
}

/// Computes `strip_rb`.
fn strip_rb_exec(rel: &str) -> (r: String)
    ensures
        r@ == strip_rb(rel@),
{
    let n = rel.unicode_len();
    if n >= 3 && rel.get_char(n - 3) == '.' && rel.get_char(n - 2) == 'r' && rel.get_char(n - 1)
        == 'b' {
        proof {
            assert(rel@.skip(n as int - 3) =~= seq!['.', 'r', 'b']);
        }
        let r = rel.substring_char(0, n - 3).to_owned();
        proof {
            assert(rel@.subrange(0, n as int - 3) =~= rel@.take(n as int - 3));
        }
        r
    } else {
        proof {
            if n >= 3 && rel@.skip(n as int - 3) == seq!['.', 'r', 'b'] {
                assert(rel@.skip(n as int - 3)[0] == rel@[n as int - 3]);
                assert(rel@.skip(n as int - 3)[1] == rel@[n as int - 2]);
                assert(rel@.skip(n as int - 3)[2] == rel@[n as int - 1]);
            }
        }
        let r = rel.to_owned();
        r
    }
}

/// Whether the autoload root `r` (path, namespace) holds `file` beneath it.
pub open spec fn root_match(r: (Seq<char>, Seq<char>), file: Seq<char>) -> bool {
    r.0.len() > 0 && r.0.len() < file.len() && dir_prefix(r.0, file)
}

/// The first autoload root holding `file`, in configuration order.
pub open spec fn owning_root(roots: Seq<(Seq<char>, Seq<char>)>, file: Seq<char>) -> Option<
    (Seq<char>, Seq<char>),
>
    decreases roots.len(),
{
    if roots.len() == 0 {
        Option::<(Seq<char>, Seq<char>)>::None
    } else if root_match(roots.first(), file) {
        Some(roots.first())
    } else {
        owning_root(roots.drop_first(), file)
    }
}

/// The expected fully qualified name of the file at `rel` under a root whose
/// namespace prefix is `ns`: the convention reads it off the path alone.
pub open spec fn convention_fq(ns: Seq<char>, rel: Seq<char>) -> Seq<char> {
    ns + seq![':', ':'] + camelize(strip_rb(rel), true)
}

/// The definition entries the convention derives for one file.
pub open spec fn entries_for_file(
    roots: Seq<(Seq<char>, Seq<char>)>,
    file: Seq<char>,
) -> Seq<(Seq<char>, Seq<char>)> {
    match owning_root(roots, file) {
        Option::<(Seq<char>, Seq<char>)>::None => Seq::empty(),
        Some(r) => seq![(convention_fq(r.1, relative_to(r.0, file)), file)],
    }
}

/// The definition entries the convention derives for a file set, in order.
pub open spec fn convention_entries(
    roots: Seq<(Seq<char>, Seq<char>)>,
    files: Seq<Seq<char>>,
) -> Seq<(Seq<char>, Seq<char>)>
    decreases files.len(),
{
    if files.len() == 0 {
        Seq::empty()
    } else {
        convention_entries(roots, files.drop_last()) + entries_for_file(roots, files.last())
    }
}

impl ConstantResolver {
    /// The convention-based strategy: an index built from the autoload roots
    /// and the file set alone, without reading file contents. Each file under
    /// a root is expected to define the constant its camelized relative path
    /// names, under the root's namespace prefix.
    pub fn from_autoload_paths(autoload_paths: &Vec<(String, String)>, files: &Vec<String>) -> (r:
        ConstantResolver)
        ensures
            r.defs_view() == convention_entries(pairs_view(autoload_paths@), files.deep_view()),
    {
        let ghost rv = pairs_view(autoload_paths@);
        let ghost fv = files.deep_view();
        let mut definitions: Vec<(String, String)> = Vec::new();
        let n = files.len();
        let mut i: usize = 0;
        proof {
            assert(Seq::new(definitions@.len(), |k: int| (definitions@[k].0@, definitions@[k].1@))
                =~= convention_entries(rv, fv.take(0)));
        }
        while i < n
            invariant
                0 <= i <= n,
                n == files@.len(),
                rv == pairs_view(autoload_paths@),
                fv == files.deep_view(),
                Seq::new(
                    definitions@.len(),
                    |k: int| (definitions@[k].0@, definitions@[k].1@),
                ) == convention_entries(rv, fv.take(i as int)),
            decreases n - i,
        {
            let file = &files[i];
            let ghost pre = Seq::new(
                definitions@.len(),
                |k: int| (definitions@[k].0@, definitions@[k].1@),
            );
            proof {
                assert(fv[i as int] == file@);
                assert(fv.take(i as int + 1).drop_last() =~= fv.take(i as int));
                assert(fv.take(i as int + 1).last() == fv[i as int]);
                assert(rv.skip(0) =~= rv);
            }
            let m = autoload_paths.len();
            let mut j: usize = 0;
            let mut hit: Option<usize> = None;
            while j < m && hit.is_none()
                invariant
                    0 <= j <= m,
                    m == autoload_paths@.len(),
                    rv == pairs_view(autoload_paths@),
                    fv == files.deep_view(),
                    fv[i as int] == file@,
                    0 <= i < n,
                    match hit {
                        Some(h) => h < m && owning_root(rv, file@) == Some(rv[h as int]),
                        None => owning_root(rv.skip(j as int), file@) == owning_root(rv, file@),
                    },
                decreases m - j + (if hit is Some { 0int } else { 1int }),
            {
                let root = &autoload_paths[j];
                let rlen = root.0.as_str().unicode_len();
                let flen = file.as_str().unicode_len();
                proof {
                    assert(rv.skip(j as int).first() == rv[j as int]);
                    assert(rv.skip(j as int).drop_first() =~= rv.skip(j as int + 1));
                    assert(rv[j as int] == (root.0@, root.1@));
                }
                if rlen > 0 && rlen < flen && is_dir_prefix(root.0.as_str(), file.as_str()) {
                    hit = Some(j);
                } else {
                    j = j + 1;
                }
            }
            match hit {
                Some(h) => {
                    let root = &autoload_paths[h];
                    let rel = relative_of(root.0.as_str(), file.as_str());
                    let stripped = strip_rb_exec(rel.as_str());
                    let cam = camelize_exec(stripped.as_str(), 0, true);
                    let mut fq = root.1.clone();
                    fq.append("::");
                    fq.append(cam.as_str());
                    proof {
                        reveal_strlit("::");
                        assert("::"@ =~= seq![':', ':']);
                        assert(stripped@.skip(0) =~= stripped@);
                        assert(rv[h as int] == (root.0@, root.1@));
                        assert(fq@ == convention_fq(root.1@, relative_to(root.0@, file@)));
                    }
                    let entry = (fq, file.clone());
                    let ghost esnap = entry;
                    definitions.push(entry);
                    proof {
                        assert(Seq::new(
                            definitions@.len(),
                            |k: int| (definitions@[k].0@, definitions@[k].1@),
                        ) =~= pre.push((esnap.0@, esnap.1@)));
                        assert(pre.push((esnap.0@, esnap.1@)) =~= convention_entries(
                            rv,
                            fv.take(i as int + 1),
                        ));
                    }
                },
                None => {
                    proof {
                        assert(rv.skip(m as int) =~= Seq::<(Seq<char>, Seq<char>)>::empty());
                        assert(owning_root(rv, file@) is None);
                        assert(Seq::new(
                            definitions@.len(),
                            |k: int| (definitions@[k].0@, definitions@[k].1@),
                        ) =~= convention_entries(rv, fv.take(i as int + 1)));
                    }
                },
            }
            i = i + 1;
        }
        proof {
            assert(fv.take(n as int) =~= fv);
        }
        ConstantResolver { definitions }
    }
}


} // verus!
