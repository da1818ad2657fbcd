//! Core of a pack-boundary analyzer: a registry of directory-scoped packs,
//! file-to-pack ownership resolution, constant resolution, a content cache,
//! the reference-resolution pipeline, and the acknowledged-violation ledger.
use vstd::prelude::*;

pub mod cache;
pub mod pack_set;
pub mod reference_extractor;
pub mod resolver;
pub mod package_todo;
pub mod todo_codec;
pub mod util;

use crate::package_todo::{
    ids_of_ledger, ids_of_one_type, ids_of_types, ids_of_constants, PackageTodo,
    ViolationGroupV, ViolationIdentifier, ViolationIdentifierV,
};

verus! {

/// Per-pack policy level for dependency checking: violations may be ignored
/// entirely, flagged but tolerable, or fatal when not already acknowledged.
#[derive(Debug, PartialEq, Eq, Structural, Clone, Copy)]
pub enum CheckerSetting {
    False,
    True,
    Strict,
}

impl CheckerSetting {
    /// Returns `true` if the checker setting is [`CheckerSetting::False`].
    pub fn is_false(&self) -> (r: bool)
        ensures
            r == (*self == CheckerSetting::False),
    {
        match self {
            CheckerSetting::False => true,
            _ => false,
        }
    }
}

/// The manifest value used when a pack omits `enforce_dependencies`.
pub fn default_enforce_dependencies() -> (r: String)
    ensures
        r@ == "false"@,
{
    let r = String::from_str("false");
    r
}

/// A source position: line and column of a reference in its file.
#[derive(Debug, Clone, Copy, PartialEq, Eq, Structural)]
pub struct SourceLocation {
    pub line: usize,
    pub column: usize,
}

impl Default for SourceLocation {
    fn default() -> (r: SourceLocation)
        ensures
            r.line == 0 && r.column == 0,
    {
        SourceLocation { line: 0, column: 0 }
    }
}

/// A pack manifest as read from disk, before validation: list-valued fields
/// default to empty, and `enforce_dependencies` is `None` when omitted.
#[derive(Debug, Clone)]
pub struct RawPack {
    pub dependencies: Vec<String>,
    pub ignored_dependencies: Vec<String>,
    pub enforce_dependencies: Option<String>,
}

/// The library's fatal error conditions.
#[derive(Debug, Clone, Copy, PartialEq, Eq, Structural)]
pub enum PacksError {
    /// A manifest's `enforce_dependencies` is none of `false`, `true`, `strict`.
    MalformedEnforceDependencies,
}

/// A named, directory-scoped module with its dependency policy and its
/// acknowledged-violation ledger. Identity is carried by `name` alone.
#[derive(Debug, Clone)]
pub struct Pack {
    pub yml: String,
    pub name: String,
    pub relative_path: String,
    pub dependencies: Vec<String>,
    pub ignored_dependencies: Vec<String>,
    pub package_todo: PackageTodo,
    pub enforce_dependencies: CheckerSetting,
}

/// Maps a manifest's `enforce_dependencies` string to its setting:
/// `"false"`, `"true"` and `"strict"` are the only well-formed values.
pub fn parse_checker_setting(s: &str) -> (r: Result<CheckerSetting, PacksError>)
    ensures
        s@ == "false"@ ==> r == Result::<CheckerSetting, PacksError>::Ok(CheckerSetting::False),
        s@ == "true"@ ==> r == Result::<CheckerSetting, PacksError>::Ok(CheckerSetting::True),
        s@ == "strict"@ ==> r == Result::<CheckerSetting, PacksError>::Ok(CheckerSetting::Strict),
        (s@ != "false"@ && s@ != "true"@ && s@ != "strict"@) ==> r == Result::<
            CheckerSetting,
            PacksError,
        >::Err(PacksError::MalformedEnforceDependencies),
{
    proof {
        reveal_strlit("false");
        reveal_strlit("true");
        reveal_strlit("strict");
    }
    if matches!(crate::util::str_cmp(s, "false"), core::cmp::Ordering::Equal) {
        Ok(CheckerSetting::False)
    } else if matches!(crate::util::str_cmp(s, "true"), core::cmp::Ordering::Equal) {
        Ok(CheckerSetting::True)
    } else if matches!(crate::util::str_cmp(s, "strict"), core::cmp::Ordering::Equal) {
        Ok(CheckerSetting::Strict)
    } else {
        Err(PacksError::MalformedEnforceDependencies)
    }
}

impl Pack {
    /// Builds a pack from its manifest. A manifest that omits
    /// `enforce_dependencies` yields the `False` (off) setting; a value other
    /// than `false`, `true` or `strict` is a fatal, malformed manifest.
    pub fn from_raw(
        yml: String,
        name: String,
        relative_path: String,
        raw: RawPack,
        package_todo: PackageTodo,
    ) -> (r: Result<Pack, PacksError>)
        ensures
            raw.enforce_dependencies is None ==> (r is Ok
                && r->Ok_0.enforce_dependencies == CheckerSetting::False),
            raw.enforce_dependencies matches Some(s) ==> (match parse_checker_setting_spec(s@) {
                Some(setting) => r is Ok && r->Ok_0.enforce_dependencies == setting,
                None => r == Result::<Pack, PacksError>::Err(
                    PacksError::MalformedEnforceDependencies,
                ),
            }),
            r matches Ok(p) ==> {
                &&& p.yml == yml
                &&& p.name == name
                &&& p.relative_path == relative_path
                &&& p.dependencies == raw.dependencies
                &&& p.ignored_dependencies == raw.ignored_dependencies
                &&& p.package_todo == package_todo
            },
    {
        let setting = match &raw.enforce_dependencies {
            None => CheckerSetting::False,
            Some(s) => {
                match parse_checker_setting(s.as_str()) {
                    Ok(setting) => setting,
                    Err(e) => {
                        return Err(e);
                    },
                }
            },
        };
        Ok(
            Pack {
                yml,
                name,
                relative_path,
                dependencies: raw.dependencies,
                ignored_dependencies: raw.ignored_dependencies,
                package_todo,
                enforce_dependencies: setting,
            },
        )
    }

    /// Flattens this pack's ledger into every acknowledged violation
    /// identifier: one per (violation type, file) pair of every constant of
    /// every defining-pack entry, in ledger order.
    pub fn all_violations(&self) -> (r: Vec<ViolationIdentifier>)
        ensures
            vids_view(r@) == ids_of_ledger(self.name@, self.package_todo@),
    {
        let mut violations: Vec<ViolationIdentifier> = Vec::new();
        let ghost tv = self.package_todo@;
        let n = self.package_todo.violations_by_defining_pack.len();
        let mut p: usize = 0;
        proof {
            assert(vids_view(violations@) =~= ids_of_ledger(self.name@, tv.subrange(0, 0)));
        }
        while p < n
            invariant
                0 <= p <= n,
                n == self.package_todo.violations_by_defining_pack@.len(),
                tv == self.package_todo@,
                vids_view(violations@) == ids_of_ledger(self.name@, tv.subrange(0, p as int)),
            decreases n - p,
        {
            let entry = &self.package_todo.violations_by_defining_pack[p];
            let ghost consts_v = tv[p as int].1;
            let m = entry.1.len();
            let mut q: usize = 0;
            proof {
                assert(consts_v.subrange(0, 0) =~= Seq::<(Seq<char>, ViolationGroupV)>::empty());
            }
            while q < m
                invariant
                    0 <= q <= m,
                    0 <= p < n,
                    n == self.package_todo.violations_by_defining_pack@.len(),
                    tv == self.package_todo@,
                    *entry == self.package_todo.violations_by_defining_pack@[p as int],
                    m == entry.1@.len(),
                    consts_v == tv[p as int].1,
                    vids_view(violations@) == ids_of_ledger(self.name@, tv.subrange(0, p as int))
                        + ids_of_constants(self.name@, entry.0@, consts_v.subrange(0, q as int)),
                decreases m - q,
            {
                let centry = &entry.1[q];
                let tn = centry.1.violation_types.len();
                let fnum = centry.1.files.len();
                proof {
                    assert(consts_v[q as int] == (centry.0@, centry.1@));
                }
                let ghost base_q = ids_of_ledger(self.name@, tv.subrange(0, p as int))
                    + ids_of_constants(self.name@, entry.0@, consts_v.subrange(0, q as int));
                let mut t: usize = 0;
                proof {
                    assert(centry.1@.violation_types.subrange(0, 0) =~= Seq::<Seq<char>>::empty());
                }
                while t < tn
                    invariant
                        0 <= t <= tn,
                        0 <= q < m,
                        0 <= p < n,
                        n == self.package_todo.violations_by_defining_pack@.len(),
                        tv == self.package_todo@,
                        *entry == self.package_todo.violations_by_defining_pack@[p as int],
                        m == entry.1@.len(),
                        *centry == self.package_todo.violations_by_defining_pack@[p as int].1@[q as int],
                        tn == centry.1.violation_types@.len(),
                        fnum == centry.1.files@.len(),
                        base_q == ids_of_ledger(self.name@, tv.subrange(0, p as int))
                            + ids_of_constants(
                            self.name@,
                            entry.0@,
                            tv[p as int].1.subrange(0, q as int),
                        ),
                        vids_view(violations@) == base_q + ids_of_types(
                            self.name@,
                            entry.0@,
                            centry.0@,
                            centry.1@.violation_types.subrange(0, t as int),
                            centry.1@.files,
                        ),
                    decreases tn - t,
                {
                    let vtype = &centry.1.violation_types[t];
                    let ghost base_t = base_q + ids_of_types(
                        self.name@,
                        entry.0@,
                        centry.0@,
                        centry.1@.violation_types.subrange(0, t as int),
                        centry.1@.files,
                    );
                    let mut f: usize = 0;
                    proof {
                        assert(ids_of_one_type(
                            self.name@,
                            entry.0@,
                            centry.0@,
                            vtype@,
                            centry.1@.files,
                        ).subrange(0, 0) =~= Seq::<ViolationIdentifierV>::empty());
                        assert(vids_view(violations@) =~= base_t + ids_of_one_type(
                            self.name@,
                            entry.0@,
                            centry.0@,
                            vtype@,
                            centry.1@.files,
                        ).subrange(0, 0));
                    }
                    while f < fnum
                        invariant
                            0 <= f <= fnum,
                            0 <= t < tn,
                            0 <= q < m,
                            0 <= p < n,
                            n == self.package_todo.violations_by_defining_pack@.len(),
                            tv == self.package_todo@,
                            *entry == self.package_todo.violations_by_defining_pack@[p as int],
                            m == entry.1@.len(),
                            *centry == self.package_todo.violations_by_defining_pack@[p as int].1@[q as int],
                            tn == centry.1.violation_types@.len(),
                            fnum == centry.1.files@.len(),
                            *vtype == centry.1.violation_types@[t as int],
                            vids_view(violations@) == base_t + ids_of_one_type(
                                self.name@,
                                entry.0@,
                                centry.0@,
                                vtype@,
                                centry.1@.files,
                            ).subrange(0, f as int),
                        decreases fnum - f,
                    {
                        let id = ViolationIdentifier {
                            violation_type: vtype.clone(),
                            file: centry.1.files[f].clone(),
                            constant_name: centry.0.clone(),
                            referencing_pack_name: self.name.clone(),
                            defining_pack_name: entry.0.clone(),
                        };
                        proof {
                            let full = ids_of_one_type(
                                self.name@,
                                entry.0@,
                                centry.0@,
                                vtype@,
                                centry.1@.files,
                            );
                            assert(centry.1@.files[f as int] == centry.1.files@[f as int]@);
                            assert(full.subrange(0, f as int + 1) =~= full.subrange(
                                0,
                                f as int,
                            ).push(id@));
                            assert(vids_view(violations@.push(id)) =~= vids_view(
                                violations@,
                            ).push(id@));
                        }
                        violations.push(id);
                        f = f + 1;
                    }
                    proof {
                        let full = ids_of_one_type(
                            self.name@,
                            entry.0@,
                            centry.0@,
                            vtype@,
                            centry.1@.files,
                        );
                        assert(full.subrange(0, fnum as int) =~= full);
                        let types1 = centry.1@.violation_types.subrange(0, t as int + 1);
                        assert(types1.drop_last() =~= centry.1@.violation_types.subrange(
                            0,
                            t as int,
                        ));
                        assert(types1.last() == vtype@);
                        assert(vids_view(violations@) == base_q + ids_of_types(
                            self.name@,
                            entry.0@,
                            centry.0@,
                            types1,
                            centry.1@.files,
                        ));
                    }
                    t = t + 1;
                }
                proof {
                    assert(centry.1@.violation_types.subrange(0, tn as int)
                        =~= centry.1@.violation_types);
                    let consts1 = consts_v.subrange(0, q as int + 1);
                    assert(consts1.drop_last() =~= consts_v.subrange(0, q as int));
                    assert(consts1.last() == (centry.0@, centry.1@));
                    assert(vids_view(violations@) == ids_of_ledger(
                        self.name@,
                        tv.subrange(0, p as int),
                    ) + ids_of_constants(self.name@, entry.0@, consts1));
                }
                q = q + 1;
            }
            proof {
                assert(consts_v.subrange(0, m as int) =~= consts_v);
                let packs1 = tv.subrange(0, p as int + 1);
                assert(packs1.drop_last() =~= tv.subrange(0, p as int));
                assert(packs1.last() == (entry.0@, consts_v));
                assert(vids_view(violations@) == ids_of_ledger(self.name@, packs1));
            }
            p = p + 1;
        }
        proof {
            assert(tv.subrange(0, n as int) =~= tv);
        }
        violations
    }
}

/// The views of a list of identifiers, element by element.
pub open spec fn vids_view(v: Seq<ViolationIdentifier>) -> Seq<ViolationIdentifierV> {
    Seq::new(v.len(), |k: int| v[k]@)
}

/// Spec-level image of `parse_checker_setting`.
pub open spec fn parse_checker_setting_spec(s: Seq<char>) -> Option<CheckerSetting> {
    if s == "false"@ {
        Some(CheckerSetting::False)
    } else if s == "true"@ {
        Some(CheckerSetting::True)
    } else if s == "strict"@ {
        Some(CheckerSetting::Strict)
    } else {
        None
    }
}

} // verus!
