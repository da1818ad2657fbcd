//! The violation ledger: per referencing pack, a nested record of previously
//! acknowledged violations, keyed by defining pack and then by constant name,
//! together with its flattening into violation identifiers.
use vstd::prelude::*;

verus! {

/// The acknowledged violations of one constant: every pairing of a violation
/// type with a file stands for one accepted violation.
#[derive(Debug, Clone)]
pub struct ViolationGroup {
    pub violation_types: Vec<String>,
    pub files: Vec<String>,
}

/// Spec-level image of a [`ViolationGroup`].
pub ghost struct ViolationGroupV {
    pub violation_types: Seq<Seq<char>>,
    pub files: Seq<Seq<char>>,
}

impl View for ViolationGroup {
    type V = ViolationGroupV;

    open spec fn view(&self) -> ViolationGroupV {
        ViolationGroupV {
            violation_types: self.violation_types.deep_view(),
            files: self.files.deep_view(),
        }
    }
}

/// The per-pack ledger: defining-pack name to constant name to group.
/// Entries are kept in insertion order; keys are expected to be distinct.
#[derive(Debug, Clone)]
pub struct PackageTodo {
    pub violations_by_defining_pack: Vec<(String, Vec<(String, ViolationGroup)>)>,
}

impl View for PackageTodo {
    type V = Seq<(Seq<char>, Seq<(Seq<char>, ViolationGroupV)>)>;

    open spec fn view(&self) -> Self::V {
        Seq::new(
            self.violations_by_defining_pack@.len(),
            |i: int|
                (
                    self.violations_by_defining_pack@[i].0@,
                    Seq::new(
                        self.violations_by_defining_pack@[i].1@.len(),
                        |j: int|
                            (
                                self.violations_by_defining_pack@[i].1@[j].0@,
                                self.violations_by_defining_pack@[i].1@[j].1@,
                            ),
                    ),
                ),
        )
    }
}

impl PackageTodo {
    /// A ledger with no acknowledged violations.
    pub fn empty() -> (r: PackageTodo)
        ensures
            r@ =~= Seq::<(Seq<char>, Seq<(Seq<char>, ViolationGroupV)>)>::empty(),
    {
        PackageTodo { violations_by_defining_pack: Vec::new() }
    }
}

/// The flattened unit of acknowledged technical debt, the comparison key
/// against freshly detected violations.
#[derive(Debug, Clone)]
pub struct ViolationIdentifier {
    pub violation_type: String,
    pub file: String,
    pub constant_name: String,
    pub referencing_pack_name: String,
    pub defining_pack_name: String,
}

/// Spec-level image of a [`ViolationIdentifier`].
pub ghost struct ViolationIdentifierV {
    pub violation_type: Seq<char>,
    pub file: Seq<char>,
    pub constant_name: Seq<char>,
    pub referencing_pack_name: Seq<char>,
    pub defining_pack_name: Seq<char>,
}

impl View for ViolationIdentifier {
    type V = ViolationIdentifierV;

    open spec fn view(&self) -> ViolationIdentifierV {
        ViolationIdentifierV {
            violation_type: self.violation_type@,
            file: self.file@,
            constant_name: self.constant_name@,
            referencing_pack_name: self.referencing_pack_name@,
            defining_pack_name: self.defining_pack_name@,
        }
    }
}

/// One identifier per file for a single violation type of one constant.
pub open spec fn ids_of_one_type(
    referencing: Seq<char>,
    defining: Seq<char>,
    constant: Seq<char>,
    violation_type: Seq<char>,
    files: Seq<Seq<char>>,
) -> Seq<ViolationIdentifierV> {
    Seq::new(
        files.len(),
        |i: int|
            ViolationIdentifierV {
                violation_type: violation_type,
                file: files[i],
                constant_name: constant,
                referencing_pack_name: referencing,
                defining_pack_name: defining,
            },
    )
}

/// The full expansion of (violation type x file) pairs for one constant.
pub open spec fn ids_of_types(
    referencing: Seq<char>,
    defining: Seq<char>,
    constant: Seq<char>,
    types: Seq<Seq<char>>,
    files: Seq<Seq<char>>,
) -> Seq<ViolationIdentifierV>
    decreases types.len(),
{
    if types.len() == 0 {
        Seq::empty()
    } else {
        ids_of_types(referencing, defining, constant, types.drop_last(), files) + ids_of_one_type(
            referencing,
            defining,
            constant,
            types.last(),
            files,
        )
    }
}

/// The identifiers of every constant acknowledged against one defining pack.
pub open spec fn ids_of_constants(
    referencing: Seq<char>,
    defining: Seq<char>,
    constants: Seq<(Seq<char>, ViolationGroupV)>,
) -> Seq<ViolationIdentifierV>
    decreases constants.len(),
{
    if constants.len() == 0 {
        Seq::empty()
    } else {
        ids_of_constants(referencing, defining, constants.drop_last()) + ids_of_types(
            referencing,
            defining,
            constants.last().0,
            constants.last().1.violation_types,
            constants.last().1.files,
        )
    }
}

/// Every identifier a ledger acknowledges for the given referencing pack.
pub open spec fn ids_of_ledger(
    referencing: Seq<char>,
    entries: Seq<(Seq<char>, Seq<(Seq<char>, ViolationGroupV)>)>,
) -> Seq<ViolationIdentifierV>
    decreases entries.len(),
{
    if entries.len() == 0 {
        Seq::empty()
    } else {
        ids_of_ledger(referencing, entries.drop_last()) + ids_of_constants(
            referencing,
            entries.last().0,
            entries.last().1,
        )
    }
}

} // verus!
