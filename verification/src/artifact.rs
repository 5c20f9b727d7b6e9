//! Artifact environment projection: the environment variables a
//! consuming build step receives for every realized build output of its
//! artifact dependencies.
//!
//! The variable grammar is a committed external contract:
//! `CARGO_{TYPE}_DIR_{NAME}` points at the directory of an output,
//! `CARGO_{TYPE}_FILE_{NAME}_{TARGETNAME}` at the output itself, and the
//! unsuffixed `CARGO_{TYPE}_FILE_{NAME}` is added only when the build
//! target's name equals the effective dependency name, so the alias is
//! never ambiguous.  `{NAME}` is the effective dependency name upper-cased
//! with `-` replaced by `_`.

use crate::names::env_name;
use crate::names::has_slash;
use crate::names::parent_of;
use crate::types::Target;
use crate::types::TargetKindView;
use crate::types::CrateType;
use vstd::prelude::*;
use vstd::string::StringExecFns;

verus! {

/// The flavor of one build-output file; only `Normal` outputs are
/// projected into environment variables.
#[derive(Clone, Copy, Debug, PartialEq, Eq, Structural)]
pub enum FileFlavor {
    /// The product itself.
    Normal,
    /// A linkable companion of the product.
    Linkable,
    /// A metadata-only companion file.
    Rmeta,
    /// Debug information split out of the product.
    DebugInfo,
}

/// One realized build-output file of a unit.
#[derive(Clone, Debug)]
pub struct OutputFile {
    /// The output's path, as text.
    pub path: String,
    pub flavor: FileFlavor,
}

/// Ghost image of an [`OutputFile`].
pub struct OutputFileView {
    pub path: Seq<char>,
    pub flavor: FileFlavor,
}

impl View for OutputFile {
    type V = OutputFileView;

    open spec fn view(&self) -> OutputFileView {
        OutputFileView { path: self.path@, flavor: self.flavor }
    }
}

/// One dependency of the compilation unit being prepared: whether it is
/// an artifact dependency, the name it was declared under, its package
/// name, its build target, a stable hash identifying the dependency's
/// unit (the record key), and its realized outputs.
#[derive(Clone, Debug)]
pub struct UnitDep {
    /// Whether the dependency's unit is built as an artifact to be
    /// consumed as a build product rather than linked.
    pub is_artifact: bool,
    /// The explicit rename the consumer declared, if any.
    pub dep_name: Option<String>,
    /// The dependency's package name.
    pub pkg_name: String,
    /// The dependency's build target.
    pub target: Target,
    /// The stable hash of the dependency's unit, used as the key of the
    /// returned record.
    pub unit_metadata: u64,
    /// The dependency's realized build outputs.
    pub outputs: Vec<OutputFile>,
}

/// Ghost image of a [`UnitDep`].
pub struct UnitDepView {
    pub is_artifact: bool,
    pub dep_name: Option<Seq<char>>,
    pub pkg_name: Seq<char>,
    pub target: crate::types::TargetView,
    pub unit_metadata: u64,
    pub outputs: Seq<OutputFileView>,
}

impl View for UnitDep {
    type V = UnitDepView;

    open spec fn view(&self) -> UnitDepView {
        UnitDepView {
            is_artifact: self.is_artifact,
            dep_name: match self.dep_name {
                Some(n) => Some(n@),
                None => None,
            },
            pkg_name: self.pkg_name@,
            target: self.target@,
            unit_metadata: self.unit_metadata,
            outputs: self.outputs@.map_values(|o: OutputFile| o@),
        }
    }
}

/// The shapes an artifact unit's target can have: a library built only
/// as a dynamic C-ABI library, one built only as a static library, or an
/// executable.  Anything else is a bug in upstream unit construction.
pub open spec fn spec_valid_artifact_kind(k: TargetKindView) -> bool {
    match k {
        TargetKindView::Lib(ts) => ts.len() == 1 && (ts[0] == CrateType::Cdylib || ts[0]
            == CrateType::Staticlib),
        TargetKindView::Bin => true,
        _ => false,
    }
}

/// The artifact-type tag embedded in the variable names.
pub open spec fn spec_artifact_type_name(k: TargetKindView) -> Seq<char> {
    match k {
        TargetKindView::Lib(ts) => if ts.len() == 1 && ts[0] == CrateType::Cdylib {
            "CDYLIB"@
        } else {
            "STATICLIB"@
        },
        TargetKindView::Bin => "BIN"@,
        _ => Seq::empty(),
    }
}

/// The effective dependency name: the declared rename when present, the
/// package name otherwise.
pub open spec fn env_dep_name(d: UnitDepView) -> Seq<char> {
    match d.dep_name {
        Some(n) => n,
        None => d.pkg_name,
    }
}

/// `CARGO_{TYPE}_DIR_{NAME}`.
pub open spec fn dir_var(ty: Seq<char>, nameu: Seq<char>) -> Seq<char> {
    "CARGO_"@ + ty + "_DIR_"@ + nameu
}

/// `CARGO_{TYPE}_FILE_{NAME}_{TARGETNAME}`.
pub open spec fn file_var(ty: Seq<char>, nameu: Seq<char>, target_name: Seq<char>) -> Seq<char> {
    "CARGO_"@ + ty + "_FILE_"@ + nameu + "_"@ + target_name
}

/// `CARGO_{TYPE}_FILE_{NAME}`, the unambiguous alias.
pub open spec fn file_var_short(ty: Seq<char>, nameu: Seq<char>) -> Seq<char> {
    "CARGO_"@ + ty + "_FILE_"@ + nameu
}

/// Whether `pr` is one of the variable assignments that output `o` of
/// the artifact dependency `d` contributes: the directory variable, the
/// target-suffixed file variable, and — only when the target's name
/// equals the effective dependency name — the unsuffixed alias.
pub open spec fn output_pair_cond(d: UnitDepView, o: int, pr: (Seq<char>, Seq<char>)) -> bool {
    let ty = spec_artifact_type_name(d.target.kind);
    let dnu = env_name(env_dep_name(d));
    &&& 0 <= o < d.outputs.len()
    &&& d.outputs[o].flavor == FileFlavor::Normal
    &&& (pr == (dir_var(ty, dnu), parent_of(d.outputs[o].path)) || pr == (
        file_var(ty, dnu, d.target.name),
        d.outputs[o].path,
    ) || (d.target.name == env_dep_name(d) && pr == (
        file_var_short(ty, dnu),
        d.outputs[o].path,
    )))
}

/// Every variable assignment an artifact dependency contributes.
pub open spec fn dep_env_pairs(d: UnitDepView) -> Set<(Seq<char>, Seq<char>)> {
    Set::new(|pr: (Seq<char>, Seq<char>)| exists|o: int| #[trigger] output_pair_cond(d, o, pr))
}

/// Whether a dependency contributes an entry to the record: an artifact
/// dependency with at least one `Normal` output.
pub open spec fn qualifying(d: UnitDepView) -> bool {
    d.is_artifact && exists|o: int|
        0 <= o < d.outputs.len() && (#[trigger] d.outputs[o]).flavor == FileFlavor::Normal
}

/// The view of a list of variable assignments.
pub open spec fn pairs_view(s: Seq<(String, String)>) -> Seq<(Seq<char>, Seq<char>)> {
    s.map_values(|p: (String, String)| (p.0@, p.1@))
}

/// Appends the assignment unless an equal one is already recorded.
fn insert_pair(set: &mut Vec<(String, String)>, key: String, value: String)
    ensures
        forall|pr: (Seq<char>, Seq<char>)| #[trigger]
            pairs_view(final(set)@).contains(pr) <==> pairs_view(old(set)@).contains(pr) || pr == (
            key@,
            value@,
        ),
        pairs_view(old(set)@).no_duplicates() ==> pairs_view(final(set)@).no_duplicates(),
{
    let mut m: usize = 0;
    while m < set.len()
        invariant
            m <= set@.len(),
            forall|w: int| 0 <= w < m ==> (#[trigger] pairs_view(set@)[w]) != (key@, value@),
        decreases set@.len() - m,
    {
        if set[m].0 == key && set[m].1 == value {
            proof {
                assert(pairs_view(set@)[m as int] == (key@, value@));
                assert(pairs_view(set@).contains((key@, value@)));
            }
            return ;
        }
        m = m + 1;
    }
    proof {
        if pairs_view(set@).contains((key@, value@)) {
            let w = choose|w: int|
                0 <= w < pairs_view(set@).len() && #[trigger] pairs_view(set@)[w] == (key@, value@);
        }
        assert(!pairs_view(set@).contains((key@, value@)));
    }
    let ghost before = set@;
    set.push((key, value));
    proof {
        assert(pairs_view(set@) =~= pairs_view(before).push(
            (set@.last().0@, set@.last().1@),
        ));
        assert forall|pr: (Seq<char>, Seq<char>)| #[trigger]
            pairs_view(set@).contains(pr) <==> pairs_view(before).contains(pr) || pr == (
            key@,
            value@,
        ) by {
            if pairs_view(set@).contains(pr) {
                let w = choose|w: int|
                    0 <= w < pairs_view(set@).len() && #[trigger] pairs_view(set@)[w] == pr;
                if w < pairs_view(before).len() {
                    assert(pairs_view(before)[w] == pr);
                }
            }
            if pairs_view(before).contains(pr) {
                let w = choose|w: int|
                    0 <= w < pairs_view(before).len() && #[trigger] pairs_view(before)[w] == pr;
                assert(pairs_view(set@)[w] == pr);
            }
            if pr == (key@, value@) {
                assert(pairs_view(set@)[pairs_view(set@).len() - 1] == pr);
            }
        }
        if pairs_view(before).no_duplicates() {
            assert forall|a: int, b: int|
                0 <= a < pairs_view(set@).len() && 0 <= b < pairs_view(set@).len() && a
                    != b implies pairs_view(set@)[a] != pairs_view(set@)[b] by {
                if a < pairs_view(set@).len() - 1 && b < pairs_view(set@).len() - 1 {
                } else if a == pairs_view(set@).len() - 1 {
                    if pairs_view(before)[b] == (key@, value@) {
                        assert(pairs_view(before).contains((key@, value@)));
                    }
                } else {
                    if pairs_view(before)[a] == (key@, value@) {
                        assert(pairs_view(before).contains((key@, value@)));
                    }
                }
            }
        }
    }
}

/// The artifact-type tag of a unit's target: `CDYLIB`, `STATICLIB` or
/// `BIN`.  Any other target shape is a bug in upstream unit
/// construction, so it is excluded rather than handled.
pub fn unit_artifact_type_name_upper(target: &Target) -> (r: &'static str)
    requires
        spec_valid_artifact_kind(target@.kind),
    ensures
        r@ == spec_artifact_type_name(target@.kind),
{
    match &target.kind {
        crate::types::TargetKind::Lib(ts) => {
            if ts.len() == 1 {
                match ts[0] {
                    CrateType::Cdylib => "CDYLIB",
                    CrateType::Staticlib => "STATICLIB",
                    _ => {
                        proof {
                            assert(false);
                        }
                        unreached()
                    },
                }
            } else {
                proof {
                    assert(false);
                }
                unreached()
            }
        },
        crate::types::TargetKind::Bin => "BIN",
        _ => {
            proof {
                assert(false);
            }
            unreached()
        },
    }
}

/// Computes the artifact environment for one compilation unit: for every
/// `Normal` output of every artifact dependency, the variable
/// assignments of the committed grammar, deduplicated per dependency.
/// The record maps each contributing dependency's unit hash to its
/// assignments; a dependency with nothing to contribute is absent, and a
/// run with no contributions at all returns `None`.
pub fn set_env(dependencies: &Vec<UnitDep>) -> (r: Option<Vec<(u64, Vec<(String, String)>)>>)
    requires
        forall|i: int|
            0 <= i < dependencies@.len() && (#[trigger] dependencies@[i]).is_artifact
                ==> spec_valid_artifact_kind(dependencies@[i].target@.kind),
        forall|i: int, o: int|
            0 <= i < dependencies@.len() && (#[trigger] dependencies@[i]).is_artifact && 0 <= o
                < dependencies@[i].outputs@.len() && (#[trigger] dependencies@[i].outputs@[
            o]).flavor == FileFlavor::Normal ==> has_slash(dependencies@[i].outputs@[o].path@),
    ensures
        ({
            let q = dependencies@.map_values(|d: UnitDep| d@).filter(
                |d: UnitDepView| qualifying(d),
            );
            &&& (r is None <==> q.len() == 0)
            &&& (r matches Some(rec) ==> rec@.len() == q.len())
            &&& (r matches Some(rec) ==> forall|m: int|
                0 <= m < q.len() ==> (#[trigger] rec@[m]).0 == q[m].unit_metadata)
            &&& (r matches Some(rec) ==> forall|m: int|
                0 <= m < q.len() ==> pairs_view((#[trigger] rec@[m]).1@).to_set() == dep_env_pairs(
                    q[m],
                ))
            &&& (r matches Some(rec) ==> forall|m: int|
                0 <= m < q.len() ==> pairs_view((#[trigger] rec@[m]).1@).no_duplicates())
        }),
{
    let ghost dv = dependencies@.map_values(|d: UnitDep| d@);
    let ghost qual = |d: UnitDepView| qualifying(d);
    let mut ret: Vec<(u64, Vec<(String, String)>)> = Vec::new();
    proof {
        reveal(Seq::filter);
        assert(dv.take(0) =~= Seq::<UnitDepView>::empty());
    }
    let mut i: usize = 0;
    while i < dependencies.len()
        invariant
            dv == dependencies@.map_values(|d: UnitDep| d@),
            qual == (|d: UnitDepView| qualifying(d)),
            i <= dependencies@.len(),
            forall|w: int|
                0 <= w < dependencies@.len() && (#[trigger] dependencies@[w]).is_artifact
                    ==> spec_valid_artifact_kind(dependencies@[w].target@.kind),
            forall|w: int, o: int|
                0 <= w < dependencies@.len() && (#[trigger] dependencies@[w]).is_artifact && 0 <= o
                    < dependencies@[w].outputs@.len() && (#[trigger] dependencies@[w].outputs@[
                o]).flavor == FileFlavor::Normal ==> has_slash(dependencies@[w].outputs@[o].path@),
            ret@.len() == dv.take(i as int).filter(qual).len(),
            forall|m: int|
                0 <= m < ret@.len() ==> (#[trigger] ret@[m]).0 == dv.take(i as int).filter(
                    qual,
                )[m].unit_metadata,
            forall|m: int|
                0 <= m < ret@.len() ==> pairs_view((#[trigger] ret@[m]).1@).to_set()
                    == dep_env_pairs(dv.take(i as int).filter(qual)[m]),
            forall|m: int|
                0 <= m < ret@.len() ==> pairs_view((#[trigger] ret@[m]).1@).no_duplicates(),
        decreases dependencies@.len() - i,
    {
        let d = &dependencies[i];
        proof {
            assert(dv[i as int] == d@);
        }
        let ghost ret_before = ret@;
        if d.is_artifact {
            let ty = unit_artifact_type_name_upper(&d.target);
            let dn: &String = match &d.dep_name {
                Some(n) => n,
                None => &d.pkg_name,
            };
            proof {
                assert(dn@ == env_dep_name(d@));
            }
            let dnu = crate::names::to_env_name(dn.as_str());
            let name_matches = *dn == d.target.name;
            let mut set: Vec<(String, String)> = Vec::new();
            proof {
                assert(pairs_view(set@) =~= Seq::<(Seq<char>, Seq<char>)>::empty());
            }
            let mut o: usize = 0;
            while o < d.outputs.len()
                invariant
                    d == &dependencies@[i as int],
                    dv == dependencies@.map_values(|dd: UnitDep| dd@),
                    0 <= i < dependencies@.len(),
                    dv[i as int] == d@,
                    d.is_artifact,
                    forall|w: int, oo: int|
                        0 <= w < dependencies@.len() && (#[trigger] dependencies@[w]).is_artifact
                            && 0 <= oo < dependencies@[w].outputs@.len() && (
                        #[trigger] dependencies@[w].outputs@[oo]).flavor == FileFlavor::Normal
                            ==> has_slash(dependencies@[w].outputs@[oo].path@),
                    ty@ == spec_artifact_type_name(d@.target.kind),
                    dn@ == env_dep_name(d@),
                    dnu@ == env_name(env_dep_name(d@)),
                    name_matches == (d@.target.name == env_dep_name(d@)),
                    o <= d.outputs@.len(),
                    pairs_view(set@).no_duplicates(),
                    forall|pr: (Seq<char>, Seq<char>)| #[trigger]
                        pairs_view(set@).contains(pr) <==> exists|w: int|
                            0 <= w < o && #[trigger] output_pair_cond(d@, w, pr),
                decreases d.outputs@.len() - o,
            {
                let ghost set_before = set@;
                let is_normal = match d.outputs[o].flavor {
                    FileFlavor::Normal => true,
                    _ => false,
                };
                if is_normal {
                    proof {
                        assert(dependencies@[i as int].outputs@[o as int].flavor
                            == FileFlavor::Normal);
                        assert(has_slash(d.outputs@[o as int].path@));
                        assert(d@.outputs[o as int].path == d.outputs@[o as int].path@);
                    }
                    let dir = crate::names::parent_dir(d.outputs[o].path.as_str());
                    let mut v1 = String::new();
                    v1.append("CARGO_");
                    v1.append(ty);
                    v1.append("_DIR_");
                    v1.append(dnu.as_str());
                    proof {
                        assert(v1@ =~= dir_var(ty@, dnu@));
                    }
                    insert_pair(&mut set, v1, dir);
                    let mut v2 = String::new();
                    v2.append("CARGO_");
                    v2.append(ty);
                    v2.append("_FILE_");
                    v2.append(dnu.as_str());
                    v2.append("_");
                    v2.append(d.target.name.as_str());
                    proof {
                        assert(v2@ =~= file_var(ty@, dnu@, d@.target.name));
                    }
                    insert_pair(&mut set, v2, d.outputs[o].path.clone());
                    if name_matches {
                        let mut v3 = String::new();
                        v3.append("CARGO_");
                        v3.append(ty);
                        v3.append("_FILE_");
                        v3.append(dnu.as_str());
                        proof {
                            assert(v3@ =~= file_var_short(ty@, dnu@));
                        }
                        insert_pair(&mut set, v3, d.outputs[o].path.clone());
                    }
                    proof {
                        let ty_s = spec_artifact_type_name(d@.target.kind);
                        let dnu_s = env_name(env_dep_name(d@));
                        let p1 = (dir_var(ty_s, dnu_s), parent_of(d@.outputs[o as int].path));
                        let p2 = (
                            file_var(ty_s, dnu_s, d@.target.name),
                            d@.outputs[o as int].path,
                        );
                        let p3 = (file_var_short(ty_s, dnu_s), d@.outputs[o as int].path);
                        assert forall|pr: (Seq<char>, Seq<char>)| #[trigger]
                            pairs_view(set@).contains(pr) <==> exists|w: int|
                                0 <= w < o + 1 && #[trigger] output_pair_cond(d@, w, pr) by {
                            if pairs_view(set@).contains(pr) {
                                if pairs_view(set_before).contains(pr) {
                                    let w = choose|w: int|
                                        0 <= w < o && #[trigger] output_pair_cond(d@, w, pr);
                                    assert(output_pair_cond(d@, w, pr));
                                } else {
                                    assert(pr == p1 || pr == p2 || (name_matches && pr == p3));
                                    assert(output_pair_cond(d@, o as int, pr));
                                }
                            }
                            if exists|w: int| 0 <= w < o + 1 && #[trigger] output_pair_cond(
                                d@,
                                w,
                                pr,
                            ) {
                                let w = choose|w: int|
                                    0 <= w < o + 1 && #[trigger] output_pair_cond(d@, w, pr);
                                if w < o {
                                    assert(pairs_view(set_before).contains(pr));
                                    assert(pairs_view(set@).contains(pr));
                                } else {
                                    assert(pr == p1 || pr == p2 || (d@.target.name
                                        == env_dep_name(d@) && pr == p3));
                                    assert(pairs_view(set@).contains(pr));
                                }
                            }
                        }
                    }
                } else {
                    proof {
                        assert forall|pr: (Seq<char>, Seq<char>)| #[trigger]
                            pairs_view(set@).contains(pr) <==> exists|w: int|
                                0 <= w < o + 1 && #[trigger] output_pair_cond(d@, w, pr) by {
                            if exists|w: int| 0 <= w < o + 1 && #[trigger] output_pair_cond(
                                d@,
                                w,
                                pr,
                            ) {
                                let w = choose|w: int|
                                    0 <= w < o + 1 && #[trigger] output_pair_cond(d@, w, pr);
                                assert(w < o);
                            }
                        }
                    }
                }
                o = o + 1;
            }
            proof {
                reveal(Seq::filter);
                assert(dv.take(i + 1).drop_last() =~= dv.take(i as int));
                assert(dv.take(i + 1).last() == d@);
            }
            if set.len() > 0 {
                proof {
                    assert(pairs_view(set@).contains(pairs_view(set@)[0]));
                    let pr0 = pairs_view(set@)[0];
                    let w = choose|w: int| 0 <= w < d.outputs@.len() && #[trigger] output_pair_cond(
                        d@,
                        w,
                        pr0,
                    );
                    assert(qualifying(d@)) by {
                        let w2 = choose|w2: int| 0 <= w2 < d.outputs@.len()
                            && #[trigger] output_pair_cond(d@, w2, pr0);
                        assert(d@.outputs[w2].flavor == FileFlavor::Normal);
                    }
                    assert(dv.take(i + 1).filter(qual) == dv.take(i as int).filter(qual).push(
                        d@,
                    ));
                }
                let ghost set_final = set@;
                ret.push((d.unit_metadata, set));
                proof {
                    assert(pairs_view(ret@.last().1@).to_set() =~= dep_env_pairs(d@));
                    assert forall|m: int|
                        0 <= m < ret@.len() implies (#[trigger] ret@[m]).0 == dv.take(
                        i + 1,
                    ).filter(qual)[m].unit_metadata by {
                        if m < ret@.len() - 1 {
                            assert(ret@[m] == ret_before[m]);
                        }
                    }
                    assert forall|m: int|
                        0 <= m < ret@.len() implies pairs_view((#[trigger] ret@[m]).1@).to_set()
                        == dep_env_pairs(dv.take(i + 1).filter(qual)[m]) by {
                        if m < ret@.len() - 1 {
                            assert(ret@[m] == ret_before[m]);
                        }
                    }
                }
            } else {
                proof {
                    assert(!qualifying(d@)) by {
                        if qualifying(d@) {
                            let w = choose|w: int|
                                0 <= w < d@.outputs.len() && (#[trigger] d@.outputs[w]).flavor
                                    == FileFlavor::Normal;
                            let ty_s = spec_artifact_type_name(d@.target.kind);
                            let dnu_s = env_name(env_dep_name(d@));
                            let p1 = (dir_var(ty_s, dnu_s), parent_of(d@.outputs[w].path));
                            assert(output_pair_cond(d@, w, p1));
                            assert(pairs_view(set@).contains(p1));
                        }
                    }
                    assert(dv.take(i + 1).filter(qual) == dv.take(i as int).filter(qual));
                }
            }
        } else {
            proof {
                reveal(Seq::filter);
                assert(dv.take(i + 1).drop_last() =~= dv.take(i as int));
                assert(dv.take(i + 1).last() == d@);
                assert(!qualifying(d@));
                assert(dv.take(i + 1).filter(qual) == dv.take(i as int).filter(qual));
            }
        }
        i = i + 1;
    }
    proof {
        assert(dv.take(dv.len() as int) =~= dv);
    }
    if ret.len() == 0 {
        None
    } else {
        Some(ret)
    }
}

} // verus!
