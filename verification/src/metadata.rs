//! The introspection export: a serialized view of a resolution — every
//! reachable package with its resolved dependencies, each edge annotated
//! with the categories and artifact kinds it was declared under.
//!
//! Workspace loading, platform predicate evaluation and the final
//! serialization live with the caller; this module receives plain values
//! (the resolution, the loaded packages, which platform predicates are
//! active) and computes the export.

use crate::alist::alist_contains;
use crate::alist::alist_get;
use crate::alist::find_key_index;
use crate::names::underscore_name;
use crate::order::lemma_opt_seq_le_properties;
use crate::order::lemma_seq_char_le_properties;
use crate::order::opt_seq_le;
use crate::order::opt_str_eq;
use crate::order::opt_str_le;
use crate::order::pkg_le;
use crate::order::pkg_le_exec;
use crate::order::seq_char_le;
use crate::order::str_seq_le;
use crate::types::dep_kind_rank;
use crate::types::deps_view;
use crate::types::ids_view;
use crate::types::opt_str_view;
use crate::types::spec_name_in_toml;
use crate::types::strings_view;
use crate::types::ArtifactKindView;
use crate::types::ArtifactTargetView;
use crate::types::DepKind;
use crate::types::Dependency;
use crate::types::DependencyView;
use crate::types::Package;
use crate::types::PackageId;
use crate::types::PackageView;
use crate::types::PkgIdView;
use crate::types::TargetView;
use vstd::prelude::*;
use vstd::relations::sorted_by;
use vstd::relations::total_ordering;
use vstd::seq_lib::lemma_sorted_unique;
use vstd::string::StringExecFns;

verus! {

/// One dependency-category record of an edge in the export: the category,
/// the platform predicate, the `extern` identifier, and — for artifact
/// declarations — the artifact kind, the selected binary and the target
/// override.
#[derive(Clone, Debug)]
pub struct DepKindInfo {
    pub kind: DepKind,
    /// The platform predicate the edge is limited to, as text.
    pub target: Option<String>,
    /// The identifier the consumer's source code uses.
    pub extern_name: String,
    /// The binary this record stands for, when the artifact is a binary.
    pub bin_name: Option<String>,
    /// The artifact kind, as its manifest keyword.
    pub artifact: Option<String>,
    /// The artifact's target override: a triple, or the word for "the
    /// build target in effect".
    pub compile_target: Option<String>,
}

/// Ghost image of a [`DepKindInfo`].
pub struct DepKindInfoView {
    pub kind: DepKind,
    pub target: Option<Seq<char>>,
    pub extern_name: Seq<char>,
    pub bin_name: Option<Seq<char>>,
    pub artifact: Option<Seq<char>>,
    pub compile_target: Option<Seq<char>>,
}

impl View for DepKindInfo {
    type V = DepKindInfoView;

    open spec fn view(&self) -> DepKindInfoView {
        DepKindInfoView {
            kind: self.kind,
            target: opt_str_view(self.target),
            extern_name: self.extern_name@,
            bin_name: opt_str_view(self.bin_name),
            artifact: opt_str_view(self.artifact),
            compile_target: opt_str_view(self.compile_target),
        }
    }
}

/// The view of a record list.
pub open spec fn dkis_view(s: Seq<DepKindInfo>) -> Seq<DepKindInfoView> {
    s.map_values(|d: DepKindInfo| d@)
}

/// The record of a plain (non-artifact) declaration: category, platform,
/// and the declared name with `-` replaced by `_`.
pub open spec fn spec_dki_from(d: DependencyView) -> DepKindInfoView {
    DepKindInfoView {
        kind: d.kind,
        target: d.platform,
        extern_name: underscore_name(spec_name_in_toml(d)),
        bin_name: None,
        artifact: None,
        compile_target: None,
    }
}

impl DepKindInfo {
    /// The record of a plain (non-artifact) declaration.
    pub fn from_dep(dep: &Dependency) -> (r: DepKindInfo)
        ensures
            r@ == spec_dki_from(dep@),
    {
        DepKindInfo {
            kind: dep.kind,
            target: match &dep.platform {
                Some(p) => Some(p.clone()),
                None => None,
            },
            extern_name: crate::names::to_underscore_name(dep.name_in_toml().as_str()),
            bin_name: None,
            artifact: None,
            compile_target: None,
        }
    }
}

/// The display order of records: category, then platform, then `extern`
/// name, then binary, artifact kind and target override.
pub open spec fn dki_le(a: DepKindInfoView, b: DepKindInfoView) -> bool {
    if a.kind != b.kind {
        dep_kind_rank(a.kind) < dep_kind_rank(b.kind)
    } else if a.target != b.target {
        opt_seq_le(a.target, b.target)
    } else if a.extern_name != b.extern_name {
        seq_char_le(a.extern_name, b.extern_name)
    } else if a.bin_name != b.bin_name {
        opt_seq_le(a.bin_name, b.bin_name)
    } else if a.artifact != b.artifact {
        opt_seq_le(a.artifact, b.artifact)
    } else {
        opt_seq_le(a.compile_target, b.compile_target)
    }
}

/// `dki_le` is a total ordering.
pub proof fn lemma_dki_le_total_ordering()
    ensures
        total_ordering(|a: DepKindInfoView, b: DepKindInfoView| dki_le(a, b)),
{
    let le = |a: DepKindInfoView, b: DepKindInfoView| dki_le(a, b);
    assert forall|a: DepKindInfoView| #[trigger] le(a, a) by {
        lemma_opt_seq_le_properties(a.compile_target, a.compile_target, a.compile_target);
    }
    assert forall|a: DepKindInfoView, b: DepKindInfoView|
        #[trigger] le(a, b) && #[trigger] le(b, a) implies a == b by {
        lemma_opt_seq_le_properties(a.target, b.target, a.target);
        lemma_seq_char_le_properties(a.extern_name, b.extern_name, a.extern_name);
        lemma_opt_seq_le_properties(a.bin_name, b.bin_name, a.bin_name);
        lemma_opt_seq_le_properties(a.artifact, b.artifact, a.artifact);
        lemma_opt_seq_le_properties(a.compile_target, b.compile_target, a.compile_target);
        assert(a.kind == b.kind);
        assert(a.target == b.target);
        assert(a.extern_name == b.extern_name);
        assert(a.bin_name == b.bin_name);
        assert(a.artifact == b.artifact);
        assert(a.compile_target == b.compile_target);
    }
    assert forall|a: DepKindInfoView, b: DepKindInfoView, c: DepKindInfoView|
        #[trigger] le(a, b) && #[trigger] le(b, c) implies le(a, c) by {
        lemma_opt_seq_le_properties(a.target, b.target, c.target);
        lemma_seq_char_le_properties(a.extern_name, b.extern_name, c.extern_name);
        lemma_opt_seq_le_properties(a.bin_name, b.bin_name, c.bin_name);
        lemma_opt_seq_le_properties(a.artifact, b.artifact, c.artifact);
        lemma_opt_seq_le_properties(a.compile_target, b.compile_target, c.compile_target);
    }
    assert forall|a: DepKindInfoView, b: DepKindInfoView| #[trigger] le(a, b) || #[trigger] le(
        b,
        a,
    ) by {
        lemma_opt_seq_le_properties(a.target, b.target, a.target);
        lemma_seq_char_le_properties(a.extern_name, b.extern_name, a.extern_name);
        lemma_opt_seq_le_properties(a.bin_name, b.bin_name, a.bin_name);
        lemma_opt_seq_le_properties(a.artifact, b.artifact, a.artifact);
        lemma_opt_seq_le_properties(a.compile_target, b.compile_target, a.compile_target);
    }
}

/// The rank of a category in declaration order.
fn kind_rank(k: DepKind) -> (r: u8)
    ensures
        r as int == dep_kind_rank(k),
{
    match k {
        DepKind::Normal => 0,
        DepKind::Development => 1,
        DepKind::Build => 2,
    }
}

/// Decides `dki_le` on records.
fn dki_le_exec(a: &DepKindInfo, b: &DepKindInfo) -> (r: bool)
    ensures
        r == dki_le(a@, b@),
{
    let ra = kind_rank(a.kind);
    let rb = kind_rank(b.kind);
    if ra != rb {
        proof {
            assert(a@.kind != b@.kind);
        }
        ra < rb
    } else {
        proof {
            assert(a@.kind == b@.kind) by {
                match (a.kind, b.kind) {
                    _ => {},
                }
            }
        }
        if !opt_str_eq(&a.target, &b.target) {
            opt_str_le(&a.target, &b.target)
        } else if !(a.extern_name == b.extern_name) {
            str_seq_le(a.extern_name.as_str(), b.extern_name.as_str())
        } else if !opt_str_eq(&a.bin_name, &b.bin_name) {
            opt_str_le(&a.bin_name, &b.bin_name)
        } else if !opt_str_eq(&a.artifact, &b.artifact) {
            opt_str_le(&a.artifact, &b.artifact)
        } else {
            opt_str_le(&a.compile_target, &b.compile_target)
        }
    }
}

/// Sorts the records into display order.  Since the order is total, the
/// result is exactly the canonical sorted form of the input.
fn sort_dep_kinds(v: Vec<DepKindInfo>) -> (r: Vec<DepKindInfo>)
    ensures
        dkis_view(r@) == dkis_view(v@).sort_by(|a: DepKindInfoView, b: DepKindInfoView| dki_le(a, b)),
{
    let ghost le = |a: DepKindInfoView, b: DepKindInfoView| dki_le(a, b);
    let ghost orig = dkis_view(v@);
    proof {
        lemma_dki_le_total_ordering();
    }
    let mut rest = v;
    let mut out: Vec<DepKindInfo> = Vec::new();
    proof {
        broadcast use vstd::seq_lib::group_to_multiset_ensures;
        broadcast use vstd::multiset::group_multiset_axioms;

        assert(dkis_view(out@) =~= Seq::<DepKindInfoView>::empty());
        assert(dkis_view(out@).to_multiset().add(dkis_view(rest@).to_multiset()) =~= orig.to_multiset());
    }
    while rest.len() > 0
        invariant
            le == (|a: DepKindInfoView, b: DepKindInfoView| dki_le(a, b)),
            total_ordering(le),
            dkis_view(out@).to_multiset().add(dkis_view(rest@).to_multiset())
                == orig.to_multiset(),
            sorted_by(dkis_view(out@), le),
            forall|x: int, y: int|
                0 <= x < out@.len() && 0 <= y < rest@.len() ==> le(
                    #[trigger] dkis_view(out@)[x],
                    #[trigger] dkis_view(rest@)[y],
                ),
        decreases rest@.len(),
    {
        // find a minimal element of the remainder
        let mut m: usize = 0;
        let mut j: usize = 1;
        while j < rest.len()
            invariant
                le == (|a: DepKindInfoView, b: DepKindInfoView| dki_le(a, b)),
                total_ordering(le),
                rest@.len() > 0,
                m < j,
                j <= rest@.len(),
                forall|w: int| 0 <= w < j ==> le(dkis_view(rest@)[m as int], #[trigger] dkis_view(rest@)[w]),
            decreases rest@.len() - j,
        {
            if !dki_le_exec(&rest[m], &rest[j]) {
                proof {
                    assert(dkis_view(rest@)[m as int] == rest@[m as int]@);
                    assert(dkis_view(rest@)[j as int] == rest@[j as int]@);
                    assert(!le(dkis_view(rest@)[m as int], dkis_view(rest@)[j as int]));
                    assert(le(dkis_view(rest@)[m as int], dkis_view(rest@)[j as int]) || le(
                        dkis_view(rest@)[j as int],
                        dkis_view(rest@)[m as int],
                    ));
                    assert(le(dkis_view(rest@)[j as int], dkis_view(rest@)[m as int]));
                    assert forall|w: int| 0 <= w < j + 1 implies le(
                        dkis_view(rest@)[j as int],
                        #[trigger] dkis_view(rest@)[w],
                    ) by {
                        if w < j {
                            assert(le(dkis_view(rest@)[m as int], dkis_view(rest@)[w]));
                        }
                    }
                }
                m = j;
            } else {
                proof {
                    assert(le(dkis_view(rest@)[m as int], dkis_view(rest@)[j as int]));
                }
            }
            j = j + 1;
        }
        let ghost rest_before = rest@;
        let ghost out_before = out@;
        let x = rest.remove(m);
        out.push(x);
        proof {
            broadcast use vstd::seq_lib::group_to_multiset_ensures;
            broadcast use vstd::multiset::group_multiset_axioms;

            assert(dkis_view(rest@) =~= dkis_view(rest_before).remove(m as int));
            assert(dkis_view(out@) =~= dkis_view(out_before).push(x@));
            assert(x@ == dkis_view(rest_before)[m as int]);
            assert(dkis_view(rest_before).remove(m as int).to_multiset() =~= dkis_view(
                rest_before,
            ).to_multiset().remove(x@));
            assert(dkis_view(out@).to_multiset() =~= dkis_view(out_before).to_multiset().insert(
                x@,
            ));
            assert(dkis_view(out@).to_multiset().add(dkis_view(rest@).to_multiset())
                =~= orig.to_multiset()) by {
                assert(dkis_view(rest_before).to_multiset().count(x@) > 0) by {
                    assert(dkis_view(rest_before).contains(x@));
                }
            }
            assert forall|a: int, b: int|
                0 <= a < b < dkis_view(out@).len() implies le(
                #[trigger] dkis_view(out@)[a],
                #[trigger] dkis_view(out@)[b],
            ) by {
                if b < dkis_view(out@).len() - 1 {
                    assert(le(dkis_view(out_before)[a], dkis_view(out_before)[b]));
                } else {
                    assert(le(dkis_view(out_before)[a], dkis_view(rest_before)[m as int]));
                }
            }
            assert forall|a: int, b: int|
                0 <= a < dkis_view(out@).len() && 0 <= b < dkis_view(rest@).len() implies le(
                #[trigger] dkis_view(out@)[a],
                #[trigger] dkis_view(rest@)[b],
            ) by {
                let pre = if b < m as int {
                    b
                } else {
                    b + 1
                };
                assert(dkis_view(rest@)[b] == dkis_view(rest_before)[pre]);
                if a < dkis_view(out@).len() - 1 {
                    assert(le(dkis_view(out_before)[a], dkis_view(rest_before)[pre]));
                } else {
                    assert(le(dkis_view(rest_before)[m as int], dkis_view(rest_before)[pre]));
                }
            }
        }
    }
    proof {
        assert(dkis_view(rest@) =~= Seq::<DepKindInfoView>::empty());
        assert(dkis_view(out@).to_multiset() =~= orig.to_multiset()) by {
            broadcast use vstd::seq_lib::group_to_multiset_ensures;
            broadcast use vstd::multiset::group_multiset_axioms;

        }
        orig.lemma_sort_by_ensures(le);
        lemma_sorted_unique(dkis_view(out@), orig.sort_by(le), le);
    }
    out
}

/// An owned copy of an optional string with the same view.
fn dup_opt_string(o: &Option<String>) -> (r: Option<String>)
    ensures
        opt_str_view(r) == opt_str_view(*o),
{
    match o {
        Some(s) => Some(s.clone()),
        None => None,
    }
}

/// Whether some string in `v` reads as `s`.
fn contains_str(v: &Vec<String>, s: &String) -> (r: bool)
    ensures
        r == strings_view(v@).contains(s@),
{
    let mut i: usize = 0;
    while i < v.len()
        invariant
            i <= v.len(),
            forall|j: int| 0 <= j < i ==> (#[trigger] v@[j])@ != s@,
        decreases v.len() - i,
    {
        if v[i] == *s {
            proof {
                assert(strings_view(v@)[i as int] == s@);
            }
            return true;
        }
        i = i + 1;
    }
    proof {
        if strings_view(v@).contains(s@) {
            let j = choose|j: int|
                0 <= j < strings_view(v@).len() && #[trigger] strings_view(v@)[j] == s@;
            assert(v@[j]@ == s@);
        }
    }
    false
}

/// The compile-target column of an artifact declaration: the word for
/// "the build target in effect", a fixed triple, or nothing.
pub open spec fn spec_compile_target(t: Option<ArtifactTargetView>) -> Option<Seq<char>> {
    match t {
        Some(ArtifactTargetView::BuildDependencyAssumeTarget) => Some("target"@),
        Some(ArtifactTargetView::Force(tr)) => Some(tr),
        None => None,
    }
}

/// The record of one requested artifact kind; `AllBinaries` is spread in
/// a second pass and contributes nothing here.
pub open spec fn spec_kind_dki(
    d: DependencyView,
    ct: Option<Seq<char>>,
    k: ArtifactKindView,
) -> Option<DepKindInfoView> {
    match k {
        ArtifactKindView::Staticlib => Some(
            DepKindInfoView {
                kind: d.kind,
                target: d.platform,
                extern_name: underscore_name(spec_name_in_toml(d)),
                bin_name: None,
                artifact: Some("staticlib"@),
                compile_target: ct,
            },
        ),
        ArtifactKindView::Cdylib => Some(
            DepKindInfoView {
                kind: d.kind,
                target: d.platform,
                extern_name: underscore_name(spec_name_in_toml(d)),
                bin_name: None,
                artifact: Some("cdylib"@),
                compile_target: ct,
            },
        ),
        ArtifactKindView::AllBinaries => None,
        ArtifactKindView::SelectedBinary(name) => Some(
            DepKindInfoView {
                kind: d.kind,
                target: d.platform,
                extern_name: underscore_name(name),
                bin_name: Some(name),
                artifact: Some("bin"@),
                compile_target: ct,
            },
        ),
    }
}

/// The records of the requested artifact kinds, in declaration order.
pub open spec fn spec_kind_infos(
    d: DependencyView,
    ct: Option<Seq<char>>,
    kinds: Seq<ArtifactKindView>,
) -> Seq<DepKindInfoView>
    decreases kinds.len(),
{
    if kinds.len() == 0 {
        Seq::empty()
    } else {
        spec_kind_infos(d, ct, kinds.drop_last()) + (match spec_kind_dki(d, ct, kinds.last()) {
            Some(x) => seq![x],
            None => Seq::empty(),
        })
    }
}

/// Whether the declaration asks for every binary of the package.
pub open spec fn has_all_binaries(kinds: Seq<ArtifactKindView>) -> bool {
    exists|i: int| 0 <= i < kinds.len() && (#[trigger] kinds[i]) is AllBinaries
}

/// The record standing for one binary of the package.
pub open spec fn spec_bin_dki(
    d: DependencyView,
    ct: Option<Seq<char>>,
    name: Seq<char>,
) -> DepKindInfoView {
    DepKindInfoView {
        kind: d.kind,
        target: d.platform,
        extern_name: underscore_name(name),
        bin_name: Some(name),
        artifact: Some("bin"@),
        compile_target: ct,
    }
}

/// One record per binary target, in target order.
pub open spec fn spec_bin_infos(
    d: DependencyView,
    ct: Option<Seq<char>>,
    targets: Seq<TargetView>,
) -> Seq<DepKindInfoView>
    decreases targets.len(),
{
    if targets.len() == 0 {
        Seq::empty()
    } else {
        spec_bin_infos(d, ct, targets.drop_last()) + (if targets.last().kind is Bin {
            seq![spec_bin_dki(d, ct, targets.last().name)]
        } else {
            Seq::empty()
        })
    }
}

/// The records of one declared edge: a single plain record for an
/// ordinary dependency; for an artifact dependency, one record per
/// requested kind, one per binary when every binary was requested (and
/// the package is known), and a plain record when the library is linked
/// alongside the artifacts.
pub open spec fn spec_spread(dep_pkg: Option<PackageView>, d: DependencyView) -> Seq<
    DepKindInfoView,
> {
    match d.artifact {
        None => seq![spec_dki_from(d)],
        Some(a) => {
            let ct = spec_compile_target(a.target);
            spec_kind_infos(d, ct, a.kinds) + (if has_all_binaries(a.kinds) {
                match dep_pkg {
                    Some(p) => spec_bin_infos(d, ct, p.targets),
                    None => Seq::empty(),
                }
            } else {
                Seq::empty()
            }) + (if a.lib {
                seq![spec_dki_from(d)]
            } else {
                Seq::empty()
            })
        },
    }
}

/// Spreads one declared edge into its dependency-category records.  An
/// artifact declaration yields one record per artifact kind; a request
/// for every binary is expanded against the package's binary targets
/// (silently skipped when the package is unknown), and `lib = true` adds
/// the plain record on top.
pub fn single_dep_kind_or_spread_artifact_kinds(
    dep_pkg: Option<&Package>,
    dep: &Dependency,
) -> (r: Vec<DepKindInfo>)
    ensures
        dkis_view(r@) == spec_spread(
            match dep_pkg {
                Some(p) => Some(p@),
                None => None,
            },
            dep@,
        ),
{
    let ghost dpv: Option<PackageView> = match dep_pkg {
        Some(p) => Some(p@),
        None => None,
    };
    match &dep.artifact {
        None => {
            let mut out: Vec<DepKindInfo> = Vec::new();
            out.push(DepKindInfo::from_dep(dep));
            proof {
                assert(dkis_view(out@) =~= seq![spec_dki_from(dep@)]);
            }
            out
        },
        Some(a) => {
            let ct: Option<String> = match &a.target {
                Some(crate::types::ArtifactTarget::BuildDependencyAssumeTarget) => Some(
                    String::from_str("target"),
                ),
                Some(crate::types::ArtifactTarget::Force(tr)) => Some(tr.clone()),
                None => None,
            };
            let ghost ctv = spec_compile_target(
                match dep@.artifact {
                    Some(av) => av.target,
                    None => None,
                },
            );
            proof {
                assert(opt_str_view(ct) == ctv);
            }
            let ghost kindsv = dep@.artifact->Some_0.kinds;
            let mut out: Vec<DepKindInfo> = Vec::new();
            proof {
                assert(a.kinds@.map_values(|k: crate::types::ArtifactKind| k@) == kindsv);
                assert(spec_kind_infos(dep@, ctv, kindsv.take(0)) =~= Seq::<
                    DepKindInfoView,
                >::empty());
                assert(dkis_view(out@) =~= Seq::<DepKindInfoView>::empty());
            }
            let mut i: usize = 0;
            while i < a.kinds.len()
                invariant
                    kindsv == a.kinds@.map_values(|k: crate::types::ArtifactKind| k@),
                    opt_str_view(ct) == ctv,
                    i <= a.kinds@.len(),
                    dkis_view(out@) == spec_kind_infos(dep@, ctv, kindsv.take(i as int)),
                decreases a.kinds@.len() - i,
            {
                let ghost out_before = out@;
                match &a.kinds[i] {
                    crate::types::ArtifactKind::Staticlib => {
                        let mut k = DepKindInfo::from_dep(dep);
                        k.artifact = Some(String::from_str("staticlib"));
                        k.compile_target = dup_opt_string(&ct);
                        out.push(k);
                    },
                    crate::types::ArtifactKind::Cdylib => {
                        let mut k = DepKindInfo::from_dep(dep);
                        k.artifact = Some(String::from_str("cdylib"));
                        k.compile_target = dup_opt_string(&ct);
                        out.push(k);
                    },
                    crate::types::ArtifactKind::AllBinaries => {},
                    crate::types::ArtifactKind::SelectedBinary(name) => {
                        let mut k = DepKindInfo::from_dep(dep);
                        k.extern_name = crate::names::to_underscore_name(name.as_str());
                        k.bin_name = Some(name.clone());
                        k.artifact = Some(String::from_str("bin"));
                        k.compile_target = dup_opt_string(&ct);
                        out.push(k);
                    },
                }
                proof {
                    assert(kindsv.take(i + 1).drop_last() =~= kindsv.take(i as int));
                    assert(kindsv.take(i + 1).last() == kindsv[i as int]);
                    assert(kindsv[i as int] == a.kinds@[i as int]@);
                    match spec_kind_dki(dep@, ctv, kindsv[i as int]) {
                        Some(x) => {
                            assert(dkis_view(out@) =~= dkis_view(out_before).push(x));
                            assert(spec_kind_infos(dep@, ctv, kindsv.take(i + 1)) =~= dkis_view(
                                out_before,
                            ).push(x));
                        },
                        None => {
                            assert(spec_kind_infos(dep@, ctv, kindsv.take(i + 1)) =~= dkis_view(
                                out_before,
                            ));
                        },
                    }
                }
                i = i + 1;
            }
            proof {
                assert(kindsv.take(kindsv.len() as int) =~= kindsv);
            }
            let ghost first_part = dkis_view(out@);
            // second pass: expand a request for every binary
            let mut has_all = false;
            let mut w: usize = 0;
            while w < a.kinds.len()
                invariant
                    kindsv == a.kinds@.map_values(|k: crate::types::ArtifactKind| k@),
                    w <= a.kinds@.len(),
                    has_all == exists|m: int| 0 <= m < w && (#[trigger] kindsv[m]) is AllBinaries,
                decreases a.kinds@.len() - w,
            {
                let is_all = match &a.kinds[w] {
                    crate::types::ArtifactKind::AllBinaries => true,
                    _ => false,
                };
                proof {
                    assert(kindsv[w as int] == a.kinds@[w as int]@);
                }
                if is_all && !has_all {
                    has_all = true;
                    proof {
                        assert(kindsv[w as int] is AllBinaries);
                    }
                } else {
                    proof {
                        if !has_all {
                            assert forall|m: int|
                                0 <= m < w + 1 implies !((#[trigger] kindsv[m]) is AllBinaries) by {
                            }
                        }
                    }
                }
                w = w + 1;
            }
            proof {
                assert(has_all == has_all_binaries(kindsv));
            }
            if has_all {
                match dep_pkg {
                    Some(p) => {
                        let ghost tv = p@.targets;
                        let mut t: usize = 0;
                        while t < p.targets.len()
                            invariant
                                kindsv == a.kinds@.map_values(
                                    |k: crate::types::ArtifactKind| k@,
                                ),
                                opt_str_view(ct) == ctv,
                                tv == p.targets@.map_values(|x: crate::types::Target| x@),
                                t <= p.targets@.len(),
                                dkis_view(out@) == first_part + spec_bin_infos(
                                    dep@,
                                    ctv,
                                    tv.take(t as int),
                                ),
                            decreases p.targets@.len() - t,
                        {
                            let ghost out_before = out@;
                            if p.targets[t].is_bin() {
                                let mut k = DepKindInfo::from_dep(dep);
                                k.extern_name = crate::names::to_underscore_name(
                                    p.targets[t].name.as_str(),
                                );
                                k.bin_name = Some(p.targets[t].name.clone());
                                k.artifact = Some(String::from_str("bin"));
                                k.compile_target = dup_opt_string(&ct);
                                out.push(k);
                            }
                            proof {
                                assert(tv.take(t + 1).drop_last() =~= tv.take(t as int));
                                assert(tv.take(t + 1).last() == tv[t as int]);
                                assert(tv[t as int] == p.targets@[t as int]@);
                                if tv[t as int].kind is Bin {
                                    assert(dkis_view(out@) =~= dkis_view(out_before).push(
                                        spec_bin_dki(dep@, ctv, tv[t as int].name),
                                    ));
                                    assert(first_part + spec_bin_infos(dep@, ctv, tv.take(t + 1))
                                        =~= dkis_view(out_before).push(
                                        spec_bin_dki(dep@, ctv, tv[t as int].name),
                                    ));
                                } else {
                                    assert(first_part + spec_bin_infos(dep@, ctv, tv.take(t + 1))
                                        =~= dkis_view(out_before));
                                }
                            }
                            t = t + 1;
                        }
                        proof {
                            assert(tv.take(tv.len() as int) =~= tv);
                        }
                    },
                    None => {
                        proof {
                            assert(dkis_view(out@) =~= first_part + Seq::<
                                DepKindInfoView,
                            >::empty());
                        }
                    },
                }
            } else {
                proof {
                    assert(dkis_view(out@) =~= first_part + Seq::<DepKindInfoView>::empty());
                }
            }
            let ghost second_part = dkis_view(out@);
            if a.lib {
                let ghost out_before = out@;
                out.push(DepKindInfo::from_dep(dep));
                proof {
                    assert(dkis_view(out@) =~= second_part + seq![spec_dki_from(dep@)]);
                }
            } else {
                proof {
                    assert(dkis_view(out@) =~= second_part + Seq::<DepKindInfoView>::empty());
                }
            }
            proof {
                assert(dep@.artifact->Some_0.lib == a.lib);
            }
            out
        },
    }
}

/// The canonical record order as a function value, shared by contracts.
pub open spec fn dki_le_fn() -> spec_fn(DepKindInfoView, DepKindInfoView) -> bool {
    |a: DepKindInfoView, b: DepKindInfoView| dki_le(a, b)
}

/// The view of a package list.
pub open spec fn pkgs_view(s: Seq<Package>) -> Seq<PackageView> {
    s.map_values(|p: Package| p@)
}

/// The identities of a package list.
pub open spec fn package_ids(pkgs: Seq<PackageView>) -> Seq<PkgIdView> {
    pkgs.map_values(|p: PackageView| p.package_id)
}

/// The first package with the given identity, if any.
pub open spec fn pkg_lookup(pkgs: Seq<PackageView>, id: PkgIdView) -> Option<PackageView>
    decreases pkgs.len(),
{
    if pkgs.len() == 0 {
        None
    } else if pkgs[0].package_id == id {
        Some(pkgs[0])
    } else {
        pkg_lookup(pkgs.drop_first(), id)
    }
}

/// The first matching package decides `pkg_lookup`.
proof fn lemma_pkg_lookup_present(pkgs: Seq<PackageView>, i: int)
    requires
        0 <= i < pkgs.len(),
        forall|j: int| 0 <= j < i ==> (#[trigger] pkgs[j]).package_id != pkgs[i].package_id,
    ensures
        pkg_lookup(pkgs, pkgs[i].package_id) == Some(pkgs[i]),
    decreases i,
{
    if i > 0 {
        assert(pkgs[0].package_id != pkgs[i].package_id);
        assert forall|j: int| 0 <= j < i - 1 implies (#[trigger] pkgs.drop_first()[j]).package_id
            != pkgs.drop_first()[i - 1].package_id by {
            assert(pkgs[j + 1].package_id != pkgs[i].package_id);
        }
        lemma_pkg_lookup_present(pkgs.drop_first(), i - 1);
        assert(pkgs.drop_first()[i - 1] == pkgs[i]);
    }
}

/// An identity that matches no package gives `None`.
proof fn lemma_pkg_lookup_absent(pkgs: Seq<PackageView>, id: PkgIdView)
    requires
        forall|j: int| 0 <= j < pkgs.len() ==> (#[trigger] pkgs[j]).package_id != id,
    ensures
        pkg_lookup(pkgs, id) is None,
    decreases pkgs.len(),
{
    if pkgs.len() > 0 {
        assert forall|j: int| 0 <= j < pkgs.drop_first().len() implies (#[trigger] pkgs.drop_first()[
        j]).package_id != id by {
            assert(pkgs[j + 1].package_id != id);
        }
        lemma_pkg_lookup_absent(pkgs.drop_first(), id);
    }
}

/// Finds the first package with the given identity.
fn find_pkg_index(packages: &Vec<Package>, id: &PackageId) -> (r: Option<usize>)
    ensures
        match r {
            Some(i) => i < packages@.len() && packages@[i as int].package_id@ == id@ && forall|
                j: int,
            | 0 <= j < i ==> (#[trigger] packages@[j]).package_id@ != id@,
            None => forall|j: int|
                0 <= j < packages@.len() ==> (#[trigger] packages@[j]).package_id@ != id@,
        },
{
    let mut i: usize = 0;
    while i < packages.len()
        invariant
            i <= packages@.len(),
            forall|j: int| 0 <= j < i ==> (#[trigger] packages@[j]).package_id@ != id@,
        decreases packages@.len() - i,
    {
        if packages[i].package_id == *id {
            return Some(i);
        }
        i = i + 1;
    }
    None
}

/// The first library target, if any.
pub open spec fn first_lib(targets: Seq<TargetView>) -> Option<TargetView>
    decreases targets.len(),
{
    if targets.len() == 0 {
        None
    } else if crate::types::spec_is_lib(targets[0].kind) {
        Some(targets[0])
    } else {
        first_lib(targets.drop_first())
    }
}

/// Non-library targets do not decide `first_lib`.
proof fn lemma_first_lib_skip(targets: Seq<TargetView>, j: int)
    requires
        0 <= j <= targets.len(),
        forall|m: int| 0 <= m < j ==> !crate::types::spec_is_lib((#[trigger] targets[m]).kind),
    ensures
        first_lib(targets) == first_lib(targets.skip(j)),
    decreases j,
{
    if j > 0 {
        assert(!crate::types::spec_is_lib(targets[0].kind));
        assert(targets.drop_first().skip(j - 1) =~= targets.skip(j));
        assert forall|m: int| 0 <= m < j - 1 implies !crate::types::spec_is_lib(
            (#[trigger] targets.drop_first()[m]).kind,
        ) by {
            assert(!crate::types::spec_is_lib(targets[m + 1].kind));
        }
        lemma_first_lib_skip(targets.drop_first(), j - 1);
    } else {
        assert(targets.skip(0) =~= targets);
    }
}

/// Finds the first library target.
fn find_lib_index(targets: &Vec<crate::types::Target>) -> (r: Option<usize>)
    ensures
        match r {
            Some(i) => i < targets@.len() && first_lib(
                targets@.map_values(|t: crate::types::Target| t@),
            ) == Some(targets@[i as int]@),
            None => first_lib(targets@.map_values(|t: crate::types::Target| t@)) is None,
        },
{
    let ghost tv = targets@.map_values(|t: crate::types::Target| t@);
    let mut i: usize = 0;
    while i < targets.len()
        invariant
            tv == targets@.map_values(|t: crate::types::Target| t@),
            i <= targets@.len(),
            forall|m: int| 0 <= m < i ==> !crate::types::spec_is_lib((#[trigger] tv[m]).kind),
        decreases targets@.len() - i,
    {
        if targets[i].is_lib() {
            proof {
                lemma_first_lib_skip(tv, i as int);
                assert(tv.skip(i as int)[0] == tv[i as int]);
            }
            return Some(i);
        }
        i = i + 1;
    }
    proof {
        lemma_first_lib_skip(tv, i as int);
        assert(tv.skip(i as int).len() == 0);
    }
    None
}

/// The name standing in for an edge with no library target: the first
/// artifact declaration's name, with `-` replaced by `_`.
pub open spec fn first_artifact_name(ds: Seq<DependencyView>) -> Option<Seq<char>>
    decreases ds.len(),
{
    if ds.len() == 0 {
        None
    } else if ds[0].artifact is Some {
        Some(underscore_name(spec_name_in_toml(ds[0])))
    } else {
        first_artifact_name(ds.drop_first())
    }
}

/// Declarations without an artifact do not decide `first_artifact_name`.
proof fn lemma_first_artifact_skip(ds: Seq<DependencyView>, j: int)
    requires
        0 <= j <= ds.len(),
        forall|m: int| 0 <= m < j ==> (#[trigger] ds[m]).artifact is None,
    ensures
        first_artifact_name(ds) == first_artifact_name(ds.skip(j)),
    decreases j,
{
    if j > 0 {
        assert(ds[0].artifact is None);
        assert(ds.drop_first().skip(j - 1) =~= ds.skip(j));
        assert forall|m: int| 0 <= m < j - 1 implies (#[trigger] ds.drop_first()[m]).artifact
            is None by {
            assert(ds[m + 1].artifact is None);
        }
        lemma_first_artifact_skip(ds.drop_first(), j - 1);
    } else {
        assert(ds.skip(0) =~= ds);
    }
}

/// Finds the first artifact declaration's name.
fn find_artifact_name(ds: &Vec<Dependency>) -> (r: Option<String>)
    ensures
        opt_str_view(r) == first_artifact_name(deps_view(ds@)),
{
    let ghost dv = deps_view(ds@);
    let mut i: usize = 0;
    while i < ds.len()
        invariant
            dv == deps_view(ds@),
            i <= ds@.len(),
            forall|m: int| 0 <= m < i ==> (#[trigger] dv[m]).artifact is None,
        decreases ds@.len() - i,
    {
        if ds[i].artifact.is_some() {
            proof {
                lemma_first_artifact_skip(dv, i as int);
                assert(dv.skip(i as int)[0] == dv[i as int]);
            }
            return Some(crate::names::to_underscore_name(ds[i].name_in_toml().as_str()));
        }
        i = i + 1;
    }
    proof {
        lemma_first_artifact_skip(dv, i as int);
        assert(dv.skip(i as int).len() == 0);
    }
    None
}

/// Whether a declaration applies under the active platform predicates.
pub open spec fn dep_activated(d: DependencyView, active: Seq<Seq<char>>) -> bool {
    match d.platform {
        None => true,
        Some(p) => active.contains(p),
    }
}

/// Whether an edge is shown: always when only the host platform was
/// requested, otherwise when some declaration's platform predicate is
/// active.
pub open spec fn spec_edge_kept(
    ds: Seq<DependencyView>,
    host_only: bool,
    active: Seq<Seq<char>>,
) -> bool {
    host_only || exists|i: int| 0 <= i < ds.len() && dep_activated(#[trigger] ds[i], active)
}

/// Decides `spec_edge_kept`.
fn edge_is_kept(ds: &Vec<Dependency>, host_only: bool, active: &Vec<String>) -> (r: bool)
    ensures
        r == spec_edge_kept(deps_view(ds@), host_only, strings_view(active@)),
{
    if host_only {
        return true;
    }
    let ghost dv = deps_view(ds@);
    let mut i: usize = 0;
    while i < ds.len()
        invariant
            dv == deps_view(ds@),
            i <= ds@.len(),
            forall|m: int| 0 <= m < i ==> !dep_activated(#[trigger] dv[m], strings_view(active@)),
        decreases ds@.len() - i,
    {
        let hit = match &ds[i].platform {
            None => true,
            Some(p) => contains_str(active, p),
        };
        if hit {
            proof {
                assert(dep_activated(dv[i as int], strings_view(active@)));
            }
            return true;
        }
        i = i + 1;
    }
    false
}

/// One resolved edge of the export: the identifier the consumer uses,
/// the dependency's identity, and its category records in display order.
#[derive(Clone, Debug)]
pub struct Dep {
    pub name: String,
    pub pkg: PackageId,
    pub dep_kinds: Vec<DepKindInfo>,
}

/// Ghost image of a [`Dep`].
pub struct DepView {
    pub name: Seq<char>,
    pub pkg: PkgIdView,
    pub dep_kinds: Seq<DepKindInfoView>,
}

impl View for Dep {
    type V = DepView;

    open spec fn view(&self) -> DepView {
        DepView { name: self.name@, pkg: self.pkg@, dep_kinds: dkis_view(self.dep_kinds@) }
    }
}

/// The view of an edge list.
pub open spec fn deps_list_view(s: Seq<Dep>) -> Seq<DepView> {
    s.map_values(|d: Dep| d@)
}

/// The dependency identities of an edge list, in order.
pub open spec fn dep_pkg_ids(deps: Seq<DepView>) -> Seq<PkgIdView> {
    deps.map_values(|d: DepView| d.pkg)
}

/// One package of the export: its identity, the identities of its
/// resolved dependencies, the annotated edges, and its enabled features.
#[derive(Clone, Debug)]
pub struct MetadataResolveNode {
    pub id: PackageId,
    pub dependencies: Vec<PackageId>,
    pub deps: Vec<Dep>,
    pub features: Vec<String>,
}

/// Ghost image of a [`MetadataResolveNode`].
pub struct NodeView {
    pub id: PkgIdView,
    pub dependencies: Seq<PkgIdView>,
    pub deps: Seq<DepView>,
    pub features: Seq<Seq<char>>,
}

impl View for MetadataResolveNode {
    type V = NodeView;

    open spec fn view(&self) -> NodeView {
        NodeView {
            id: self.id@,
            dependencies: ids_view(self.dependencies@),
            deps: deps_list_view(self.deps@),
            features: strings_view(self.features@),
        }
    }
}

/// The resolved part of the export: every reachable package, plus the
/// root package when the workspace has one.
#[derive(Clone, Debug)]
pub struct MetadataResolve {
    pub nodes: Vec<MetadataResolveNode>,
    pub root: Option<PackageId>,
}

/// Ghost image of a [`MetadataResolve`].
pub struct MetadataResolveView {
    pub nodes: Seq<NodeView>,
    pub root: Option<PkgIdView>,
}

impl View for MetadataResolve {
    type V = MetadataResolveView;

    open spec fn view(&self) -> MetadataResolveView {
        MetadataResolveView {
            nodes: self.nodes@.map_values(|n: MetadataResolveNode| n@),
            root: match self.root {
                Some(p) => Some(p@),
                None => None,
            },
        }
    }
}

/// The outgoing edges used by the export: the graph's edges with each
/// target replaced by its configured stand-in.
pub open spec fn node_edges(resolve: &crate::resolve::Resolve, pkg: PkgIdView) -> Seq<
    (PkgIdView, Seq<DependencyView>),
> {
    match alist_get(resolve.graph@, pkg) {
        Some(es) => es.map_values(
            |e: (PkgIdView, Seq<DependencyView>)|
                (crate::resolve::spec_replaced(resolve@.replacements, e.0), e.1),
        ),
        None => Seq::empty(),
    }
}

/// Every edge of `pkg` has a declared edge set to look names up in; a
/// missing one is an internal inconsistency, excluded rather than
/// handled.
pub open spec fn edges_resolvable(resolve: &crate::resolve::Resolve, pkg: PkgIdView) -> bool {
    forall|j: int|
        0 <= j < node_edges(resolve, pkg).len() ==> pkg == (#[trigger] node_edges(resolve, pkg)[
            j]).0 || resolve.spec_listed_deps(pkg, node_edges(resolve, pkg)[j].0) is Some
}

/// All effective names of the declarations between `from` and `to`
/// agree, so name resolution succeeds.
pub open spec fn extern_names_ok(
    resolve: &crate::resolve::Resolve,
    from: PkgIdView,
    to: PkgIdView,
    cn: Seq<char>,
) -> bool {
    forall|i: int, j: int|
        0 <= i < resolve.spec_extern_deps(from, to).len() && 0 <= j < resolve.spec_extern_deps(
            from,
            to,
        ).len() ==> crate::resolve::spec_effective_name(
            #[trigger] resolve.spec_extern_deps(from, to)[i],
            cn,
        ) == crate::resolve::spec_effective_name(#[trigger] resolve.spec_extern_deps(from, to)[j], cn)
}

/// The identifier name resolution returns.
pub open spec fn spec_extern_result_name(
    resolve: &crate::resolve::Resolve,
    from: PkgIdView,
    to: PkgIdView,
    cn: Seq<char>,
) -> Seq<char> {
    let ds = resolve.spec_extern_deps(from, to);
    if ds.len() == 0 {
        cn
    } else {
        crate::resolve::spec_effective_name(ds[0], cn)
    }
}

/// The records of all declarations of one edge, in declaration order,
/// before sorting.
pub open spec fn spec_spread_all(dp: Option<PackageView>, ds: Seq<DependencyView>) -> Seq<
    DepKindInfoView,
>
    decreases ds.len(),
{
    if ds.len() == 0 {
        Seq::empty()
    } else {
        spec_spread_all(dp, ds.drop_last()) + spec_spread(dp, ds.last())
    }
}

/// The export record of one edge, if the edge is shown: it is dropped
/// when no platform predicate keeps it, when the dependency's package was
/// not loaded, or when it has neither a library target nor an artifact
/// declaration; a name-resolution conflict also drops it silently.
pub open spec fn spec_dep_entry(
    resolve: &crate::resolve::Resolve,
    pkgs: Seq<PackageView>,
    host_only: bool,
    active: Seq<Seq<char>>,
    consumer: PkgIdView,
    e: (PkgIdView, Seq<DependencyView>),
) -> Option<DepView> {
    if !spec_edge_kept(e.1, host_only, active) {
        None
    } else {
        match pkg_lookup(pkgs, e.0) {
            None => None,
            Some(dp) => {
                let dks = spec_spread_all(Some(dp), e.1).sort_by(dki_le_fn());
                match first_lib(dp.targets) {
                    Some(lt) => {
                        let cn = underscore_name(lt.name);
                        if extern_names_ok(resolve, consumer, e.0, cn) {
                            Some(
                                DepView {
                                    name: spec_extern_result_name(resolve, consumer, e.0, cn),
                                    pkg: e.0,
                                    dep_kinds: dks,
                                },
                            )
                        } else {
                            None
                        }
                    },
                    None => match first_artifact_name(e.1) {
                        Some(nm) => Some(DepView { name: nm, pkg: e.0, dep_kinds: dks }),
                        None => None,
                    },
                }
            },
        }
    }
}

/// The export records of a package's edges, in edge order.
pub open spec fn spec_dep_entries(
    resolve: &crate::resolve::Resolve,
    pkgs: Seq<PackageView>,
    host_only: bool,
    active: Seq<Seq<char>>,
    consumer: PkgIdView,
    edges: Seq<(PkgIdView, Seq<DependencyView>)>,
) -> Seq<DepView>
    decreases edges.len(),
{
    if edges.len() == 0 {
        Seq::empty()
    } else {
        spec_dep_entries(resolve, pkgs, host_only, active, consumer, edges.drop_last()) + (
        match spec_dep_entry(resolve, pkgs, host_only, active, consumer, edges.last()) {
            Some(x) => seq![x],
            None => Seq::empty(),
        })
    }
}

/// The export node of one package.
pub open spec fn spec_node(
    resolve: &crate::resolve::Resolve,
    pkgs: Seq<PackageView>,
    host_only: bool,
    active: Seq<Seq<char>>,
    pkg: PkgIdView,
) -> NodeView {
    let deps = spec_dep_entries(resolve, pkgs, host_only, active, pkg, node_edges(resolve, pkg));
    NodeView {
        id: pkg,
        dependencies: dep_pkg_ids(deps),
        deps,
        features: if resolve@.features.dom().contains(pkg) {
            resolve@.features[pkg]
        } else {
            Seq::empty()
        },
    }
}

/// Builds the export node of one package: its kept edges annotated with
/// sorted category records, the dependency identities, and its features.
#[verifier::rlimit(50)]
fn build_node(
    resolve: &crate::resolve::Resolve,
    packages: &Vec<Package>,
    host_only: bool,
    active: &Vec<String>,
    pkg: &PackageId,
) -> (r: MetadataResolveNode)
    requires
        resolve.wf(),
        edges_resolvable(resolve, pkg@),
    ensures
        r@ == spec_node(resolve, pkgs_view(packages@), host_only, strings_view(active@), pkg@),
{
    let ghost pv = pkgs_view(packages@);
    let ghost act = strings_view(active@);
    let edges = resolve.deps(pkg);
    let ghost ev = crate::graph::edges_view(edges@);
    proof {
        assert(ev =~= node_edges(resolve, pkg@));
    }
    let features = resolve.features(pkg);
    let mut deps_list: Vec<Dep> = Vec::new();
    proof {
        assert(deps_list_view(deps_list@) =~= Seq::<DepView>::empty());
        assert(spec_dep_entries(resolve, pv, host_only, act, pkg@, ev.take(0)) =~= Seq::<
            DepView,
        >::empty());
    }
    let mut j: usize = 0;
    while j < edges.len()
        invariant
            resolve.wf(),
            edges_resolvable(resolve, pkg@),
            pv == pkgs_view(packages@),
            act == strings_view(active@),
            ev == crate::graph::edges_view(edges@),
            ev == node_edges(resolve, pkg@),
            j <= edges@.len(),
            deps_list_view(deps_list@) == spec_dep_entries(
                resolve,
                pv,
                host_only,
                act,
                pkg@,
                ev.take(j as int),
            ),
        decreases edges@.len() - j,
    {
        let ghost entry = spec_dep_entry(resolve, pv, host_only, act, pkg@, ev[j as int]);
        let ghost before = deps_list@;
        proof {
            assert(ev[j as int] == (edges@[j as int].0@, deps_view(edges@[j as int].1@)));
        }
        let kept = edge_is_kept(&edges[j].1, host_only, active);
        if kept {
            match find_pkg_index(packages, &edges[j].0) {
                Some(pi) => {
                    proof {
                        assert(pv[pi as int] == packages@[pi as int]@);
                        assert forall|w: int| 0 <= w < pi implies (#[trigger] pv[w]).package_id
                            != pv[pi as int].package_id by {
                            assert(packages@[w].package_id@ != edges@[j as int].0@);
                        }
                        lemma_pkg_lookup_present(pv, pi as int);
                        assert(pkg_lookup(pv, ev[j as int].0) == Some(pv[pi as int]));
                    }
                    let ghost dsv = deps_view(edges@[j as int].1@);
                    let mut flat: Vec<DepKindInfo> = Vec::new();
                    proof {
                        assert(dkis_view(flat@) =~= Seq::<DepKindInfoView>::empty());
                        assert(spec_spread_all(Some(pv[pi as int]), dsv.take(0)) =~= Seq::<
                            DepKindInfoView,
                        >::empty());
                    }
                    let mut k: usize = 0;
                    while k < edges[j].1.len()
                        invariant
                            j < edges@.len(),
                            pv == pkgs_view(packages@),
                            pi < packages@.len(),
                            dsv == deps_view(edges@[j as int].1@),
                            k <= edges@[j as int].1@.len(),
                            dkis_view(flat@) == spec_spread_all(
                                Some(pv[pi as int]),
                                dsv.take(k as int),
                            ),
                        decreases edges@[j as int].1@.len() - k,
                    {
                        let ghost flat_before = flat@;
                        let mut part = single_dep_kind_or_spread_artifact_kinds(
                            Some(&packages[pi]),
                            &edges[j].1[k],
                        );
                        let ghost part_view = dkis_view(part@);
                        flat.append(&mut part);
                        proof {
                            assert(dkis_view(flat@) =~= dkis_view(flat_before) + part_view);
                            assert(dsv.take(k + 1).drop_last() =~= dsv.take(k as int));
                            assert(dsv.take(k + 1).last() == dsv[k as int]);
                            assert(dsv[k as int] == edges@[j as int].1@[k as int]@);
                        }
                        k = k + 1;
                    }
                    proof {
                        assert(dsv.take(dsv.len() as int) =~= dsv);
                    }
                    let dk_sorted = sort_dep_kinds(flat);
                    match find_lib_index(&packages[pi].targets) {
                        Some(ti) => {
                            proof {
                                assert(packages@[pi as int].targets@.map_values(
                                    |t: crate::types::Target| t@,
                                ) == pv[pi as int].targets);
                                assert(first_lib(pv[pi as int].targets) == Some(
                                    packages@[pi as int].targets@[ti as int]@,
                                ));
                            }
                            match resolve.extern_crate_name_and_dep_name(
                                pkg,
                                &edges[j].0,
                                &packages[pi].targets[ti],
                            ) {
                                Ok(res) => {
                                    let (name, _dep_name) = res;
                                    proof {
                                        let cn = underscore_name(
                                            packages@[pi as int].targets@[ti as int]@.name,
                                        );
                                        assert(extern_names_ok(resolve, pkg@, ev[j as int].0, cn));
                                        assert(name@ == spec_extern_result_name(
                                            resolve,
                                            pkg@,
                                            ev[j as int].0,
                                            cn,
                                        ));
                                    }
                                    deps_list.push(
                                        Dep {
                                            name,
                                            pkg: edges[j].0.duplicate(),
                                            dep_kinds: dk_sorted,
                                        },
                                    );
                                    proof {
                                        assert(deps_list_view(deps_list@) =~= deps_list_view(
                                            before,
                                        ).push(entry->Some_0));
                                    }
                                },
                                Err(_) => {
                                    proof {
                                        let cn = underscore_name(
                                            packages@[pi as int].targets@[ti as int]@.name,
                                        );
                                        assert(!extern_names_ok(
                                            resolve,
                                            pkg@,
                                            ev[j as int].0,
                                            cn,
                                        ));
                                        assert(entry is None);
                                    }
                                },
                            }
                        },
                        None => {
                            match find_artifact_name(&edges[j].1) {
                                Some(nm) => {
                                    deps_list.push(
                                        Dep {
                                            name: nm,
                                            pkg: edges[j].0.duplicate(),
                                            dep_kinds: dk_sorted,
                                        },
                                    );
                                    proof {
                                        assert(deps_list_view(deps_list@) =~= deps_list_view(
                                            before,
                                        ).push(entry->Some_0));
                                    }
                                },
                                None => {
                                    proof {
                                        assert(entry is None);
                                    }
                                },
                            }
                        },
                    }
                },
                None => {
                    proof {
                        assert forall|w: int| 0 <= w < pv.len() implies (#[trigger] pv[
                        w]).package_id != ev[j as int].0 by {
                            assert(packages@[w].package_id@ != edges@[j as int].0@);
                        }
                        lemma_pkg_lookup_absent(pv, ev[j as int].0);
                        assert(entry is None);
                    }
                },
            }
        } else {
            proof {
                assert(entry is None);
            }
        }
        proof {
            assert(ev.take(j + 1).drop_last() =~= ev.take(j as int));
            assert(ev.take(j + 1).last() == ev[j as int]);
            match entry {
                Some(x) => {
                    assert(spec_dep_entries(resolve, pv, host_only, act, pkg@, ev.take(j + 1))
                        =~= deps_list_view(before).push(x));
                },
                None => {
                    assert(deps_list@ == before);
                    assert(spec_dep_entries(resolve, pv, host_only, act, pkg@, ev.take(j + 1))
                        =~= deps_list_view(before));
                },
            }
        }
        j = j + 1;
    }
    proof {
        assert(ev.take(ev.len() as int) =~= ev);
    }
    let mut dependencies: Vec<PackageId> = Vec::new();
    let mut m: usize = 0;
    while m < deps_list.len()
        invariant
            m <= deps_list@.len(),
            ids_view(dependencies@) == dep_pkg_ids(deps_list_view(deps_list@)).take(m as int),
        decreases deps_list@.len() - m,
    {
        let ghost prev = dependencies@;
        dependencies.push(deps_list[m].pkg.duplicate());
        proof {
            let goal = dep_pkg_ids(deps_list_view(deps_list@));
            assert(dependencies@.last()@ == deps_list@[m as int].pkg@);
            assert(goal[m as int] == deps_list@[m as int].pkg@);
            assert(goal.len() == deps_list@.len());
            assert(goal.take(m as int).len() == m as int);
            assert(ids_view(prev).len() == m);
            assert(prev.len() == m);
            assert(dependencies@.len() == m + 1);
            assert(ids_view(dependencies@).len() == m + 1);
            assert forall|w: int| 0 <= w < m + 1 implies ids_view(dependencies@)[w] == goal.take(
                m + 1,
            )[w] by {
                assert(ids_view(dependencies@)[w] == dependencies@[w]@);
                if w < m {
                    assert(dependencies@[w] == prev[w]);
                    assert(ids_view(prev)[w] == prev[w]@);
                    assert(ids_view(prev)[w] == goal.take(m as int)[w]);
                } else {
                    assert(dependencies@[w] == dependencies@.last());
                }
            }
            assert(ids_view(dependencies@) =~= goal.take(m + 1));
        }
        m = m + 1;
    }
    proof {
        let full = dep_pkg_ids(deps_list_view(deps_list@));
        assert(full.take(full.len() as int) =~= full);
    }
    MetadataResolveNode { id: pkg.duplicate(), dependencies, deps: deps_list, features }
}


/// A looked-up identity is one of the packages.
proof fn lemma_pkg_lookup_some_contains(pkgs: Seq<PackageView>, id: PkgIdView)
    requires
        pkg_lookup(pkgs, id) is Some,
    ensures
        package_ids(pkgs).contains(id),
    decreases pkgs.len(),
{
    if pkgs.len() > 0 {
        if pkgs[0].package_id == id {
            assert(package_ids(pkgs)[0] == id);
        } else {
            lemma_pkg_lookup_some_contains(pkgs.drop_first(), id);
            let w = choose|w: int|
                0 <= w < package_ids(pkgs.drop_first()).len() && #[trigger] package_ids(
                    pkgs.drop_first(),
                )[w] == id;
            assert(package_ids(pkgs)[w + 1] == id);
        }
    }
}

/// Every export record points at a loaded package.
proof fn lemma_dep_entries_props(
    resolve: &crate::resolve::Resolve,
    pkgs: Seq<PackageView>,
    host_only: bool,
    active: Seq<Seq<char>>,
    consumer: PkgIdView,
    edges: Seq<(PkgIdView, Seq<DependencyView>)>,
)
    ensures
        forall|w: int|
            0 <= w < spec_dep_entries(resolve, pkgs, host_only, active, consumer, edges).len()
                ==> package_ids(pkgs).contains(
                (#[trigger] spec_dep_entries(resolve, pkgs, host_only, active, consumer, edges)[
                    w]).pkg,
            ),
    decreases edges.len(),
{
    if edges.len() > 0 {
        lemma_dep_entries_props(resolve, pkgs, host_only, active, consumer, edges.drop_last());
        let prev = spec_dep_entries(resolve, pkgs, host_only, active, consumer, edges.drop_last());
        let cur = spec_dep_entries(resolve, pkgs, host_only, active, consumer, edges);
        assert forall|w: int| 0 <= w < cur.len() implies package_ids(pkgs).contains(
            (#[trigger] cur[w]).pkg,
        ) by {
            if w < prev.len() {
                assert(cur[w] == prev[w]);
            } else {
                match spec_dep_entry(resolve, pkgs, host_only, active, consumer, edges.last()) {
                    Some(x) => {
                        assert(cur[w] == x);
                        assert(pkg_lookup(pkgs, edges.last().0) is Some);
                        lemma_pkg_lookup_some_contains(pkgs, edges.last().0);
                    },
                    None => {},
                }
            }
        }
    }
}

/// The view of the node table built while walking the graph.
pub open spec fn nm_view(s: Seq<(PackageId, MetadataResolveNode)>) -> Seq<(PkgIdView, NodeView)> {
    s.map_values(|p: (PackageId, MetadataResolveNode)| (p.0@, p.1@))
}

/// The node table is well-formed: distinct keys, every key a loaded
/// package, every entry the export node of its key.
pub open spec fn nm_ok(
    resolve: &crate::resolve::Resolve,
    pv: Seq<PackageView>,
    host_only: bool,
    act: Seq<Seq<char>>,
    nm: Seq<(PkgIdView, NodeView)>,
) -> bool {
    &&& crate::alist::unique_keys(nm)
    &&& forall|i: int| 0 <= i < nm.len() ==> package_ids(pv).contains((#[trigger] nm[i]).0)
    &&& forall|i: int|
        0 <= i < nm.len() ==> (#[trigger] nm[i]).1 == spec_node(resolve, pv, host_only, act, nm[i].0)
}

/// Fills the node table from `pkg_id` downwards: builds the package's
/// export node, records it, then walks every resolved dependency that is
/// not yet recorded.
fn build_resolve_graph_r(
    node_map: &mut Vec<(PackageId, MetadataResolveNode)>,
    pkg_id: &PackageId,
    resolve: &crate::resolve::Resolve,
    packages: &Vec<Package>,
    host_only: bool,
    active_platforms: &Vec<String>,
)
    requires
        resolve.wf(),
        forall|k: PkgIdView|
            package_ids(pkgs_view(packages@)).contains(k) ==> #[trigger] edges_resolvable(
                resolve,
                k,
            ),
        package_ids(pkgs_view(packages@)).no_duplicates(),
        package_ids(pkgs_view(packages@)).contains(pkg_id@),
        nm_ok(
            resolve,
            pkgs_view(packages@),
            host_only,
            strings_view(active_platforms@),
            nm_view(old(node_map)@),
        ),
    ensures
        final(node_map)@.len() >= old(node_map)@.len(),
        final(node_map)@.take(old(node_map)@.len() as int) == old(node_map)@,
        nm_ok(
            resolve,
            pkgs_view(packages@),
            host_only,
            strings_view(active_platforms@),
            nm_view(final(node_map)@),
        ),
        alist_contains(nm_view(final(node_map)@), pkg_id@),
        forall|i: int, w: int|
            old(node_map)@.len() <= i < final(node_map)@.len() && 0 <= w < nm_view(
                final(node_map)@,
            )[i].1.dependencies.len() ==> alist_contains(
                nm_view(final(node_map)@),
                #[trigger] nm_view(final(node_map)@)[i].1.dependencies[w],
            ),
    decreases packages@.len() - old(node_map)@.len(),
{
    let ghost pv = pkgs_view(packages@);
    let ghost act = strings_view(active_platforms@);
    match find_key_index(node_map, pkg_id) {
        Some(i) => {
            proof {
                assert(nm_view(node_map@)[i as int].0 == pkg_id@);
                assert(node_map@.take(node_map@.len() as int) =~= node_map@);
            }
            return ;
        },
        None => {
            proof {
                assert forall|w: int| 0 <= w < nm_view(node_map@).len() implies (#[trigger] nm_view(
                    node_map@,
                )[w]).0 != pkg_id@ by {
                    assert(node_map@[w].0@ != pkg_id@);
                }
            }
        },
    }
    let node = build_node(resolve, packages, host_only, active_platforms, pkg_id);
    let ghost node_v = node@;
    // the dependencies to walk, saved before the node is stored
    let mut to_visit: Vec<PackageId> = Vec::new();
    let mut d: usize = 0;
    while d < node.dependencies.len()
        invariant
            d <= node.dependencies@.len(),
            node@ == node_v,
            ids_view(to_visit@) == node_v.dependencies.take(d as int),
        decreases node.dependencies@.len() - d,
    {
        let ghost tv_prev = to_visit@;
        to_visit.push(node.dependencies[d].duplicate());
        proof {
            assert(to_visit@.last()@ == node.dependencies@[d as int]@);
            assert(node_v.dependencies[d as int] == node.dependencies@[d as int]@);
            assert(node_v.dependencies.take(d as int).len() == d as int);
            assert(ids_view(tv_prev).len() == d);
            assert(tv_prev.len() == d);
            assert forall|w: int| 0 <= w < d + 1 implies ids_view(to_visit@)[w]
                == node_v.dependencies.take(d + 1)[w] by {
                assert(ids_view(to_visit@)[w] == to_visit@[w]@);
                if w < d {
                    assert(to_visit@[w] == tv_prev[w]);
                    assert(ids_view(tv_prev)[w] == tv_prev[w]@);
                    assert(ids_view(tv_prev)[w] == node_v.dependencies.take(d as int)[w]);
                } else {
                    assert(to_visit@[w] == to_visit@.last());
                }
            }
            assert(ids_view(to_visit@) =~= node_v.dependencies.take(d + 1));
        }
        d = d + 1;
    }
    proof {
        assert(node_v.dependencies.take(node_v.dependencies.len() as int)
            =~= node_v.dependencies);
        // every dependency is a loaded package
        lemma_dep_entries_props(resolve, pv, host_only, act, pkg_id@, node_edges(resolve, pkg_id@));
        assert forall|w: int| 0 <= w < node_v.dependencies.len() implies package_ids(pv).contains(
            #[trigger] node_v.dependencies[w],
        ) by {
            let es = spec_dep_entries(
                resolve,
                pv,
                host_only,
                act,
                pkg_id@,
                node_edges(resolve, pkg_id@),
            );
            assert(node_v.dependencies[w] == es[w].pkg);
        }
    }
    let ghost nm0 = node_map@;
    node_map.push((pkg_id.duplicate(), node));
    proof {
        assert(nm_view(node_map@) =~= nm_view(nm0).push((pkg_id@, node_v)));
        assert(nm_ok(resolve, pv, host_only, act, nm_view(node_map@))) by {
            assert forall|a: int, b: int|
                0 <= a < b < nm_view(node_map@).len() implies (#[trigger] nm_view(node_map@)[
            a]).0 != (#[trigger] nm_view(node_map@)[b]).0 by {
                if b < nm_view(node_map@).len() - 1 {
                    assert(nm_view(nm0)[a].0 != nm_view(nm0)[b].0);
                } else {
                    assert(nm_view(nm0)[a].0 != pkg_id@);
                }
            }
        }
        assert(node_map@.take(nm0.len() as int) =~= nm0);
        assert(nm0 == old(node_map)@);
        assert(nm_view(node_map@)[nm0.len() as int] == (pkg_id@, node_v));
        assert(alist_contains(nm_view(node_map@), pkg_id@));
    }
    let mut v: usize = 0;
    while v < to_visit.len()
        invariant
            resolve.wf(),
            forall|k: PkgIdView|
                package_ids(pkgs_view(packages@)).contains(k) ==> #[trigger] edges_resolvable(
                    resolve,
                    k,
                ),
            pv == pkgs_view(packages@),
            act == strings_view(active_platforms@),
            package_ids(pv).no_duplicates(),
            v <= to_visit@.len(),
            ids_view(to_visit@) == node_v.dependencies,
            forall|w: int|
                0 <= w < node_v.dependencies.len() ==> package_ids(pv).contains(
                    #[trigger] node_v.dependencies[w],
                ),
            nm0 == old(node_map)@,
            node_map@.len() >= nm0.len() + 1,
            node_map@.take(nm0.len() as int) == nm0,
            nm_view(node_map@)[nm0.len() as int] == (pkg_id@, node_v),
            nm_ok(resolve, pv, host_only, act, nm_view(node_map@)),
            alist_contains(nm_view(node_map@), pkg_id@),
            // dependencies walked so far are recorded
            forall|w: int|
                0 <= w < v ==> alist_contains(
                    nm_view(node_map@),
                    #[trigger] node_v.dependencies[w],
                ),
            // deeper new entries are already closed
            forall|i: int, w: int|
                nm0.len() < i < node_map@.len() && 0 <= w < nm_view(node_map@)[
                    i].1.dependencies.len() ==> alist_contains(
                    nm_view(node_map@),
                    #[trigger] nm_view(node_map@)[i].1.dependencies[w],
                ),
        decreases to_visit@.len() - v,
    {
        let ghost nm_pre = node_map@;
        proof {
            // the table keys stay within the loaded packages
            crate::alist::lemma_alist_keys(nm_view(node_map@));
            assert forall|k: PkgIdView|
                crate::alist::alist_keys(nm_view(node_map@)).contains(k) implies #[trigger]
            package_ids(pv).contains(k) by {
                assert(alist_contains(nm_view(node_map@), k));
                let w = choose|w: int|
                    0 <= w < nm_view(node_map@).len() && (#[trigger] nm_view(node_map@)[w]).0 == k;
            }
            crate::graph::lemma_unique_ids_bound(
                crate::alist::alist_keys(nm_view(node_map@)),
                package_ids(pv),
            );
            assert(crate::alist::alist_keys(nm_view(node_map@)).len() == node_map@.len());
            assert(node_map@.len() <= packages@.len());
            assert(node_map@.len() >= nm0.len() + 1);
            assert(nm0 == old(node_map)@);
            assert(to_visit@[v as int]@ == ids_view(to_visit@)[v as int]);
            assert(to_visit@[v as int]@ == node_v.dependencies[v as int]);
            assert(package_ids(pv).contains(to_visit@[v as int]@));
        }
        build_resolve_graph_r(
            node_map,
            &to_visit[v],
            resolve,
            packages,
            host_only,
            active_platforms,
        );
        proof {
            assert(to_visit@[v as int]@ == node_v.dependencies[v as int]);
            // earlier facts survive because the old table is a prefix
            assert forall|w: int| 0 <= w < nm_pre.len() implies #[trigger] nm_view(node_map@)[w]
                == nm_view(nm_pre)[w] by {
                assert(node_map@.take(nm_pre.len() as int)[w] == node_map@[w]);
            }
            assert(node_map@.take(nm0.len() as int) =~= nm0);
            assert(nm_view(node_map@)[nm0.len() as int] == (pkg_id@, node_v));
            assert(alist_contains(nm_view(node_map@), pkg_id@));
            assert forall|w: int| 0 <= w < v + 1 implies alist_contains(
                nm_view(node_map@),
                #[trigger] node_v.dependencies[w],
            ) by {
                if w < v {
                    assert(alist_contains(nm_view(nm_pre), node_v.dependencies[w]));
                    let x = choose|x: int|
                        0 <= x < nm_view(nm_pre).len() && (#[trigger] nm_view(nm_pre)[x]).0
                            == node_v.dependencies[w];
                    assert(nm_view(node_map@)[x].0 == node_v.dependencies[w]);
                } else {
                    assert(alist_contains(nm_view(node_map@), to_visit@[v as int]@));
                }
            }
            assert forall|i: int, w: int|
                nm0.len() < i < node_map@.len() && 0 <= w < nm_view(node_map@)[
                    i].1.dependencies.len() implies alist_contains(
                nm_view(node_map@),
                #[trigger] nm_view(node_map@)[i].1.dependencies[w],
            ) by {
                if i < nm_pre.len() {
                    assert(nm_view(node_map@)[i] == nm_view(nm_pre)[i]);
                    assert(alist_contains(nm_view(nm_pre), nm_view(nm_pre)[i].1.dependencies[w]));
                    let x = choose|x: int|
                        0 <= x < nm_view(nm_pre).len() && (#[trigger] nm_view(nm_pre)[x]).0
                            == nm_view(nm_pre)[i].1.dependencies[w];
                    assert(nm_view(node_map@)[x].0 == nm_view(nm_pre)[i].1.dependencies[w]);
                }
            }
        }
        v = v + 1;
    }
    proof {
        assert(ids_view(to_visit@).len() == to_visit@.len());
        assert forall|i: int, w: int|
            nm0.len() <= i < node_map@.len() && 0 <= w < nm_view(node_map@)[
                i].1.dependencies.len() implies alist_contains(
            nm_view(node_map@),
            #[trigger] nm_view(node_map@)[i].1.dependencies[w],
        ) by {
            if i == nm0.len() {
                assert(nm_view(node_map@)[i].1 == node_v);
                assert(alist_contains(nm_view(node_map@), node_v.dependencies[w]));
            }
        }
    }
}


/// The package order used for export listings.
pub open spec fn pkg_order() -> spec_fn(PackageView, PackageView) -> bool {
    |a: PackageView, b: PackageView| pkg_le(a.package_id, b.package_id)
}

/// The export package order is reflexive, transitive and total (it is
/// not antisymmetric on packages, only on their identities).
proof fn lemma_pkg_order_props()
    ensures
        vstd::relations::reflexive(pkg_order()),
        vstd::relations::transitive(pkg_order()),
        vstd::relations::strongly_connected(pkg_order()),
{
    crate::order::lemma_pkg_le_total_ordering();
    let ple = |a: PkgIdView, b: PkgIdView| pkg_le(a, b);
    let le = pkg_order();
    assert forall|a: PackageView| #[trigger] le(a, a) by {
        assert(ple(a.package_id, a.package_id));
    }
    assert forall|a: PackageView, b: PackageView, c: PackageView|
        #[trigger] le(a, b) && #[trigger] le(b, c) implies le(a, c) by {
        assert(ple(a.package_id, b.package_id) && ple(b.package_id, c.package_id) ==> ple(
            a.package_id,
            c.package_id,
        ));
    }
    assert forall|a: PackageView, b: PackageView| #[trigger] le(a, b) || #[trigger] le(b, a) by {
        assert(ple(a.package_id, b.package_id) || ple(b.package_id, a.package_id));
    }
}

/// An owned copy of a package list, sorted by package identity.
fn sorted_pkgs(src: &Vec<Package>) -> (r: Vec<Package>)
    ensures
        pkgs_view(r@).to_multiset() == pkgs_view(src@).to_multiset(),
        sorted_by(pkgs_view(r@), pkg_order()),
{
    let ghost le = pkg_order();
    proof {
        lemma_pkg_order_props();
    }
    let mut rest: Vec<Package> = Vec::new();
    let mut i: usize = 0;
    while i < src.len()
        invariant
            i <= src.len(),
            pkgs_view(rest@) == pkgs_view(src@).take(i as int),
        decreases src.len() - i,
    {
        let ghost prev = rest@;
        rest.push(src[i].duplicate());
        proof {
            assert(pkgs_view(prev).len() == i);
            assert(prev.len() == i);
            assert forall|w: int| 0 <= w < i + 1 implies pkgs_view(rest@)[w] == pkgs_view(
                src@,
            ).take(i + 1)[w] by {
                assert(pkgs_view(rest@)[w] == rest@[w]@);
                if w < i {
                    assert(rest@[w] == prev[w]);
                    assert(pkgs_view(prev)[w] == prev[w]@);
                    assert(pkgs_view(prev)[w] == pkgs_view(src@).take(i as int)[w]);
                } else {
                    assert(rest@[w] == rest@.last());
                    assert(rest@.last()@ == src@[i as int]@);
                }
            }
            assert(pkgs_view(rest@) =~= pkgs_view(src@).take(i + 1));
        }
        i = i + 1;
    }
    proof {
        assert(pkgs_view(src@).take(src@.len() as int) =~= pkgs_view(src@));
    }
    let ghost orig = pkgs_view(rest@);
    let mut out: Vec<Package> = Vec::new();
    proof {
        broadcast use vstd::seq_lib::group_to_multiset_ensures;
        broadcast use vstd::multiset::group_multiset_axioms;

        assert(pkgs_view(out@) =~= Seq::<PackageView>::empty());
        assert(pkgs_view(out@).to_multiset().add(pkgs_view(rest@).to_multiset())
            =~= orig.to_multiset());
    }
    while rest.len() > 0
        invariant
            le == pkg_order(),
            vstd::relations::transitive(le),
            vstd::relations::strongly_connected(le),
            pkgs_view(out@).to_multiset().add(pkgs_view(rest@).to_multiset())
                == orig.to_multiset(),
            orig.to_multiset() == pkgs_view(src@).to_multiset(),
            sorted_by(pkgs_view(out@), le),
            forall|x: int, y: int|
                0 <= x < out@.len() && 0 <= y < rest@.len() ==> le(
                    #[trigger] pkgs_view(out@)[x],
                    #[trigger] pkgs_view(rest@)[y],
                ),
        decreases rest@.len(),
    {
        let mut m: usize = 0;
        let mut j: usize = 1;
        while j < rest.len()
            invariant
                le == pkg_order(),
                vstd::relations::transitive(le),
                vstd::relations::strongly_connected(le),
                rest@.len() > 0,
                m < j,
                j <= rest@.len(),
                forall|w: int|
                    0 <= w < j ==> le(pkgs_view(rest@)[m as int], #[trigger] pkgs_view(rest@)[w]),
            decreases rest@.len() - j,
        {
            if !pkg_le_exec(&rest[m].package_id, &rest[j].package_id) {
                proof {
                    assert(pkgs_view(rest@)[m as int] == rest@[m as int]@);
                    assert(pkgs_view(rest@)[j as int] == rest@[j as int]@);
                    assert(!le(pkgs_view(rest@)[m as int], pkgs_view(rest@)[j as int]));
                    assert(le(pkgs_view(rest@)[m as int], pkgs_view(rest@)[j as int]) || le(
                        pkgs_view(rest@)[j as int],
                        pkgs_view(rest@)[m as int],
                    ));
                    assert forall|w: int| 0 <= w < j + 1 implies le(
                        pkgs_view(rest@)[j as int],
                        #[trigger] pkgs_view(rest@)[w],
                    ) by {
                        if w < j {
                            assert(le(pkgs_view(rest@)[m as int], pkgs_view(rest@)[w]));
                        }
                    }
                }
                m = j;
            } else {
                proof {
                    assert(pkgs_view(rest@)[m as int] == rest@[m as int]@);
                    assert(pkgs_view(rest@)[j as int] == rest@[j as int]@);
                    assert(le(pkgs_view(rest@)[m as int], pkgs_view(rest@)[j as int]));
                }
            }
            j = j + 1;
        }
        let ghost rest_before = rest@;
        let ghost out_before = out@;
        let x = rest.remove(m);
        out.push(x);
        proof {
            broadcast use vstd::seq_lib::group_to_multiset_ensures;
            broadcast use vstd::multiset::group_multiset_axioms;

            assert(pkgs_view(rest@) =~= pkgs_view(rest_before).remove(m as int));
            assert(pkgs_view(out@) =~= pkgs_view(out_before).push(x@));
            assert(x@ == pkgs_view(rest_before)[m as int]);
            assert(pkgs_view(rest_before).remove(m as int).to_multiset() =~= pkgs_view(
                rest_before,
            ).to_multiset().remove(x@));
            assert(pkgs_view(out@).to_multiset() =~= pkgs_view(out_before).to_multiset().insert(
                x@,
            ));
            assert(pkgs_view(out@).to_multiset().add(pkgs_view(rest@).to_multiset())
                =~= orig.to_multiset()) by {
                assert(pkgs_view(rest_before).to_multiset().count(x@) > 0) by {
                    assert(pkgs_view(rest_before).contains(x@));
                }
            }
            assert forall|a: int, b: int|
                0 <= a < b < pkgs_view(out@).len() implies le(
                #[trigger] pkgs_view(out@)[a],
                #[trigger] pkgs_view(out@)[b],
            ) by {
                if b < pkgs_view(out@).len() - 1 {
                    assert(le(pkgs_view(out_before)[a], pkgs_view(out_before)[b]));
                } else {
                    assert(le(pkgs_view(out_before)[a], pkgs_view(rest_before)[m as int]));
                }
            }
            assert forall|a: int, b: int|
                0 <= a < pkgs_view(out@).len() && 0 <= b < pkgs_view(rest@).len() implies le(
                #[trigger] pkgs_view(out@)[a],
                #[trigger] pkgs_view(rest@)[b],
            ) by {
                let pre = if b < m as int {
                    b
                } else {
                    b + 1
                };
                assert(pkgs_view(rest@)[b] == pkgs_view(rest_before)[pre]);
                if a < pkgs_view(out@).len() - 1 {
                    assert(le(pkgs_view(out_before)[a], pkgs_view(rest_before)[pre]));
                } else {
                    assert(le(pkgs_view(rest_before)[m as int], pkgs_view(rest_before)[pre]));
                }
            }
        }
    }
    proof {
        broadcast use vstd::seq_lib::group_to_multiset_ensures;
        broadcast use vstd::multiset::group_multiset_axioms;

        assert(pkgs_view(rest@) =~= Seq::<PackageView>::empty());
        assert(pkgs_view(out@).to_multiset() =~= orig.to_multiset());
    }
    out
}

/// Reordering packages with distinct identities keeps the identities
/// distinct, and membership transfers both ways.
proof fn lemma_sorted_ids_nodup(input: Seq<PackageView>, sorted: Seq<PackageView>)
    requires
        package_ids(input).no_duplicates(),
        sorted.to_multiset() == input.to_multiset(),
    ensures
        package_ids(sorted).no_duplicates(),
        forall|x: PackageView| #[trigger] sorted.contains(x) <==> input.contains(x),
        forall|k: PkgIdView| #[trigger]
            package_ids(sorted).contains(k) <==> package_ids(input).contains(k),
{
    broadcast use vstd::seq_lib::group_to_multiset_ensures;
    broadcast use vstd::multiset::group_multiset_axioms;

    assert forall|x: PackageView| #[trigger] sorted.contains(x) <==> input.contains(x) by {
        assert(sorted.contains(x) <==> sorted.to_multiset().count(x) > 0);
        assert(input.contains(x) <==> input.to_multiset().count(x) > 0);
    }
    assert(input.no_duplicates()) by {
        assert forall|a: int, b: int|
            0 <= a < input.len() && 0 <= b < input.len() && a != b implies input[a] != input[b] by {
            assert(package_ids(input)[a] != package_ids(input)[b]);
        }
    }
    input.lemma_multiset_has_no_duplicates();
    assert forall|a: int, b: int|
        0 <= a < package_ids(sorted).len() && 0 <= b < package_ids(sorted).len() && a
            != b implies package_ids(sorted)[a] != package_ids(sorted)[b] by {
        let va = sorted[a];
        let vb = sorted[b];
        assert(package_ids(sorted)[a] == va.package_id);
        assert(package_ids(sorted)[b] == vb.package_id);
        if va.package_id == vb.package_id {
            if va == vb {
                assert(sorted.remove(a).to_multiset() =~= sorted.to_multiset().remove(va));
                let bb = if b < a {
                    b
                } else {
                    b - 1
                };
                assert(sorted.remove(a)[bb] == vb);
                assert(sorted.remove(a).contains(vb));
                assert(sorted.remove(a).to_multiset().count(vb) > 0);
                assert(sorted.to_multiset().count(va) >= 2);
                assert(input.to_multiset().count(va) == 1);
            } else {
                assert(sorted.contains(va) && sorted.contains(vb));
                assert(input.contains(va) && input.contains(vb));
                let ia = choose|ia: int| 0 <= ia < input.len() && #[trigger] input[ia] == va;
                let ib = choose|ib: int| 0 <= ib < input.len() && #[trigger] input[ib] == vb;
                assert(ia != ib);
                assert(package_ids(input)[ia] != package_ids(input)[ib]);
            }
        }
    }
    assert forall|k: PkgIdView| #[trigger]
        package_ids(sorted).contains(k) <==> package_ids(input).contains(k) by {
        if package_ids(sorted).contains(k) {
            let w = choose|w: int|
                0 <= w < package_ids(sorted).len() && #[trigger] package_ids(sorted)[w] == k;
            assert(sorted.contains(sorted[w]));
            assert(input.contains(sorted[w]));
            let y = choose|y: int| 0 <= y < input.len() && #[trigger] input[y] == sorted[w];
            assert(package_ids(input)[y] == k);
        }
        if package_ids(input).contains(k) {
            let w = choose|w: int|
                0 <= w < package_ids(input).len() && #[trigger] package_ids(input)[w] == k;
            assert(input.contains(input[w]));
            assert(sorted.contains(input[w]));
            let y = choose|y: int| 0 <= y < sorted.len() && #[trigger] sorted[y] == input[w];
            assert(package_ids(sorted)[y] == k);
        }
    }
}


/// The export format version this crate produces.
pub const VERSION: u32 = 1;

/// A recoverable failure of the metadata export.
#[derive(Clone, Debug)]
pub enum MetadataError {
    /// The caller asked for an export format version this tool does not
    /// produce.
    UnsupportedVersion { requested: u32, supported: u32 },
}

/// The feature selection the caller made on the command line.
#[derive(Clone, Debug)]
pub struct CliFeatures {
    pub features: Vec<String>,
    pub all_features: bool,
    pub uses_default_features: bool,
}

/// Ghost image of a [`CliFeatures`].
pub struct CliFeaturesView {
    pub features: Seq<Seq<char>>,
    pub all_features: bool,
    pub uses_default_features: bool,
}

impl View for CliFeatures {
    type V = CliFeaturesView;

    open spec fn view(&self) -> CliFeaturesView {
        CliFeaturesView {
            features: strings_view(self.features@),
            all_features: self.all_features,
            uses_default_features: self.uses_default_features,
        }
    }
}

/// The options of one export run.
#[derive(Clone, Debug)]
pub struct OutputMetadataOptions {
    pub cli_features: CliFeatures,
    /// Leave the resolved graph out and list only the workspace members.
    pub no_deps: bool,
    /// The export format version the caller expects.
    pub version: u32,
    /// The platform predicates to filter dependency edges by; empty means
    /// only the host platform was requested and every edge is shown.
    pub filter_platforms: Vec<String>,
}

/// Ghost image of an [`OutputMetadataOptions`].
pub struct OutputMetadataOptionsView {
    pub cli_features: CliFeaturesView,
    pub no_deps: bool,
    pub version: u32,
    pub filter_platforms: Seq<Seq<char>>,
}

impl View for OutputMetadataOptions {
    type V = OutputMetadataOptionsView;

    open spec fn view(&self) -> OutputMetadataOptionsView {
        OutputMetadataOptionsView {
            cli_features: self.cli_features@,
            no_deps: self.no_deps,
            version: self.version,
            filter_platforms: strings_view(self.filter_platforms@),
        }
    }
}

/// What the caller loaded from the workspace: its member packages, the
/// current package if any, and the paths and custom metadata the export
/// reports verbatim.
#[derive(Clone, Debug)]
pub struct WorkspaceInfo {
    pub members: Vec<Package>,
    pub current: Option<PackageId>,
    pub target_directory: String,
    pub workspace_root: String,
    pub custom_metadata: Option<String>,
}

/// Ghost image of a [`WorkspaceInfo`].
pub struct WorkspaceInfoView {
    pub members: Seq<PackageView>,
    pub current: Option<PkgIdView>,
    pub target_directory: Seq<char>,
    pub workspace_root: Seq<char>,
    pub custom_metadata: Option<Seq<char>>,
}

/// The view of an optional identity.
pub open spec fn opt_id_view(o: Option<PackageId>) -> Option<PkgIdView> {
    match o {
        Some(p) => Some(p@),
        None => None,
    }
}

impl View for WorkspaceInfo {
    type V = WorkspaceInfoView;

    open spec fn view(&self) -> WorkspaceInfoView {
        WorkspaceInfoView {
            members: pkgs_view(self.members@),
            current: opt_id_view(self.current),
            target_directory: self.target_directory@,
            workspace_root: self.workspace_root@,
            custom_metadata: opt_str_view(self.custom_metadata),
        }
    }
}

/// The whole export: the packages in play, the workspace members, the
/// resolved graph (absent when dependencies were not requested), and the
/// workspace facts reported verbatim.
#[derive(Clone, Debug)]
pub struct ExportInfo {
    pub packages: Vec<Package>,
    pub workspace_members: Vec<PackageId>,
    pub resolve: Option<MetadataResolve>,
    pub target_directory: String,
    pub version: u32,
    pub workspace_root: String,
    pub metadata: Option<String>,
}

/// Ghost image of an [`ExportInfo`].
pub struct ExportInfoView {
    pub packages: Seq<PackageView>,
    pub workspace_members: Seq<PkgIdView>,
    pub resolve: Option<MetadataResolveView>,
    pub target_directory: Seq<char>,
    pub version: u32,
    pub workspace_root: Seq<char>,
    pub metadata: Option<Seq<char>>,
}

impl View for ExportInfo {
    type V = ExportInfoView;

    open spec fn view(&self) -> ExportInfoView {
        ExportInfoView {
            packages: pkgs_view(self.packages@),
            workspace_members: ids_view(self.workspace_members@),
            resolve: match self.resolve {
                Some(ref mr) => Some(mr@),
                None => None,
            },
            target_directory: self.target_directory@,
            version: self.version,
            workspace_root: self.workspace_root@,
            metadata: opt_str_view(self.metadata),
        }
    }
}

/// The identities of a node list.
pub open spec fn node_ids(s: Seq<MetadataResolveNode>) -> Seq<PkgIdView> {
    s.map_values(|n: MetadataResolveNode| n@.id)
}

/// The identities of a node-view list.
pub open spec fn nview_ids(s: Seq<NodeView>) -> Seq<PkgIdView> {
    s.map_values(|n: NodeView| n.id)
}

/// What a correct resolved export looks like: every listed node is the
/// export node of its package, nodes are strictly sorted by identity,
/// every member has a node, every listed dependency has a node, node
/// identities come from the loaded packages, and the package listing runs
/// parallel to the nodes.
pub open spec fn resolve_export_ok(
    resolve: &crate::resolve::Resolve,
    pv: Seq<PackageView>,
    host_only: bool,
    act: Seq<Seq<char>>,
    members: Seq<PkgIdView>,
    actual: Seq<PackageView>,
    mr: MetadataResolveView,
) -> bool {
    &&& forall|x: int|
        0 <= x < mr.nodes.len() ==> (#[trigger] mr.nodes[x]) == spec_node(
            resolve,
            pv,
            host_only,
            act,
            mr.nodes[x].id,
        )
    &&& forall|x: int, y: int|
        0 <= x < y < mr.nodes.len() ==> pkg_le(
            (#[trigger] mr.nodes[x]).id,
            (#[trigger] mr.nodes[y]).id,
        ) && mr.nodes[x].id != mr.nodes[y].id
    &&& forall|w: int| 0 <= w < members.len() ==> nview_ids(mr.nodes).contains(#[trigger] members[w])
    &&& forall|x: int, w: int|
        0 <= x < mr.nodes.len() && 0 <= w < (#[trigger] mr.nodes[x]).dependencies.len()
            ==> nview_ids(mr.nodes).contains(#[trigger] mr.nodes[x].dependencies[w])
    &&& forall|x: int|
        0 <= x < mr.nodes.len() ==> package_ids(pv).contains((#[trigger] mr.nodes[x]).id)
    &&& actual.len() == mr.nodes.len()
    &&& forall|x: int| 0 <= x < actual.len() ==> (#[trigger] actual[x]).package_id == mr.nodes[x].id
    &&& forall|x: int| 0 <= x < actual.len() ==> pv.contains(#[trigger] actual[x])
}

/// Builds the export of the resolved graph: walks from the workspace
/// members through every kept edge, then lists the reached packages and
/// their nodes in identity order.
#[verifier::rlimit(100)]
pub fn build_resolve_graph(
    resolve: &crate::resolve::Resolve,
    packages: &Vec<Package>,
    members: &Vec<PackageId>,
    root: &Option<PackageId>,
    host_only: bool,
    active_platforms: &Vec<String>,
) -> (r: (Vec<Package>, MetadataResolve))
    requires
        resolve.wf(),
        forall|k: PkgIdView|
            package_ids(pkgs_view(packages@)).contains(k) ==> #[trigger] edges_resolvable(
                resolve,
                k,
            ),
        package_ids(pkgs_view(packages@)).no_duplicates(),
        forall|w: int|
            0 <= w < members@.len() ==> package_ids(pkgs_view(packages@)).contains(
                (#[trigger] members@[w])@,
            ),
    ensures
        resolve_export_ok(
            resolve,
            pkgs_view(packages@),
            host_only,
            strings_view(active_platforms@),
            ids_view(members@),
            pkgs_view(r.0@),
            r.1@,
        ),
        r.1@.root == opt_id_view(*root),
{
    let ghost pv = pkgs_view(packages@);
    let ghost act = strings_view(active_platforms@);
    let mut node_map: Vec<(PackageId, MetadataResolveNode)> = Vec::new();
    proof {
        assert(nm_view(node_map@) =~= Seq::<(PkgIdView, NodeView)>::empty());
    }
    let mut m: usize = 0;
    while m < members.len()
        invariant
            resolve.wf(),
            forall|k: PkgIdView|
                package_ids(pkgs_view(packages@)).contains(k) ==> #[trigger] edges_resolvable(
                    resolve,
                    k,
                ),
            pv == pkgs_view(packages@),
            act == strings_view(active_platforms@),
            package_ids(pv).no_duplicates(),
            forall|w: int|
                0 <= w < members@.len() ==> package_ids(pv).contains((#[trigger] members@[w])@),
            m <= members@.len(),
            nm_ok(resolve, pv, host_only, act, nm_view(node_map@)),
            forall|w: int|
                0 <= w < m ==> alist_contains(nm_view(node_map@), (#[trigger] members@[w])@),
            forall|i: int, w: int|
                0 <= i < node_map@.len() && 0 <= w < nm_view(node_map@)[i].1.dependencies.len()
                    ==> alist_contains(
                    nm_view(node_map@),
                    #[trigger] nm_view(node_map@)[i].1.dependencies[w],
                ),
        decreases members@.len() - m,
    {
        let ghost nm_pre = node_map@;
        build_resolve_graph_r(
            &mut node_map,
            &members[m],
            resolve,
            packages,
            host_only,
            active_platforms,
        );
        proof {
            assert forall|w: int| 0 <= w < nm_pre.len() implies #[trigger] nm_view(node_map@)[w]
                == nm_view(nm_pre)[w] by {
                assert(node_map@.take(nm_pre.len() as int)[w] == node_map@[w]);
            }
            assert forall|w: int| 0 <= w < m + 1 implies alist_contains(
                nm_view(node_map@),
                (#[trigger] members@[w])@,
            ) by {
                if w < m {
                    assert(alist_contains(nm_view(nm_pre), members@[w]@));
                    let x = choose|x: int|
                        0 <= x < nm_view(nm_pre).len() && (#[trigger] nm_view(nm_pre)[x]).0
                            == members@[w]@;
                    assert(nm_view(node_map@)[x].0 == members@[w]@);
                }
            }
            assert forall|i: int, w: int|
                0 <= i < node_map@.len() && 0 <= w < nm_view(node_map@)[i].1.dependencies.len()
                    implies alist_contains(
                nm_view(node_map@),
                #[trigger] nm_view(node_map@)[i].1.dependencies[w],
            ) by {
                if i < nm_pre.len() {
                    assert(nm_view(node_map@)[i] == nm_view(nm_pre)[i]);
                    assert(alist_contains(nm_view(nm_pre), nm_view(nm_pre)[i].1.dependencies[w]));
                    let x = choose|x: int|
                        0 <= x < nm_view(nm_pre).len() && (#[trigger] nm_view(nm_pre)[x]).0
                            == nm_view(nm_pre)[i].1.dependencies[w];
                    assert(nm_view(node_map@)[x].0 == nm_view(nm_pre)[i].1.dependencies[w]);
                }
            }
        }
        m = m + 1;
    }
    let sorted = sorted_pkgs(packages);
    let ghost orig = nm_view(node_map@);
    proof {
        lemma_sorted_ids_nodup(pv, pkgs_view(sorted@));
        assert forall|x: int| 0 <= x < pkgs_view(sorted@).len() implies pv.contains(
            #[trigger] pkgs_view(sorted@)[x],
        ) by {
            assert(pkgs_view(sorted@).contains(pkgs_view(sorted@)[x]));
        }
        assert forall|x: int|
            0 <= x < nm_view(node_map@).len() implies package_ids(pkgs_view(sorted@)).contains(
            (#[trigger] nm_view(node_map@)[x]).0,
        ) by {
            assert(package_ids(pv).contains(nm_view(node_map@)[x].0));
        }
    }
    let emitted = emit_nodes(node_map, &sorted, resolve, packages, host_only, active_platforms);
    let (actual, nodes) = emitted;
    let root_copy: Option<PackageId> = match root {
        Some(p) => Some(p.duplicate()),
        None => None,
    };
    let ghost nodes_seq = nodes@;
    let mr = MetadataResolve { nodes, root: root_copy };
    proof {
        let mrv = mr@;
        assert(mrv.nodes == nodes_seq.map_values(|n: MetadataResolveNode| n@));
        assert(nview_ids(mrv.nodes) =~= node_ids(nodes_seq));
        assert forall|x: int| 0 <= x < mrv.nodes.len() implies #[trigger] mrv.nodes[x]
            == nodes_seq[x]@ by {}
        assert forall|x: int| 0 <= x < mrv.nodes.len() implies (#[trigger] mrv.nodes[x])
            == spec_node(resolve, pv, host_only, act, mrv.nodes[x].id) by {
            assert(orig.contains((nodes_seq[x]@.id, nodes_seq[x]@)));
            let y = choose|y: int|
                0 <= y < orig.len() && #[trigger] orig[y] == (nodes_seq[x]@.id, nodes_seq[x]@);
            assert(orig[y].1 == spec_node(resolve, pv, host_only, act, orig[y].0));
        }
        assert forall|x: int| 0 <= x < mrv.nodes.len() implies package_ids(pv).contains(
            (#[trigger] mrv.nodes[x]).id,
        ) by {
            assert(orig.contains((nodes_seq[x]@.id, nodes_seq[x]@)));
            let y = choose|y: int|
                0 <= y < orig.len() && #[trigger] orig[y] == (nodes_seq[x]@.id, nodes_seq[x]@);
        }
        assert forall|w: int| 0 <= w < ids_view(members@).len() implies nview_ids(
            mrv.nodes,
        ).contains(#[trigger] ids_view(members@)[w]) by {
            assert(ids_view(members@)[w] == members@[w]@);
            assert(alist_contains(orig, members@[w]@));
            let z = choose|z: int|
                0 <= z < orig.len() && (#[trigger] orig[z]).0 == members@[w]@;
            assert(node_ids(nodes_seq).contains(orig[z].0));
        }
        assert forall|x: int, w: int|
            0 <= x < mrv.nodes.len() && 0 <= w < (#[trigger] mrv.nodes[x]).dependencies.len()
                implies nview_ids(mrv.nodes).contains(
            #[trigger] mrv.nodes[x].dependencies[w],
        ) by {
            assert(orig.contains((nodes_seq[x]@.id, nodes_seq[x]@)));
            let yy = choose|yy: int|
                0 <= yy < orig.len() && #[trigger] orig[yy] == (nodes_seq[x]@.id, nodes_seq[x]@);
            assert(alist_contains(orig, orig[yy].1.dependencies[w]));
            let z = choose|z: int|
                0 <= z < orig.len() && (#[trigger] orig[z]).0 == orig[yy].1.dependencies[w];
            assert(node_ids(nodes_seq).contains(orig[z].0));
            assert(mrv.nodes[x].dependencies[w] == orig[yy].1.dependencies[w]);
        }
        assert forall|x: int, y: int| 0 <= x < y < mrv.nodes.len() implies pkg_le(
            (#[trigger] mrv.nodes[x]).id,
            (#[trigger] mrv.nodes[y]).id,
        ) && mrv.nodes[x].id != mrv.nodes[y].id by {
            assert(nodes_seq[x]@.id == mrv.nodes[x].id);
            assert(nodes_seq[y]@.id == mrv.nodes[y].id);
        }
        assert(pkgs_view(actual@).len() == mrv.nodes.len());
        assert forall|x: int| 0 <= x < pkgs_view(actual@).len() implies (#[trigger] pkgs_view(
            actual@,
        )[x]).package_id == mrv.nodes[x].id by {
            assert(pkgs_view(actual@)[x] == actual@[x]@);
        }
        assert forall|x: int| 0 <= x < pkgs_view(actual@).len() implies pv.contains(
            #[trigger] pkgs_view(actual@)[x],
        ) by {
            assert(pkgs_view(actual@)[x] == actual@[x]@);
        }
    }
    (actual, mr)
}

/// Lists the recorded nodes and their packages in identity order: one
/// pass over the identity-sorted packages, taking each package's node out
/// of the table when it has one.
#[verifier::rlimit(100)]
fn emit_nodes(
    node_map: Vec<(PackageId, MetadataResolveNode)>,
    sorted: &Vec<Package>,
    resolve: &crate::resolve::Resolve,
    packages: &Vec<Package>,
    host_only: bool,
    active_platforms: &Vec<String>,
) -> (r: (Vec<Package>, Vec<MetadataResolveNode>))
    requires
        nm_ok(
            resolve,
            pkgs_view(packages@),
            host_only,
            strings_view(active_platforms@),
            nm_view(node_map@),
        ),
        package_ids(pkgs_view(sorted@)).no_duplicates(),
        sorted_by(pkgs_view(sorted@), pkg_order()),
        forall|x: int|
            0 <= x < pkgs_view(sorted@).len() ==> pkgs_view(packages@).contains(
                #[trigger] pkgs_view(sorted@)[x],
            ),
        forall|x: int|
            0 <= x < nm_view(node_map@).len() ==> package_ids(pkgs_view(sorted@)).contains(
                (#[trigger] nm_view(node_map@)[x]).0,
            ),
    ensures
        r.1@.len() == r.0@.len(),
        forall|x: int|
            0 <= x < r.1@.len() ==> nm_view(node_map@).contains(
                ((#[trigger] r.1@[x])@.id, r.1@[x]@),
            ),
        forall|y: int|
            0 <= y < nm_view(node_map@).len() ==> node_ids(r.1@).contains(
                (#[trigger] nm_view(node_map@)[y]).0,
            ),
        forall|x: int, y: int|
            0 <= x < y < r.1@.len() ==> pkg_le((#[trigger] r.1@[x])@.id, (#[trigger] r.1@[y])@.id)
                && r.1@[x]@.id != r.1@[y]@.id,
        forall|x: int| 0 <= x < r.0@.len() ==> (#[trigger] r.0@[x])@.package_id == r.1@[x]@.id,
        forall|x: int| 0 <= x < r.0@.len() ==> pkgs_view(packages@).contains((#[trigger] r.0@[x])@),
{
    let ghost pv = pkgs_view(packages@);
    let ghost act = strings_view(active_platforms@);
    let ghost orig = nm_view(node_map@);
    let ghost sorted_v = pkgs_view(sorted@);
    let ghost sids = package_ids(sorted_v);
    let mut table = node_map;
    let mut actual: Vec<Package> = Vec::new();
    let mut nodes: Vec<MetadataResolveNode> = Vec::new();
    proof {
        assert forall|x: int| 0 <= x < nm_view(table@).len() implies orig.contains(
            #[trigger] nm_view(table@)[x],
        ) by {
            assert(nm_view(table@)[x] == orig[x]);
        }
        assert forall|x: int| 0 <= x < nm_view(table@).len() implies sids.skip(0).contains(
            (#[trigger] nm_view(table@)[x]).0,
        ) by {
            assert(sids.skip(0) =~= sids);
            assert(sids.contains(nm_view(table@)[x].0));
        }
    }
    let mut i: usize = 0;
    while i < sorted.len()
        invariant
            pv == pkgs_view(packages@),
            act == strings_view(active_platforms@),
            sorted_v == pkgs_view(sorted@),
            sids == package_ids(sorted_v),
            sids.no_duplicates(),
            sorted_by(sorted_v, pkg_order()),
            forall|x: int| 0 <= x < sorted_v.len() ==> pv.contains(#[trigger] sorted_v[x]),
            i <= sorted@.len(),
            nm_ok(resolve, pv, host_only, act, orig),
            nm_ok(resolve, pv, host_only, act, nm_view(table@)),
            forall|x: int|
                0 <= x < nm_view(table@).len() ==> orig.contains(#[trigger] nm_view(table@)[x]),
            forall|x: int|
                0 <= x < nm_view(table@).len() ==> sids.skip(i as int).contains(
                    (#[trigger] nm_view(table@)[x]).0,
                ),
            forall|y: int|
                0 <= y < orig.len() ==> node_ids(nodes@).contains((#[trigger] orig[y]).0)
                    || alist_contains(nm_view(table@), orig[y].0),
            forall|x: int|
                0 <= x < nodes@.len() ==> orig.contains(((#[trigger] nodes@[x])@.id, nodes@[x]@)),
            forall|x: int|
                0 <= x < nodes@.len() ==> sids.take(i as int).contains(
                    (#[trigger] nodes@[x])@.id,
                ),
            forall|x: int, y: int|
                0 <= x < y < nodes@.len() ==> pkg_le(
                    (#[trigger] nodes@[x])@.id,
                    (#[trigger] nodes@[y])@.id,
                ) && nodes@[x]@.id != nodes@[y]@.id,
            actual@.len() == nodes@.len(),
            forall|x: int|
                0 <= x < actual@.len() ==> (#[trigger] actual@[x])@.package_id == nodes@[x]@.id,
            forall|x: int| 0 <= x < actual@.len() ==> pv.contains((#[trigger] actual@[x])@),
        decreases sorted@.len() - i,
    {
        let ghost nodes_before = nodes@;
        let ghost nm_before = table@;
        match find_key_index(&table, &sorted[i].package_id) {
            Some(ni) => {
                proof {
                    assert(nm_view(table@)[ni as int].0 == sorted@[i as int].package_id@);
                    assert(sids[i as int] == sorted@[i as int].package_id@);
                }
                let entry = table.remove(ni);
                actual.push(sorted[i].duplicate());
                nodes.push(entry.1);
                proof {
                    assert(nm_view(table@) =~= nm_view(nm_before).remove(ni as int));
                    assert(nodes@.last()@ == nm_view(nm_before)[ni as int].1);
                    assert(nodes@.last()@.id == sids[i as int]) by {
                        assert(nm_view(nm_before)[ni as int].1 == spec_node(
                            resolve,
                            pv,
                            host_only,
                            act,
                            nm_view(nm_before)[ni as int].0,
                        ));
                    }
                    assert(actual@.last()@ == sorted_v[i as int]);
                    assert(sorted_v.contains(sorted_v[i as int]));
                    assert forall|x: int| 0 <= x < nm_view(table@).len() implies orig.contains(
                        #[trigger] nm_view(table@)[x],
                    ) by {
                        let prex = if x < ni as int {
                            x
                        } else {
                            x + 1
                        };
                        assert(nm_view(table@)[x] == nm_view(nm_before)[prex]);
                        assert(orig.contains(nm_view(nm_before)[prex]));
                    }
                    assert forall|x: int|
                        0 <= x < nm_view(table@).len() implies sids.skip(i + 1).contains(
                        (#[trigger] nm_view(table@)[x]).0,
                    ) by {
                        let prex = if x < ni as int {
                            x
                        } else {
                            x + 1
                        };
                        assert(nm_view(table@)[x] == nm_view(nm_before)[prex]);
                        assert(sids.skip(i as int).contains(nm_view(nm_before)[prex].0));
                        let w = choose|w: int|
                            0 <= w < sids.skip(i as int).len() && #[trigger] sids.skip(i as int)[w]
                                == nm_view(nm_before)[prex].0;
                        assert(sids[i + w] == nm_view(nm_before)[prex].0);
                        assert(w != 0) by {
                            if w == 0 {
                                assert(nm_view(nm_before)[prex].0 == sids[i as int]);
                                assert(nm_view(nm_before)[ni as int].0 == sids[i as int]);
                                assert(crate::alist::unique_keys(nm_view(nm_before)));
                                assert(prex != ni as int);
                                if prex < ni as int {
                                    assert(nm_view(nm_before)[prex].0 != nm_view(nm_before)[
                                        ni as int].0);
                                } else {
                                    assert(nm_view(nm_before)[ni as int].0 != nm_view(nm_before)[
                                        prex].0);
                                }
                            }
                        }
                        assert(sids.skip(i + 1)[w - 1] == sids[i + w]);
                    }
                    assert forall|y: int|
                        0 <= y < orig.len() implies node_ids(nodes@).contains(
                        (#[trigger] orig[y]).0,
                    ) || alist_contains(nm_view(table@), orig[y].0) by {
                        if node_ids(nodes_before).contains(orig[y].0) {
                            let x = choose|x: int|
                                0 <= x < node_ids(nodes_before).len() && #[trigger] node_ids(
                                    nodes_before,
                                )[x] == orig[y].0;
                            assert(node_ids(nodes@)[x] == orig[y].0);
                        } else if alist_contains(nm_view(nm_before), orig[y].0) {
                            let x = choose|x: int|
                                0 <= x < nm_view(nm_before).len() && (#[trigger] nm_view(
                                    nm_before,
                                )[x]).0 == orig[y].0;
                            if x == ni as int {
                                assert(node_ids(nodes@)[nodes@.len() - 1] == orig[y].0);
                            } else {
                                let newx = if x < ni as int {
                                    x
                                } else {
                                    x - 1
                                };
                                assert(nm_view(table@)[newx] == nm_view(nm_before)[x]);
                            }
                        }
                    }
                    assert forall|x: int| 0 <= x < nodes@.len() implies orig.contains(
                        ((#[trigger] nodes@[x])@.id, nodes@[x]@),
                    ) by {
                        if x < nodes_before.len() {
                            assert(nodes@[x] == nodes_before[x]);
                            assert(orig.contains((nodes_before[x]@.id, nodes_before[x]@)));
                        } else {
                            assert(orig.contains(nm_view(nm_before)[ni as int]));
                            assert(nodes@[x]@ == nm_view(nm_before)[ni as int].1);
                            assert(nodes@[x]@.id == nm_view(nm_before)[ni as int].0) by {
                                assert(nm_view(nm_before)[ni as int].1 == spec_node(
                                    resolve,
                                    pv,
                                    host_only,
                                    act,
                                    nm_view(nm_before)[ni as int].0,
                                ));
                            }
                        }
                    }
                    assert forall|x: int| 0 <= x < nodes@.len() implies sids.take(i + 1).contains(
                        (#[trigger] nodes@[x])@.id,
                    ) by {
                        if x < nodes_before.len() {
                            assert(nodes@[x] == nodes_before[x]);
                            assert(sids.take(i as int).contains(nodes_before[x]@.id));
                            let w = choose|w: int|
                                0 <= w < sids.take(i as int).len() && #[trigger] sids.take(
                                    i as int,
                                )[w] == nodes_before[x]@.id;
                            assert(sids.take(i + 1)[w] == sids[w]);
                        } else {
                            assert(sids.take(i + 1)[i as int] == sids[i as int]);
                        }
                    }
                    assert forall|x: int, y: int|
                        0 <= x < y < nodes@.len() implies pkg_le(
                        (#[trigger] nodes@[x])@.id,
                        (#[trigger] nodes@[y])@.id,
                    ) && nodes@[x]@.id != nodes@[y]@.id by {
                        if y < nodes@.len() - 1 {
                            assert(pkg_le(nodes_before[x]@.id, nodes_before[y]@.id)
                                && nodes_before[x]@.id != nodes_before[y]@.id);
                        } else {
                            assert(nodes@[x] == nodes_before[x]);
                            assert(sids.take(i as int).contains(nodes_before[x]@.id));
                            let w = choose|w: int|
                                0 <= w < sids.take(i as int).len() && #[trigger] sids.take(
                                    i as int,
                                )[w] == nodes_before[x]@.id;
                            assert(sids[w] == nodes_before[x]@.id);
                            assert(sorted_v[w].package_id == sids[w]);
                            assert(sorted_v[i as int].package_id == sids[i as int]);
                            assert(pkg_order()(sorted_v[w], sorted_v[i as int]));
                            assert(sids[w] != sids[i as int]);
                        }
                    }
                }
            },
            None => {
                proof {
                    assert forall|x: int|
                        0 <= x < nm_view(table@).len() implies sids.skip(i + 1).contains(
                        (#[trigger] nm_view(table@)[x]).0,
                    ) by {
                        assert(sids.skip(i as int).contains(nm_view(table@)[x].0));
                        let w = choose|w: int|
                            0 <= w < sids.skip(i as int).len() && #[trigger] sids.skip(i as int)[w]
                                == nm_view(table@)[x].0;
                        assert(sids[i + w] == nm_view(table@)[x].0);
                        assert(w != 0) by {
                            if w == 0 {
                                assert(table@[x].0@ != sorted@[i as int].package_id@);
                                assert(nm_view(table@)[x].0 != sids[i as int]);
                            }
                        }
                        assert(sids.skip(i + 1)[w - 1] == sids[i + w]);
                    }
                    assert forall|x: int| 0 <= x < nodes@.len() implies sids.take(i + 1).contains(
                        (#[trigger] nodes@[x])@.id,
                    ) by {
                        assert(sids.take(i as int).contains(nodes@[x]@.id));
                        let w = choose|w: int|
                            0 <= w < sids.take(i as int).len() && #[trigger] sids.take(i as int)[w]
                                == nodes@[x]@.id;
                        assert(sids.take(i + 1)[w] == sids[w]);
                    }
                }
            },
        }
        i = i + 1;
    }
    proof {
        assert(nm_view(table@).len() == 0) by {
            if nm_view(table@).len() > 0 {
                assert(sids.skip(i as int).contains(nm_view(table@)[0].0));
                assert(sids.skip(i as int).len() == 0);
            }
        }
        assert forall|y: int| 0 <= y < orig.len() implies node_ids(nodes@).contains(
            (#[trigger] orig[y]).0,
        ) by {
            if alist_contains(nm_view(table@), orig[y].0) {
                let x = choose|x: int|
                    0 <= x < nm_view(table@).len() && (#[trigger] nm_view(table@)[x]).0 == orig[
                        y].0;
            }
        }
    }
    (actual, nodes)
}


/// Computes the export: checks the requested format version, then either
/// lists only the workspace members (`no_deps`) or builds the resolved
/// graph from them, and reports the workspace facts verbatim.
pub fn output_metadata(
    ws: &WorkspaceInfo,
    resolve: &crate::resolve::Resolve,
    packages: &Vec<Package>,
    active_platforms: &Vec<String>,
    opt: &OutputMetadataOptions,
) -> (r: Result<ExportInfo, MetadataError>)
    requires
        opt.no_deps || resolve.wf(),
        opt.no_deps || forall|k: PkgIdView|
            package_ids(pkgs_view(packages@)).contains(k) ==> #[trigger] edges_resolvable(
                resolve,
                k,
            ),
        opt.no_deps || package_ids(pkgs_view(packages@)).no_duplicates(),
        opt.no_deps || forall|w: int|
            0 <= w < ws.members@.len() ==> package_ids(pkgs_view(packages@)).contains(
                (#[trigger] ws.members@[w]).package_id@,
            ),
    ensures
        r is Err <==> opt.version != VERSION,
        r matches Err(e) ==> (e matches MetadataError::UnsupportedVersion { requested, supported }
            && requested == opt.version && supported == VERSION),
        r matches Ok(info) ==> info@.version == VERSION && info@.target_directory
            == ws.target_directory@ && info@.workspace_root == ws.workspace_root@
            && info@.metadata == opt_str_view(ws.custom_metadata) && info@.workspace_members
            == package_ids(pkgs_view(ws.members@)),
        r matches Ok(info) ==> (opt.no_deps ==> info@.resolve is None && info@.packages
            == pkgs_view(ws.members@)),
        r matches Ok(info) ==> !opt.no_deps ==> (info@.resolve matches Some(mr)
            && resolve_export_ok(
            resolve,
            pkgs_view(packages@),
            opt.filter_platforms@.len() == 0,
            strings_view(active_platforms@),
            package_ids(pkgs_view(ws.members@)),
            info@.packages,
            mr,
        ) && mr.root == opt_id_view(ws.current)),
{
    if opt.version != VERSION {
        return Err(
            MetadataError::UnsupportedVersion { requested: opt.version, supported: VERSION },
        );
    }
    let mut member_ids: Vec<PackageId> = Vec::new();
    let mut w: usize = 0;
    while w < ws.members.len()
        invariant
            w <= ws.members@.len(),
            ids_view(member_ids@) == package_ids(pkgs_view(ws.members@)).take(w as int),
        decreases ws.members@.len() - w,
    {
        let ghost prev = member_ids@;
        member_ids.push(ws.members[w].package_id.duplicate());
        proof {
            assert(package_ids(pkgs_view(ws.members@)).take(w as int).len() == w as int);
            assert(ids_view(prev).len() == w);
            assert(prev.len() == w);
            assert forall|x: int| 0 <= x < w + 1 implies ids_view(member_ids@)[x] == package_ids(
                pkgs_view(ws.members@),
            ).take(w + 1)[x] by {
                assert(ids_view(member_ids@)[x] == member_ids@[x]@);
                if x < w {
                    assert(member_ids@[x] == prev[x]);
                    assert(ids_view(prev)[x] == prev[x]@);
                    assert(ids_view(prev)[x] == package_ids(pkgs_view(ws.members@)).take(
                        w as int,
                    )[x]);
                } else {
                    assert(member_ids@[x] == member_ids@.last());
                    assert(member_ids@.last()@ == ws.members@[w as int].package_id@);
                    assert(package_ids(pkgs_view(ws.members@))[x] == pkgs_view(ws.members@)[
                        x].package_id);
                }
            }
            assert(ids_view(member_ids@) =~= package_ids(pkgs_view(ws.members@)).take(w + 1));
        }
        w = w + 1;
    }
    proof {
        let full = package_ids(pkgs_view(ws.members@));
        assert(full.take(full.len() as int) =~= full);
    }
    if opt.no_deps {
        let mut pkgs: Vec<Package> = Vec::new();
        let mut m: usize = 0;
        while m < ws.members.len()
            invariant
                m <= ws.members@.len(),
                pkgs_view(pkgs@) == pkgs_view(ws.members@).take(m as int),
            decreases ws.members@.len() - m,
        {
            let ghost prev = pkgs@;
            pkgs.push(ws.members[m].duplicate());
            proof {
                assert(pkgs_view(ws.members@).take(m as int).len() == m as int);
                assert(pkgs_view(prev).len() == m);
                assert(prev.len() == m);
                assert forall|x: int| 0 <= x < m + 1 implies pkgs_view(pkgs@)[x] == pkgs_view(
                    ws.members@,
                ).take(m + 1)[x] by {
                    assert(pkgs_view(pkgs@)[x] == pkgs@[x]@);
                    if x < m {
                        assert(pkgs@[x] == prev[x]);
                        assert(pkgs_view(prev)[x] == prev[x]@);
                        assert(pkgs_view(prev)[x] == pkgs_view(ws.members@).take(m as int)[x]);
                    } else {
                        assert(pkgs@[x] == pkgs@.last());
                        assert(pkgs@.last()@ == ws.members@[m as int]@);
                    }
                }
                assert(pkgs_view(pkgs@) =~= pkgs_view(ws.members@).take(m + 1));
            }
            m = m + 1;
        }
        proof {
            assert(pkgs_view(ws.members@).take(pkgs_view(ws.members@).len() as int) =~= pkgs_view(
                ws.members@,
            ));
        }
        Ok(
            ExportInfo {
                packages: pkgs,
                workspace_members: member_ids,
                resolve: None,
                target_directory: ws.target_directory.clone(),
                version: VERSION,
                workspace_root: ws.workspace_root.clone(),
                metadata: dup_opt_string(&ws.custom_metadata),
            },
        )
    } else {
        let host_only = opt.filter_platforms.len() == 0;
        proof {
            assert forall|x: int|
                0 <= x < member_ids@.len() implies package_ids(pkgs_view(packages@)).contains(
                (#[trigger] member_ids@[x])@,
            ) by {
                assert(member_ids@[x]@ == package_ids(pkgs_view(ws.members@))[x]);
                assert(package_ids(pkgs_view(ws.members@))[x] == ws.members@[x].package_id@);
            }
        }
        let built = build_resolve_graph(
            resolve,
            packages,
            &member_ids,
            &ws.current,
            host_only,
            active_platforms,
        );
        let (pkgs, mr) = built;
        Ok(
            ExportInfo {
                packages: pkgs,
                workspace_members: member_ids,
                resolve: Some(mr),
                target_directory: ws.target_directory.clone(),
                version: VERSION,
                workspace_root: ws.workspace_root.clone(),
                metadata: dup_opt_string(&ws.custom_metadata),
            },
        )
    }
}

} // verus!
