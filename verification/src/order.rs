//! Total orders used for deterministic output: lexicographic order on
//! names, and the derived orders on package identities and dependency
//! records.  Each order is proved a total ordering so that sorted output
//! is uniquely determined.

use crate::types::PkgIdView;
use crate::types::Version;
use vstd::prelude::*;
use vstd::relations::total_ordering;
use vstd::string::StrSliceExecFns;

verus! {

/// Lexicographic order on character sequences, by code point.
pub open spec fn seq_char_le(a: Seq<char>, b: Seq<char>) -> bool
    decreases a.len(),
{
    if a.len() == 0 {
        true
    } else if b.len() == 0 {
        false
    } else if a[0] == b[0] {
        seq_char_le(a.drop_first(), b.drop_first())
    } else {
        (a[0] as u32) < (b[0] as u32)
    }
}

/// Distinct characters have distinct code points.
proof fn char_codes_differ(x: char, y: char)
    requires
        x != y,
    ensures
        (x as u32) != (y as u32),
{
}

/// `seq_char_le` is reflexive.
pub proof fn lemma_seq_char_le_refl(a: Seq<char>)
    ensures
        seq_char_le(a, a),
    decreases a.len(),
{
    if a.len() > 0 {
        lemma_seq_char_le_refl(a.drop_first());
    }
}

/// `seq_char_le` is antisymmetric.
pub proof fn lemma_seq_char_le_antisym(a: Seq<char>, b: Seq<char>)
    requires
        seq_char_le(a, b),
        seq_char_le(b, a),
    ensures
        a == b,
    decreases a.len(),
{
    if a.len() == 0 {
        assert(b.len() == 0);
        assert(a =~= b);
    } else {
        assert(b.len() > 0);
        if a[0] == b[0] {
            lemma_seq_char_le_antisym(a.drop_first(), b.drop_first());
            assert(a =~= b) by {
                assert(a.len() == b.len());
                assert forall|k: int| 0 <= k < a.len() implies a[k] == b[k] by {
                    if k > 0 {
                        assert(a.drop_first()[k - 1] == b.drop_first()[k - 1]);
                    }
                }
            }
        } else {
            char_codes_differ(a[0], b[0]);
        }
    }
}

/// `seq_char_le` is transitive.
pub proof fn lemma_seq_char_le_trans(a: Seq<char>, b: Seq<char>, c: Seq<char>)
    requires
        seq_char_le(a, b),
        seq_char_le(b, c),
    ensures
        seq_char_le(a, c),
    decreases a.len(),
{
    if a.len() == 0 {
    } else {
        assert(b.len() > 0);
        assert(c.len() > 0);
        if a[0] == b[0] && b[0] == c[0] {
            lemma_seq_char_le_trans(a.drop_first(), b.drop_first(), c.drop_first());
        }
    }
}

/// `seq_char_le` is total.
pub proof fn lemma_seq_char_le_total(a: Seq<char>, b: Seq<char>)
    ensures
        seq_char_le(a, b) || seq_char_le(b, a),
    decreases a.len(),
{
    if a.len() > 0 && b.len() > 0 {
        if a[0] == b[0] {
            lemma_seq_char_le_total(a.drop_first(), b.drop_first());
        } else {
            char_codes_differ(a[0], b[0]);
        }
    }
}

/// `seq_char_le` is reflexive, antisymmetric, transitive and total.
pub proof fn lemma_seq_char_le_properties(a: Seq<char>, b: Seq<char>, c: Seq<char>)
    ensures
        seq_char_le(a, a),
        seq_char_le(a, b) && seq_char_le(b, a) ==> a == b,
        seq_char_le(a, b) && seq_char_le(b, c) ==> seq_char_le(a, c),
        seq_char_le(a, b) || seq_char_le(b, a),
{
    lemma_seq_char_le_refl(a);
    if seq_char_le(a, b) && seq_char_le(b, a) {
        lemma_seq_char_le_antisym(a, b);
    }
    if seq_char_le(a, b) && seq_char_le(b, c) {
        lemma_seq_char_le_trans(a, b, c);
    }
    lemma_seq_char_le_total(a, b);
}

/// A common prefix does not decide the order.
proof fn lemma_seq_char_le_skip(a: Seq<char>, b: Seq<char>, i: int)
    requires
        0 <= i <= a.len(),
        i <= b.len(),
        forall|k: int| 0 <= k < i ==> a[k] == b[k],
    ensures
        seq_char_le(a, b) == seq_char_le(a.skip(i), b.skip(i)),
    decreases i,
{
    if i > 0 {
        assert(a[0] == b[0]);
        assert(a.len() > 0 && b.len() > 0);
        assert(a.drop_first().skip(i - 1) =~= a.skip(i));
        assert(b.drop_first().skip(i - 1) =~= b.skip(i));
        assert forall|k: int| 0 <= k < i - 1 implies a.drop_first()[k] == b.drop_first()[k] by {
            assert(a[k + 1] == b[k + 1]);
        }
        lemma_seq_char_le_skip(a.drop_first(), b.drop_first(), i - 1);
    } else {
        assert(a.skip(0) =~= a);
        assert(b.skip(0) =~= b);
    }
}

/// Decides `seq_char_le` on two strings.
pub fn str_seq_le(a: &str, b: &str) -> (r: bool)
    ensures
        r == seq_char_le(a@, b@),
{
    let na = a.unicode_len();
    let nb = b.unicode_len();
    let mut i: usize = 0;
    while i < na && i < nb
        invariant
            na == a@.len(),
            nb == b@.len(),
            i <= na,
            i <= nb,
            forall|k: int| 0 <= k < i ==> a@[k] == b@[k],
        decreases na - i,
    {
        let ca = a.get_char(i);
        let cb = b.get_char(i);
        if ca == cb {
            i = i + 1;
        } else {
            proof {
                lemma_seq_char_le_skip(a@, b@, i as int);
                assert(a@.skip(i as int)[0] == ca);
                assert(b@.skip(i as int)[0] == cb);
                assert(a@.skip(i as int).len() > 0 && b@.skip(i as int).len() > 0);
            }
            return (ca as u32) < (cb as u32);
        }
    }
    proof {
        lemma_seq_char_le_skip(a@, b@, i as int);
        if i == na {
            assert(a@.skip(i as int).len() == 0);
        } else {
            assert(b@.skip(i as int).len() == 0);
            assert(a@.skip(i as int).len() > 0);
        }
    }
    na <= nb
}

/// `None` before `Some`, then lexicographic.
pub open spec fn opt_seq_le(a: Option<Seq<char>>, b: Option<Seq<char>>) -> bool {
    match (a, b) {
        (Option::None, _) => true,
        (Option::Some(_), Option::None) => false,
        (Option::Some(x), Option::Some(y)) => seq_char_le(x, y),
    }
}

/// The properties of `opt_seq_le`, lifted from `seq_char_le`.
pub proof fn lemma_opt_seq_le_properties(
    a: Option<Seq<char>>,
    b: Option<Seq<char>>,
    c: Option<Seq<char>>,
)
    ensures
        opt_seq_le(a, a),
        opt_seq_le(a, b) && opt_seq_le(b, a) ==> a == b,
        opt_seq_le(a, b) && opt_seq_le(b, c) ==> opt_seq_le(a, c),
        opt_seq_le(a, b) || opt_seq_le(b, a),
{
    let xa = match a {
        Some(x) => x,
        None => Seq::empty(),
    };
    let xb = match b {
        Some(x) => x,
        None => Seq::empty(),
    };
    let xc = match c {
        Some(x) => x,
        None => Seq::empty(),
    };
    lemma_seq_char_le_properties(xa, xb, xc);
}

/// Decides `opt_seq_le` on optional strings.
pub fn opt_str_le(a: &Option<String>, b: &Option<String>) -> (r: bool)
    ensures
        r == opt_seq_le(crate::types::opt_str_view(*a), crate::types::opt_str_view(*b)),
{
    match (a, b) {
        (None, _) => true,
        (Some(_), None) => false,
        (Some(x), Some(y)) => str_seq_le(x.as_str(), y.as_str()),
    }
}

/// Whether two optional strings read the same.
pub fn opt_str_eq(a: &Option<String>, b: &Option<String>) -> (r: bool)
    ensures
        r == (crate::types::opt_str_view(*a) == crate::types::opt_str_view(*b)),
{
    match (a, b) {
        (None, None) => true,
        (Some(x), Some(y)) => *x == *y,
        _ => false,
    }
}

/// Order on versions: major, then minor, then patch.
pub open spec fn version_le(a: Version, b: Version) -> bool {
    if a.major != b.major {
        a.major < b.major
    } else if a.minor != b.minor {
        a.minor < b.minor
    } else {
        a.patch <= b.patch
    }
}

/// Order on package identities: name, then version, then source.
pub open spec fn pkg_le(a: PkgIdView, b: PkgIdView) -> bool {
    if a.name != b.name {
        seq_char_le(a.name, b.name)
    } else if a.version != b.version {
        version_le(a.version, b.version)
    } else {
        seq_char_le(a.source_id, b.source_id)
    }
}

/// `pkg_le` is a total ordering.
pub proof fn lemma_pkg_le_total_ordering()
    ensures
        total_ordering(|a: PkgIdView, b: PkgIdView| pkg_le(a, b)),
{
    let le = |a: PkgIdView, b: PkgIdView| pkg_le(a, b);
    assert forall|a: PkgIdView| #[trigger] le(a, a) by {
        lemma_seq_char_le_properties(a.name, a.name, a.name);
        lemma_seq_char_le_properties(a.source_id, a.source_id, a.source_id);
    }
    assert forall|a: PkgIdView, b: PkgIdView| #[trigger] le(a, b) && #[trigger] le(b, a) implies a
        == b by {
        lemma_seq_char_le_properties(a.name, b.name, a.name);
        lemma_seq_char_le_properties(a.source_id, b.source_id, a.source_id);
        assert(a.name == b.name);
        assert(a.version == b.version);
        assert(a.source_id == b.source_id);
    }
    assert forall|a: PkgIdView, b: PkgIdView, c: PkgIdView|
        #[trigger] le(a, b) && #[trigger] le(b, c) implies le(a, c) by {
        lemma_seq_char_le_properties(a.name, b.name, c.name);
        lemma_seq_char_le_properties(a.source_id, b.source_id, c.source_id);
        if a.name == b.name && b.name == c.name && a.version == b.version && b.version
            == c.version {
        } else {
        }
    }
    assert forall|a: PkgIdView, b: PkgIdView| #[trigger] le(a, b) || #[trigger] le(b, a) by {
        lemma_seq_char_le_properties(a.name, b.name, a.name);
        lemma_seq_char_le_properties(a.source_id, b.source_id, a.source_id);
    }
}

/// Decides `pkg_le` on package identities.
pub fn pkg_le_exec(a: &crate::types::PackageId, b: &crate::types::PackageId) -> (r: bool)
    ensures
        r == pkg_le(a@, b@),
{
    if !(a.name == b.name) {
        str_seq_le(a.name.as_str(), b.name.as_str())
    } else if !(a.version == b.version) {
        if a.version.major != b.version.major {
            a.version.major < b.version.major
        } else if a.version.minor != b.version.minor {
            a.version.minor < b.version.minor
        } else {
            a.version.patch <= b.version.patch
        }
    } else {
        str_seq_le(a.source_id.as_str(), b.source_id.as_str())
    }
}

} // verus!
