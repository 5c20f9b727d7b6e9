//! Name normalization for crate identifiers and environment variables.
//!
//! Package and target names may contain `-`, which is not a valid character
//! in a Rust identifier or a conventional environment variable fragment.
//! Two normalizations are used throughout the crate:
//!
//! * `-` replaced by `_` (the name a consumer's source code uses for a
//!   dependency), and
//! * `-` replaced by `_` with ASCII letters upper-cased (the fragment
//!   embedded in artifact environment variable names).

use vstd::prelude::*;
use vstd::string::StrSliceExecFns;
use vstd::string::StringExecFns;

verus! {

/// The ASCII upper-case form of a character; characters outside `a`..=`z`
/// are unchanged.
pub open spec fn upper_char(c: char) -> char {
    if c == 'a' {
        'A'
    } else if c == 'b' {
        'B'
    } else if c == 'c' {
        'C'
    } else if c == 'd' {
        'D'
    } else if c == 'e' {
        'E'
    } else if c == 'f' {
        'F'
    } else if c == 'g' {
        'G'
    } else if c == 'h' {
        'H'
    } else if c == 'i' {
        'I'
    } else if c == 'j' {
        'J'
    } else if c == 'k' {
        'K'
    } else if c == 'l' {
        'L'
    } else if c == 'm' {
        'M'
    } else if c == 'n' {
        'N'
    } else if c == 'o' {
        'O'
    } else if c == 'p' {
        'P'
    } else if c == 'q' {
        'Q'
    } else if c == 'r' {
        'R'
    } else if c == 's' {
        'S'
    } else if c == 't' {
        'T'
    } else if c == 'u' {
        'U'
    } else if c == 'v' {
        'V'
    } else if c == 'w' {
        'W'
    } else if c == 'x' {
        'X'
    } else if c == 'y' {
        'Y'
    } else if c == 'z' {
        'Z'
    } else {
        c
    }
}

/// `-` becomes `_`; every other character is unchanged.
pub open spec fn underscore_char(c: char) -> char {
    if c == '-' {
        '_'
    } else {
        c
    }
}

/// One character of an environment variable name fragment: `-` becomes `_`,
/// ASCII lower-case letters are upper-cased.
pub open spec fn env_char(c: char) -> char {
    if c == '-' {
        '_'
    } else {
        upper_char(c)
    }
}

/// A name with `-` replaced by `_`, as used for `extern` crate identifiers.
pub open spec fn underscore_name(s: Seq<char>) -> Seq<char> {
    s.map_values(|c: char| underscore_char(c))
}

/// A name as it appears inside an artifact environment variable:
/// `-` replaced by `_` and ASCII letters upper-cased.
pub open spec fn env_name(s: Seq<char>) -> Seq<char> {
    s.map_values(|c: char| env_char(c))
}

/// Appends `underscore_char(s[i])` to `out`.
fn append_underscore_char(out: &mut String, s: &str, i: usize)
    requires
        i < s@.len(),
        s@.len() <= usize::MAX,
    ensures
        final(out)@ == old(out)@ + seq![underscore_char(s@[i as int])],
{
    let c = s.get_char(i);
    if c == '-' {
        proof {
            reveal_strlit("_");
        }
        out.append("_");
    } else {
        let piece = s.substring_char(i, i + 1);
        assert(piece@ =~= seq![s@[i as int]]);
        out.append(piece);
    }
}

/// Appends `env_char(s[i])` to `out`.
fn append_env_char(out: &mut String, s: &str, i: usize)
    requires
        i < s@.len(),
        s@.len() <= usize::MAX,
    ensures
        final(out)@ == old(out)@ + seq![env_char(s@[i as int])],
{
    let c = s.get_char(i);
    if c == '-' {
        proof {
            reveal_strlit("_");
        }
        out.append("_");
    } else if c == 'a' {
        proof {
            reveal_strlit("A");
        }
        out.append("A");
    } else if c == 'b' {
        proof {
            reveal_strlit("B");
        }
        out.append("B");
    } else if c == 'c' {
        proof {
            reveal_strlit("C");
        }
        out.append("C");
    } else if c == 'd' {
        proof {
            reveal_strlit("D");
        }
        out.append("D");
    } else if c == 'e' {
        proof {
            reveal_strlit("E");
        }
        out.append("E");
    } else if c == 'f' {
        proof {
            reveal_strlit("F");
        }
        out.append("F");
    } else if c == 'g' {
        proof {
            reveal_strlit("G");
        }
        out.append("G");
    } else if c == 'h' {
        proof {
            reveal_strlit("H");
        }
        out.append("H");
    } else if c == 'i' {
        proof {
            reveal_strlit("I");
        }
        out.append("I");
    } else if c == 'j' {
        proof {
            reveal_strlit("J");
        }
        out.append("J");
    } else if c == 'k' {
        proof {
            reveal_strlit("K");
        }
        out.append("K");
    } else if c == 'l' {
        proof {
            reveal_strlit("L");
        }
        out.append("L");
    } else if c == 'm' {
        proof {
            reveal_strlit("M");
        }
        out.append("M");
    } else if c == 'n' {
        proof {
            reveal_strlit("N");
        }
        out.append("N");
    } else if c == 'o' {
        proof {
            reveal_strlit("O");
        }
        out.append("O");
    } else if c == 'p' {
        proof {
            reveal_strlit("P");
        }
        out.append("P");
    } else if c == 'q' {
        proof {
            reveal_strlit("Q");
        }
        out.append("Q");
    } else if c == 'r' {
        proof {
            reveal_strlit("R");
        }
        out.append("R");
    } else if c == 's' {
        proof {
            reveal_strlit("S");
        }
        out.append("S");
    } else if c == 't' {
        proof {
            reveal_strlit("T");
        }
        out.append("T");
    } else if c == 'u' {
        proof {
            reveal_strlit("U");
        }
        out.append("U");
    } else if c == 'v' {
        proof {
            reveal_strlit("V");
        }
        out.append("V");
    } else if c == 'w' {
        proof {
            reveal_strlit("W");
        }
        out.append("W");
    } else if c == 'x' {
        proof {
            reveal_strlit("X");
        }
        out.append("X");
    } else if c == 'y' {
        proof {
            reveal_strlit("Y");
        }
        out.append("Y");
    } else if c == 'z' {
        proof {
            reveal_strlit("Z");
        }
        out.append("Z");
    } else {
        let piece = s.substring_char(i, i + 1);
        assert(piece@ =~= seq![s@[i as int]]);
        out.append(piece);
    }
}

/// Whether the path holds a directory separator at all.
pub open spec fn has_slash(s: Seq<char>) -> bool {
    exists|i: int| 0 <= i < s.len() && s[i] == '/'
}

/// The position of the last `/`, or `-1` when there is none.
pub open spec fn last_slash_idx(s: Seq<char>) -> int
    decreases s.len(),
{
    if s.len() == 0 {
        -1
    } else if s[s.len() - 1] == '/' {
        s.len() - 1
    } else {
        last_slash_idx(s.drop_last())
    }
}

/// The parent directory of a path, as text: everything before the last
/// `/`, with a leading `/` kept on its own.  Paths are plain text here;
/// no normalization is applied.
pub open spec fn parent_of(s: Seq<char>) -> Seq<char> {
    let i = last_slash_idx(s);
    if i < 0 {
        Seq::empty()
    } else if i == 0 {
        seq!['/']
    } else {
        s.take(i)
    }
}

/// A slash with nothing after it is the last one.
proof fn lemma_last_slash_at(s: Seq<char>, i: int)
    requires
        0 <= i < s.len(),
        s[i] == '/',
        forall|k: int| i < k < s.len() ==> s[k] != '/',
    ensures
        last_slash_idx(s) == i,
    decreases s.len(),
{
    if i == s.len() - 1 {
    } else {
        assert(s[s.len() - 1] != '/');
        assert forall|k: int| i < k < s.drop_last().len() implies s.drop_last()[k] != '/' by {
            assert(s[k] != '/');
        }
        lemma_last_slash_at(s.drop_last(), i);
    }
}

/// The parent directory of an output path; the path must hold a `/`.
pub fn parent_dir(s: &str) -> (r: String)
    requires
        has_slash(s@),
    ensures
        r@ == parent_of(s@),
{
    let n = s.unicode_len();
    let mut j: usize = n;
    while j > 0
        invariant
            n == s@.len(),
            j <= n,
            forall|k: int| j <= k < n ==> s@[k] != '/',
        decreases j,
    {
        let c = s.get_char(j - 1);
        if c == '/' {
            proof {
                lemma_last_slash_at(s@, j - 1);
            }
            if j - 1 == 0 {
                proof {
                    reveal_strlit("/");
                    assert("/"@ =~= seq!['/']);
                }
                return String::from_str("/");
            } else {
                let piece = s.substring_char(0, j - 1);
                proof {
                    assert(piece@ =~= s@.take(j - 1));
                }
                return piece.to_owned();
            }
        }
        j = j - 1;
    }
    proof {
        let w = choose|w: int| 0 <= w < s@.len() && s@[w] == '/';
        assert(s@[w] != '/');
    }
    unreached()
}

/// The name with every `-` replaced by `_`.
pub fn to_underscore_name(s: &str) -> (r: String)
    ensures
        r@ == underscore_name(s@),
{
    let mut out = String::new();
    let n = s.unicode_len();
    let mut i: usize = 0;
    while i < n
        invariant
            n == s@.len(),
            i <= n,
            out@ == underscore_name(s@.take(i as int)),
        decreases n - i,
    {
        append_underscore_char(&mut out, s, i);
        proof {
            assert(underscore_name(s@.take(i + 1)) =~= underscore_name(s@.take(i as int))
                + seq![underscore_char(s@[i as int])]);
        }
        i = i + 1;
    }
    proof {
        assert(s@.take(n as int) =~= s@);
    }
    out
}

/// The name as an environment variable fragment: `-` replaced by `_`,
/// ASCII letters upper-cased.
pub fn to_env_name(s: &str) -> (r: String)
    ensures
        r@ == env_name(s@),
{
    let mut out = String::new();
    let n = s.unicode_len();
    let mut i: usize = 0;
    while i < n
        invariant
            n == s@.len(),
            i <= n,
            out@ == env_name(s@.take(i as int)),
        decreases n - i,
    {
        append_env_char(&mut out, s, i);
        proof {
            assert(env_name(s@.take(i + 1)) =~= env_name(s@.take(i as int))
                + seq![env_char(s@[i as int])]);
        }
        i = i + 1;
    }
    proof {
        assert(s@.take(n as int) =~= s@);
    }
    out
}

} // verus!
