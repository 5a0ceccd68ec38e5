//! The `diff` command of source control: which version a name refers to,
//! the arguments of an external diff tool, and the built-in patch.

use crate::text::{chars_of, push_char, text_eq};
use vstd::prelude::*;

verus! {

/// The version of a file that a diff compares against.
#[derive(Clone, Debug, PartialEq, Eq)]
pub enum ReferenceVersion {
    /// The commit the workspace is based on.
    Base,
    /// The head of the workspace's branch.
    Latest,
    /// The commit with this id.
    Commit(String),
}

/// What a reference version name refers to: `base` and `latest` are
/// keywords, any other name is a commit id.
pub fn reference_version(name: &String) -> (r: ReferenceVersion)
    ensures
        name@ == "base"@ ==> r == ReferenceVersion::Base,
        name@ == "latest"@ ==> r == ReferenceVersion::Latest,
        name@ != "base"@ && name@ != "latest"@ ==> (r matches ReferenceVersion::Commit(id) && id@ == name@),
{
    proof {
        reveal_strlit("base");
        reveal_strlit("latest");
        assert("latest"@.len() != "base"@.len());
    }
    if text_eq(name, "base") {
        ReferenceVersion::Base
    } else if text_eq(name, "latest") {
        ReferenceVersion::Latest
    } else {
        ReferenceVersion::Commit(name.clone())
    }
}

/// `s` with every occurrence of `pat`, found from left to right without
/// overlap, replaced by `rep`.
pub open spec fn replace_all(s: Seq<char>, pat: Seq<char>, rep: Seq<char>) -> Seq<char>
    decreases s.len(),
{
    if pat.len() == 0 || s.len() < pat.len() {
        s
    } else if s.take(pat.len() as int) == pat {
        rep + replace_all(s.skip(pat.len() as int), pat, rep)
    } else {
        seq![s[0]] + replace_all(s.drop_first(), pat, rep)
    }
}

fn matches_at(s: &Vec<char>, i: usize, pat: &Vec<char>) -> (r: bool)
    requires
        i + pat@.len() <= s@.len(),
    ensures
        r == (s@.subrange(i as int, i + pat@.len()) == pat@),
{
    let n = s.len();
    let mut k: usize = 0;
    while k < pat.len()
        invariant
            n == s@.len(),
            k <= pat@.len(),
            i + pat@.len() <= s@.len(),
            forall|j: int| 0 <= j < k ==> s@[i + j] == pat@[j],
        decreases pat@.len() - k,
    {
        if s[i + k] != pat[k] {
            proof {
                assert(s@.subrange(i as int, i + pat@.len())[k as int] != pat@[k as int]);
            }
            return false;
        }
        k = k + 1;
    }
    proof {
        assert(s@.subrange(i as int, i + pat@.len()) =~= pat@);
    }
    true
}

proof fn lemma_replace_step(s: Seq<char>, i: int, pat: Seq<char>, rep: Seq<char>)
    requires
        pat.len() > 0,
        0 <= i <= s.len(),
    ensures
        s.skip(i).len() >= pat.len() && s.skip(i).take(pat.len() as int) == pat ==> replace_all(s.skip(i), pat, rep)
            == rep + replace_all(s.skip(i + pat.len()), pat, rep),
        s.skip(i).len() >= pat.len() && s.skip(i).take(pat.len() as int) != pat ==> replace_all(s.skip(i), pat, rep)
            == seq![s[i]] + replace_all(s.skip(i + 1), pat, rep),
        s.skip(i).len() < pat.len() ==> replace_all(s.skip(i), pat, rep) == s.skip(i),
{
    let t = s.skip(i);
    if t.len() >= pat.len() {
        assert(t.skip(pat.len() as int) =~= s.skip(i + pat.len()));
        assert(t.drop_first() =~= s.skip(i + 1));
    }
}

/// Replaces every occurrence of `pat` in `s` by `rep`, as `str::replace`.
fn replace_text(s: &String, pat: &String, rep: &String) -> (r: String)
    requires
        pat@.len() > 0,
    ensures
        r@ == replace_all(s@, pat@, rep@),
{
    let cs = chars_of(s);
    let ps = chars_of(pat);
    let mut out = String::new();
    let mut i: usize = 0;
    proof {
        assert(cs@.skip(0) =~= cs@);
    }
    while i < cs.len()
        invariant
            i <= cs@.len(),
            cs@ == s@,
            ps@ == pat@,
            pat@.len() > 0,
            out@ + replace_all(cs@.skip(i as int), pat@, rep@) == replace_all(s@, pat@, rep@),
        decreases cs@.len() - i,
    {
        proof {
            lemma_replace_step(cs@, i as int, pat@, rep@);
        }
        if ps.len() <= cs.len() - i && matches_at(&cs, i, &ps) {
            proof {
                assert(cs@.skip(i as int).take(pat@.len() as int) =~= cs@.subrange(i as int, i + pat@.len()));
            }
            let ghost before = out@;
            out.append(rep.as_str());
            proof {
                assert(out@ + replace_all(cs@.skip(i + pat@.len()), pat@, rep@) =~= before + (rep@
                    + replace_all(cs@.skip(i + pat@.len()), pat@, rep@)));
            }
            i = i + ps.len();
        } else {
            proof {
                if ps.len() <= cs.len() - i {
                    assert(cs@.skip(i as int).take(pat@.len() as int) =~= cs@.subrange(i as int, i + pat@.len()));
                }
            }
            let ghost before = out@;
            if ps.len() <= cs.len() - i {
                push_char(&mut out, cs[i]);
                proof {
                    assert(out@ + replace_all(cs@.skip(i + 1), pat@, rep@) =~= before + (seq![cs@[i as int]]
                        + replace_all(cs@.skip(i + 1), pat@, rep@)));
                }
                i = i + 1;
            } else {
                let mut k = i;
                while k < cs.len()
                    invariant
                        i <= k <= cs@.len(),
                        out@ == before + cs@.subrange(i as int, k as int),
                    decreases cs@.len() - k,
                {
                    push_char(&mut out, cs[k]);
                    proof {
                        assert(cs@.subrange(i as int, k + 1) =~= cs@.subrange(i as int, k as int).push(cs@[k as int]));
                    }
                    k = k + 1;
                }
                proof {
                    assert(cs@.subrange(i as int, cs@.len() as int) =~= cs@.skip(i as int));
                    assert(cs@.skip(cs@.len() as int) =~= Seq::<char>::empty());
                    assert(replace_all(Seq::<char>::empty(), pat@, rep@) == Seq::<char>::empty());
                    assert(out@ + replace_all(cs@.skip(k as int), pat@, rep@) =~= out@);
                }
                i = k;
            }
        }
    }
    proof {
        assert(cs@.skip(i as int) =~= Seq::<char>::empty());
        assert(out@ + Seq::<char>::empty() =~= out@);
    }
    out
}

/// The command line of an external diff tool: in each argument, `%ref`
/// becomes the path of the reference version and then `%local` the path of
/// the local file.
pub fn external_diff_command(command: &Vec<String>, ref_path: &String, local_path: &String) -> (r: Vec<String>)
    ensures
        r@.len() == command@.len(),
        forall|i: int|
            0 <= i < command@.len() ==> (#[trigger] r@[i])@ == replace_all(
                replace_all(command@[i]@, "%ref"@, ref_path@),
                "%local"@,
                local_path@,
            ),
{
    let ref_pat = String::from_str("%ref");
    let local_pat = String::from_str("%local");
    proof {
        reveal_strlit("%ref");
        reveal_strlit("%local");
    }
    let mut r: Vec<String> = Vec::new();
    let mut i: usize = 0;
    while i < command.len()
        invariant
            i <= command@.len(),
            r@.len() == i,
            ref_pat@ == "%ref"@,
            local_pat@ == "%local"@,
            ref_pat@.len() > 0,
            local_pat@.len() > 0,
            forall|k: int|
                0 <= k < i ==> (#[trigger] r@[k])@ == replace_all(
                    replace_all(command@[k]@, "%ref"@, ref_path@),
                    "%local"@,
                    local_path@,
                ),
        decreases command@.len() - i,
    {
        let with_ref = replace_text(&command[i], &ref_pat, ref_path);
        let item = replace_text(&with_ref, &local_pat, local_path);
        r.push(item);
        i = i + 1;
    }
    r
}

/// The unified diff that `diffy::create_patch` writes from `original` to
/// `modified`.
pub uninterp spec fn diffy_patch_text(original: Seq<char>, modified: Seq<char>) -> Seq<char>;

/// Calls `diffy::create_patch` and prints the patch; the text depends on the
/// two versions alone.
#[verifier::external_body]
fn create_patch_text(original: &str, modified: &str) -> (r: String)
    ensures
        r@ == diffy_patch_text(original@, modified@),
{
    diffy::create_patch(original, modified).to_string()
}

/// The patch printed by the built-in diff: from the reference version of
/// the file to its local version.
pub fn file_patch(reference: &String, local: &String) -> (r: String)
    ensures
        r@ == diffy_patch_text(reference@, local@),
{
    create_patch_text(reference.as_str(), local.as_str())
}

/// How a diff is shown.
#[derive(Clone, Copy, Debug, PartialEq, Eq, Structural)]
pub enum DiffTool {
    /// The patch printed by the built-in diff.
    Builtin,
    /// The external diff command configured for the file.
    External,
}

/// The external command is used only where tools are allowed and one is
/// configured for the file.
pub fn diff_tool(allow_tools: bool, external_configured: bool) -> (r: DiffTool)
    ensures
        r == if allow_tools && external_configured {
            DiffTool::External
        } else {
            DiffTool::Builtin
        },
{
    if allow_tools && external_configured {
        DiffTool::External
    } else {
        DiffTool::Builtin
    }
}

} // verus!
