//! The source gates: no runtime source file carries an IEEE type name in its code, and none
//! names the weights' files or their folder. A line's code is what stands before its first
//! `//`. The needles are built from bytes, so they never appear whole in this file either.

use vstd::prelude::*;
use vstd::string::StringSliceAdditionalSpecFns;

verus! {

/// A `//` starts at byte q.
pub open spec fn slashes_at(t: Seq<u8>, q: int) -> bool {
    0 <= q && q + 1 < t.len() && t[q] == 47 && t[q + 1] == 47
}

/// The needle sits at byte j, wholly in code: no `//` starts inside it or on its last byte.
pub open spec fn needle_in_code_at(t: Seq<u8>, nd: Seq<u8>, j: int) -> bool {
    &&& 0 <= j
    &&& j + nd.len() <= t.len()
    &&& t.subrange(j, j + nd.len()) == nd
    &&& forall|q: int| j <= q < j + nd.len() ==> !#[trigger] slashes_at(t, q)
}

/// Some needle sits at byte j, wholly in code.
pub open spec fn any_needle_at(t: Seq<u8>, needles: Seq<Seq<u8>>, j: int) -> bool {
    exists|k: int| 0 <= k < needles.len() && #[trigger] needle_in_code_at(t, needles[k], j)
}

/// Scanning from byte j on line `line`, with `comment` once the line's first `//` has passed:
/// the line of the first needle found in code.
pub open spec fn first_hit(t: Seq<u8>, needles: Seq<Seq<u8>>, j: int, line: nat, comment: bool) -> Option<nat>
    decreases t.len() - j,
{
    if j < 0 || j >= t.len() {
        None
    } else if t[j] == 10 {
        first_hit(t, needles, j + 1, line + 1, false)
    } else {
        let c = comment || slashes_at(t, j);
        if !c && any_needle_at(t, needles, j) {
            Some(line)
        } else {
            first_hit(t, needles, j + 1, line, c)
        }
    }
}

/// The first file, and in it the first line, whose code holds a needle.
pub open spec fn first_file_hit(files: Seq<Seq<u8>>, needles: Seq<Seq<u8>>, f: int) -> Option<(usize, usize)>
    decreases files.len() - f,
{
    if f < 0 || f >= files.len() {
        None
    } else {
        match first_hit(files[f], needles, 0, 0, false) {
            Some(line) => Some((f as usize, line as usize)),
            None => first_file_hit(files, needles, f + 1),
        }
    }
}

fn needle_in_code(t: &[u8], nd: &[u8], j: usize) -> (r: bool)
    ensures
        r == needle_in_code_at(t@, nd@, j as int),
{
    if j > t.len() || nd.len() > t.len() - j {
        return false;
    }
    let mut q: usize = 0;
    while q < nd.len()
        invariant
            0 <= q <= nd.len(),
            j + nd.len() <= t.len(),
            forall|x: int| 0 <= x < q ==> t@[j + x] == nd@[x],
            forall|y: int| j <= y < j + q ==> !#[trigger] slashes_at(t@, y),
        decreases nd.len() - q,
    {
        if t[j + q] != nd[q] {
            proof {
                assert(t@.subrange(j as int, j + nd.len())[q as int] != nd@[q as int]);
            }
            return false;
        }
        if j + q + 1 < t.len() && t[j + q] == 47 && t[j + q + 1] == 47 {
            proof {
                assert(slashes_at(t@, (j + q) as int));
            }
            return false;
        }
        proof {
            assert(!slashes_at(t@, (j + q) as int));
        }
        q += 1;
    }
    proof {
        assert(t@.subrange(j as int, j + nd.len()) =~= nd@);
    }
    true
}

fn any_needle(t: &[u8], needles: &Vec<Vec<u8>>, j: usize) -> (r: bool)
    ensures
        r == any_needle_at(t@, needles@.map_values(|v: Vec<u8>| v@), j as int),
{
    let ghost ns = needles@.map_values(|v: Vec<u8>| v@);
    let mut k: usize = 0;
    while k < needles.len()
        invariant
            0 <= k <= needles.len(),
            ns == needles@.map_values(|v: Vec<u8>| v@),
            forall|x: int| 0 <= x < k ==> !needle_in_code_at(t@, #[trigger] ns[x], j as int),
        decreases needles.len() - k,
    {
        if needle_in_code(t, needles[k].as_slice(), j) {
            proof {
                assert(needle_in_code_at(t@, ns[k as int], j as int));
            }
            return true;
        }
        k += 1;
    }
    false
}

/// The line of the first needle in the code of one file.
fn scan_file(t: &[u8], needles: &Vec<Vec<u8>>) -> (r: Option<usize>)
    requires
        t.len() < usize::MAX,
    ensures
        r matches Some(l) ==> first_hit(t@, needles@.map_values(|v: Vec<u8>| v@), 0, 0, false) == Some(l as nat),
        r is None ==> first_hit(t@, needles@.map_values(|v: Vec<u8>| v@), 0, 0, false) is None,
{
    let ghost ns = needles@.map_values(|v: Vec<u8>| v@);
    let mut j: usize = 0;
    let mut line: usize = 0;
    let mut comment = false;
    while j < t.len()
        invariant
            0 <= j <= t.len(),
            line <= j,
            t.len() < usize::MAX,
            ns == needles@.map_values(|v: Vec<u8>| v@),
            first_hit(t@, ns, 0, 0, false) == first_hit(t@, ns, j as int, line as nat, comment),
        decreases t.len() - j,
    {
        if t[j] == 10 {
            line += 1;
            comment = false;
        } else {
            let c = comment || (j + 1 < t.len() && t[j] == 47 && t[j + 1] == 47);
            proof {
                assert(c == (comment || slashes_at(t@, j as int)));
            }
            if !c && any_needle(t, needles, j) {
                return Some(line);
            }
            comment = c;
        }
        j += 1;
    }
    None
}

/// Scan every file for the needles: the first (file, line) whose code holds one.
fn first_offender(files: &[&str], needles: &Vec<Vec<u8>>) -> (r: Option<(usize, usize)>)
    requires
        forall|f: int| 0 <= f < files.len() ==> (#[trigger] files[f]).spec_bytes().len() < usize::MAX,
    ensures
        r == first_file_hit(
            files@.map_values(|s: &str| s.spec_bytes()),
            needles@.map_values(|v: Vec<u8>| v@),
            0,
        ),
{
    let ghost fs = files@.map_values(|s: &str| s.spec_bytes());
    let ghost ns = needles@.map_values(|v: Vec<u8>| v@);
    let mut f: usize = 0;
    while f < files.len()
        invariant
            0 <= f <= files.len(),
            fs == files@.map_values(|s: &str| s.spec_bytes()),
            ns == needles@.map_values(|v: Vec<u8>| v@),
            forall|q: int| 0 <= q < files.len() ==> (#[trigger] files[q]).spec_bytes().len() < usize::MAX,
            first_file_hit(fs, ns, 0) == first_file_hit(fs, ns, f as int),
        decreases files.len() - f,
    {
        let t = files[f].as_bytes();
        proof {
            assert(fs[f as int] == t@);
        }
        match scan_file(t, needles) {
            Some(line) => {
                return Some((f, line));
            },
            None => {},
        }
        f += 1;
    }
    None
}

/// Gate 1: the first (file, line) of the given sources whose code carries an IEEE type name
/// (the 32- or 64-bit float type names); `None` when every file is float-free.
pub fn source_float_free(files: &[&str]) -> (r: Option<(usize, usize)>)
    requires
        forall|f: int| 0 <= f < files.len() ==> (#[trigger] files[f]).spec_bytes().len() < usize::MAX,
    ensures
        r == first_file_hit(
            files@.map_values(|s: &str| s.spec_bytes()),
            seq![seq![102u8, 51u8, 50u8], seq![102u8, 54u8, 52u8]],
            0,
        ),
{
    let f: u8 = 102;
    let mut needles: Vec<Vec<u8>> = Vec::new();
    needles.push(vec![f, 51, 50]);
    needles.push(vec![f, 54, 52]);
    proof {
        assert(needles@.map_values(|v: Vec<u8>| v@) =~= seq![seq![102u8, 51u8, 50u8], seq![102u8, 54u8, 52u8]]);
    }
    first_offender(files, &needles)
}

/// Gate 8: the first (file, line) of the given sources whose code names the weights' files
/// (`safetensors`) or their folder (`models/`); `None` when no file does.
pub fn source_never_names_the_weights(files: &[&str]) -> (r: Option<(usize, usize)>)
    requires
        forall|f: int| 0 <= f < files.len() ==> (#[trigger] files[f]).spec_bytes().len() < usize::MAX,
    ensures
        r == first_file_hit(
            files@.map_values(|s: &str| s.spec_bytes()),
            seq![
                seq![115u8, 97u8, 102u8, 101u8, 116u8, 101u8, 110u8, 115u8, 111u8, 114u8, 115u8],
                seq![109u8, 111u8, 100u8, 101u8, 108u8, 115u8, 47u8],
            ],
            0,
        ),
{
    let mut needles: Vec<Vec<u8>> = Vec::new();
    needles.push(vec![115, 97, 102, 101, 116, 101, 110, 115, 111, 114, 115]);
    needles.push(vec![109, 111, 100, 101, 108, 115, 47]);
    proof {
        assert(needles@.map_values(|v: Vec<u8>| v@) =~= seq![
            seq![115u8, 97u8, 102u8, 101u8, 116u8, 101u8, 110u8, 115u8, 111u8, 114u8, 115u8],
            seq![109u8, 111u8, 100u8, 101u8, 108u8, 115u8, 47u8],
        ]);
    }
    first_offender(files, &needles)
}

} // verus!
