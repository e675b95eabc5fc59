//! Decomposing a path string into components and listing its ancestors.
//!
//! A path splits into components: a root for an absolute path, a leading
//! current-directory marker when the path starts with one, and every
//! maximal run of non-separator characters other than `"."`. The
//! expansion of a path lists the path rebuilt up to each component index
//! past the skip count, shallowest first.

use vstd::prelude::*;
use vstd::string::StrSliceExecFns;
use vstd::string::StringExecFns;

verus! {

/// The index just past the run of non-separator characters that starts
/// at position `i` of `p` (or `i` itself at a separator or past the end).
pub open spec fn seg_end(p: Seq<char>, i: int) -> int
    decreases p.len() - i when i <= p.len()
{
    if i < 0 || i >= p.len() {
        i
    } else if p[i] == '/' {
        i
    } else {
        seg_end(p, i + 1)
    }
}

/// `seg_end` stays within the string, moves right, passes only
/// non-separator characters, and stops at a separator or the end.
pub proof fn lemma_seg_end(p: Seq<char>, i: int)
    requires
        0 <= i <= p.len(),
    ensures
        i <= seg_end(p, i) <= p.len(),
        forall|k: int| i <= k < seg_end(p, i) ==> p[k] != '/',
        seg_end(p, i) == p.len() || p[seg_end(p, i)] == '/',
    decreases p.len() - i,
{
    if i < p.len() && p[i] != '/' {
        lemma_seg_end(p, i + 1);
    }
}

/// The named components of `p` from position `i` on: the maximal runs of
/// non-separator characters, in order, with `"."` runs dropped.
pub open spec fn named_from(p: Seq<char>, i: int) -> Seq<Seq<char>>
    decreases p.len() - i when i <= p.len()
    via named_from_decreases
{
    if i < 0 || i >= p.len() {
        Seq::empty()
    } else if p[i] == '/' {
        named_from(p, i + 1)
    } else {
        let seg = p.subrange(i, seg_end(p, i));
        let rest = named_from(p, seg_end(p, i));
        if seg == seq!['.'] {
            rest
        } else {
            seq![seg] + rest
        }
    }
}

#[via_fn]
proof fn named_from_decreases(p: Seq<char>, i: int) {
    if 0 <= i < p.len() && p[i] != '/' {
        lemma_seg_end(p, i);
    }
}

/// The leading component of `p`: the root for an absolute path, the
/// current-directory marker when `p` starts with one, nothing otherwise.
pub open spec fn head_component(p: Seq<char>) -> Seq<Seq<char>> {
    if p.len() > 0 && p[0] == '/' {
        seq![seq!['/']]
    } else if p.len() > 0 && p[0] == '.' && (p.len() == 1 || p[1] == '/') {
        seq![seq!['.']]
    } else {
        Seq::empty()
    }
}

/// Every component of the path `p`, in order.
pub open spec fn path_components(p: Seq<char>) -> Seq<Seq<char>> {
    head_component(p) + named_from(p, 0)
}

/// The path string rebuilt from the components of `comps` up to and
/// including index `j`: the components joined by a separator, except
/// that nothing is inserted after the bare root.
pub open spec fn joined_prefix(comps: Seq<Seq<char>>, j: int) -> Seq<char>
    decreases j,
{
    if j <= 0 {
        comps[0]
    } else if joined_prefix(comps, j - 1) == seq!['/'] {
        joined_prefix(comps, j - 1) + comps[j]
    } else {
        joined_prefix(comps, j - 1) + seq!['/'] + comps[j]
    }
}

/// The ancestors of `p` past the first `skip + 1` components: one entry
/// per component index from `skip + 1` on, each the path rebuilt up to
/// that index, shallowest first.
pub open spec fn expansion(p: Seq<char>, skip: int) -> Seq<Seq<char>> {
    let comps = path_components(p);
    if comps.len() > skip + 1 {
        Seq::new((comps.len() - skip - 1) as nat, |k: int| joined_prefix(comps, skip + 1 + k))
    } else {
        Seq::empty()
    }
}

/// For every path and every skip count below the number of components,
/// the expansion holds exactly `component count - skip - 1` entries.
pub proof fn lemma_expansion_len(p: Seq<char>, skip: int)
    requires
        0 <= skip < path_components(p).len(),
    ensures
        expansion(p, skip).len() == path_components(p).len() - skip - 1,
{
}

/// The components of `filename`, each as its own string.
pub fn components_of(filename: &str) -> (comps: Vec<String>)
    ensures
        comps@.map_values(|c: String| c@) == path_components(filename@),
{
    let ghost p = filename@;
    let n = filename.unicode_len();
    let mut comps: Vec<String> = Vec::new();
    if n > 0 {
        let c0 = filename.get_char(0);
        if c0 == '/' {
            let root = String::from_str("/");
            proof {
                reveal_strlit("/");
                assert(root@ =~= seq!['/']);
            }
            comps.push(root);
        } else if c0 == '.' && (n == 1 || filename.get_char(1) == '/') {
            let dot = String::from_str(".");
            proof {
                reveal_strlit(".");
                assert(dot@ =~= seq!['.']);
            }
            comps.push(dot);
        }
    }
    proof {
        assert(comps@.map_values(|c: String| c@) =~= head_component(p));
    }
    let mut i: usize = 0;
    while i < n
        invariant
            p == filename@,
            n == p.len(),
            0 <= i <= n,
            comps@.map_values(|c: String| c@) + named_from(p, i as int) =~= path_components(p),
        decreases n - i,
    {
        let c = filename.get_char(i);
        if c == '/' {
            i = i + 1;
        } else {
            let start = i;
            i = i + 1;
            while i < n && filename.get_char(i) != '/'
                invariant
                    p == filename@,
                    n == p.len(),
                    start < i <= n,
                    seg_end(p, start as int) == seg_end(p, i as int),
                decreases n - i,
            {
                i = i + 1;
            }
            proof {
                assert(seg_end(p, i as int) == i as int);
            }
            let seg = filename.substring_char(start, i);
            if i - start == 1 && c == '.' {
                proof {
                    assert(p.subrange(start as int, i as int) =~= seq!['.']);
                }
            } else {
                let owned = seg.to_owned();
                proof {
                    assert(p.subrange(start as int, i as int) != seq!['.']) by {
                        let sv = p.subrange(start as int, i as int);
                        if sv == seq!['.'] {
                            assert(sv.len() == seq!['.'].len());
                            assert(i - start == 1);
                            assert(sv[0] == seq!['.'][0]);
                            assert(p[start as int] == '.');
                            assert(false);
                        }
                    }
                    assert(comps@.push(owned).map_values(|c: String| c@) =~= comps@.map_values(
                        |c: String| c@,
                    ).push(owned@));
                }
                comps.push(owned);
            }
        }
    }
    comps
}

/// Every ancestor of `filename` past the first `skip + 1` components,
/// shallowest first.
pub fn parents_of_filename(filename: &str, skip: usize) -> (result: Vec<String>)
    ensures
        result@.map_values(|s: String| s@) == expansion(filename@, skip as int),
{
    let ghost p = filename@;
    let comps = components_of(filename);
    let ghost cviews = comps@.map_values(|c: String| c@);
    let mut result: Vec<String> = Vec::new();
    if comps.len() == 0 {
        proof {
            assert(result@.map_values(|s: String| s@) =~= expansion(p, skip as int));
        }
        return result;
    }
    let mut path: String = comps[0].clone();
    let mut j: usize = 1;
    while j < comps.len()
        invariant
            cviews == comps@.map_values(|c: String| c@),
            1 <= j <= comps.len(),
            path@ == joined_prefix(cviews, j - 1),
            result@.map_values(|s: String| s@) =~= expansion(p, skip as int).take(
                if j - 1 > skip as int {
                    j - 1 - skip as int
                } else {
                    0
                },
            ),
            cviews == path_components(p),
        decreases comps.len() - j,
    {
        let base_is_root = path.as_str().unicode_len() == 1 && path.as_str().get_char(0) == '/';
        proof {
            reveal_strlit("/");
            assert(base_is_root <==> path@ =~= seq!['/']);
        }
        if !base_is_root {
            path.append("/");
        }
        path.append(comps[j].as_str());
        proof {
            if base_is_root {
                assert(path@ == joined_prefix(cviews, j as int));
            } else {
                assert(joined_prefix(cviews, j - 1) + seq!['/'] + cviews[j as int] == path@);
            }
        }
        if j > skip {
            let entry = path.clone();
            proof {
                let newcount = j - skip as int;
                assert(expansion(p, skip as int).len() >= newcount);
                assert(expansion(p, skip as int)[newcount - 1] == joined_prefix(
                    cviews,
                    skip as int + 1 + (newcount - 1),
                ));
                assert(result@.push(entry).map_values(|s: String| s@) =~= result@.map_values(
                    |s: String| s@,
                ).push(entry@));
                assert(result@.map_values(|s: String| s@).push(entry@) =~= expansion(
                    p,
                    skip as int,
                ).take(newcount));
            }
            result.push(entry);
        }
        j = j + 1;
    }
    proof {
        let total = comps.len() as int;
        if total - 1 > skip as int {
            assert(expansion(p, skip as int).len() == total - 1 - skip as int);
        }
        assert(result@.map_values(|s: String| s@) =~= expansion(p, skip as int));
    }
    result
}

/// The expansion entries of all of `paths`, concatenated in input order.
pub open spec fn all_expanded(paths: Seq<Seq<char>>, skip: int) -> Seq<Seq<char>>
    decreases paths.len(),
{
    if paths.len() == 0 {
        Seq::empty()
    } else {
        all_expanded(paths.drop_last(), skip) + expansion(paths.last(), skip)
    }
}

/// The lines joined by a single newline between adjacent lines.
pub open spec fn joined_lines(lines: Seq<Seq<char>>) -> Seq<char>
    decreases lines.len(),
{
    if lines.len() == 0 {
        Seq::empty()
    } else if lines.len() == 1 {
        lines[0]
    } else {
        joined_lines(lines.drop_last()) + seq!['\n'] + lines.last()
    }
}

/// Every ancestor line of every path, in input order, joined by newlines.
pub fn ancestor_lines(paths: &Vec<String>, skip: usize) -> (out: String)
    ensures
        out@ == joined_lines(all_expanded(paths@.map_values(|s: String| s@), skip as int)),
{
    let ghost views = paths@.map_values(|s: String| s@);
    let mut out = String::new();
    let mut first = true;
    let mut idx: usize = 0;
    while idx < paths.len()
        invariant
            views == paths@.map_values(|s: String| s@),
            0 <= idx <= paths.len(),
            out@ == joined_lines(all_expanded(views.take(idx as int), skip as int)),
            first <==> all_expanded(views.take(idx as int), skip as int).len() == 0,
        decreases paths.len() - idx,
    {
        let entries = parents_of_filename(paths[idx].as_str(), skip);
        proof {
            assert(views[idx as int] == paths@[idx as int]@);
        }
        let ghost evs = entries@.map_values(|s: String| s@);
        let ghost sofar = all_expanded(views.take(idx as int), skip as int);
        let mut q: usize = 0;
        while q < entries.len()
            invariant
                evs == entries@.map_values(|s: String| s@),
                0 <= q <= entries.len(),
                out@ == joined_lines(sofar + evs.take(q as int)),
                first <==> (sofar + evs.take(q as int)).len() == 0,
            decreases entries.len() - q,
        {
            let ghost cur = sofar + evs.take(q as int);
            let ghost line = evs[q as int];
            if !first {
                out.append("\n");
                proof {
                    reveal_strlit("\n");
                    assert("\n"@ =~= seq!['\n']);
                }
            }
            out.append(entries[q].as_str());
            proof {
                assert(entries@[q as int]@ == line);
                assert(cur.push(line).drop_last() =~= cur);
                assert(cur.push(line) =~= sofar + evs.take(q + 1));
                if cur.len() == 0 {
                    assert(joined_lines(cur.push(line)) == line);
                } else {
                    assert(joined_lines(cur.push(line)) == joined_lines(cur) + seq!['\n'] + line);
                }
            }
            first = false;
            q = q + 1;
        }
        proof {
            let next = views.take(idx + 1);
            assert(next.drop_last() =~= views.take(idx as int));
            assert(next.last() == views[idx as int]);
            assert(evs.take(entries@.len() as int) =~= evs);
            assert(sofar + evs == all_expanded(next, skip as int));
        }
        idx = idx + 1;
    }
    proof {
        assert(views.take(paths@.len() as int) =~= views);
    }
    out
}

} // verus!
